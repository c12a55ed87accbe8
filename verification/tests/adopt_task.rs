//! The adoption task, driven with a simulated adapter.

use pocketstream_network::adopt_task::{AdoptTask, TaskAction, TaskEvent};
use pocketstream_network::adoptions::Adoptions;
use pocketstream_network::arp::ArpDevice;
use pocketstream_network::auto_adopt::PendingIps;
use pocketstream_network::device_registry::DeviceRegistry;
use pocketstream_network::discovery::AdoptOutcome;
use pocketstream_network::interface::IpInfo;
use pocketstream_network::net::{Ipv4Addr, Ipv4Network};
use pocketstream_network::session::{get_interface_ips, refresh_local};
use pocketstream_network::textmap::{TextMap, TextSet};
use pocketstream_network::time::{Duration, Instant};

const WALL: &str = "2026-07-16T12:00:00+00:00";

fn ip(s: &str) -> Ipv4Addr {
    Ipv4Addr::parse(s).unwrap()
}

/// A host with one adapter.
struct Sim {
    task: Option<AdoptTask>,
    adoptions: Adoptions,
    pending: PendingIps,
    devices: TextMap<ArpDevice>,
    registry: DeviceRegistry,
    seconds: u64,
    shutdown: bool,
    adapter: Vec<String>,
    dhcp: Option<bool>,
    ghosts: Vec<Ipv4Network>,
    pins: Vec<String>,
    unbinds: bool,
    outcome: AdoptOutcome,
    log: Vec<String>,
}

impl Sim {
    fn new() -> Self {
        let adapter = vec!["192.168.1.10".to_string()];
        Self {
            task: Some(AdoptTask::new("eth", &infos(&adapter), Instant { nanos: 0 })),
            adoptions: Adoptions::new(),
            pending: PendingIps::new(),
            devices: TextMap::new(),
            registry: DeviceRegistry::new(),
            seconds: 0,
            shutdown: false,
            adapter,
            dhcp: Some(false),
            ghosts: Vec::new(),
            pins: Vec::new(),
            unbinds: true,
            outcome: AdoptOutcome::Nothing,
            log: Vec::new(),
        }
    }

    fn hear(&mut self, mac: &str, addr: &str, last_seen: &str) {
        self.devices.insert(
            mac.into(),
            ArpDevice {
                mac: mac.into(),
                ip: addr.into(),
                subnet: String::new(),
                first_seen: "t0".into(),
                last_seen: last_seen.into(),
            },
        );
    }

    /// Runs one tick; says whether the task goes on.
    fn tick(&mut self, after_seconds: u64) -> bool {
        self.seconds += after_seconds;
        self.log.clear();
        let mut event = TaskEvent::Tick;
        loop {
            let task = self.task.take().unwrap();
            let (task, action) = task.step(
                event,
                &mut self.adoptions,
                &mut self.pending,
                &self.devices,
                &self.registry,
                self.shutdown,
                Instant { nanos: 0 }.after(Duration::from_secs(self.seconds)),
                WALL,
                7,
            );
            self.task = Some(task);
            event = match action {
                TaskAction::Wait => return true,
                TaskAction::Stop => return false,
                TaskAction::Proceed => TaskEvent::Next,
                TaskAction::ReadVetoes => {
                    let mut pins = TextSet::new();
                    for p in &self.pins {
                        pins.insert(p.clone());
                    }
                    TaskEvent::Vetoes {
                        pins,
                        ips: infos(&self.adapter),
                    }
                }
                TaskAction::Unbind { ip } => {
                    self.log.push(format!("unbind {}", ip.text()));
                    if self.unbinds {
                        self.adapter.retain(|a| *a != ip.text());
                    }
                    TaskEvent::Unbound(self.unbinds)
                }
                TaskAction::Forgotten { subnet, .. } => {
                    self.log.push(format!("forgotten {}", subnet));
                    TaskEvent::Next
                }
                TaskAction::ReadDhcp => {
                    self.log.push("dhcp".into());
                    TaskEvent::Dhcp(self.dhcp)
                }
                TaskAction::ReadAddresses => {
                    TaskEvent::Addresses(get_interface_ips(&infos(&self.adapter)))
                }
                TaskAction::ReadNetworks => {
                    self.log.push("networks".into());
                    TaskEvent::Networks(self.ghosts.clone())
                }
                TaskAction::Adopt {
                    device_ip,
                    adoption_id,
                    ..
                } => {
                    assert_eq!(adoption_id, 7);
                    self.log.push(format!("adopt {}", device_ip.text()));
                    if let AdoptOutcome::Adopted(ip) = self.outcome {
                        self.pending.pending_insert("eth", ip, adoption_id);
                    }
                    TaskEvent::Ended(self.outcome)
                }
                TaskAction::RollBack { subnet, retry_in, .. } => {
                    self.log.push(format!("roll back {} {}", subnet, retry_in));
                    TaskEvent::Next
                }
                TaskAction::RollBackAndStop { .. } => {
                    self.log.push("roll back and stop".into());
                    return false;
                }
                TaskAction::Announce { subnet, ip } => {
                    self.log.push(format!("adopted {} {}", subnet, ip.text()));
                    TaskEvent::Next
                }
            };
        }
    }
}

fn infos(list: &[String]) -> Vec<IpInfo> {
    list.iter()
        .map(|a| IpInfo {
            address: a.clone(),
            prefix: 24,
            subnet: String::new(),
        })
        .collect()
}

#[test]
fn a_foreign_subnet_is_adopted_at_the_second_observation() {
    let mut s = Sim::new();
    s.outcome = AdoptOutcome::Adopted(ip("10.8.0.100"));
    s.hear("m1", "10.8.0.5", "t1");
    s.hear("m2", "192.168.1.77", "t1");
    assert!(s.tick(2));
    assert_eq!(s.log, vec!["dhcp", "networks"]);
    assert!(s.tick(2));
    assert!(s.log.is_empty());
    s.hear("m1", "10.8.0.5", "t2");
    assert!(s.tick(2));
    assert_eq!(s.log, vec!["adopt 10.8.0.5", "adopted 10.8.0.0/24 10.8.0.100"]);
    assert_eq!(s.adoptions.adopted.get("10.8.0.0/24"), Some(&ip("10.8.0.100")));
    assert!(s.pending.list.is_empty());
    // The subnet is known now.
    s.hear("m1", "10.8.0.5", "t3");
    assert!(s.tick(2));
    assert_eq!(s.log, vec!["dhcp"]);
}

#[test]
fn a_lease_pauses_adoption_but_not_removal() {
    let mut s = Sim::new();
    s.dhcp = Some(true);
    s.outcome = AdoptOutcome::Adopted(ip("10.8.0.100"));
    s.adapter.push("169.254.168.102".into());
    s.adoptions.note_restored("169.254.168.0/24", ip("169.254.168.102"), true);
    s.hear("m1", "10.8.0.5", "t1");
    assert!(s.tick(2));
    s.hear("m1", "10.8.0.5", "t2");
    // Ten minutes without a device on the link-local subnet.
    assert!(s.tick(600));
    assert_eq!(
        s.log,
        vec!["unbind 169.254.168.102", "forgotten 169.254.168.0/24", "dhcp"]
    );
    assert!(s.adoptions.adopted.is_empty());
    // Without a lease adoption is the only way out, and goes on.
    s.adapter = vec!["169.254.3.4".into()];
    assert!(s.tick(2));
    assert_eq!(s.log, vec!["networks"]);
    s.hear("m1", "10.8.0.5", "t3");
    assert!(s.tick(2));
    assert_eq!(s.log, vec!["adopt 10.8.0.5", "adopted 10.8.0.0/24 10.8.0.100"]);
}

#[test]
fn pins_and_guards_hold_a_stale_adoption() {
    let mut s = Sim::new();
    s.adapter.push("169.254.168.102".into());
    s.adoptions.note_restored("169.254.168.0/24", ip("169.254.168.102"), true);
    s.pins.push("169.254.168.7".into());
    assert!(s.tick(700));
    assert!(!s.log.iter().any(|l| l.starts_with("unbind")));
    s.pins.clear();
    // The only address stays.
    s.adapter = vec!["169.254.168.102".into()];
    assert!(s.tick(2));
    assert!(!s.log.iter().any(|l| l.starts_with("unbind")));
    // An address that could not be unbound is tried again after a minute.
    s.adapter = vec!["192.168.1.10".into(), "169.254.168.102".into()];
    s.unbinds = false;
    assert!(s.tick(60));
    assert!(s.log.contains(&"unbind 169.254.168.102".to_string()));
    assert!(s.adoptions.adopted.contains_key("169.254.168.0/24"));
    assert!(s.tick(59));
    assert!(!s.log.iter().any(|l| l.starts_with("unbind")));
}

#[test]
fn a_ghost_is_not_adopted() {
    let mut s = Sim::new();
    s.ghosts.push(Ipv4Network::parse("10.8.0.0/16").unwrap());
    s.hear("m1", "10.8.0.5", "t1");
    assert!(s.tick(2));
    s.hear("m1", "10.8.0.5", "t2");
    assert!(s.tick(2));
    assert!(s.log.is_empty());
}

#[test]
fn a_failed_adoption_is_rolled_back_and_tried_again_later() {
    let mut s = Sim::new();
    s.outcome = AdoptOutcome::Failed;
    s.hear("m1", "10.8.0.5", "t1");
    assert!(s.tick(2));
    s.hear("m1", "10.8.0.5", "t2");
    assert!(s.tick(2));
    assert_eq!(s.log, vec!["adopt 10.8.0.5", "roll back 10.8.0.0/24 60"]);
    s.hear("m1", "10.8.0.5", "t3");
    assert!(s.tick(59));
    s.hear("m1", "10.8.0.5", "t4");
    assert!(s.tick(2));
    assert!(!s.log.iter().any(|l| l.starts_with("adopt")));
    s.hear("m1", "10.8.0.5", "t5");
    assert!(s.tick(2));
    assert!(s.log.contains(&"roll back 10.8.0.0/24 120".to_string()));
}

#[test]
fn a_stop_ends_the_task() {
    let mut s = Sim::new();
    s.outcome = AdoptOutcome::Nothing;
    s.hear("m1", "10.8.0.5", "t1");
    assert!(s.tick(2));
    s.shutdown = true;
    assert!(!s.tick(2));
    assert!(s.log.is_empty());
}

#[test]
fn an_empty_reading_keeps_the_last_addresses() {
    let mut local = vec![ip("10.0.0.1")];
    refresh_local(&mut local, vec![]);
    assert_eq!(local, vec![ip("10.0.0.1")]);
    refresh_local(&mut local, vec![ip("10.0.0.2")]);
    assert_eq!(local, vec![ip("10.0.0.2")]);
}
