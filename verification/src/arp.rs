//! Devices heard on the wire.

use crate::ghost;
use crate::net;
use crate::net::{Ipv4Addr, Ipv4Network};
use crate::pktmon;
use crate::pktmon::StreamDataDescriptor;
use crate::text;
use crate::time::Instant;
use vstd::prelude::*;

verus! {

/// A device that sent ARP.
#[derive(Debug)]
pub struct ArpDevice {
    pub mac: String,
    pub ip: String,
    pub subnet: String,
    pub first_seen: String,
    pub last_seen: String,
}

/// A device that sent ARP, as text.
#[verifier::ext_equal]
pub struct ArpView {
    pub mac: Seq<char>,
    pub ip: Seq<char>,
    pub subnet: Seq<char>,
    pub first_seen: Seq<char>,
    pub last_seen: Seq<char>,
}

impl View for ArpDevice {
    type V = ArpView;

    open spec fn view(&self) -> ArpView {
        ArpView {
            mac: self.mac@,
            ip: self.ip@,
            subnet: self.subnet@,
            first_seen: self.first_seen@,
            last_seen: self.last_seen@,
        }
    }
}

impl Clone for ArpDevice {
    fn clone(&self) -> (r: ArpDevice)
        ensures
            r == *self,
    {
        ArpDevice {
            mac: self.mac.clone(),
            ip: self.ip.clone(),
            subnet: self.subnet.clone(),
            first_seen: self.first_seen.clone(),
            last_seen: self.last_seen.clone(),
        }
    }
}

/// Counts of what the capture delivered and what was dropped.
#[derive(Clone, Copy, Debug)]
pub struct ArpCounters {
    frames_seen: u64,
    missed_max: u64,
    tasks_dropped: u64,
    noneth_dropped: u64,
    self_ip_dropped: u64,
}

/// The counts as numbers.
pub struct Counts {
    pub frames_seen: u64,
    pub missed_max: u64,
    pub tasks_dropped: u64,
    pub noneth_dropped: u64,
    pub self_ip_dropped: u64,
}

impl View for ArpCounters {
    type V = Counts;

    closed spec fn view(&self) -> Counts {
        Counts {
            frames_seen: self.frames_seen,
            missed_max: self.missed_max,
            tasks_dropped: self.tasks_dropped,
            noneth_dropped: self.noneth_dropped,
            self_ip_dropped: self.self_ip_dropped,
        }
    }
}

/// One more, starting over after the largest number.
pub open spec fn plus_one(n: u64) -> u64 {
    if n == u64::MAX {
        0
    } else {
        (n + 1) as u64
    }
}

impl ArpCounters {
    /// All counts at zero.
    pub fn new() -> (r: ArpCounters)
        ensures
            r@ == (Counts {
                frames_seen: 0,
                missed_max: 0,
                tasks_dropped: 0,
                noneth_dropped: 0,
                self_ip_dropped: 0,
            }),
    {
        ArpCounters {
            frames_seen: 0,
            missed_max: 0,
            tasks_dropped: 0,
            noneth_dropped: 0,
            self_ip_dropped: 0,
        }
    }

    /// Counts a frame that reached the device list.
    pub fn note_frame(&mut self)
        ensures
            final(self)@ == (Counts {
                frames_seen: plus_one(old(self)@.frames_seen),
                ..old(self)@
            }),
    {
        self.frames_seen = self.frames_seen.wrapping_add(1);
    }

    /// Counts a frame that was dropped because too many are being worked on.
    pub fn note_task_dropped(&mut self)
        ensures
            final(self)@ == (Counts {
                tasks_dropped: plus_one(old(self)@.tasks_dropped),
                ..old(self)@
            }),
    {
        self.tasks_dropped = self.tasks_dropped.wrapping_add(1);
    }
}

/// Frames dropped because too many were being worked on.
pub fn tasks_dropped(c: &ArpCounters) -> (r: u64)
    ensures
        r == c@.tasks_dropped,
{
    c.tasks_dropped
}

/// Frames dropped because their sender is on a subnet off the wire.
pub fn noneth_dropped(c: &ArpCounters) -> (r: u64)
    ensures
        r == c@.noneth_dropped,
{
    c.noneth_dropped
}

/// Frames dropped because this host sent them.
pub fn self_ip_dropped(c: &ArpCounters) -> (r: u64)
    ensures
        r == c@.self_ip_dropped,
{
    c.self_ip_dropped
}

/// Frames that reached the device list.
pub fn frames_seen(c: &ArpCounters) -> (r: u64)
    ensures
        r == c@.frames_seen,
{
    c.frames_seen
}

/// The largest number of missed packets that the capture reported.
pub fn missed_max(c: &ArpCounters) -> (r: u64)
    ensures
        r == c@.missed_max,
{
    c.missed_max
}

/// How long a frame keeps its repeats out, in seconds.
pub const DEDUPE_TTL: u64 = 2;

/// How many frames are remembered at most.
pub const DEDUPE_CAP: usize = 256;

/// What makes two frames repeats of each other, and when the first one came.
#[derive(Clone, Copy)]
struct SeenFrame {
    op: u16,
    mac: [u8; 6],
    ip: Ipv4Addr,
    at: Instant,
}

/// A remembered frame: operation, sender MAC, sender address, time.
#[verifier::ext_equal]
pub struct Seen {
    pub op: u16,
    pub mac: Seq<u8>,
    pub ip: Ipv4Addr,
    pub at: Instant,
}

impl View for SeenFrame {
    type V = Seen;

    closed spec fn view(&self) -> Seen {
        Seen { op: self.op, mac: self.mac@, ip: self.ip, at: self.at }
    }
}

/// The frames that came a moment ago. The capture reports each frame several times.
pub struct DedupeLru {
    seen: Vec<SeenFrame>,
}

impl View for DedupeLru {
    type V = Seq<Seen>;

    closed spec fn view(&self) -> Seq<Seen> {
        text::views(self.seen@)
    }
}

/// Being recent enough to keep repeats out.
pub open spec fn is_recent(now: Instant) -> spec_fn(Seen) -> bool {
    |e: Seen| !now.since_spec(e.at).reaches_spec(DEDUPE_TTL)
}

/// Whether the frame is remembered.
pub open spec fn remembered(s: Seq<Seen>, op: u16, mac: Seq<u8>, ip: Ipv4Addr) -> bool {
    exists|i: int|
        0 <= i < s.len() && (#[trigger] s[i]).op == op && s[i].mac == mac && s[i].ip == ip
}

/// What is remembered after a frame came: the recent frames, and this one unless it is
/// a repeat; all others go where there would be too many.
pub open spec fn after_frame(s: Seq<Seen>, e: Seen) -> Seq<Seen> {
    let live = s.filter(is_recent(e.at));
    if remembered(live, e.op, e.mac, e.ip) {
        live
    } else if live.len() >= DEDUPE_CAP {
        seq![e]
    } else {
        live.push(e)
    }
}

impl DedupeLru {
    #[verifier::type_invariant]
    spec fn valid(self) -> bool {
        self@.len() <= DEDUPE_CAP
    }

    pub fn new() -> (r: DedupeLru)
        ensures
            r@ == Seq::<Seen>::empty(),
    {
        let r = DedupeLru { seen: Vec::new() };
        assert(r@ =~= Seq::<Seen>::empty());
        r
    }

    /// How many frames are remembered, which is never above the cap.
    pub fn len(&self) -> (r: usize)
        ensures
            r == self@.len(),
            r <= DEDUPE_CAP,
    {
        proof {
            use_type_invariant(self);
        }
        self.seen.len()
    }

    /// Takes a frame; says whether it is new, not a repeat of a recent one.
    pub fn accepts(&mut self, op: u16, mac: [u8; 6], ip: Ipv4Addr, now: Instant) -> (r: bool)
        ensures
            r == !remembered(old(self)@.filter(is_recent(now)), op, mac@, ip),
            final(self)@ == after_frame(old(self)@, Seen { op, mac: mac@, ip, at: now }),
    {
        proof {
            use_type_invariant(&*self);
        }
        let ghost all = self@;
        let ghost keep = is_recent(now);
        let mut live: Vec<SeenFrame> = Vec::new();
        let mut known = false;
        let mut i: usize = 0;
        assert(text::views(live@) =~= all.take(0).filter(keep)) by {
            assert(all.take(0) =~= Seq::empty());
            reveal(Seq::filter);
        }
        while i < self.seen.len()
            invariant
                i <= self.seen.len(),
                all == self@,
                keep == is_recent(now),
                text::views(live@) == all.take(i as int).filter(keep),
                live.len() <= i,
                known == remembered(text::views(live@), op, mac@, ip),
            decreases self.seen.len() - i,
        {
            let x = self.seen[i];
            let ghost before = text::views(live@);
            proof {
                assert(all[i as int] == x@);
                all.lemma_take_succ_push(i as int);
                all.take(i as int).lemma_filter_push(all[i as int], keep);
                text::lemma_views_push(live@, x);
            }
            if !now.since(x.at).reaches(DEDUPE_TTL) {
                let hit = x.op == op && x.ip == ip && pktmon::same_mac(&x.mac, &mac);
                live.push(x);
                proof {
                    let after = text::views(live@);
                    assert(after == before.push(x@));
                    if hit {
                        assert(after[before.len() as int].op == op);
                    }
                    if known {
                        let k = choose|k: int|
                            0 <= k < before.len() && (#[trigger] before[k]).op == op
                                && before[k].mac == mac@ && before[k].ip == ip;
                        assert(after[k].op == op);
                    }
                    if remembered(after, op, mac@, ip) && !known {
                        let k = choose|k: int|
                            0 <= k < after.len() && (#[trigger] after[k]).op == op && after[k].mac
                                == mac@ && after[k].ip == ip;
                        if k < before.len() {
                            assert(before[k].op == op);
                        }
                    }
                }
                if hit {
                    known = true;
                }
            }
            i += 1;
        }
        assert(all.take(i as int) =~= all);
        if known {
            self.seen = live;
            return false;
        }
        if live.len() >= DEDUPE_CAP {
            live = Vec::new();
        }
        let e = SeenFrame { op, mac, ip, at: now };
        let ghost rest = text::views(live@);
        proof {
            text::lemma_views_push(live@, e);
        }
        live.push(e);
        proof {
            let target = after_frame(all, e@);
            if all.filter(keep).len() >= DEDUPE_CAP {
                assert(text::views(live@) =~= seq![e@]);
            }
        }
        self.seen = live;
        true
    }
}

/// A frame keeps its repeats out for two seconds, and lets them in after that.
pub proof fn law_repeat_is_kept_out(s: Seq<Seen>, e: Seen, later: Instant)
    requires
        !remembered(s.filter(is_recent(e.at)), e.op, e.mac, e.ip),
    ensures
        remembered(after_frame(s, e).filter(is_recent(later)), e.op, e.mac, e.ip)
            <==> !later.since_spec(e.at).reaches_spec(DEDUPE_TTL),
{
    let t = after_frame(s, e);
    let live = s.filter(is_recent(e.at));
    let keep = is_recent(later);
    let f = t.filter(keep);
    let last = t.len() - 1;
    assert(t[last] == e);
    if keep(e) {
        t.lemma_filter_contains(keep, last);
        assert(f.contains(e));
        let k = f.index_of(e);
        assert(f[k].op == e.op);
    } else {
        if remembered(f, e.op, e.mac, e.ip) {
            let k = choose|k: int|
                0 <= k < f.len() && (#[trigger] f[k]).op == e.op && f[k].mac == e.mac && f[k].ip
                    == e.ip;
            t.lemma_filter_pred(keep, k);
            assert(f.contains(f[k]));
            t.lemma_filter_contains_rev(keep, f[k]);
            let m = t.index_of(f[k]);
            assert(t[m] == f[k]);
            if m == last {
                assert(keep(e));
            } else {
                assert(live[m] == t[m]);
                assert(remembered(live, e.op, e.mac, e.ip));
            }
        }
    }
}

/// What to make of the sender of a frame.
#[derive(Clone, Copy, Debug, PartialEq, Eq, Structural)]
pub enum SenderVerdict {
    Accept,
    /// It is on a subnet of an adapter off the wire.
    DropNonWiredSubnet,
    /// It has an address of this host.
    DropSelfIp,
    /// It has the wired adapter's own MAC.
    DropOwnMac,
}

/// What to make of a sender: a subnet off the wire comes first, then an address of the
/// host, then the adapter's own MAC.
pub open spec fn sender_verdict(
    ip: Ipv4Addr,
    mac: Seq<u8>,
    own_mac: Option<Seq<u8>>,
    local_ips: Seq<Ipv4Addr>,
    excluded: Seq<Ipv4Network>,
) -> SenderVerdict {
    if ghost::ghost_ip(ip, excluded) {
        SenderVerdict::DropNonWiredSubnet
    } else if local_ips.contains(ip) {
        SenderVerdict::DropSelfIp
    } else if own_mac == Some(mac) {
        SenderVerdict::DropOwnMac
    } else {
        SenderVerdict::Accept
    }
}

/// What to make of the sender of a frame. Where a list is empty it turns nobody away.
pub fn classify_sender(
    ip: Ipv4Addr,
    mac: [u8; 6],
    own_mac: Option<[u8; 6]>,
    local_ips: &Vec<Ipv4Addr>,
    excluded: &Vec<Ipv4Network>,
) -> (r: SenderVerdict)
    ensures
        r == sender_verdict(ip, mac@, pktmon::mac_view(own_mac), local_ips@, excluded@),
{
    if ghost::is_structural_ghost_ip(ip, excluded) {
        return SenderVerdict::DropNonWiredSubnet;
    }
    if net::holds(local_ips, ip) {
        return SenderVerdict::DropSelfIp;
    }
    let own = match &own_mac {
        Some(m) => pktmon::same_mac(m, &mac),
        None => false,
    };
    if own {
        return SenderVerdict::DropOwnMac;
    }
    SenderVerdict::Accept
}

/// No packet buffer is larger than this.
pub const MAX_DESCRIPTOR_BYTES: u32 = 64 * 1024;

/// Whether the size of a packet buffer can be true.
pub open spec fn plausible_size(data_size: u32) -> bool {
    0 < data_size <= MAX_DESCRIPTOR_BYTES
}

/// Whether the size of a packet buffer can be true.
pub fn data_size_ok(data_size: u32) -> (r: bool)
    ensures
        r == plausible_size(data_size),
{
    data_size != 0 && data_size <= MAX_DESCRIPTOR_BYTES
}

/// The range of a packet in its buffer; nothing if it is empty or does not fit.
pub fn checked_packet_range(blob_len: usize, packet_offset: usize, packet_length: usize) -> (r:
    Option<(usize, usize)>)
    ensures
        r == if packet_length > 0 && packet_offset + packet_length <= blob_len {
            Some((packet_offset, (packet_offset + packet_length) as usize))
        } else {
            None
        },
{
    if packet_length == 0 {
        return None;
    }
    match packet_offset.checked_add(packet_length) {
        Some(end) => if end > blob_len {
            None
        } else {
            Some((packet_offset, end))
        },
        None => None,
    }
}

/// A big-endian number of two bytes.
pub open spec fn big_endian2(hi: u8, lo: u8) -> u16 {
    (hi * 256 + lo) as u16
}

/// The sender of an ARP message for Ethernet and IPv4: operation, MAC, address. A
/// broadcast MAC is no sender.
pub open spec fn arp_sender(s: Seq<u8>) -> Option<(u16, Seq<u8>, Ipv4Addr)> {
    if s.len() >= 28 && s[0] == 0 && s[1] == 1 && s[2] == 8 && s[3] == 0 && s[4] == 6 && s[5] == 4
        && s.subrange(8, 14) != seq![0xffu8, 0xffu8, 0xffu8, 0xffu8, 0xffu8, 0xffu8] {
        Some(
            (
                big_endian2(s[6], s[7]),
                s.subrange(8, 14),
                Ipv4Addr { a: s[14], b: s[15], c: s[16], d: s[17] },
            ),
        )
    } else {
        None
    }
}

/// Whether a frame is Ethernet II and carries ARP.
pub open spec fn is_arp_frame(s: Seq<u8>) -> bool {
    s.len() >= 42 && s[12] == 0x08 && s[13] == 0x06
}

/// The sender of an ARP frame; with packet type 7 also that of a bare ARP message.
pub open spec fn frame_sender(s: Seq<u8>, packet_type: u16) -> Option<(u16, Seq<u8>, Ipv4Addr)> {
    if is_arp_frame(s) {
        arp_sender(s.skip(14))
    } else if packet_type == 7 {
        arp_sender(s)
    } else {
        None
    }
}

/// The view of a sender.
pub open spec fn sender_view(r: Option<(u16, [u8; 6], Ipv4Addr)>) -> Option<
    (u16, Seq<u8>, Ipv4Addr),
> {
    match r {
        Some((op, mac, ip)) => Some((op, mac@, ip)),
        None => None,
    }
}

/// Reads the ARP message that starts at `at`.
fn parse_arp_header(s: &[u8], at: usize) -> (r: Option<(u16, [u8; 6], Ipv4Addr)>)
    requires
        at <= s@.len(),
    ensures
        sender_view(r) == arp_sender(s@.skip(at as int)),
{
    let ghost t = s@.skip(at as int);
    let n: usize = s.len();
    if n - at < 28 {
        return None;
    }
    if s[at] != 0 || s[at + 1] != 1 || s[at + 2] != 8 || s[at + 3] != 0 || s[at + 4] != 6 || s[at
        + 5] != 4 {
        return None;
    }
    let op: u16 = s[at + 6] as u16 * 256 + s[at + 7] as u16;
    let mac: [u8; 6] = [s[at + 8], s[at + 9], s[at + 10], s[at + 11], s[at + 12], s[at + 13]];
    let ip = Ipv4Addr::new(s[at + 14], s[at + 15], s[at + 16], s[at + 17]);
    let broadcast = mac[0] == 0xff && mac[1] == 0xff && mac[2] == 0xff && mac[3] == 0xff && mac[4]
        == 0xff && mac[5] == 0xff;
    proof {
        assert(mac@ =~= t.subrange(8, 14));
        if broadcast {
            assert(mac@ =~= seq![0xffu8, 0xffu8, 0xffu8, 0xffu8, 0xffu8, 0xffu8]);
        }
    }
    if broadcast {
        return None;
    }
    Some((op, mac, ip))
}

/// Reads the sender of an Ethernet II frame that carries ARP.
pub fn parse_arp_packet(data: &[u8]) -> (r: Option<(Ipv4Addr, [u8; 6])>)
    ensures
        match r {
            Some((ip, mac)) => is_arp_frame(data@) && (arp_sender(data@.skip(14)) matches Some(
                (_, m, i),
            ) && i == ip && m == mac@),
            None => !is_arp_frame(data@) || arp_sender(data@.skip(14)) is None,
        },
{
    let n: usize = data.len();
    if n < 42 || data[12] != 0x08 || data[13] != 0x06 {
        return None;
    }
    match parse_arp_header(data, 14) {
        Some((_, mac, ip)) => Some((ip, mac)),
        None => None,
    }
}

/// Reads the sender of a captured frame: operation, MAC, address.
pub fn extract_arp(frame: &[u8], packet_type: u16) -> (r: Option<(u16, [u8; 6], Ipv4Addr)>)
    ensures
        sender_view(r) == frame_sender(frame@, packet_type),
{
    let n: usize = frame.len();
    if n >= 42 && frame[12] == 0x08 && frame[13] == 0x06 {
        return parse_arp_header(frame, 14);
    }
    if packet_type == 7 {
        assert(frame@.skip(0) =~= frame@);
        return parse_arp_header(frame, 0);
    }
    None
}

/// A MAC in lower-case hexadecimal with colons.
pub open spec fn mac_text(m: Seq<u8>) -> Seq<char> {
    text::low_hex2(m[0]) + seq![':'] + text::low_hex2(m[1]) + seq![':'] + text::low_hex2(m[2])
        + seq![':'] + text::low_hex2(m[3]) + seq![':'] + text::low_hex2(m[4]) + seq![':']
        + text::low_hex2(m[5])
}

/// A MAC in lower-case hexadecimal with colons.
pub fn format_mac(mac: &[u8; 6]) -> (r: String)
    ensures
        r@ == mac_text(mac@),
{
    let mut r = String::new();
    text::push_low_hex2(&mut r, mac[0]);
    r.push(':');
    text::push_low_hex2(&mut r, mac[1]);
    r.push(':');
    text::push_low_hex2(&mut r, mac[2]);
    r.push(':');
    text::push_low_hex2(&mut r, mac[3]);
    r.push(':');
    text::push_low_hex2(&mut r, mac[4]);
    r.push(':');
    text::push_low_hex2(&mut r, mac[5]);
    assert(r@ =~= mac_text(mac@));
    r
}

/// The sender that a packet names: its buffer is of a size that can be true, the packet
/// lies in it, and holds ARP from an address other than 0.0.0.0. The packet type is that
/// of the metadata, 0 if they do not fit.
pub open spec fn packet_sender(desc: StreamDataDescriptor, blob: Seq<u8>) -> Option<
    (u16, Seq<u8>, Ipv4Addr),
> {
    let po = desc.packet_offset as int;
    let end = po + desc.packet_length;
    if plausible_size(desc.data_size) && desc.packet_length > 0 && end <= blob.len() {
        match frame_sender(blob.subrange(po, end), packet_type_of(desc, blob)) {
            Some((op, mac, ip)) => if ip.num() == 0 {
                None
            } else {
                Some((op, mac, ip))
            },
            None => None,
        }
    } else {
        None
    }
}

/// The packet type of a packet, 0 if its metadata does not fit.
pub open spec fn packet_type_of(desc: StreamDataDescriptor, blob: Seq<u8>) -> u16 {
    if desc.metadata_offset + pktmon::METADATA_SIZE <= blob.len() {
        pktmon::metadata_at(blob, desc.metadata_offset as int).packet_type
    } else {
        0
    }
}

/// The counts after a packet with that verdict.
pub open spec fn counts_after(
    c: Counts,
    desc: StreamDataDescriptor,
    verdict: Option<SenderVerdict>,
) -> Counts {
    let missed = if desc.missed_packet_write_count >= desc.missed_packet_read_count {
        desc.missed_packet_write_count as u64
    } else {
        desc.missed_packet_read_count as u64
    };
    let c2 = if plausible_size(desc.data_size) && missed > c.missed_max {
        Counts { missed_max: missed, ..c }
    } else {
        c
    };
    match verdict {
        Some(SenderVerdict::DropNonWiredSubnet) => Counts {
            noneth_dropped: plus_one(c2.noneth_dropped),
            ..c2
        },
        Some(SenderVerdict::DropSelfIp) => Counts {
            self_ip_dropped: plus_one(c2.self_ip_dropped),
            ..c2
        },
        _ => c2,
    }
}

/// The capture of one discovery session.
pub struct ArpCapture {
    pub own_mac: Option<[u8; 6]>,
    /// Subnets of adapters off the wire.
    pub excluded: Vec<Ipv4Network>,
    pub dedupe: DedupeLru,
}

impl ArpCapture {
    pub fn new(own_mac: Option<[u8; 6]>, excluded: Vec<Ipv4Network>) -> (r: ArpCapture)
        ensures
            r.own_mac == own_mac,
            r.excluded == excluded,
            r.dedupe@ == Seq::<Seen>::empty(),
    {
        ArpCapture { own_mac, excluded, dedupe: DedupeLru::new() }
    }

    /// The verdict on a packet's sender, if it names one.
    pub open spec fn verdict(
        self,
        desc: StreamDataDescriptor,
        blob: Seq<u8>,
        local_ips: Seq<Ipv4Addr>,
    ) -> Option<SenderVerdict> {
        match packet_sender(desc, blob) {
            Some((op, mac, ip)) => Some(
                sender_verdict(
                    ip,
                    mac,
                    pktmon::mac_view(self.own_mac),
                    local_ips,
                    self.excluded@,
                ),
            ),
            None => None,
        }
    }

    /// Takes a captured packet. Gives its sender if the packet is ARP from a peer on
    /// the wire, is no repeat of a recent one, and belongs to the current session.
    pub fn on_packet(
        &mut self,
        desc: &StreamDataDescriptor,
        blob: &[u8],
        local_ips: &Vec<Ipv4Addr>,
        stale: bool,
        now: Instant,
        counters: &mut ArpCounters,
    ) -> (r: Option<(Ipv4Addr, [u8; 6])>)
        ensures
            final(self).own_mac == old(self).own_mac,
            final(self).excluded == old(self).excluded,
            final(counters)@ == counts_after(
                old(counters)@,
                *desc,
                old(self).verdict(*desc, blob@, local_ips@),
            ),
            old(self).verdict(*desc, blob@, local_ips@) != Some(SenderVerdict::Accept) ==> r is None
                && final(self).dedupe@ == old(self).dedupe@,
            old(self).verdict(*desc, blob@, local_ips@) == Some(SenderVerdict::Accept) ==> {
                let (op, mac, ip) = packet_sender(*desc, blob@)->0;
                let fresh = !remembered(
                    old(self).dedupe@.filter(is_recent(now)),
                    op,
                    mac,
                    ip,
                );
                &&& final(self).dedupe@ == after_frame(
                    old(self).dedupe@,
                    Seen { op, mac, ip, at: now },
                )
                &&& match r {
                    Some((i, m)) => fresh && !stale && i == ip && m@ == mac,
                    None => !fresh || stale,
                }
            },
    {
        if !data_size_ok(desc.data_size) {
            return None;
        }
        let missed: u64 = if desc.missed_packet_write_count >= desc.missed_packet_read_count {
            desc.missed_packet_write_count as u64
        } else {
            desc.missed_packet_read_count as u64
        };
        if missed > counters.missed_max {
            counters.missed_max = missed;
        }
        let packet_type: u16 = match pktmon::read_metadata(blob, desc.metadata_offset as usize) {
            Some(m) => m.packet_type,
            None => 0,
        };
        let n: usize = blob.len();
        let (start, end) = match checked_packet_range(
            n,
            desc.packet_offset as usize,
            desc.packet_length as usize,
        ) {
            Some(range) => range,
            None => {
                return None;
            },
        };
        let frame = vstd::slice::slice_subrange(blob, start, end);
        let (op, mac, ip) = match extract_arp(frame, packet_type) {
            Some(sender) => sender,
            None => {
                return None;
            },
        };
        if ip == Ipv4Addr::new(0, 0, 0, 0) {
            return None;
        }
        proof {
            if ip.num() == 0 {
                net::law_num_injective(ip, Ipv4Addr { a: 0, b: 0, c: 0, d: 0 });
            }
        }
        match classify_sender(ip, mac, self.own_mac, local_ips, &self.excluded) {
            SenderVerdict::Accept => {},
            SenderVerdict::DropNonWiredSubnet => {
                counters.noneth_dropped = counters.noneth_dropped.wrapping_add(1);
                return None;
            },
            SenderVerdict::DropSelfIp => {
                counters.self_ip_dropped = counters.self_ip_dropped.wrapping_add(1);
                return None;
            },
            SenderVerdict::DropOwnMac => {
                return None;
            },
        }
        if !self.dedupe.accepts(op, mac, ip, now) {
            return None;
        }
        if stale {
            return None;
        }
        Some((ip, mac))
    }
}

/// Whether a frame that was let through is worked on: only where a task slot was free. A
/// frame that finds none is dropped, and counted.
pub fn start_task(slot_free: bool, counters: &mut ArpCounters) -> (r: bool)
    ensures
        r == slot_free,
        final(counters)@ == (Counts {
            tasks_dropped: if slot_free {
                old(counters)@.tasks_dropped
            } else {
                plus_one(old(counters)@.tasks_dropped)
            },
            ..old(counters)@
        }),
{
    if !slot_free {
        counters.note_task_dropped();
    }
    slot_free
}

/// The host never lists itself, nor a peer off the wire: a packet from an address of
/// the host, from the adapter itself, or from an excluded subnet gives no device.
pub proof fn law_host_never_lists_itself(
    capture: ArpCapture,
    desc: StreamDataDescriptor,
    blob: Seq<u8>,
    local_ips: Seq<Ipv4Addr>,
    op: u16,
    mac: Seq<u8>,
    ip: Ipv4Addr,
)
    requires
        packet_sender(desc, blob) == Some((op, mac, ip)),
        local_ips.contains(ip) || pktmon::mac_view(capture.own_mac) == Some(mac) || ghost::ghost_ip(
            ip,
            capture.excluded@,
        ),
    ensures
        capture.verdict(desc, blob, local_ips) != Some(SenderVerdict::Accept),
{
}

/// A sender is let in exactly when its address lies in no block off the wire, is none of
/// the host's own, and its MAC is not the adapter's. Nothing else about the address or
/// the MAC turns a sender away. Of several reasons to drop it the block counts first,
/// then the address.
pub proof fn law_who_is_let_in(
    ip: Ipv4Addr,
    mac: Seq<u8>,
    own_mac: Option<Seq<u8>>,
    local_ips: Seq<Ipv4Addr>,
    excluded: Seq<Ipv4Network>,
)
    ensures
        ({
            let off_wire = exists|i: int| 0 <= i < excluded.len() && (#[trigger] excluded[i]).has(ip);
            let own_ip = exists|i: int| 0 <= i < local_ips.len() && #[trigger] local_ips[i] == ip;
            let r = sender_verdict(ip, mac, own_mac, local_ips, excluded);
            &&& r == SenderVerdict::Accept <==> !off_wire && !own_ip && own_mac != Some(mac)
            &&& r == SenderVerdict::DropNonWiredSubnet <==> off_wire
            &&& r == SenderVerdict::DropSelfIp <==> !off_wire && own_ip
            &&& r == SenderVerdict::DropOwnMac <==> !off_wire && !own_ip && own_mac == Some(mac)
        }),
{
    if local_ips.contains(ip) {
        assert(local_ips[local_ips.index_of(ip)] == ip);
    }
}

/// Where nothing is known of the host and its other adapters, every sender is let in.
pub proof fn law_an_empty_list_turns_nobody_away(ip: Ipv4Addr, mac: Seq<u8>)
    ensures
        sender_verdict(ip, mac, None, Seq::empty(), Seq::empty()) == SenderVerdict::Accept,
{
    law_who_is_let_in(ip, mac, None, Seq::empty(), Seq::empty());
}

/// A packet that names a peer on the wire is let in: the counterpart of the host never
/// listing itself.
pub proof fn law_every_peer_on_the_wire_is_let_in(
    capture: ArpCapture,
    desc: StreamDataDescriptor,
    blob: Seq<u8>,
    local_ips: Seq<Ipv4Addr>,
    op: u16,
    mac: Seq<u8>,
    ip: Ipv4Addr,
)
    requires
        packet_sender(desc, blob) == Some((op, mac, ip)),
    ensures
        capture.verdict(desc, blob, local_ips) == Some(SenderVerdict::Accept) <==> {
            &&& forall|i: int|
                0 <= i < capture.excluded@.len() ==> !(#[trigger] capture.excluded@[i]).has(ip)
            &&& forall|i: int| 0 <= i < local_ips.len() ==> #[trigger] local_ips[i] != ip
            &&& capture.own_mac matches Some(m) ==> m@ != mac
        },
{
    law_who_is_let_in(
        ip,
        mac,
        pktmon::mac_view(capture.own_mac),
        local_ips,
        capture.excluded@,
    );
}

/// The sender of an ARP message is read back from it, whatever its target is: out of an
/// Ethernet frame with any addresses and padding, and out of the bare message where the
/// capture says that it is one. Only the broadcast MAC is no sender.
pub proof fn law_sender_is_read_back(
    ends: Seq<u8>,
    hi: u8,
    lo: u8,
    mac: Seq<u8>,
    ip: Ipv4Addr,
    target: Seq<u8>,
    padding: Seq<u8>,
    packet_type: u16,
)
    requires
        ends.len() == 12,
        mac.len() == 6,
        target.len() == 10,
    ensures
        ({
            let bare = seq![0u8, 1u8, 8u8, 0u8, 6u8, 4u8, hi, lo] + mac + seq![
                ip.a,
                ip.b,
                ip.c,
                ip.d,
            ] + target;
            let frame = ends + seq![0x08u8, 0x06u8] + bare + padding;
            let broadcast = forall|i: int| 0 <= i < 6 ==> #[trigger] mac[i] == 0xff;
            let sender = if broadcast {
                None
            } else {
                Some(((hi * 256 + lo) as u16, mac, ip))
            };
            &&& frame_sender(frame, packet_type) == sender
            &&& frame_sender(bare, 7) == sender
            &&& packet_type != 7 ==> frame_sender(bare, packet_type) is None
        }),
{
    let bare = seq![0u8, 1u8, 8u8, 0u8, 6u8, 4u8, hi, lo] + mac + seq![
                ip.a,
                ip.b,
                ip.c,
                ip.d,
            ] + target;
    let frame = ends + seq![0x08u8, 0x06u8] + bare + padding;
    let ff = seq![0xffu8, 0xffu8, 0xffu8, 0xffu8, 0xffu8, 0xffu8];
    assert(bare.len() == 28);
    assert(bare.subrange(8, 14) =~= mac);
    assert(frame.skip(14) =~= bare + padding);
    assert((bare + padding).subrange(8, 14) =~= mac);
    assert(frame[12] == 0x08 && frame[13] == 0x06);
    let s = bare + padding;
    assert(s[0] == 0 && s[1] == 1 && s[2] == 8 && s[3] == 0 && s[4] == 6 && s[5] == 4 && s[6] == hi
        && s[7] == lo);
    assert(s[14] == ip.a && s[15] == ip.b && s[16] == ip.c && s[17] == ip.d);
    assert(bare[0] == 0 && bare[1] == 1 && bare[2] == 8 && bare[3] == 0 && bare[4] == 6 && bare[5]
        == 4 && bare[6] == hi && bare[7] == lo);
    assert(bare[14] == ip.a && bare[15] == ip.b && bare[16] == ip.c && bare[17] == ip.d);
    if forall|i: int| 0 <= i < 6 ==> #[trigger] mac[i] == 0xff {
        assert(mac =~= ff);
    } else {
        let i = choose|i: int| 0 <= i < 6 && #[trigger] mac[i] != 0xff;
        assert(mac != ff) by {
            if mac == ff {
                assert(mac[i] == ff[i]);
            }
        }
    }
}

/// Whatever is taken for a sender stands at the start of an ARP message in the frame.
pub proof fn law_only_arp_names_a_sender(
    s: Seq<u8>,
    packet_type: u16,
    op: u16,
    mac: Seq<u8>,
    ip: Ipv4Addr,
)
    requires
        frame_sender(s, packet_type) == Some((op, mac, ip)),
    ensures
        ({
            let at: int = if s.len() >= 42 && s[12] == 0x08 && s[13] == 0x06 {
                14
            } else {
                0
            };
            &&& at == 0 ==> packet_type == 7
            &&& s.len() >= at + 28
            &&& s.subrange(at, at + 6) == seq![0u8, 1u8, 8u8, 0u8, 6u8, 4u8]
            &&& s.subrange(at + 8, at + 14) == mac
            &&& s.subrange(at + 14, at + 18) == seq![ip.a, ip.b, ip.c, ip.d]
            &&& op == s[at + 6] * 256 + s[at + 7]
            &&& mac.len() == 6
        }),
{
    let at: int = if s.len() >= 42 && s[12] == 0x08 && s[13] == 0x06 {
        14
    } else {
        0
    };
    let t = s.skip(at);
    assert(s.skip(0) =~= s);
    assert(t.len() >= 28);
    assert forall|i: int| 0 <= i < t.len() implies t[i] == s[at + i] by {}
    assert(s.subrange(at, at + 6) =~= seq![0u8, 1u8, 8u8, 0u8, 6u8, 4u8]);
    assert(s.subrange(at + 8, at + 14) =~= mac);
    assert(s.subrange(at + 14, at + 18) =~= seq![ip.a, ip.b, ip.c, ip.d]);
}

/// A packet counts where its buffer is of 1 to 65536 bytes and the packet lies inside it;
/// then it names the sender of its frame, unless that is 0.0.0.0. The rest of the buffer
/// plays no part but for the packet type.
pub proof fn law_packets_lie_in_their_buffer(
    desc: StreamDataDescriptor,
    blob: Seq<u8>,
    op: u16,
    mac: Seq<u8>,
    ip: Ipv4Addr,
)
    ensures
        packet_sender(desc, blob) == Some((op, mac, ip)) <==> {
            &&& 1 <= desc.data_size <= 65536
            &&& desc.packet_length >= 1
            &&& desc.packet_offset + desc.packet_length <= blob.len()
            &&& frame_sender(
                blob.subrange(
                    desc.packet_offset as int,
                    desc.packet_offset + desc.packet_length,
                ),
                packet_type_of(desc, blob),
            ) == Some((op, mac, ip))
            &&& ip != (Ipv4Addr { a: 0, b: 0, c: 0, d: 0 })
        },
{
    if ip.num() == 0 {
        net::law_num_injective(ip, Ipv4Addr { a: 0, b: 0, c: 0, d: 0 });
    }
}

/// The packet type stands in two bytes of the metadata, the low one first; where the
/// metadata does not fit it is zero.
pub proof fn law_packet_type_is_in_the_metadata(desc: StreamDataDescriptor, blob: Seq<u8>)
    ensures
        ({
            let at = desc.metadata_offset as int;
            packet_type_of(desc, blob) == if at + 40 <= blob.len() {
                blob[at + 14] + 256 * blob[at + 15]
            } else {
                0
            }
        }),
{
    reveal_with_fuel(crate::bytes::little_endian, 3);
}

/// Each packet raises one count at most: that of senders off the wire or that of the
/// host's own. Of the missed packets the largest number stays. Nothing else is counted.
pub proof fn law_what_a_packet_counts(
    c: Counts,
    desc: StreamDataDescriptor,
    verdict: Option<SenderVerdict>,
)
    ensures
        ({
            let d = counts_after(c, desc, verdict);
            let counts = 1 <= desc.data_size <= 65536;
            &&& d.frames_seen == c.frames_seen
            &&& d.tasks_dropped == c.tasks_dropped
            &&& d.noneth_dropped == if verdict == Some(SenderVerdict::DropNonWiredSubnet) {
                plus_one(c.noneth_dropped)
            } else {
                c.noneth_dropped
            }
            &&& d.self_ip_dropped == if verdict == Some(SenderVerdict::DropSelfIp) {
                plus_one(c.self_ip_dropped)
            } else {
                c.self_ip_dropped
            }
            &&& d.missed_max >= c.missed_max
            &&& counts ==> d.missed_max >= desc.missed_packet_write_count && d.missed_max
                >= desc.missed_packet_read_count
            &&& d.missed_max == c.missed_max || (counts && (d.missed_max
                == desc.missed_packet_write_count || d.missed_max
                == desc.missed_packet_read_count))
        }),
{
}

/// A count goes up by one each time, and starts over only after the largest number.
pub proof fn law_counts_go_up_by_one(n: u64)
    ensures
        n < u64::MAX ==> plus_one(n) == n + 1,
        n == u64::MAX ==> plus_one(n) == 0,
{
}

/// A frame is a repeat exactly when one with the same operation, MAC and address came
/// less than two seconds ago.
pub proof fn law_what_is_a_repeat(
    s: Seq<Seen>,
    op: u16,
    mac: Seq<u8>,
    ip: Ipv4Addr,
    now: Instant,
)
    ensures
        remembered(s.filter(is_recent(now)), op, mac, ip) <==> exists|i: int|
            0 <= i < s.len() && (#[trigger] s[i]).op == op && s[i].mac == mac && s[i].ip == ip
                && now.nanos < s[i].at.nanos + 2_000_000_000,
{
    let keep = is_recent(now);
    let f = s.filter(keep);
    if remembered(f, op, mac, ip) {
        let k = choose|k: int|
            0 <= k < f.len() && (#[trigger] f[k]).op == op && f[k].mac == mac && f[k].ip == ip;
        s.lemma_filter_pred(keep, k);
        assert(f.contains(f[k]));
        s.lemma_filter_contains_rev(keep, f[k]);
        let i = s.index_of(f[k]);
        assert(s[i].op == op);
    }
    if exists|i: int|
        0 <= i < s.len() && (#[trigger] s[i]).op == op && s[i].mac == mac && s[i].ip == ip
            && now.nanos < s[i].at.nanos + 2_000_000_000 {
        let i = choose|i: int|
            0 <= i < s.len() && (#[trigger] s[i]).op == op && s[i].mac == mac && s[i].ip == ip
                && now.nanos < s[i].at.nanos + 2_000_000_000;
        assert(keep(s[i]));
        s.lemma_filter_contains(keep, i);
        let k = f.index_of(s[i]);
        assert(f[k].op == op);
    }
}

/// Until 256 frames are recent, a new frame drives no recent one out; what is two seconds
/// old goes.
pub proof fn law_recent_frames_stay(s: Seq<Seen>, e: Seen, x: Seen)
    requires
        s.filter(is_recent(e.at)).len() < 256,
        x != e,
    ensures
        after_frame(s, e).contains(x) <==> s.contains(x) && e.at.nanos < x.at.nanos
            + 2_000_000_000,
{
    let keep = is_recent(e.at);
    let live = s.filter(keep);
    let t = after_frame(s, e);
    if live.contains(x) {
        let k = live.index_of(x);
        s.lemma_filter_pred(keep, k);
        s.lemma_filter_contains_rev(keep, x);
        assert(t[k] == x);
    }
    if t.contains(x) {
        let k = t.index_of(x);
        assert(live[k] == x);
    }
    if s.contains(x) && keep(x) {
        s.lemma_filter_contains(keep, s.index_of(x));
    }
}

/// Where 256 frames are recent a new one drives them all out.
pub proof fn law_a_full_memory_starts_over(s: Seq<Seen>, e: Seen)
    requires
        s.filter(is_recent(e.at)).len() >= 256,
        !remembered(s.filter(is_recent(e.at)), e.op, e.mac, e.ip),
    ensures
        after_frame(s, e) == seq![e],
{
}

/// A device shows its MAC, its address, its subnet and its times as they are.
pub proof fn law_what_a_device_shows(d: ArpDevice)
    ensures
        d@.mac == d.mac@,
        d@.ip == d.ip@,
        d@.subnet == d.subnet@,
        d@.first_seen == d.first_seen@,
        d@.last_seen == d.last_seen@,
{
}

/// A MAC is written with seventeen characters: six pairs of digits or small letters, with
/// colons between them.
pub proof fn law_how_a_mac_is_written(m: Seq<u8>, i: int)
    requires
        m.len() == 6,
        0 <= i < 17,
    ensures
        mac_text(m).len() == 17,
        i % 3 == 2 ==> mac_text(m)[i] == ':',
        i % 3 != 2 ==> '0' <= mac_text(m)[i] <= '9' || 'a' <= mac_text(m)[i] <= 'f',
{
    let t = mac_text(m);
    assert(t.len() == 17);
    assert(i == 0 || i == 1 || i == 2 || i == 3 || i == 4 || i == 5 || i == 6 || i == 7 || i == 8
        || i == 9 || i == 10 || i == 11 || i == 12 || i == 13 || i == 14 || i == 15 || i == 16);
}

} // verus!
