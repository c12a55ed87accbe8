//! The packet monitor's records.

use pocketstream_network::arp::{frames_seen, missed_max, ArpCounters};
use pocketstream_network::capture::{
    after_call, after_first_attempt, after_join, after_retry, call_failure, check_list_size,
    first_attempt_scoped, join_sources, probe_failure, stop_sequence, ApiCall, Release,
    StartAction, StartOutcome,
};
use pocketstream_network::pktmon::{
    build_arp_constraint, metadata_plausible, parse_data_source_list, read_metadata,
    select_scoped_source, CaptureMode, CaptureScope, DataSourceEntry, DataSourceSpecification,
    JoinFailure, ScopeOutcome, StreamMetadata, DATA_SOURCE_KIND_NETWORK_INTERFACE,
    DATA_SOURCE_SPEC_SIZE, METADATA_SIZE,
};

/// The metadata of a blob that is zero but for a one at an offset.
fn meta_with_one_at(at: usize) -> StreamMetadata {
    let mut blob = [0u8; 40];
    blob[at] = 1;
    read_metadata(&blob, 0).unwrap()
}

#[test]
fn stream_metadata_is_packed_40_bytes() {
    assert_eq!(METADATA_SIZE, 40);
    assert_eq!(meta_with_one_at(0).pkt_group_id, 1);
    assert_eq!(meta_with_one_at(8).pkt_count, 1);
    assert_eq!(meta_with_one_at(10).appearance_count, 1);
    assert_eq!(meta_with_one_at(12).direction_name, 1);
    assert_eq!(meta_with_one_at(14).packet_type, 1);
    assert_eq!(meta_with_one_at(16).component_id, 1);
    assert_eq!(meta_with_one_at(18).edge_id, 1);
    assert_eq!(meta_with_one_at(20).reserved, 1);
    assert_eq!(meta_with_one_at(22).drop_reason, 1);
    assert_eq!(meta_with_one_at(26).drop_location, 1);
    assert_eq!(meta_with_one_at(30).processor, 1);
    assert_eq!(meta_with_one_at(32).timestamp, 1);
}

#[test]
fn data_source_spec_layout_is_424_bytes() {
    assert_eq!(DATA_SOURCE_SPEC_SIZE, 424);
    let layout = DataSourceSpecification::layout();
    assert_eq!(layout.kind, 0);
    assert_eq!(layout.name, 4);
    assert_eq!(layout.description, 132);
    assert_eq!(layout.id, 388);
    assert_eq!(layout.secondary_id, 392);
    assert_eq!(layout.parent_id, 396);
    assert_eq!(layout.is_present, 400);
    assert_eq!(layout.detail, 408);
}

// ── data-source list parsing ──────────────────────────────────

/// Raw 424-byte entry with the fields the parser reads.
fn spec_bytes(name: &str, id: u32, is_present: i32, mac: [u8; 6]) -> Vec<u8> {
    let mut b = vec![0u8; DATA_SOURCE_SPEC_SIZE];
    b[0..4].copy_from_slice(&DATA_SOURCE_KIND_NETWORK_INTERFACE.to_le_bytes());
    for (i, u) in name.encode_utf16().take(63).enumerate() {
        b[4 + i * 2..6 + i * 2].copy_from_slice(&u.to_le_bytes());
    }
    for (i, u) in "Test Adapter".encode_utf16().enumerate() {
        b[132 + i * 2..134 + i * 2].copy_from_slice(&u.to_le_bytes());
    }
    b[388..392].copy_from_slice(&id.to_le_bytes());
    b[392..396].copy_from_slice(&id.to_le_bytes());
    b[400..404].copy_from_slice(&is_present.to_le_bytes());
    b[408..414].copy_from_slice(&mac);
    b
}

/// Where the list buffer lies in the address space of its pointers.
const BASE: u64 = 0x7FF0_1000_0000;

/// List buffer with absolute in-buffer pointers, like the API returns.
fn list_buf(specs: &[Vec<u8>]) -> Vec<u8> {
    let count = specs.len();
    let entries_start = 8 + count * 8;
    let mut buf = vec![0u8; entries_start + count * DATA_SOURCE_SPEC_SIZE];
    buf[0..4].copy_from_slice(&(count as u32).to_le_bytes());
    for (i, s) in specs.iter().enumerate() {
        let off = entries_start + i * DATA_SOURCE_SPEC_SIZE;
        buf[off..off + DATA_SOURCE_SPEC_SIZE].copy_from_slice(s);
        let p = BASE + off as u64;
        buf[8 + i * 8..16 + i * 8].copy_from_slice(&p.to_le_bytes());
    }
    buf
}

const MAC_WIRED: [u8; 6] = [0x40, 0xC2, 0xBA, 0xCF, 0xD5, 0x75];
const MAC_WIFI: [u8; 6] = [0xAC, 0x45, 0xEF, 0x38, 0xF9, 0xF5];

#[test]
fn parse_data_source_list_reads_entries() {
    let buf = list_buf(&[
        spec_bytes("e1dn.sys", 70, 8, MAC_WIRED),
        spec_bytes("Netwaw18.sys", 71, 8, MAC_WIFI),
    ]);
    let entries = parse_data_source_list(&buf, BASE).unwrap();
    assert_eq!(entries.len(), 2);
    assert_eq!(entries[0].name, "e1dn.sys");
    assert_eq!(entries[0].description, "Test Adapter");
    assert_eq!(entries[0].id, 70);
    assert!(entries[0].is_present, "is_present=8 means present");
    assert_eq!(entries[0].mac, Some(MAC_WIRED));
    assert_eq!(entries[1].mac, Some(MAC_WIFI));
    assert_eq!(entries[0].offset, 8 + 2 * 8);
}

#[test]
fn parse_data_source_list_empty_list_ok() {
    let mut buf = vec![0u8; 16];
    buf[0..4].copy_from_slice(&0u32.to_le_bytes());
    assert!(parse_data_source_list(&buf, BASE).unwrap().is_empty());
}

#[test]
fn parse_data_source_list_rejects_truncated_header() {
    assert!(parse_data_source_list(&[0u8; 4], BASE).is_err());
}

#[test]
fn parse_data_source_list_rejects_truncated_pointer_array() {
    let mut buf = vec![0u8; 16];
    buf[0..4].copy_from_slice(&3u32.to_le_bytes());
    assert!(parse_data_source_list(&buf, BASE).is_err());
}

#[test]
fn parse_data_source_list_rejects_out_of_bounds_pointer() {
    // Pointer below the buffer base.
    let mut buf = list_buf(&[spec_bytes("e1dn.sys", 70, 8, MAC_WIRED)]);
    let bogus = BASE - 4096;
    buf[8..16].copy_from_slice(&bogus.to_le_bytes());
    assert!(parse_data_source_list(&buf, BASE).is_err());

    // Pointer whose 424-byte entry would run past the buffer end.
    let mut buf = list_buf(&[spec_bytes("e1dn.sys", 70, 8, MAC_WIRED)]);
    let past = BASE + buf.len() as u64 - 8;
    buf[8..16].copy_from_slice(&past.to_le_bytes());
    assert!(parse_data_source_list(&buf, BASE).is_err());
}

#[test]
fn parse_data_source_list_zero_mac_is_none() {
    let buf = list_buf(&[spec_bytes("bthpan.sys", 3, 9, [0; 6])]);
    let entries = parse_data_source_list(&buf, BASE).unwrap();
    assert_eq!(entries[0].mac, None);
}

// ── scoped-source join ────────────────────────────────────────

fn entry(mac: Option<[u8; 6]>, present: bool) -> DataSourceEntry {
    DataSourceEntry {
        offset: 0,
        name: "test.sys".into(),
        description: String::new(),
        id: 1,
        is_present: present,
        mac,
    }
}

fn wired_scope() -> CaptureScope {
    CaptureScope {
        mac: Some(MAC_WIRED),
        display_name: "Ethernet".into(),
    }
}

#[test]
fn select_scoped_source_exact_mac_match() {
    let entries = vec![entry(Some(MAC_WIFI), true), entry(Some(MAC_WIRED), true)];
    assert_eq!(select_scoped_source(&entries, &wired_scope()), Ok(1));
}

#[test]
fn select_scoped_source_no_match() {
    let entries = vec![entry(Some(MAC_WIFI), true)];
    assert_eq!(
        select_scoped_source(&entries, &wired_scope()),
        Err(JoinFailure::NoMatch)
    );
}

#[test]
fn select_scoped_source_ambiguous_duplicate_mac() {
    let entries = vec![entry(Some(MAC_WIRED), true), entry(Some(MAC_WIRED), true)];
    assert_eq!(
        select_scoped_source(&entries, &wired_scope()),
        Err(JoinFailure::Ambiguous(2))
    );
}

#[test]
fn select_scoped_source_requires_identity() {
    let entries = vec![entry(Some(MAC_WIRED), true)];
    let scope = CaptureScope {
        mac: None,
        display_name: "Ethernet".into(),
    };
    assert_eq!(
        select_scoped_source(&entries, &scope),
        Err(JoinFailure::NoIdentity)
    );
}

#[test]
fn select_scoped_source_skips_absent_sources() {
    // A matching MAC on a non-present source must not be scoped to.
    let entries = vec![entry(Some(MAC_WIRED), false)];
    assert_eq!(
        select_scoped_source(&entries, &wired_scope()),
        Err(JoinFailure::NoMatch)
    );
}

#[test]
fn select_scoped_source_other_adapter_mac_never_matches() {
    // A WiFi source can never satisfy a wired-adapter scope: the
    // join is exact-MAC, so no "closest" pick exists.
    let entries = vec![entry(Some(MAC_WIFI), true), entry(None, true)];
    assert_eq!(
        select_scoped_source(&entries, &wired_scope()),
        Err(JoinFailure::NoMatch)
    );
}

#[test]
fn arp_constraint_layout() {
    let c = build_arp_constraint();
    assert_eq!(c.len(), 216);
    // IsPresentValue: only the EtherType bit (bit 3).
    assert_eq!(u32::from_le_bytes(c[128..132].try_into().unwrap()), 1 << 3);
    // EtherType 0x0806 in HOST byte order.
    assert_eq!(u16::from_le_bytes(c[146..148].try_into().unwrap()), 0x0806);
    // Everything else zero (Name zeroed is valid; no other fields
    // marked present).
    for (i, b) in c.iter().enumerate() {
        if !(128..132).contains(&i) && !(146..148).contains(&i) {
            assert_eq!(*b, 0, "unexpected nonzero byte at offset {i}");
        }
    }
}

#[test]
fn read_metadata_decodes_pinned_offsets() {
    // Synthetic 40-byte blob with distinct values at every pinned
    // offset (little-endian), prefixed by 4 junk bytes to prove the
    // offset parameter is honored.
    let mut blob = vec![0xEEu8; 4];
    let mut m = [0u8; 40];
    m[0..8].copy_from_slice(&0x1122334455667788u64.to_le_bytes()); // pkt_group_id
    m[8..10].copy_from_slice(&2u16.to_le_bytes()); // pkt_count
    m[10..12].copy_from_slice(&3u16.to_le_bytes()); // appearance_count
    m[12..14].copy_from_slice(&1u16.to_le_bytes()); // direction_name
    m[14..16].copy_from_slice(&7u16.to_le_bytes()); // packet_type
    m[16..18].copy_from_slice(&41u16.to_le_bytes()); // component_id
    m[18..20].copy_from_slice(&5u16.to_le_bytes()); // edge_id
    m[22..26].copy_from_slice(&0xA1A2A3A4u32.to_le_bytes()); // drop_reason
    m[26..30].copy_from_slice(&0xB1B2B3B4u32.to_le_bytes()); // drop_location
    m[30..32].copy_from_slice(&9u16.to_le_bytes()); // processor
    m[32..40].copy_from_slice(&0x01DB0000_00000042i64.to_le_bytes()); // timestamp
    blob.extend_from_slice(&m);

    let meta = read_metadata(&blob, 4).unwrap();
    assert_eq!(meta.pkt_group_id, 0x1122334455667788);
    assert_eq!(meta.pkt_count, 2);
    assert_eq!(meta.appearance_count, 3);
    assert_eq!(meta.direction_name, 1);
    assert_eq!(meta.packet_type, 7);
    assert_eq!(meta.component_id, 41);
    assert_eq!(meta.edge_id, 5);
    assert_eq!(meta.drop_reason, 0xA1A2A3A4);
    assert_eq!(meta.drop_location, 0xB1B2B3B4);
    assert_eq!(meta.processor, 9);
    assert_eq!(meta.timestamp, 0x01DB0000_00000042);
}

#[test]
fn read_metadata_rejects_short_blob() {
    assert!(read_metadata(&[0u8; 39], 0).is_none());
    assert!(read_metadata(&[0u8; 43], 4).is_none());
    assert!(read_metadata(&[], usize::MAX).is_none());
}

#[test]
fn plausibility_canary() {
    let meta = |packet_type, direction_name| StreamMetadata {
        packet_type,
        direction_name,
        ..Default::default()
    };
    assert!(metadata_plausible(&meta(1, 2)));
    assert!(!metadata_plausible(&meta(12, 2))); // packet_type beyond the enum
    assert!(!metadata_plausible(&meta(1, 7))); // direction beyond the enum
}

#[test]
fn list_faults_say_what_is_wrong() {
    assert_eq!(
        parse_data_source_list(&[0u8; 4], BASE).unwrap_err(),
        "data-source list too small: 4 bytes"
    );
    let mut buf = vec![0u8; 16];
    buf[0] = 3;
    assert_eq!(
        parse_data_source_list(&buf, BASE).unwrap_err(),
        "data-source pointer array truncated: 3 entries need 32 bytes, have 16"
    );
}

#[test]
fn names_outside_the_basic_plane_are_read() {
    let buf = list_buf(&[spec_bytes("caf\u{e9} \u{1F4F7}", 1, 1, MAC_WIRED)]);
    let entries = parse_data_source_list(&buf, BASE).unwrap();
    assert_eq!(entries[0].name, "caf\u{e9} \u{1F4F7}");
}

#[test]
fn a_lone_surrogate_is_replaced() {
    let mut spec = spec_bytes("ab", 1, 1, MAC_WIRED);
    spec[4..6].copy_from_slice(&0xD800u16.to_le_bytes());
    spec[8..10].copy_from_slice(&0xDC00u16.to_le_bytes());
    let entries = parse_data_source_list(&list_buf(&[spec]), BASE).unwrap();
    assert_eq!(entries[0].name, "\u{fffd}b\u{fffd}");
}

#[test]
fn join_failures_say_what_is_wrong() {
    assert_eq!(
        JoinFailure::NoIdentity.message(),
        "selected adapter has no usable MAC to match a capture source"
    );
    assert_eq!(
        JoinFailure::NoMatch.message(),
        "no present capture source matched the selected adapter's MAC"
    );
    assert_eq!(
        JoinFailure::Ambiguous(2).message(),
        "2 capture sources matched the selected adapter's MAC (ambiguous)"
    );
}

// ── starting and stopping a capture ─────────────────────────────────

#[test]
fn a_scoped_start_makes_every_call_in_order() {
    let mut seen = vec![ApiCall::Initialize];
    let mut call = ApiCall::Initialize;
    loop {
        let next = if call == ApiCall::EnumerateAndJoin {
            after_join(Ok((24, 70)))
        } else {
            after_call(call, true, 0)
        };
        match next {
            StartAction::Call(c) => {
                seen.push(c);
                call = c;
            }
            StartAction::Done => break,
            StartAction::Fail { .. } => unreachable!(),
        }
    }
    assert_eq!(
        seen,
        vec![
            ApiCall::Initialize,
            ApiCall::EnumerateAndJoin,
            ApiCall::CreateLiveSession,
            ApiCall::AddCaptureConstraint,
            ApiCall::AddSingleDataSource,
            ApiCall::CreateRealtimeStream,
            ApiCall::AttachOutputToSession,
            ApiCall::SetSessionActive,
        ]
    );
}

#[test]
fn a_failed_call_gives_back_what_was_taken() {
    match after_call(ApiCall::AttachOutputToSession, false, -2147024891) {
        StartAction::Fail { release, reason } => {
            assert_eq!(
                release,
                vec![Release::CloseStream, Release::CloseSession, Release::Uninitialize]
            );
            assert_eq!(reason, "PacketMonitorAttachOutputToSession: HRESULT 0x80070005");
        }
        _ => unreachable!(),
    }
    match after_call(ApiCall::Initialize, false, -1) {
        StartAction::Fail { release, .. } => assert!(release.is_empty()),
        _ => unreachable!(),
    }
    match after_join(Err("no match".into())) {
        StartAction::Fail { release, reason } => {
            assert_eq!(release, vec![Release::Uninitialize]);
            assert_eq!(reason, "no match");
        }
        _ => unreachable!(),
    }
    assert_eq!(
        stop_sequence(),
        vec![
            Release::Deactivate,
            Release::CloseStream,
            Release::CloseSession,
            Release::Uninitialize
        ]
    );
}

#[test]
fn call_failures_carry_the_result_code() {
    assert_eq!(
        call_failure(ApiCall::Initialize, -2147467259),
        "PacketMonitorInitialize: HRESULT 0x80004005"
    );
    assert_eq!(
        probe_failure(ApiCall::CreateLiveSession, 5),
        "PacketMonitorCreateLiveSession failed: HRESULT 0x00000005"
    );
}

#[test]
fn list_sizes_are_bounded() {
    assert!(check_list_size(0, 0).is_err());
    assert!(check_list_size(4 * 1024 * 1024 + 1, 0).is_err());
    assert!(check_list_size(4 * 1024 * 1024, 0).is_ok());
}

#[test]
fn the_selected_adapter_is_joined_by_its_mac() {
    let buf = list_buf(&[
        spec_bytes("Netwaw18.sys", 71, 8, MAC_WIFI),
        spec_bytes("e1dn.sys", 70, 8, MAC_WIRED),
    ]);
    assert_eq!(
        join_sources(&buf, BASE, 0, &wired_scope()),
        Ok((8 + 2 * 8 + 424, 70))
    );
    assert!(join_sources(&buf, BASE, -1, &wired_scope()).is_err());
}

#[test]
fn a_failed_scoped_start_is_tried_unscoped_once() {
    assert!(first_attempt_scoped(CaptureMode::PreferScoped));
    assert!(!first_attempt_scoped(CaptureMode::ForcedUnscoped));
    match after_first_attempt(CaptureMode::PreferScoped, Ok(Some(70))) {
        StartOutcome::Started(ScopeOutcome::SelectedInterface { source_id }) => {
            assert_eq!(source_id, Some(70))
        }
        _ => unreachable!(),
    }
    match after_retry("no match".into(), Ok(())) {
        StartOutcome::Started(ScopeOutcome::UnscopedFallback { reason }) => {
            assert_eq!(reason, "no match")
        }
        _ => unreachable!(),
    }
    assert!(matches!(
        after_retry("no match".into(), Err("gone".into())),
        StartOutcome::Failed(_)
    ));
}

#[test]
fn counters_start_at_zero_and_count() {
    let mut c = ArpCounters::new();
    assert_eq!(frames_seen(&c), 0);
    assert_eq!(missed_max(&c), 0);
    c.note_frame();
    c.note_frame();
    assert_eq!(frames_seen(&c), 2);
}
