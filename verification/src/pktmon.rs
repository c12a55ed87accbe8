//! The packet-monitor capture: its buffers, the choice of a data source, and the
//! order of its calls.
//!
//! The layouts have no published header; they are pinned here byte by byte.

use crate::bytes;
use crate::text;
use vstd::prelude::*;

verus! {

/// The version that the interface is opened with.
pub const API_VERSION_1_0: u32 = 0x0001_0000;

/// One captured packet: where its bytes and its metadata stand in the buffer.
#[derive(Clone, Copy, Debug)]
pub struct StreamDataDescriptor {
    pub data_size: u32,
    pub metadata_offset: u32,
    pub packet_offset: u32,
    pub packet_length: u32,
    pub missed_packet_write_count: u32,
    pub missed_packet_read_count: u32,
}

/// Metadata of one captured packet, packed into 40 bytes.
#[derive(Clone, Copy, Debug)]
pub struct StreamMetadata {
    pub pkt_group_id: u64,
    pub pkt_count: u16,
    pub appearance_count: u16,
    pub direction_name: u16,
    /// 1 for Ethernet, 2 for Wi-Fi, 7 for an ARP header without a frame.
    pub packet_type: u16,
    pub component_id: u16,
    pub edge_id: u16,
    pub reserved: u16,
    pub drop_reason: u32,
    pub drop_location: u32,
    pub processor: u16,
    pub timestamp: i64,
}

impl Default for StreamMetadata {
    fn default() -> (r: StreamMetadata)
        ensures
            r == (StreamMetadata {
                pkt_group_id: 0,
                pkt_count: 0,
                appearance_count: 0,
                direction_name: 0,
                packet_type: 0,
                component_id: 0,
                edge_id: 0,
                reserved: 0,
                drop_reason: 0,
                drop_location: 0,
                processor: 0,
                timestamp: 0,
            }),
    {
        StreamMetadata {
            pkt_group_id: 0,
            pkt_count: 0,
            appearance_count: 0,
            direction_name: 0,
            packet_type: 0,
            component_id: 0,
            edge_id: 0,
            reserved: 0,
            drop_reason: 0,
            drop_location: 0,
            processor: 0,
            timestamp: 0,
        }
    }
}

/// Bytes of a capture constraint.
pub const CONSTRAINT_SIZE: usize = 216;

/// The EtherType of ARP, in the byte order of the host.
pub const ETHERTYPE_ARP: u16 = 0x0806;

/// The constraint that lets ARP through: at byte 128 the number 8, which marks the
/// EtherType as present, and at byte 146 the EtherType; all else is zero.
pub open spec fn arp_constraint() -> Seq<u8> {
    Seq::new(
        216,
        |i: int|
            if i == 128 {
                8u8
            } else if i == 146 {
                0x06u8
            } else if i == 147 {
                0x08u8
            } else {
                0u8
            },
    )
}

/// The constraint that lets ARP through and nothing else.
pub fn build_arp_constraint() -> (r: [u8; 216])
    ensures
        r@ == arp_constraint(),
        bytes::little_endian(r@, 128, 4) == 8,
        bytes::little_endian(r@, 146, 2) == ETHERTYPE_ARP,
{
    let mut c: [u8; 216] = [0u8;216];
    c[128] = 8;
    c[146] = 0x06;
    c[147] = 0x08;
    proof {
        assert(c@ =~= arp_constraint());
        reveal_with_fuel(bytes::little_endian, 5);
    }
    c
}

/// Bytes of a packet's metadata.
pub const METADATA_SIZE: usize = 40;

/// The metadata at `at`.
pub open spec fn metadata_at(s: Seq<u8>, at: int) -> StreamMetadata {
    StreamMetadata {
        pkt_group_id: bytes::little_endian(s, at, 8) as u64,
        pkt_count: bytes::little_endian(s, at + 8, 2) as u16,
        appearance_count: bytes::little_endian(s, at + 10, 2) as u16,
        direction_name: bytes::little_endian(s, at + 12, 2) as u16,
        packet_type: bytes::little_endian(s, at + 14, 2) as u16,
        component_id: bytes::little_endian(s, at + 16, 2) as u16,
        edge_id: bytes::little_endian(s, at + 18, 2) as u16,
        reserved: bytes::little_endian(s, at + 20, 2) as u16,
        drop_reason: bytes::little_endian(s, at + 22, 4) as u32,
        drop_location: bytes::little_endian(s, at + 26, 4) as u32,
        processor: bytes::little_endian(s, at + 30, 2) as u16,
        timestamp: (bytes::little_endian(s, at + 32, 8) as u64) as i64,
    }
}

/// Reads the metadata at an offset; nothing if it does not fit into the buffer.
pub fn read_metadata(blob: &[u8], metadata_offset: usize) -> (r: Option<StreamMetadata>)
    ensures
        r == if metadata_offset + METADATA_SIZE <= blob@.len() {
            Some(metadata_at(blob@, metadata_offset as int))
        } else {
            None
        },
{
    let n: usize = blob.len();
    if n < METADATA_SIZE || metadata_offset > n - METADATA_SIZE {
        return None;
    }
    let at: usize = metadata_offset;
    let stamp: u64 = bytes::read_u64(blob, at + 32);
    Some(
        StreamMetadata {
            pkt_group_id: bytes::read_u64(blob, at),
            pkt_count: bytes::read_u16(blob, at + 8),
            appearance_count: bytes::read_u16(blob, at + 10),
            direction_name: bytes::read_u16(blob, at + 12),
            packet_type: bytes::read_u16(blob, at + 14),
            component_id: bytes::read_u16(blob, at + 16),
            edge_id: bytes::read_u16(blob, at + 18),
            reserved: bytes::read_u16(blob, at + 20),
            drop_reason: bytes::read_u32(blob, at + 22),
            drop_location: bytes::read_u32(blob, at + 26),
            processor: bytes::read_u16(blob, at + 30),
            timestamp: stamp as i64,
        },
    )
}

/// Whether the metadata lies in its documented range. One that does not hints at
/// another layout.
pub fn metadata_plausible(m: &StreamMetadata) -> (r: bool)
    ensures
        r == (m.packet_type <= 11 && m.direction_name <= 6),
{
    m.packet_type <= 11 && m.direction_name <= 6
}

/// The kind of a data source that is a network interface.
pub const DATA_SOURCE_KIND_NETWORK_INTERFACE: u32 = 1;

/// Bytes of one data source.
pub const DATA_SOURCE_SPEC_SIZE: usize = 424;

/// Where the pointers of a list of data sources begin.
pub const DATA_SOURCE_LIST_PTRS_OFFSET: usize = 8;

/// No list of data sources is larger than this.
pub const DATA_SOURCE_ENUM_MAX_BYTES: usize = 4 * 1024 * 1024;

/// Where the fields of a data source stand in its bytes.
pub struct DataSourceSpecification {
    pub kind: usize,
    pub name: usize,
    pub description: usize,
    pub id: usize,
    pub secondary_id: usize,
    pub parent_id: usize,
    pub is_present: usize,
    pub detail: usize,
}

impl DataSourceSpecification {
    /// The layout: the name has 64 and the description 128 code units, and the
    /// detail of a network interface begins with its MAC.
    pub open spec fn pinned() -> DataSourceSpecification {
        DataSourceSpecification {
            kind: 0,
            name: 4,
            description: 132,
            id: 388,
            secondary_id: 392,
            parent_id: 396,
            is_present: 400,
            detail: 408,
        }
    }

    /// The layout.
    pub fn layout() -> (r: DataSourceSpecification)
        ensures
            r == Self::pinned(),
    {
        DataSourceSpecification {
            kind: 0,
            name: 4,
            description: 132,
            id: 388,
            secondary_id: 392,
            parent_id: 396,
            is_present: 400,
            detail: 408,
        }
    }
}

/// A data source, and where its bytes stand in the list.
#[derive(Debug)]
pub struct DataSourceEntry {
    pub offset: usize,
    pub name: String,
    pub description: String,
    pub id: u32,
    pub is_present: bool,
    /// Nothing if all six bytes are zero.
    pub mac: Option<[u8; 6]>,
}

/// A data source, as text and numbers.
#[verifier::ext_equal]
pub struct SourceView {
    pub offset: int,
    pub name: Seq<char>,
    pub description: Seq<char>,
    pub id: u32,
    pub is_present: bool,
    pub mac: Option<Seq<u8>>,
}

/// The bytes of an optional MAC.
pub open spec fn mac_view(mac: Option<[u8; 6]>) -> Option<Seq<u8>> {
    match mac {
        Some(m) => Some(m@),
        None => None,
    }
}

impl View for DataSourceEntry {
    type V = SourceView;

    open spec fn view(&self) -> SourceView {
        SourceView {
            offset: self.offset as int,
            name: self.name@,
            description: self.description@,
            id: self.id,
            is_present: self.is_present,
            mac: mac_view(self.mac),
        }
    }
}

/// The text of UTF-16 code units: a high surrogate and the low one behind it stand for
/// one character, any other surrogate for the replacement character, and every other
/// unit for itself.
pub open spec fn utf16(units: Seq<u16>) -> Seq<char>
    decreases units.len(),
{
    if units.len() == 0 {
        Seq::empty()
    } else {
        let u = units[0];
        if u < 0xd800 || u > 0xdfff {
            seq![u as char] + utf16(units.skip(1))
        } else if u <= 0xdbff && units.len() > 1 && 0xdc00 <= units[1] <= 0xdfff {
            seq![(0x10000 + (u - 0xd800) * 0x400 + (units[1] - 0xdc00)) as char] + utf16(
                units.skip(2),
            )
        } else {
            seq!['\u{fffd}'] + utf16(units.skip(1))
        }
    }
}

/// `String::from_utf16_lossy`: the text of UTF-16 code units, with the replacement
/// character for each unit that is no part of a valid text.
#[verifier::external_body]
fn decode_utf16(units: &Vec<u16>) -> (r: String)
    ensures
        r@ == utf16(units@),
{
    String::from_utf16_lossy(units)
}

/// The code units of a field, up to the first zero.
pub open spec fn units_until_zero(s: Seq<u8>, at: int, n: nat) -> Seq<u16>
    decreases n,
{
    if n == 0 {
        Seq::empty()
    } else {
        let u = bytes::little_endian(s, at, 2) as u16;
        if u == 0 {
            Seq::empty()
        } else {
            seq![u] + units_until_zero(s, at + 2, (n - 1) as nat)
        }
    }
}

/// Reads a text field of `n` code units at most, which a zero ends early.
fn utf16_z(buf: &[u8], at: usize, n: usize) -> (r: String)
    requires
        at + 2 * n <= buf@.len(),
    ensures
        r@ == utf16(units_until_zero(buf@, at as int, n as nat)),
{
    let len: usize = buf.len();
    let mut units: Vec<u16> = Vec::new();
    let mut i: usize = 0;
    let ghost all = units_until_zero(buf@, at as int, n as nat);
    assert(all =~= units@ + units_until_zero(buf@, at as int, n as nat));
    while i < n
        invariant
            i <= n,
            at + 2 * n <= len,
            len == buf@.len(),
            all == units_until_zero(buf@, at as int, n as nat),
            all == units@ + units_until_zero(buf@, at + 2 * i, (n - i) as nat),
        decreases n - i,
    {
        let u: u16 = bytes::read_u16(buf, at + 2 * i);
        let ghost before = units@;
        if u == 0 {
            assert(all =~= units@);
            return decode_utf16(&units);
        }
        units.push(u);
        proof {
            let rest = units_until_zero(buf@, at + 2 * (i + 1), (n - i - 1) as nat);
            assert(units_until_zero(buf@, at + 2 * i, (n - i) as nat) == seq![u] + rest);
            assert(before + (seq![u] + rest) =~= units@ + rest);
        }
        i += 1;
    }
    assert(all =~= units@);
    decode_utf16(&units)
}

/// The data source at `at`, in the pinned layout.
pub open spec fn source_at(s: Seq<u8>, at: int) -> SourceView {
    let mac = s.subrange(at + 408, at + 414);
    SourceView {
        offset: at,
        name: utf16(units_until_zero(s, at + 4, 64)),
        description: utf16(units_until_zero(s, at + 132, 128)),
        id: bytes::little_endian(s, at + 388, 4) as u32,
        is_present: bytes::little_endian(s, at + 400, 4) != 0,
        mac: if mac == seq![0u8, 0u8, 0u8, 0u8, 0u8, 0u8] {
            None
        } else {
            Some(mac)
        },
    }
}

fn read_source(buf: &[u8], at: usize) -> (r: DataSourceEntry)
    requires
        at + DATA_SOURCE_SPEC_SIZE <= buf@.len(),
    ensures
        r@ == source_at(buf@, at as int),
{
    let _len: usize = buf.len();
    let layout = DataSourceSpecification::layout();
    let m: usize = at + layout.detail;
    let mac: [u8; 6] = [buf[m], buf[m + 1], buf[m + 2], buf[m + 3], buf[m + 4], buf[m + 5]];
    let zero = mac[0] == 0 && mac[1] == 0 && mac[2] == 0 && mac[3] == 0 && mac[4] == 0 && mac[5]
        == 0;
    proof {
        assert(mac@ =~= buf@.subrange(at + 408, at + 414));
        if zero {
            assert(mac@ =~= seq![0u8, 0u8, 0u8, 0u8, 0u8, 0u8]);
        }
    }
    DataSourceEntry {
        offset: at,
        name: utf16_z(buf, at + layout.name, 64),
        description: utf16_z(buf, at + layout.description, 128),
        id: bytes::read_u32(buf, at + layout.id),
        is_present: bytes::read_u32(buf, at + layout.is_present) != 0,
        mac: if zero {
            None
        } else {
            Some(mac)
        },
    }
}

/// The address that pointer `i` of a list holds.
pub open spec fn list_pointer(s: Seq<u8>, i: int) -> int {
    bytes::little_endian(s, 8 + 8 * i, 8) as int
}

/// Whether a whole data source stands at address `p` of a buffer at `base`.
pub open spec fn pointer_inside(s: Seq<u8>, base: int, p: int) -> bool {
    base <= p && p + DATA_SOURCE_SPEC_SIZE <= base + s.len()
}

/// Why a list of data sources is refused; nothing if every entry lies inside it.
pub open spec fn list_fault(s: Seq<u8>, base: int) -> Option<Seq<char>> {
    let count = bytes::little_endian(s, 0, 4) as int;
    if s.len() < 8 {
        Some("data-source list too small: "@ + text::dec(s.len()) + " bytes"@)
    } else if s.len() < 8 + 8 * count {
        Some(
            "data-source pointer array truncated: "@ + text::dec(count as nat) + " entries need "@
                + text::dec((8 + 8 * count) as nat) + " bytes, have "@ + text::dec(s.len()),
        )
    } else {
        entry_fault(s, base, 0, count)
    }
}

/// Why the first bad entry from entry `i` on is refused.
pub open spec fn entry_fault(s: Seq<u8>, base: int, i: int, count: int) -> Option<Seq<char>>
    decreases count - i,
{
    if i >= count {
        None
    } else {
        let p = list_pointer(s, i);
        if p + DATA_SOURCE_SPEC_SIZE > u64::MAX {
            Some("data-source entry pointer overflows"@)
        } else if !pointer_inside(s, base, p) {
            Some(
                "data-source entry "@ + text::dec(i as nat) + " pointer 0x"@ + text::hex(p as nat)
                    + " outside its buffer (base 0x"@ + text::hex(base as nat) + ", len "@
                    + text::dec(s.len()) + ")"@,
            )
        } else {
            entry_fault(s, base, i + 1, count)
        }
    }
}

/// The data sources of a list.
pub open spec fn list_sources(s: Seq<u8>, base: int) -> Seq<SourceView> {
    Seq::new(
        bytes::little_endian(s, 0, 4),
        |i: int| source_at(s, list_pointer(s, i) - base),
    )
}

/// Reads a list of data sources: their number, then pointers to them, which are
/// addresses inside the list itself. `base` is the address of the list. A list with
/// a bad entry is refused as a whole.
pub fn parse_data_source_list(buf: &[u8], base: u64) -> (r: Result<Vec<DataSourceEntry>, String>)
    requires
        base + buf@.len() <= u64::MAX,
    ensures
        match r {
            Ok(list) => list_fault(buf@, base as int) is None && text::views(list@) == list_sources(
                buf@,
                base as int,
            ),
            Err(e) => list_fault(buf@, base as int) == Some(e@),
        },
{
    let len: usize = buf.len();
    if len < DATA_SOURCE_LIST_PTRS_OFFSET {
        let mut e = String::from_str("data-source list too small: ");
        text::push_dec(&mut e, len as u64);
        e.append(" bytes");
        return Err(e);
    }
    let count: u32 = bytes::read_u32(buf, 0);
    let need: u64 = 8 + 8 * (count as u64);
    if (len as u64) < need {
        let mut e = String::from_str("data-source pointer array truncated: ");
        text::push_dec(&mut e, count as u64);
        e.append(" entries need ");
        text::push_dec(&mut e, need);
        e.append(" bytes, have ");
        text::push_dec(&mut e, len as u64);
        return Err(e);
    }
    let mut entries: Vec<DataSourceEntry> = Vec::new();
    let ghost all = list_sources(buf@, base as int);
    assert(text::views(entries@) =~= all.take(0));
    let mut i: u32 = 0;
    while i < count
        invariant
            i <= count,
            len == buf@.len(),
            8 + 8 * count <= len,
            base + len <= u64::MAX,
            count == bytes::little_endian(buf@, 0, 4),
            all == list_sources(buf@, base as int),
            entry_fault(buf@, base as int, 0, count as int) == entry_fault(
                buf@,
                base as int,
                i as int,
                count as int,
            ),
            text::views(entries@) == all.take(i as int),
        decreases count - i,
    {
        let slot: usize = 8 + 8 * (i as usize);
        let p: u64 = bytes::read_u64(buf, slot);
        if p > u64::MAX - DATA_SOURCE_SPEC_SIZE as u64 {
            return Err(String::from_str("data-source entry pointer overflows"));
        }
        if p < base || p + DATA_SOURCE_SPEC_SIZE as u64 > base + len as u64 {
            let mut e = String::from_str("data-source entry ");
            text::push_dec(&mut e, i as u64);
            e.append(" pointer 0x");
            text::push_hex(&mut e, p);
            e.append(" outside its buffer (base 0x");
            text::push_hex(&mut e, base);
            e.append(", len ");
            text::push_dec(&mut e, len as u64);
            e.append(")");
            return Err(e);
        }
        let entry = read_source(buf, (p - base) as usize);
        proof {
            all.lemma_take_succ_push(i as int);
            text::lemma_views_push(entries@, entry);
        }
        entries.push(entry);
        i += 1;
    }
    assert(all.take(i as int) =~= all);
    Ok(entries)
}

/// Every entry of an accepted list lies inside it with all its bytes.
pub proof fn law_accepted_entries_lie_inside(s: Seq<u8>, base: int, i: int)
    requires
        list_fault(s, base) is None,
        0 <= i < list_sources(s, base).len(),
    ensures
        0 <= list_sources(s, base)[i].offset,
        list_sources(s, base)[i].offset + DATA_SOURCE_SPEC_SIZE <= s.len(),
{
    lemma_no_fault(s, base, 0, bytes::little_endian(s, 0, 4) as int, i);
}

proof fn lemma_no_fault(s: Seq<u8>, base: int, from: int, count: int, i: int)
    requires
        entry_fault(s, base, from, count) is None,
        0 <= from <= i < count,
    ensures
        pointer_inside(s, base, list_pointer(s, i)),
    decreases i - from,
{
    if from < i {
        lemma_no_fault(s, base, from + 1, count, i);
    }
}

/// The wired adapter that the capture is for, by its MAC.
#[derive(Debug)]
pub struct CaptureScope {
    pub mac: Option<[u8; 6]>,
    pub display_name: String,
}

/// How the capture is to be scoped.
#[derive(Clone, Copy, Debug, PartialEq, Eq, Structural)]
pub enum CaptureMode {
    /// To the adapter, or unscoped if that fails.
    PreferScoped,
    /// Unscoped from the start.
    ForcedUnscoped,
}

/// How the capture ended up scoped.
#[derive(Debug)]
pub enum ScopeOutcome {
    /// To the adapter's data source, by its id.
    SelectedInterface { source_id: Option<u32> },
    UnscopedFallback { reason: String },
}

/// Why no data source can be picked.
#[derive(Clone, Copy, Debug, PartialEq, Eq, Structural)]
pub enum JoinFailure {
    NoIdentity,
    NoMatch,
    Ambiguous(usize),
}

impl JoinFailure {
    /// The failure in words.
    pub open spec fn text(self) -> Seq<char> {
        match self {
            JoinFailure::NoIdentity => "selected adapter has no usable MAC to match a capture source"@,
            JoinFailure::NoMatch => "no present capture source matched the selected adapter's MAC"@,
            JoinFailure::Ambiguous(n) => text::dec(n as nat)
                + " capture sources matched the selected adapter's MAC (ambiguous)"@,
        }
    }

    /// The failure in words.
    pub fn message(&self) -> (r: String)
        ensures
            r@ == self.text(),
    {
        match self {
            JoinFailure::NoIdentity => String::from_str(
                "selected adapter has no usable MAC to match a capture source",
            ),
            JoinFailure::NoMatch => String::from_str(
                "no present capture source matched the selected adapter's MAC",
            ),
            JoinFailure::Ambiguous(n) => {
                let mut r = String::new();
                text::push_dec(&mut r, *n as u64);
                r.append(" capture sources matched the selected adapter's MAC (ambiguous)");
                assert(r@ =~= self.text());
                r
            },
        }
    }
}

/// Whether two MACs are the same.
pub fn same_mac(a: &[u8; 6], b: &[u8; 6]) -> (r: bool)
    ensures
        r == (a@ == b@),
{
    let r = a[0] == b[0] && a[1] == b[1] && a[2] == b[2] && a[3] == b[3] && a[4] == b[4] && a[5]
        == b[5];
    proof {
        if r {
            assert(a@ =~= b@);
        }
    }
    r
}

/// A data source that is present and has the MAC.
pub open spec fn source_matches(e: SourceView, mac: Seq<u8>) -> bool {
    e.is_present && e.mac == Some(mac)
}

/// How many of the first `n` data sources match.
pub open spec fn match_count(s: Seq<SourceView>, mac: Seq<u8>, n: int) -> nat
    decreases n,
{
    if n <= 0 {
        0
    } else {
        match_count(s, mac, n - 1) + if source_matches(s[n - 1], mac) {
            1nat
        } else {
            0nat
        }
    }
}

/// Picks the one data source that is present and has the adapter's MAC. Several or
/// none are a failure.
pub fn select_scoped_source(entries: &Vec<DataSourceEntry>, scope: &CaptureScope) -> (r: Result<
    usize,
    JoinFailure,
>)
    ensures
        match (mac_view(scope.mac), r) {
            (None, Err(JoinFailure::NoIdentity)) => true,
            (Some(mac), Ok(i)) => {
                &&& i < entries@.len()
                &&& source_matches(entries@[i as int]@, mac)
                &&& match_count(text::views(entries@), mac, entries@.len() as int) == 1
            },
            (Some(mac), Err(JoinFailure::NoMatch)) => match_count(
                text::views(entries@),
                mac,
                entries@.len() as int,
            ) == 0,
            (Some(mac), Err(JoinFailure::Ambiguous(n))) => n > 1 && match_count(
                text::views(entries@),
                mac,
                entries@.len() as int,
            ) == n,
            _ => false,
        },
{
    let mac = match &scope.mac {
        Some(mac) => mac,
        None => {
            return Err(JoinFailure::NoIdentity);
        },
    };
    let ghost all = text::views(entries@);
    let mut found: usize = 0;
    let mut first: usize = 0;
    let mut i: usize = 0;
    while i < entries.len()
        invariant
            i <= entries.len(),
            all == text::views(entries@),
            found <= i,
            found == match_count(all, mac@, i as int),
            found > 0 ==> first < i && source_matches(all[first as int], mac@),
        decreases entries.len() - i,
    {
        let e = &entries[i];
        assert(all[i as int] == e@);
        let hit = e.is_present && match &e.mac {
            Some(m) => same_mac(m, mac),
            None => false,
        };
        if hit {
            if found == 0 {
                first = i;
            }
            found += 1;
        }
        i += 1;
    }
    if found == 1 {
        Ok(first)
    } else if found == 0 {
        Err(JoinFailure::NoMatch)
    } else {
        Err(JoinFailure::Ambiguous(found))
    }
}

/// The match that is picked is the only one.
pub proof fn law_picked_source_is_the_only_one(s: Seq<SourceView>, mac: Seq<u8>, i: int, j: int)
    requires
        0 <= i < s.len(),
        0 <= j < s.len(),
        match_count(s, mac, s.len() as int) == 1,
        source_matches(s[i], mac),
        source_matches(s[j], mac),
    ensures
        i == j,
{
    if i < j {
        lemma_match_count(s, mac, i, j, s.len() as int);
    } else if j < i {
        lemma_match_count(s, mac, j, i, s.len() as int);
    }
}

proof fn lemma_match_count(s: Seq<SourceView>, mac: Seq<u8>, i: int, j: int, n: int)
    requires
        0 <= i < j < n <= s.len(),
        source_matches(s[i], mac),
        source_matches(s[j], mac),
    ensures
        match_count(s, mac, n) >= 2,
    decreases n,
{
    if j < n - 1 {
        lemma_match_count(s, mac, i, j, n - 1);
    } else {
        lemma_match_some(s, mac, i, j);
    }
}

proof fn lemma_match_some(s: Seq<SourceView>, mac: Seq<u8>, i: int, n: int)
    requires
        0 <= i < n <= s.len(),
        source_matches(s[i], mac),
    ensures
        match_count(s, mac, n) >= 1,
    decreases n,
{
    if i < n - 1 {
        lemma_match_some(s, mac, i, n - 1);
    }
}

/// Where the metadata of a packet stands: the direction, the type and the component in
/// two bytes each at 12, 14 and 16, and the reason of a drop in four at 22.
pub proof fn law_where_metadata_stands(s: Seq<u8>, at: int)
    ensures
        ({
            let m = metadata_at(s, at);
            &&& m.pkt_count == s[at + 8] + 256 * s[at + 9]
            &&& m.appearance_count == s[at + 10] + 256 * s[at + 11]
            &&& m.direction_name == s[at + 12] + 256 * s[at + 13]
            &&& m.packet_type == s[at + 14] + 256 * s[at + 15]
            &&& m.component_id == s[at + 16] + 256 * s[at + 17]
            &&& m.edge_id == s[at + 18] + 256 * s[at + 19]
            &&& m.drop_reason == s[at + 22] + 0x100 * s[at + 23] + 0x1_0000 * s[at + 24] + 0x100_0000
                * s[at + 25]
            &&& m.drop_location == s[at + 26] + 0x100 * s[at + 27] + 0x1_0000 * s[at + 28]
                + 0x100_0000 * s[at + 29]
            &&& m.processor == s[at + 30] + 256 * s[at + 31]
        }),
{
    bytes::law_low_byte_first(s, at + 8);
    bytes::law_low_byte_first(s, at + 10);
    bytes::law_low_byte_first(s, at + 12);
    bytes::law_low_byte_first(s, at + 14);
    bytes::law_low_byte_first(s, at + 16);
    bytes::law_low_byte_first(s, at + 18);
    bytes::law_low_byte_first(s, at + 22);
    bytes::law_low_byte_first(s, at + 26);
    bytes::law_low_byte_first(s, at + 30);
}

/// A name without surrogates has a character for each unit, with the unit's number.
pub proof fn law_plain_units_are_characters(units: Seq<u16>, i: int)
    requires
        forall|k: int|
            0 <= k < units.len() ==> (#[trigger] units[k]) < 0xd800 || units[k] > 0xdfff,
        0 <= i < units.len(),
    ensures
        utf16(units).len() == units.len(),
        utf16(units)[i] == units[i] as char,
    decreases units.len(),
{
    let rest = units.skip(1);
    assert(units[0] < 0xd800 || units[0] > 0xdfff);
    assert forall|k: int| 0 <= k < rest.len() implies (#[trigger] rest[k]) < 0xd800 || rest[k]
        > 0xdfff by {
        assert(rest[k] == units[k + 1]);
    }
    if i > 0 {
        law_plain_units_are_characters(rest, i - 1);
        assert(rest[i - 1] == units[i]);
    } else if rest.len() > 0 {
        law_plain_units_are_characters(rest, 0);
    } else {
        assert(utf16(rest) =~= Seq::empty());
    }
}

/// A name ends at the first unit that is zero, and has at most so many units.
pub proof fn law_a_name_ends_at_zero(s: Seq<u8>, at: int, n: nat)
    ensures
        ({
            let u = units_until_zero(s, at, n);
            &&& u.len() <= n
            &&& forall|i: int|
                0 <= i < u.len() ==> #[trigger] u[i] != 0 && u[i] == bytes::little_endian(
                    s,
                    at + 2 * i,
                    2,
                )
            &&& u.len() < n ==> bytes::little_endian(s, at + 2 * u.len(), 2) == 0
        }),
    decreases n,
{
    if n > 0 {
        bytes::law_low_byte_first(s, at);
        let u = units_until_zero(s, at, n);
        let v = units_until_zero(s, at + 2, (n - 1) as nat);
        law_a_name_ends_at_zero(s, at + 2, (n - 1) as nat);
        if bytes::little_endian(s, at, 2) != 0 {
            assert(u.len() == v.len() + 1);
            assert forall|i: int| 0 <= i < u.len() implies #[trigger] u[i] != 0 && u[i]
                == bytes::little_endian(s, at + 2 * i, 2) by {
                if i > 0 {
                    assert(u[i] == v[i - 1]);
                    assert(at + 2 + 2 * (i - 1) == at + 2 * i);
                }
            }
            assert(at + 2 + 2 * v.len() == at + 2 * u.len());
        }
    }
}

/// What a source's entry says: its number in four bytes at 388, whether it is there in
/// four at 400, and its MAC in six at 408, which all zeros stand for none.
pub proof fn law_what_a_source_says(s: Seq<u8>, at: int)
    requires
        0 <= at,
        at + 424 <= s.len(),
    ensures
        ({
            let e = source_at(s, at);
            &&& e.offset == at
            &&& e.id == s[at + 388] + 0x100 * s[at + 389] + 0x1_0000 * s[at + 390] + 0x100_0000
                * s[at + 391]
            &&& e.is_present <==> s[at + 400] != 0 || s[at + 401] != 0 || s[at + 402] != 0 || s[at
                + 403] != 0
            &&& e.mac is None <==> forall|i: int| at + 408 <= i < at + 414 ==> #[trigger] s[i] == 0
            &&& e.mac matches Some(m) ==> m.len() == 6 && forall|i: int|
                0 <= i < 6 ==> #[trigger] m[i] == s[at + 408 + i]
        }),
{
    bytes::law_low_byte_first(s, at + 388);
    bytes::law_low_byte_first(s, at + 400);
    let mac = s.subrange(at + 408, at + 414);
    let zeros = seq![0u8, 0u8, 0u8, 0u8, 0u8, 0u8];
    if forall|i: int| at + 408 <= i < at + 414 ==> #[trigger] s[i] == 0 {
        assert(mac =~= zeros);
    }
    if mac == zeros {
        assert forall|i: int| at + 408 <= i < at + 414 implies #[trigger] s[i] == 0 by {
            assert(mac[i - at - 408] == s[i]);
        }
    }
}

/// A list of sources is read exactly when it is long enough for its count and its
/// pointers, and each pointer leads to an entry inside it.
pub proof fn law_which_source_lists_are_read(s: Seq<u8>, base: int)
    requires
        base + s.len() <= u64::MAX,
    ensures
        ({
            let count = bytes::little_endian(s, 0, 4) as int;
            list_fault(s, base) is None <==> {
                &&& s.len() >= 8
                &&& s.len() >= 8 + 8 * count
                &&& forall|i: int|
                    0 <= i < count ==> base <= #[trigger] list_pointer(s, i) && list_pointer(s, i)
                        + 424 <= base + s.len()
            }
        }),
{
    let count = bytes::little_endian(s, 0, 4) as int;
    lemma_entry_faults(s, base, 0, count);
}

proof fn lemma_entry_faults(s: Seq<u8>, base: int, from: int, count: int)
    requires
        base + s.len() <= u64::MAX,
    ensures
        entry_fault(s, base, from, count) is None <==> forall|i: int|
            from <= i < count ==> base <= #[trigger] list_pointer(s, i) && list_pointer(s, i) + 424
                <= base + s.len(),
    decreases count - from,
{
    if from < count {
        lemma_entry_faults(s, base, from + 1, count);
        if entry_fault(s, base, from, count) is None {
            assert forall|i: int| from <= i < count implies base <= #[trigger] list_pointer(s, i)
                && list_pointer(s, i) + 424 <= base + s.len() by {}
        } else {
            if forall|i: int|
                from <= i < count ==> base <= #[trigger] list_pointer(s, i) && list_pointer(s, i)
                    + 424 <= base + s.len() {
                assert(base <= list_pointer(s, from));
            }
        }
    }
}

/// A source matches exactly when it is there and has the adapter's MAC; the count of the
/// matches is zero exactly when none does.
pub proof fn law_which_sources_match(s: Seq<SourceView>, mac: Seq<u8>, i: int)
    requires
        0 <= i < s.len(),
    ensures
        source_matches(s[i], mac) <==> s[i].is_present && s[i].mac == Some(mac),
        match_count(s, mac, s.len() as int) == 0 <==> forall|k: int|
            0 <= k < s.len() ==> !(#[trigger] s[k]).is_present || s[k].mac != Some(mac),
        match_count(s, mac, s.len() as int) <= s.len(),
{
    lemma_no_match(s, mac, s.len() as int);
}

proof fn lemma_no_match(s: Seq<SourceView>, mac: Seq<u8>, n: int)
    requires
        0 <= n <= s.len(),
    ensures
        match_count(s, mac, n) == 0 <==> forall|k: int|
            0 <= k < n ==> !(#[trigger] s[k]).is_present || s[k].mac != Some(mac),
        match_count(s, mac, n) <= n,
    decreases n,
{
    if n > 0 {
        lemma_no_match(s, mac, n - 1);
    }
}

/// The capture takes frames of the EtherType 0x0806: the constraint names it at 146, the
/// low byte first, marks it as set at 128, and is zero elsewhere.
pub proof fn law_what_the_constraint_says(i: int)
    requires
        0 <= i < 216,
    ensures
        arp_constraint().len() == 216,
        arp_constraint()[146] + 256 * arp_constraint()[147] == 0x0806,
        arp_constraint()[128] == 8,
        i != 128 && i != 146 && i != 147 ==> arp_constraint()[i] == 0,
{
}

/// The layout of a source's entry: each part follows the one before it.
pub proof fn law_layout_of_an_entry()
    ensures
        ({
            let l = DataSourceSpecification::pinned();
            &&& l.kind == 0
            &&& l.name == l.kind + 4
            &&& l.description == l.name + 2 * 64
            &&& l.id == l.description + 2 * 128
            &&& l.secondary_id == l.id + 4
            &&& l.parent_id == l.secondary_id + 4
            &&& l.is_present == l.parent_id + 4
            &&& l.detail == l.is_present + 8
        }),
{
}

/// Two surrogates that belong together are one character; one alone stands for an unknown
/// one.
pub proof fn law_surrogates_go_in_pairs(hi: u16, lo: u16)
    requires
        0xd800 <= hi <= 0xdbff,
        0xdc00 <= lo <= 0xdfff,
    ensures
        utf16(seq![hi, lo]) == seq![(0x10000 + (hi - 0xd800) * 0x400 + (lo - 0xdc00)) as char],
        utf16(seq![hi]) == seq!['\u{fffd}'],
        utf16(seq![lo]) == seq!['\u{fffd}'],
{
    assert(seq![hi, lo].skip(2) =~= Seq::empty());
    assert(seq![hi].skip(1) =~= Seq::empty());
    assert(seq![lo].skip(1) =~= Seq::empty());
    assert(utf16(Seq::<u16>::empty()) =~= Seq::<char>::empty());
    assert(utf16(seq![hi, lo]) =~= seq![
        (0x10000 + (hi - 0xd800) * 0x400 + (lo - 0xdc00)) as char,
    ]);
    assert(utf16(seq![hi]) =~= seq!['\u{fffd}']);
    assert(utf16(seq![lo]) =~= seq!['\u{fffd}']);
}

} // verus!
