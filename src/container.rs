//! The container file: a fixed header, the asset records, then the timeline
//! records, every integer little-endian.
use vstd::prelude::*;

use crate::asset::{Asset, AssetModel};
use crate::bytes::{
    le_bytes, le_value, lemma_le_bytes_len, lemma_le_round_trip, lemma_pow256_values, pow256, push_le,
    read_le,
};
use crate::timeline::TimelineEntry;

verus! {

/// The one format version this library reads and writes.
pub const VERSION: u16 = 1;

/// Bytes taken by the magic tag and the header fields.
pub const HEADER_LEN: usize = 38;

/// Bytes taken by an asset record before its payload.
pub const ASSET_PREFIX_LEN: usize = 16;

/// Bytes taken by a timeline record.
pub const ENTRY_LEN: usize = 32;

/// Why reading or writing a container failed.
#[derive(Debug, Clone, Copy, PartialEq, Eq, Structural)]
pub enum Error {
    /// The bytes end before the record that was being read.
    Truncated,
    /// The first four bytes are not the format's tag.
    InvalidMagic,
    /// The version field holds another value than the supported one.
    UnsupportedVersion(u16),
    InvalidAssetId(u32),
    InvalidTimelineEntry,
    /// No asset has this id.
    AssetNotFound(u32),
    /// The payload of the asset with this id does not fit a 4-byte length.
    AssetTooLarge(u32),
}

/// The fixed-size record at the start of a container.
#[derive(Debug, Clone, Copy, PartialEq, Eq, Structural)]
pub struct VaiHeader {
    pub version: u16,
    pub width: u32,
    pub height: u32,
    pub fps_num: u32,
    pub fps_den: u32,
    pub duration_ms: u64,
    pub num_assets: u32,
    pub num_timeline_entries: u32,
}

/// A header, the assets and the timeline.
pub struct VaiContainer {
    pub header: VaiHeader,
    pub assets: Vec<Asset>,
    pub timeline: Vec<TimelineEntry>,
}

/// What a [`VaiContainer`] holds, as mathematical values.
pub struct ContainerModel {
    pub header: VaiHeader,
    pub assets: Seq<AssetModel>,
    pub timeline: Seq<TimelineEntry>,
}

impl View for VaiContainer {
    type V = ContainerModel;

    open spec fn view(&self) -> ContainerModel {
        ContainerModel {
            header: self.header,
            assets: self.assets@.map_values(|a: Asset| a@),
            timeline: self.timeline@,
        }
    }
}

impl ContainerModel {
    /// The container can be written and read back: the header carries the
    /// supported version and the true counts, and every payload length fits
    /// its 4-byte field.
    pub open spec fn encodable(self) -> bool {
        &&& self.header.version == VERSION
        &&& self.header.num_assets == self.assets.len()
        &&& self.header.num_timeline_entries == self.timeline.len()
        &&& forall|i: int| 0 <= i < self.assets.len() ==> self.assets[i].data.len() <= u32::MAX
    }
}

/// The tag `"VAI\0"` that opens every container.
pub open spec fn magic() -> Seq<u8> {
    seq![0x56u8, 0x41u8, 0x49u8, 0x00u8]
}

pub open spec fn header_bytes(h: VaiHeader) -> Seq<u8> {
    magic() + le_bytes(h.version as nat, 2) + le_bytes(h.width as nat, 4) + le_bytes(
        h.height as nat,
        4,
    ) + le_bytes(h.fps_num as nat, 4) + le_bytes(h.fps_den as nat, 4) + le_bytes(
        h.duration_ms as nat,
        8,
    ) + le_bytes(h.num_assets as nat, 4) + le_bytes(h.num_timeline_entries as nat, 4)
}

pub open spec fn asset_bytes(a: AssetModel) -> Seq<u8> {
    le_bytes(a.id as nat, 4) + le_bytes(a.width as nat, 4) + le_bytes(a.height as nat, 4)
        + le_bytes(a.data.len(), 4) + a.data
}

pub open spec fn entry_bytes(e: TimelineEntry) -> Seq<u8> {
    le_bytes(e.asset_id as nat, 4) + le_bytes(e.start_time_ms as nat, 8) + le_bytes(
        e.end_time_ms as nat,
        8,
    ) + le_bytes(e.position_x as u32 as nat, 4) + le_bytes(e.position_y as u32 as nat, 4)
        + le_bytes(e.z_order as u32 as nat, 4)
}

pub open spec fn assets_bytes(s: Seq<AssetModel>) -> Seq<u8>
    decreases s.len(),
{
    if s.len() == 0 {
        seq![]
    } else {
        assets_bytes(s.drop_last()) + asset_bytes(s.last())
    }
}

pub open spec fn entries_bytes(s: Seq<TimelineEntry>) -> Seq<u8>
    decreases s.len(),
{
    if s.len() == 0 {
        seq![]
    } else {
        entries_bytes(s.drop_last()) + entry_bytes(s.last())
    }
}

/// The bytes that `write` produces for a container.
pub open spec fn container_bytes(c: ContainerModel) -> Seq<u8> {
    header_bytes(c.header) + assets_bytes(c.assets) + entries_bytes(c.timeline)
}

/// The `n`-byte little-endian field at `pos`.
pub open spec fn field(s: Seq<u8>, pos: int, n: nat) -> nat {
    le_value(s.subrange(pos, pos + n))
}

/// What reading the header from `s` gives: the tag is checked first, then
/// the version, and only then are the other fields taken.
pub open spec fn decode_header(s: Seq<u8>) -> Result<VaiHeader, Error> {
    if s.len() < 4 {
        Err(Error::Truncated)
    } else if s.subrange(0, 4) != magic() {
        Err(Error::InvalidMagic)
    } else if s.len() < 6 {
        Err(Error::Truncated)
    } else if field(s, 4, 2) != VERSION {
        Err(Error::UnsupportedVersion(field(s, 4, 2) as u16))
    } else if s.len() < HEADER_LEN {
        Err(Error::Truncated)
    } else {
        Ok(
            VaiHeader {
                version: VERSION,
                width: field(s, 6, 4) as u32,
                height: field(s, 10, 4) as u32,
                fps_num: field(s, 14, 4) as u32,
                fps_den: field(s, 18, 4) as u32,
                duration_ms: field(s, 22, 8) as u64,
                num_assets: field(s, 30, 4) as u32,
                num_timeline_entries: field(s, 34, 4) as u32,
            },
        )
    }
}

/// The asset record at `pos`, if the bytes hold all of it.
pub open spec fn decode_asset_at(s: Seq<u8>, pos: int) -> Option<AssetModel> {
    if pos + ASSET_PREFIX_LEN > s.len() {
        None
    } else if pos + ASSET_PREFIX_LEN + field(s, pos + 12, 4) > s.len() {
        None
    } else {
        Some(
            AssetModel {
                id: field(s, pos, 4) as u32,
                width: field(s, pos + 4, 4) as u32,
                height: field(s, pos + 8, 4) as u32,
                data: s.subrange(
                    pos + ASSET_PREFIX_LEN,
                    pos + ASSET_PREFIX_LEN + field(s, pos + 12, 4),
                ),
            },
        )
    }
}

/// Reads `n` more asset records from `pos` after those in `acc`; gives all
/// of them and the position after the last.
pub open spec fn decode_assets(s: Seq<u8>, pos: int, n: nat, acc: Seq<AssetModel>) -> Option<
    (Seq<AssetModel>, int),
>
    decreases n,
{
    if n == 0 {
        Some((acc, pos))
    } else {
        match decode_asset_at(s, pos) {
            None => None,
            Some(a) => decode_assets(
                s,
                pos + ASSET_PREFIX_LEN + a.data.len(),
                (n - 1) as nat,
                acc.push(a),
            ),
        }
    }
}

/// The timeline record at `pos`, if the bytes hold all of it.
pub open spec fn decode_entry_at(s: Seq<u8>, pos: int) -> Option<TimelineEntry> {
    if pos + ENTRY_LEN > s.len() {
        None
    } else {
        Some(
            TimelineEntry {
                asset_id: field(s, pos, 4) as u32,
                start_time_ms: field(s, pos + 4, 8) as u64,
                end_time_ms: field(s, pos + 12, 8) as u64,
                position_x: field(s, pos + 20, 4) as u32 as i32,
                position_y: field(s, pos + 24, 4) as u32 as i32,
                z_order: field(s, pos + 28, 4) as u32 as i32,
            },
        )
    }
}

/// Reads `n` more timeline records from `pos` after those in `acc`.
pub open spec fn decode_entries(
    s: Seq<u8>,
    pos: int,
    n: nat,
    acc: Seq<TimelineEntry>,
) -> Option<Seq<TimelineEntry>>
    decreases n,
{
    if n == 0 {
        Some(acc)
    } else {
        match decode_entry_at(s, pos) {
            None => None,
            Some(e) => decode_entries(s, pos + ENTRY_LEN, (n - 1) as nat, acc.push(e)),
        }
    }
}

/// What reading a container from `s` gives. Bytes after the last timeline
/// record are ignored.
pub open spec fn decode_container(s: Seq<u8>) -> Result<ContainerModel, Error> {
    match decode_header(s) {
        Err(e) => Err(e),
        Ok(h) => match decode_assets(s, HEADER_LEN as int, h.num_assets as nat, seq![]) {
            None => Err(Error::Truncated),
            Some((assets, pos)) => match decode_entries(
                s,
                pos,
                h.num_timeline_entries as nat,
                seq![],
            ) {
                None => Err(Error::Truncated),
                Some(timeline) => Ok(ContainerModel { header: h, assets, timeline }),
            },
        },
    }
}

impl VaiHeader {
    /// A header of the supported version.
    pub fn new(
        width: u32,
        height: u32,
        fps_num: u32,
        fps_den: u32,
        duration_ms: u64,
        num_assets: u32,
        num_timeline_entries: u32,
    ) -> (r: Self)
        ensures
            r == (VaiHeader {
                version: VERSION,
                width,
                height,
                fps_num,
                fps_den,
                duration_ms,
                num_assets,
                num_timeline_entries,
            }),
    {
        VaiHeader {
            version: VERSION,
            width,
            height,
            fps_num,
            fps_den,
            duration_ms,
            num_assets,
            num_timeline_entries,
        }
    }

    /// Reads the header at the start of `bytes`, checking the tag and then
    /// the version before any other field.
    pub fn read(bytes: &[u8]) -> (r: Result<Self, Error>)
        ensures
            r == decode_header(bytes@),
    {
        let len = bytes.len();
        if len < 4 {
            return Err(Error::Truncated);
        }
        if !(bytes[0] == 0x56 && bytes[1] == 0x41 && bytes[2] == 0x49 && bytes[3] == 0) {
            proof {
                if bytes@.subrange(0, 4) == magic() {
                    assert(bytes@.subrange(0, 4)[1] == bytes@[1]);
                }
            }
            return Err(Error::InvalidMagic);
        }
        assert(bytes@.subrange(0, 4) =~= magic());
        if len < 6 {
            return Err(Error::Truncated);
        }
        let version = read_le(bytes, 4, 2);
        proof {
            crate::bytes::lemma_le_value_bound(bytes@.subrange(4, 6));
            crate::bytes::lemma_pow256_values();
        }
        if version != VERSION as u64 {
            return Err(Error::UnsupportedVersion(version as u16));
        }
        if len < HEADER_LEN {
            return Err(Error::Truncated);
        }
        proof {
            crate::bytes::lemma_pow256_values();
            crate::bytes::lemma_le_value_bound(bytes@.subrange(6, 10));
        }
        Ok(
            VaiHeader {
                version: VERSION,
                width: read_le(bytes, 6, 4) as u32,
                height: read_le(bytes, 10, 4) as u32,
                fps_num: read_le(bytes, 14, 4) as u32,
                fps_den: read_le(bytes, 18, 4) as u32,
                duration_ms: read_le(bytes, 22, 8),
                num_assets: read_le(bytes, 30, 4) as u32,
                num_timeline_entries: read_le(bytes, 34, 4) as u32,
            },
        )
    }

    /// Appends the tag and the header fields.
    pub fn write(&self, out: &mut Vec<u8>)
        ensures
            final(out)@ == old(out)@ + header_bytes(*self),
    {
        out.push(0x56);
        out.push(0x41);
        out.push(0x49);
        out.push(0);
        assert(out@ =~= old(out)@ + magic());
        push_le(out, self.version as u64, 2);
        push_le(out, self.width as u64, 4);
        push_le(out, self.height as u64, 4);
        push_le(out, self.fps_num as u64, 4);
        push_le(out, self.fps_den as u64, 4);
        push_le(out, self.duration_ms, 8);
        push_le(out, self.num_assets as u64, 4);
        push_le(out, self.num_timeline_entries as u64, 4);
        assert(out@ =~= old(out)@ + header_bytes(*self));
    }
}

/// Entries shown at time `t`.
pub open spec fn active_at(t: u64) -> spec_fn(TimelineEntry) -> bool {
    |e: TimelineEntry| e.active_at(t)
}

/// Entries on layer `z`.
pub open spec fn on_layer(z: i32) -> spec_fn(TimelineEntry) -> bool {
    |e: TimelineEntry| e.z_order == z
}

pub open spec fn sorted_by_layer(s: Seq<TimelineEntry>) -> bool {
    forall|i: int, j: int| 0 <= i < j < s.len() ==> s[i].z_order <= s[j].z_order
}

/// `r` is `s` sorted by ascending layer, entries of one layer in the order
/// they have in `s`.
pub open spec fn stable_sorted_by_layer(r: Seq<TimelineEntry>, s: Seq<TimelineEntry>) -> bool {
    &&& sorted_by_layer(r)
    &&& forall|z: i32| #[trigger] r.filter(on_layer(z)) == s.filter(on_layer(z))
}

proof fn lemma_filter_single(e: TimelineEntry, z: i32)
    ensures
        seq![e].filter(on_layer(z)) == (if e.z_order == z {
            seq![e]
        } else {
            Seq::<TimelineEntry>::empty()
        }),
{
    reveal(Seq::filter);
    assert(seq![e].drop_last() =~= Seq::<TimelineEntry>::empty());
    assert(Seq::<TimelineEntry>::empty().filter(on_layer(z)) =~= Seq::<TimelineEntry>::empty());
    assert(Seq::<TimelineEntry>::empty().push(e) =~= seq![e]);
}

/// Putting `e` in front of the first entry of a higher layer keeps a
/// sequence sorted, and adds `e` at the end of its own layer.
proof fn lemma_insert_by_layer(r: Seq<TimelineEntry>, p: int, e: TimelineEntry)
    requires
        sorted_by_layer(r),
        0 <= p <= r.len(),
        forall|j: int| 0 <= j < p ==> r[j].z_order <= e.z_order,
        forall|j: int| p <= j < r.len() ==> r[j].z_order > e.z_order,
    ensures
        sorted_by_layer(r.insert(p, e)),
        forall|z: i32|
            #[trigger] r.insert(p, e).filter(on_layer(z)) == (if e.z_order == z {
                r.filter(on_layer(z)).push(e)
            } else {
                r.filter(on_layer(z))
            }),
{
    let a = r.take(p);
    let b = r.skip(p);
    assert(r =~= a + b);
    assert(r.insert(p, e) =~= a + seq![e] + b);
    assert forall|z: i32|
        #[trigger] r.insert(p, e).filter(on_layer(z)) == (if e.z_order == z {
            r.filter(on_layer(z)).push(e)
        } else {
            r.filter(on_layer(z))
        }) by {
        Seq::filter_distributes_over_add(a, b, on_layer(z));
        Seq::filter_distributes_over_add(a + seq![e], b, on_layer(z));
        Seq::filter_distributes_over_add(a, seq![e], on_layer(z));
        lemma_filter_single(e, z);
        if e.z_order == z {
            assert(b.all(|x: TimelineEntry| !on_layer(z)(x)));
            b.lemma_all_neg_filter_empty(on_layer(z));
            assert(b.filter(on_layer(z)) =~= Seq::<TimelineEntry>::empty());
            assert(a.filter(on_layer(z)) + seq![e] + b.filter(on_layer(z)) =~= (a.filter(
                on_layer(z),
            ) + b.filter(on_layer(z))).push(e));
        } else {
            assert(a.filter(on_layer(z)) + Seq::<TimelineEntry>::empty() =~= a.filter(on_layer(z)));
        }
    }
}

proof fn lemma_filter_take_step(s: Seq<TimelineEntry>, i: int, f: spec_fn(TimelineEntry) -> bool)
    requires
        0 <= i < s.len(),
    ensures
        s.take(i + 1).filter(f) == (if f(s[i]) {
            s.take(i).filter(f).push(s[i])
        } else {
            s.take(i).filter(f)
        }),
{
    reveal(Seq::filter);
    assert(s.take(i + 1).drop_last() =~= s.take(i));
}


proof fn lemma_field_of(s: Seq<u8>, pos: int, v: nat, n: nat)
    requires
        0 <= pos,
        pos + n <= s.len(),
        s.subrange(pos, pos + n) == le_bytes(v, n),
        v < pow256(n),
    ensures
        field(s, pos, n) == v,
{
    lemma_le_round_trip(v, n);
}

proof fn lemma_signed_round_trip(x: i32)
    ensures
        (x as u32) as i32 == x,
{
    assert((x as u32) as i32 == x) by (bit_vector);
}

proof fn lemma_header_decodes(h: VaiHeader, rest: Seq<u8>)
    requires
        h.version == VERSION,
    ensures
        header_bytes(h).len() == HEADER_LEN,
        decode_header(header_bytes(h) + rest) == Ok::<VaiHeader, Error>(h),
{
    lemma_pow256_values();
    lemma_le_bytes_len(h.version as nat, 2);
    lemma_le_bytes_len(h.width as nat, 4);
    lemma_le_bytes_len(h.height as nat, 4);
    lemma_le_bytes_len(h.fps_num as nat, 4);
    lemma_le_bytes_len(h.fps_den as nat, 4);
    lemma_le_bytes_len(h.duration_ms as nat, 8);
    lemma_le_bytes_len(h.num_assets as nat, 4);
    lemma_le_bytes_len(h.num_timeline_entries as nat, 4);
    let s = header_bytes(h) + rest;
    assert(s.subrange(0, 4) =~= magic());
    assert(s.subrange(4, 6) =~= le_bytes(h.version as nat, 2));
    assert(s.subrange(6, 10) =~= le_bytes(h.width as nat, 4));
    assert(s.subrange(10, 14) =~= le_bytes(h.height as nat, 4));
    assert(s.subrange(14, 18) =~= le_bytes(h.fps_num as nat, 4));
    assert(s.subrange(18, 22) =~= le_bytes(h.fps_den as nat, 4));
    assert(s.subrange(22, 30) =~= le_bytes(h.duration_ms as nat, 8));
    assert(s.subrange(30, 34) =~= le_bytes(h.num_assets as nat, 4));
    assert(s.subrange(34, 38) =~= le_bytes(h.num_timeline_entries as nat, 4));
    lemma_field_of(s, 4, h.version as nat, 2);
    lemma_field_of(s, 6, h.width as nat, 4);
    lemma_field_of(s, 10, h.height as nat, 4);
    lemma_field_of(s, 14, h.fps_num as nat, 4);
    lemma_field_of(s, 18, h.fps_den as nat, 4);
    lemma_field_of(s, 22, h.duration_ms as nat, 8);
    lemma_field_of(s, 30, h.num_assets as nat, 4);
    lemma_field_of(s, 34, h.num_timeline_entries as nat, 4);
}

proof fn lemma_asset_decodes(s: Seq<u8>, pos: int, a: AssetModel)
    requires
        0 <= pos,
        a.data.len() <= u32::MAX,
        pos + asset_bytes(a).len() <= s.len(),
        s.subrange(pos, pos + asset_bytes(a).len()) == asset_bytes(a),
    ensures
        asset_bytes(a).len() == ASSET_PREFIX_LEN + a.data.len(),
        decode_asset_at(s, pos) == Some(a),
{
    lemma_pow256_values();
    lemma_le_bytes_len(a.id as nat, 4);
    lemma_le_bytes_len(a.width as nat, 4);
    lemma_le_bytes_len(a.height as nat, 4);
    lemma_le_bytes_len(a.data.len(), 4);
    let b = asset_bytes(a);
    assert(s.subrange(pos, pos + 4) =~= b.subrange(0, 4));
    assert(s.subrange(pos + 4, pos + 8) =~= b.subrange(4, 8));
    assert(s.subrange(pos + 8, pos + 12) =~= b.subrange(8, 12));
    assert(s.subrange(pos + 12, pos + 16) =~= b.subrange(12, 16));
    assert(b.subrange(0, 4) =~= le_bytes(a.id as nat, 4));
    assert(b.subrange(4, 8) =~= le_bytes(a.width as nat, 4));
    assert(b.subrange(8, 12) =~= le_bytes(a.height as nat, 4));
    assert(b.subrange(12, 16) =~= le_bytes(a.data.len(), 4));
    lemma_field_of(s, pos, a.id as nat, 4);
    lemma_field_of(s, pos + 4, a.width as nat, 4);
    lemma_field_of(s, pos + 8, a.height as nat, 4);
    lemma_field_of(s, pos + 12, a.data.len(), 4);
    assert(b.subrange(16, 16 + a.data.len() as int) =~= a.data);
    assert(s.subrange(pos + 16, pos + 16 + a.data.len()) =~= b.subrange(16, 16 + a.data.len() as int));
}

proof fn lemma_entry_decodes(s: Seq<u8>, pos: int, e: TimelineEntry)
    requires
        0 <= pos,
        pos + ENTRY_LEN <= s.len(),
        s.subrange(pos, pos + ENTRY_LEN) == entry_bytes(e),
    ensures
        decode_entry_at(s, pos) == Some(e),
{
    lemma_pow256_values();
    lemma_le_bytes_len(e.asset_id as nat, 4);
    lemma_le_bytes_len(e.start_time_ms as nat, 8);
    lemma_le_bytes_len(e.end_time_ms as nat, 8);
    lemma_le_bytes_len(e.position_x as u32 as nat, 4);
    lemma_le_bytes_len(e.position_y as u32 as nat, 4);
    lemma_le_bytes_len(e.z_order as u32 as nat, 4);
    let b = entry_bytes(e);
    assert(s.subrange(pos, pos + 4) =~= b.subrange(0, 4));
    assert(s.subrange(pos + 4, pos + 12) =~= b.subrange(4, 12));
    assert(s.subrange(pos + 12, pos + 20) =~= b.subrange(12, 20));
    assert(s.subrange(pos + 20, pos + 24) =~= b.subrange(20, 24));
    assert(s.subrange(pos + 24, pos + 28) =~= b.subrange(24, 28));
    assert(s.subrange(pos + 28, pos + 32) =~= b.subrange(28, 32));
    assert(b.subrange(0, 4) =~= le_bytes(e.asset_id as nat, 4));
    assert(b.subrange(4, 12) =~= le_bytes(e.start_time_ms as nat, 8));
    assert(b.subrange(12, 20) =~= le_bytes(e.end_time_ms as nat, 8));
    assert(b.subrange(20, 24) =~= le_bytes(e.position_x as u32 as nat, 4));
    assert(b.subrange(24, 28) =~= le_bytes(e.position_y as u32 as nat, 4));
    assert(b.subrange(28, 32) =~= le_bytes(e.z_order as u32 as nat, 4));
    lemma_field_of(s, pos, e.asset_id as nat, 4);
    lemma_field_of(s, pos + 4, e.start_time_ms as nat, 8);
    lemma_field_of(s, pos + 12, e.end_time_ms as nat, 8);
    lemma_field_of(s, pos + 20, e.position_x as u32 as nat, 4);
    lemma_field_of(s, pos + 24, e.position_y as u32 as nat, 4);
    lemma_field_of(s, pos + 28, e.z_order as u32 as nat, 4);
    lemma_signed_round_trip(e.position_x);
    lemma_signed_round_trip(e.position_y);
    lemma_signed_round_trip(e.z_order);
}

proof fn lemma_entry_len(e: TimelineEntry)
    ensures
        entry_bytes(e).len() == ENTRY_LEN,
{
    lemma_le_bytes_len(e.asset_id as nat, 4);
    lemma_le_bytes_len(e.start_time_ms as nat, 8);
    lemma_le_bytes_len(e.end_time_ms as nat, 8);
    lemma_le_bytes_len(e.position_x as u32 as nat, 4);
    lemma_le_bytes_len(e.position_y as u32 as nat, 4);
    lemma_le_bytes_len(e.z_order as u32 as nat, 4);
}

/// The records of the first `j` assets are a prefix of the records of all.
proof fn lemma_assets_prefix(s: Seq<AssetModel>, j: int)
    requires
        0 <= j <= s.len(),
    ensures
        assets_bytes(s.take(j)).len() <= assets_bytes(s).len(),
        assets_bytes(s).subrange(0, assets_bytes(s.take(j)).len() as int) == assets_bytes(s.take(j)),
    decreases s.len(),
{
    if j == s.len() {
        assert(s.take(j) =~= s);
        assert(assets_bytes(s).subrange(0, assets_bytes(s).len() as int) =~= assets_bytes(s));
    } else {
        let d = s.drop_last();
        assert(s.take(j) =~= d.take(j));
        lemma_assets_prefix(d, j);
        let p = assets_bytes(s.take(j));
        assert(assets_bytes(s).subrange(0, p.len() as int) =~= assets_bytes(d).subrange(
            0,
            p.len() as int,
        ));
    }
}

proof fn lemma_entries_prefix(s: Seq<TimelineEntry>, j: int)
    requires
        0 <= j <= s.len(),
    ensures
        entries_bytes(s.take(j)).len() == ENTRY_LEN * j,
        entries_bytes(s).len() == ENTRY_LEN * s.len(),
        entries_bytes(s).subrange(0, ENTRY_LEN * j) == entries_bytes(s.take(j)),
    decreases s.len(),
{
    if s.len() > 0 {
        lemma_entry_len(s.last());
    }
    if j == s.len() {
        assert(s.take(j) =~= s);
        if s.len() > 0 {
            lemma_entries_prefix(s.drop_last(), j - 1);
            assert(s.drop_last().take(j - 1) =~= s.drop_last());
        }
        assert(entries_bytes(s).subrange(0, ENTRY_LEN * j) =~= entries_bytes(s));
    } else {
        let d = s.drop_last();
        assert(s.take(j) =~= d.take(j));
        lemma_entries_prefix(d, j);
        assert(entries_bytes(s).subrange(0, ENTRY_LEN * j) =~= entries_bytes(d).subrange(
            0,
            ENTRY_LEN * j,
        ));
    }
}

proof fn lemma_assets_decode(
    s: Seq<u8>,
    base: int,
    all: Seq<AssetModel>,
    i: int,
)
    requires
        0 <= base,
        0 <= i <= all.len(),
        forall|k: int| 0 <= k < all.len() ==> all[k].data.len() <= u32::MAX,
        base + assets_bytes(all).len() <= s.len(),
        s.subrange(base, base + assets_bytes(all).len()) == assets_bytes(all),
    ensures
        decode_assets(
            s,
            base + assets_bytes(all.take(i)).len(),
            (all.len() - i) as nat,
            all.take(i),
        ) == Some((all, base + assets_bytes(all).len())),
    decreases all.len() - i,
{
    if i == all.len() {
        assert(all.take(i) =~= all);
    } else {
        let a = all[i];
        let before = assets_bytes(all.take(i));
        let upto = assets_bytes(all.take(i + 1));
        assert(all.take(i + 1).drop_last() =~= all.take(i));
        assert(upto == before + asset_bytes(a));
        lemma_assets_prefix(all, i + 1);
        let pos = base + before.len();
        assert(s.subrange(pos, pos + asset_bytes(a).len()) =~= upto.subrange(
            before.len() as int,
            upto.len() as int,
        ));
        assert(upto.subrange(before.len() as int, upto.len() as int) =~= asset_bytes(a));
        lemma_asset_decodes(s, pos, a);
        assert(all.take(i).push(a) =~= all.take(i + 1));
        lemma_assets_decode(s, base, all, i + 1);
    }
}

proof fn lemma_entries_decode(s: Seq<u8>, base: int, all: Seq<TimelineEntry>, i: int)
    requires
        0 <= base,
        0 <= i <= all.len(),
        base + ENTRY_LEN * all.len() <= s.len(),
        s.subrange(base, base + ENTRY_LEN * all.len()) == entries_bytes(all),
    ensures
        decode_entries(s, base + ENTRY_LEN * i, (all.len() - i) as nat, all.take(i)) == Some(
            all,
        ),
    decreases all.len() - i,
{
    if i == all.len() {
        assert(all.take(i) =~= all);
    } else {
        let e = all[i];
        lemma_entries_prefix(all, i + 1);
        lemma_entries_prefix(all, i);
        assert(all.take(i + 1).drop_last() =~= all.take(i));
        let upto = entries_bytes(all.take(i + 1));
        assert(upto == entries_bytes(all.take(i)) + entry_bytes(e));
        let pos = base + ENTRY_LEN * i;
        assert(s.subrange(pos, pos + ENTRY_LEN) =~= upto.subrange(ENTRY_LEN * i, ENTRY_LEN * (i + 1)));
        lemma_entry_len(e);
        assert(upto.subrange(ENTRY_LEN * i, ENTRY_LEN * (i + 1)) =~= entry_bytes(e));
        lemma_entry_decodes(s, pos, e);
        assert(all.take(i).push(e) =~= all.take(i + 1));
        assert(base + ENTRY_LEN * i + ENTRY_LEN == base + ENTRY_LEN * (i + 1));
        lemma_entries_decode(s, base, all, i + 1);
    }
}

/// Writing a container that can be encoded and reading the bytes back,
/// whatever follows them, gives the same header, assets and timeline.
pub proof fn lemma_write_then_read(c: ContainerModel, rest: Seq<u8>)
    requires
        c.encodable(),
    ensures
        decode_container(container_bytes(c) + rest) == Ok::<ContainerModel, Error>(c),
{
    let h = header_bytes(c.header);
    let ab = assets_bytes(c.assets);
    let eb = entries_bytes(c.timeline);
    let s = container_bytes(c) + rest;
    lemma_header_decodes(c.header, ab + eb + rest);
    assert(s =~= h + (ab + eb + rest));
    assert(s.subrange(HEADER_LEN as int, HEADER_LEN + ab.len()) =~= ab);
    assert(c.assets.take(0) =~= Seq::<AssetModel>::empty());
    lemma_assets_decode(s, HEADER_LEN as int, c.assets, 0);
    lemma_entries_prefix(c.timeline, 0);
    let base = HEADER_LEN + ab.len();
    assert(s.subrange(base, base + eb.len()) =~= eb);
    assert(c.timeline.take(0) =~= Seq::<TimelineEntry>::empty());
    lemma_entries_decode(s, base, c.timeline, 0);
}

/// Bytes that do not open with the tag are refused as such, before any
/// other field is read.
pub proof fn lemma_bad_magic_rejected(s: Seq<u8>)
    requires
        s.len() >= 4,
        s.subrange(0, 4) != magic(),
    ensures
        decode_container(s) == Err::<ContainerModel, Error>(Error::InvalidMagic),
{
}

/// Bytes with the tag and another version than the supported one are
/// refused with that version.
pub proof fn lemma_bad_version_rejected(s: Seq<u8>)
    requires
        s.len() >= 6,
        s.subrange(0, 4) == magic(),
        field(s, 4, 2) != VERSION,
    ensures
        decode_container(s) == Err::<ContainerModel, Error>(
            Error::UnsupportedVersion(field(s, 4, 2) as u16),
        ),
{
}

/// The 32-bit two's-complement number with the bits of `v`.
pub(crate) fn signed(v: u32) -> (r: i32)
    ensures
        r == v as i32,
{
    #[verifier::truncate]
    (v as i32)
}

/// Copies `s[start..end]` into a new vector.
fn copy_range(s: &[u8], start: usize, end: usize) -> (r: Vec<u8>)
    requires
        start <= end <= s@.len(),
    ensures
        r@ == s@.subrange(start as int, end as int),
{
    let mut r: Vec<u8> = Vec::new();
    let mut j: usize = start;
    while j < end
        invariant
            start <= j <= end <= s@.len(),
            r@ == s@.subrange(start as int, j as int),
        decreases end - j,
    {
        r.push(s[j]);
        assert(r@ =~= s@.subrange(start as int, j + 1));
        j = j + 1;
    }
    r
}

impl VaiContainer {
    pub fn new(header: VaiHeader, assets: Vec<Asset>, timeline: Vec<TimelineEntry>) -> (r: Self)
        ensures
            r.header == header,
            r.assets@ == assets@,
            r.timeline@ == timeline@,
    {
        VaiContainer { header, assets, timeline }
    }

    /// Reads a container from the start of `bytes`. The tag and the version
    /// are checked before anything else is trusted; a record that runs past
    /// the end gives `Truncated`.
    pub fn read(bytes: &[u8]) -> (r: Result<VaiContainer, Error>)
        ensures
            match r {
                Ok(c) => decode_container(bytes@) == Ok::<ContainerModel, Error>(c@),
                Err(e) => decode_container(bytes@) == Err::<ContainerModel, Error>(e),
            },
    {
        let header = match VaiHeader::read(bytes) {
            Ok(h) => h,
            Err(e) => {
                return Err(e);
            },
        };
        let ghost s = bytes@;
        let len = bytes.len();
        let mut assets: Vec<Asset> = Vec::new();
        let mut pos: usize = HEADER_LEN;
        let mut k: u32 = 0;
        assert(assets@.map_values(|a: Asset| a@) =~= Seq::<AssetModel>::empty());
        while k < header.num_assets
            invariant
                s == bytes@,
                len == s.len(),
                HEADER_LEN <= pos <= len,
                k <= header.num_assets,
                decode_header(s) == Ok::<VaiHeader, Error>(header),
                decode_assets(s, HEADER_LEN as int, header.num_assets as nat, seq![])
                    == decode_assets(
                    s,
                    pos as int,
                    (header.num_assets - k) as nat,
                    assets@.map_values(|a: Asset| a@),
                ),
            decreases header.num_assets - k,
        {
            if len - pos < ASSET_PREFIX_LEN {
                return Err(Error::Truncated);
            }
            let data_len = read_le(bytes, pos + 12, 4);
            if data_len > (len - pos - ASSET_PREFIX_LEN) as u64 {
                return Err(Error::Truncated);
            }
            proof {
                crate::bytes::lemma_pow256_values();
                crate::bytes::lemma_le_value_bound(s.subrange(pos as int, pos + 4));
                crate::bytes::lemma_le_value_bound(s.subrange(pos + 4, pos + 8));
                crate::bytes::lemma_le_value_bound(s.subrange(pos + 8, pos + 12));
            }
            let start = pos + ASSET_PREFIX_LEN;
            let end = start + data_len as usize;
            let data = copy_range(bytes, start, end);
            let asset = Asset::new(
                read_le(bytes, pos, 4) as u32,
                read_le(bytes, pos + 4, 4) as u32,
                read_le(bytes, pos + 8, 4) as u32,
                data,
            );
            let ghost before = assets@;
            assets.push(asset);
            proof {
                assert(assets@.map_values(|a: Asset| a@) =~= before.map_values(|a: Asset| a@).push(
                    asset@,
                ));
            }
            pos = end;
            k = k + 1;
        }
        let mut timeline: Vec<TimelineEntry> = Vec::new();
        let mut k: u32 = 0;
        assert(timeline@ =~= Seq::<TimelineEntry>::empty());
        while k < header.num_timeline_entries
            invariant
                s == bytes@,
                len == s.len(),
                pos <= len,
                k <= header.num_timeline_entries,
                decode_entries(s, pos as int, header.num_timeline_entries as nat, seq![])
                    == decode_entries(
                    s,
                    (pos + k * ENTRY_LEN) as int,
                    (header.num_timeline_entries - k) as nat,
                    timeline@,
                ),
                pos + k * ENTRY_LEN <= len,
                decode_header(s) == Ok::<VaiHeader, Error>(header),
                decode_assets(s, HEADER_LEN as int, header.num_assets as nat, seq![]) == Some(
                    (assets@.map_values(|a: Asset| a@), pos as int),
                ),
            decreases header.num_timeline_entries - k,
        {
            let at = pos + k as usize * ENTRY_LEN;
            if len - at < ENTRY_LEN {
                return Err(Error::Truncated);
            }
            proof {
                crate::bytes::lemma_pow256_values();
                crate::bytes::lemma_le_value_bound(s.subrange(at as int, at + 4));
                crate::bytes::lemma_le_value_bound(s.subrange(at + 20, at + 24));
                crate::bytes::lemma_le_value_bound(s.subrange(at + 24, at + 28));
                crate::bytes::lemma_le_value_bound(s.subrange(at + 28, at + 32));
            }
            let entry = TimelineEntry::new(
                read_le(bytes, at, 4) as u32,
                read_le(bytes, at + 4, 8),
                read_le(bytes, at + 12, 8),
                signed(read_le(bytes, at + 20, 4) as u32),
                signed(read_le(bytes, at + 24, 4) as u32),
                signed(read_le(bytes, at + 28, 4) as u32),
            );
            timeline.push(entry);
            k = k + 1;
        }
        Ok(VaiContainer { header, assets, timeline })
    }

    /// Appends the container's bytes. Fails, writing nothing, when a payload
    /// is too long for its 4-byte length field.
    pub fn write(&self, out: &mut Vec<u8>) -> (r: Result<(), Error>)
        ensures
            r is Ok <==> forall|i: int|
                0 <= i < self.assets@.len() ==> self.assets@[i].data@.len() <= u32::MAX,
            r is Ok ==> final(out)@ == old(out)@ + container_bytes(self@),
            r is Err ==> final(out)@ == old(out)@ && exists|i: int|
                0 <= i < self.assets@.len() && self.assets@[i].data@.len() > u32::MAX && r
                    == Err::<(), Error>(Error::AssetTooLarge(self.assets@[i].id)),
    {
        let mut i: usize = 0;
        while i < self.assets.len()
            invariant
                i <= self.assets@.len(),
                forall|j: int| 0 <= j < i ==> self.assets@[j].data@.len() <= u32::MAX,
            decreases self.assets@.len() - i,
        {
            if self.assets[i].data.len() > u32::MAX as usize {
                return Err(Error::AssetTooLarge(self.assets[i].id));
            }
            i = i + 1;
        }
        self.header.write(out);
        let ghost views = self@.assets;
        let mut i: usize = 0;
        while i < self.assets.len()
            invariant
                i <= self.assets@.len(),
                views == self@.assets,
                forall|j: int| 0 <= j < self.assets@.len() ==> self.assets@[j].data@.len() <= u32::MAX,
                out@ == old(out)@ + header_bytes(self.header) + assets_bytes(views.take(i as int)),
            decreases self.assets@.len() - i,
        {
            let asset = &self.assets[i];
            let ghost before = out@;
            push_le(out, asset.id as u64, 4);
            push_le(out, asset.width as u64, 4);
            push_le(out, asset.height as u64, 4);
            push_le(out, asset.data.len() as u64, 4);
            let mut j: usize = 0;
            while j < asset.data.len()
                invariant
                    j <= asset.data@.len(),
                    out@ == before + le_bytes(asset.id as nat, 4) + le_bytes(asset.width as nat, 4)
                        + le_bytes(asset.height as nat, 4) + le_bytes(asset.data@.len(), 4)
                        + asset.data@.take(j as int),
                decreases asset.data@.len() - j,
            {
                out.push(asset.data[j]);
                proof {
                    assert(asset.data@.take(j + 1) =~= asset.data@.take(j as int).push(asset.data@[j as int]));
                }
                j = j + 1;
            }
            proof {
                assert(asset.data@.take(j as int) =~= asset.data@);
                assert(views.take(i + 1).drop_last() =~= views.take(i as int));
                assert(views.take(i + 1).last() == asset@);
                assert(out@ =~= old(out)@ + header_bytes(self.header) + assets_bytes(views.take(i + 1)));
            }
            i = i + 1;
        }
        assert(views.take(i as int) =~= views);
        let ghost mid = out@;
        let mut i: usize = 0;
        while i < self.timeline.len()
            invariant
                i <= self.timeline@.len(),
                mid == old(out)@ + header_bytes(self.header) + assets_bytes(views),
                out@ == mid + entries_bytes(self.timeline@.take(i as int)),
            decreases self.timeline@.len() - i,
        {
            let e = self.timeline[i];
            push_le(out, e.asset_id as u64, 4);
            push_le(out, e.start_time_ms, 8);
            push_le(out, e.end_time_ms, 8);
            push_le(out, e.position_x as u32 as u64, 4);
            push_le(out, e.position_y as u32 as u64, 4);
            push_le(out, e.z_order as u32 as u64, 4);
            proof {
                assert(self.timeline@.take(i + 1).drop_last() =~= self.timeline@.take(i as int));
                assert(out@ =~= mid + entries_bytes(self.timeline@.take(i + 1)));
            }
            i = i + 1;
        }
        assert(self.timeline@.take(i as int) =~= self.timeline@);
        Ok(())
    }

    /// The first asset with the given id.
    pub fn get_asset(&self, id: u32) -> (r: Option<&Asset>)
        ensures
            r is None <==> forall|i: int| 0 <= i < self.assets@.len() ==> self.assets@[i].id != id,
            r is Some ==> exists|i: int|
                0 <= i < self.assets@.len() && self.assets@[i].id == id && r.unwrap()
                    == &self.assets@[i] && forall|j: int| 0 <= j < i ==> self.assets@[j].id != id,
    {
        let mut i: usize = 0;
        while i < self.assets.len()
            invariant
                i <= self.assets@.len(),
                forall|j: int| 0 <= j < i ==> self.assets@[j].id != id,
            decreases self.assets@.len() - i,
        {
            if self.assets[i].id == id {
                return Some(&self.assets[i]);
            }
            i = i + 1;
        }
        None
    }

    /// The entries shown at `timestamp_ms`, sorted by ascending layer so
    /// that they can be drawn back to front; entries of one layer keep
    /// their timeline order.
    pub fn get_active_entries(&self, timestamp_ms: u64) -> (r: Vec<TimelineEntry>)
        ensures
            stable_sorted_by_layer(r@, self.timeline@.filter(active_at(timestamp_ms))),
    {
        let ghost tl = self.timeline@;
        let mut active: Vec<TimelineEntry> = Vec::new();
        let mut i: usize = 0;
        proof {
            reveal(Seq::filter);
            assert(tl.take(0) =~= Seq::<TimelineEntry>::empty());
        }
        while i < self.timeline.len()
            invariant
                tl == self.timeline@,
                i <= tl.len(),
                active@ == tl.take(i as int).filter(active_at(timestamp_ms)),
            decreases tl.len() - i,
        {
            proof {
                lemma_filter_take_step(tl, i as int, active_at(timestamp_ms));
            }
            if self.timeline[i].is_active(timestamp_ms) {
                active.push(self.timeline[i]);
            }
            i = i + 1;
        }
        assert(tl.take(i as int) =~= tl);
        let mut sorted: Vec<TimelineEntry> = Vec::new();
        let mut k: usize = 0;
        proof {
            reveal(Seq::filter);
            assert(active@.take(0) =~= Seq::<TimelineEntry>::empty());
        }
        while k < active.len()
            invariant
                k <= active@.len(),
                sorted_by_layer(sorted@),
                forall|z: i32| #[trigger]
                    sorted@.filter(on_layer(z)) == active@.take(k as int).filter(on_layer(z)),
            decreases active@.len() - k,
        {
            let e = active[k];
            let mut p: usize = 0;
            while p < sorted.len() && sorted[p].z_order <= e.z_order
                invariant
                    p <= sorted@.len(),
                    forall|j: int| 0 <= j < p ==> sorted@[j].z_order <= e.z_order,
                decreases sorted@.len() - p,
            {
                p = p + 1;
            }
            proof {
                lemma_insert_by_layer(sorted@, p as int, e);
                assert forall|z: i32| #[trigger]
                    active@.take(k + 1).filter(on_layer(z)) == (if e.z_order == z {
                        active@.take(k as int).filter(on_layer(z)).push(e)
                    } else {
                        active@.take(k as int).filter(on_layer(z))
                    }) by {
                    lemma_filter_take_step(active@, k as int, on_layer(z));
                }
            }
            sorted.insert(p, e);
            k = k + 1;
        }
        assert(active@.take(k as int) =~= active@);
        sorted
    }
}

} // verus!
