//! Wraps a raw AV1 bitstream of one intra frame in a minimal single-image
//! AVIF file: a file-type box, a metadata box and a media-data box holding
//! the bitstream unchanged.
use vstd::prelude::*;

verus! {

/// The four bytes of `v`, most significant first.
pub open spec fn be32(v: u32) -> Seq<u8> {
    seq![
        (v / 0x100_0000) as u8,
        ((v / 0x1_0000) % 256) as u8,
        ((v / 256) % 256) as u8,
        (v % 256) as u8,
    ]
}

/// The two bytes of `v`, most significant first.
pub open spec fn be16(v: u16) -> Seq<u8> {
    seq![(v / 256) as u8, (v % 256) as u8]
}

/// The number whose big-endian bytes are the four at `pos`.
pub open spec fn be32_at(s: Seq<u8>, pos: int) -> nat {
    s[pos] as nat * 0x100_0000 + s[pos + 1] as nat * 0x1_0000 + s[pos + 2] as nat * 256
        + s[pos + 3] as nat
}

/// A box: its 32-bit size, its type and its body.
pub open spec fn box_bytes(kind: Seq<u8>, body: Seq<u8>) -> Seq<u8> {
    be32((8 + body.len()) as u32) + kind + body
}

/// A full box: a box whose body starts with a version byte and 24 bits of
/// flags.
pub open spec fn fullbox_bytes(kind: Seq<u8>, version: u8, flags: u32, body: Seq<u8>) -> Seq<u8> {
    be32((12 + body.len()) as u32) + kind + be32(
        (version as nat * 0x100_0000 + flags % 0x100_0000) as u32,
    ) + body
}

pub open spec fn zeros(n: nat) -> Seq<u8> {
    Seq::new(n, |i: int| 0u8)
}

/// The file-type box: brand `avif`, compatible with `avif` and `mif1`.
pub open spec fn ftyp_box() -> Seq<u8> {
    box_bytes(
        seq![0x66u8, 0x74, 0x79, 0x70],
        seq![0x61u8, 0x76, 0x69, 0x66] + be32(0) + seq![0x61u8, 0x76, 0x69, 0x66] + seq![
            0x6du8,
            0x69,
            0x66,
            0x31,
        ],
    )
}

/// Handler box: a picture item.
pub open spec fn hdlr_box() -> Seq<u8> {
    fullbox_bytes(
        seq![0x68u8, 0x64, 0x6c, 0x72],
        0,
        0,
        be32(0) + seq![0x70u8, 0x69, 0x63, 0x74] + zeros(12) + seq![0u8],
    )
}

/// Primary item box: item 1.
pub open spec fn pitm_box() -> Seq<u8> {
    fullbox_bytes(seq![0x70u8, 0x69, 0x74, 0x6d], 0, 0, be16(1))
}

/// Item info box with one entry: item 1 of type `av01`.
pub open spec fn iinf_box() -> Seq<u8> {
    fullbox_bytes(
        seq![0x69u8, 0x69, 0x6e, 0x66],
        0,
        0,
        be16(1) + fullbox_bytes(
            seq![0x69u8, 0x6e, 0x66, 0x65],
            2,
            0,
            be16(1) + be16(0) + seq![0x61u8, 0x76, 0x30, 0x31] + seq![0u8],
        ),
    )
}

/// Item properties: extents, codec configuration and pixel information,
/// and their association with item 1.
pub open spec fn iprp_box(data: Seq<u8>, width: u32, height: u32) -> Seq<u8> {
    box_bytes(
        seq![0x69u8, 0x70, 0x72, 0x70],
        box_bytes(
            seq![0x69u8, 0x70, 0x63, 0x6f],
            fullbox_bytes(seq![0x69u8, 0x73, 0x70, 0x65], 0, 0, be32(width) + be32(height))
                + box_bytes(seq![0x61u8, 0x76, 0x31, 0x43], av1c_record(data)) + fullbox_bytes(
                seq![0x70u8, 0x69, 0x78, 0x69],
                0,
                0,
                seq![3u8, 8, 8, 8],
            ),
        ) + fullbox_bytes(
            seq![0x69u8, 0x70, 0x6d, 0x61],
            0,
            0,
            be32(1) + be16(1) + seq![3u8, 0x81, 0x82, 3],
        ),
    )
}

/// Item location box: item 1 is one extent of `length` bytes at `offset`
/// from the start of the file.
pub open spec fn iloc_box(offset: u32, length: u32) -> Seq<u8> {
    fullbox_bytes(
        seq![0x69u8, 0x6c, 0x6f, 0x63],
        0,
        0,
        seq![0x44u8, 0x00] + be16(1) + be16(1) + be16(0) + be16(1) + be32(offset) + be32(length),
    )
}

/// The sub-boxes of the metadata box, the payload said to be at `offset`.
pub open spec fn meta_inner_at(data: Seq<u8>, width: u32, height: u32, offset: u32) -> Seq<u8> {
    hdlr_box() + pitm_box() + iinf_box() + iprp_box(data, width, height) + iloc_box(
        offset,
        data.len() as u32,
    )
}

/// Where the bitstream starts in the file: after the file-type box, the
/// metadata box and the media-data box's header.
pub open spec fn payload_offset(data: Seq<u8>, width: u32, height: u32) -> nat {
    ftyp_box().len() + 12 + meta_inner_at(data, width, height, 0).len() + 8
}

/// The sub-boxes of the metadata box, pointing at the payload.
#[verifier::opaque]
pub open spec fn meta_inner(data: Seq<u8>, width: u32, height: u32) -> Seq<u8> {
    meta_inner_at(data, width, height, payload_offset(data, width, height) as u32)
}

/// The whole file.
pub open spec fn avif_bytes(data: Seq<u8>, width: u32, height: u32) -> Seq<u8> {
    ftyp_box() + fullbox_bytes(seq![0x6du8, 0x65, 0x74, 0x61], 0, 0, meta_inner(data, width, height))
        + box_bytes(seq![0x6du8, 0x64, 0x61, 0x74], data)
}

/// Value and length of the LEB128 number at the start of `d`, which ends at
/// the first byte below 128 among the first eight.
pub open spec fn leb128(d: Seq<u8>) -> Option<(nat, nat)> {
    leb128_from(d, 0)
}

pub open spec fn leb128_from(d: Seq<u8>, k: nat) -> Option<(nat, nat)>
    decreases 8 - k,
{
    if k >= 8 || k >= d.len() {
        None
    } else if d[k as int] < 128 {
        Some((leb128_sum(d, k + 1), k + 1))
    } else {
        leb128_from(d, k + 1)
    }
}

pub open spec fn pow128(n: nat) -> nat
    decreases n,
{
    if n == 0 {
        1
    } else {
        128 * pow128((n - 1) as nat)
    }
}

/// The low seven bits of the first `n` bytes, least significant group first.
pub open spec fn leb128_sum(d: Seq<u8>, n: nat) -> nat
    decreases n,
{
    if n == 0 {
        0
    } else {
        leb128_sum(d, (n - 1) as nat) + (d[n - 1] % 128) as nat * pow128((n - 1) as nat)
    }
}

/// Scans the OBUs from `i` for the first sequence header, and gives the
/// profile and level of a reduced still-picture header; a header of the
/// full layout gives the defaults, profile 0 and level 0. `None` when no sequence header is found or a size field is
/// malformed.
pub open spec fn seq_header_from(d: Seq<u8>, i: int) -> Option<(u8, u8)>
    decreases d.len() - i,
{
    if i < 0 || i >= d.len() {
        None
    } else {
        let head = d[i];
        let obu_type = (head / 8) % 16;
        let j = if (head / 4) % 2 == 1 && i + 1 < d.len() {
            i + 2
        } else {
            i + 1
        };
        let sized: Option<(int, int)> = if (head / 2) % 2 == 1 {
            match leb128(d.subrange(j, d.len() as int)) {
                None => None,
                Some((size, used)) => Some((size as int, j + used)),
            }
        } else {
            Some((d.len() - j, j))
        };
        match sized {
            None => None,
            Some((size, k)) => if obu_type == 1 {
                if k + 1 < d.len() {
                    let first = d[k];
                    if (first / 8) % 2 == 1 {
                        Some((((first / 32) % 8) as u8, ((first % 8) * 4 + d[k + 1] / 64) as u8))
                    } else {
                        Some((0u8, 0u8))
                    }
                } else {
                    None
                }
            } else if k + size <= i || k + size >= d.len() {
                None
            } else {
                seq_header_from(d, k + size)
            },
        }
    }
}

/// The codec-configuration record: profile and level of the first
/// sequence header when it is a reduced still-picture header, otherwise
/// profile 0 and level 0.
pub open spec fn av1c_record(data: Seq<u8>) -> Seq<u8> {
    let (profile, level) = match seq_header_from(data, 0) {
        Some(p) => p,
        None => (0u8, 0u8),
    };
    seq![0x81u8, (profile as nat * 32 + level as nat % 32) as u8, 0x06u8, 0x00u8]
}

fn push_be32(out: &mut Vec<u8>, v: u32)
    ensures
        final(out)@ == old(out)@ + be32(v),
{
    out.push((v / 0x100_0000) as u8);
    out.push(((v / 0x1_0000) % 256) as u8);
    out.push(((v / 256) % 256) as u8);
    out.push((v % 256) as u8);
    assert(out@ =~= old(out)@ + be32(v));
}

fn push_be16(out: &mut Vec<u8>, v: u16)
    ensures
        final(out)@ == old(out)@ + be16(v),
{
    out.push((v / 256) as u8);
    out.push((v % 256) as u8);
    assert(out@ =~= old(out)@ + be16(v));
}

fn append(out: &mut Vec<u8>, s: &[u8])
    ensures
        final(out)@ == old(out)@ + s@,
{
    let mut i: usize = 0;
    while i < s.len()
        invariant
            i <= s@.len(),
            out@ == old(out)@ + s@.take(i as int),
        decreases s@.len() - i,
    {
        out.push(s[i]);
        assert(s@.take(i + 1) =~= s@.take(i as int).push(s@[i as int]));
        i = i + 1;
    }
    assert(s@.take(i as int) =~= s@);
}

/// Appends a box of the given type around `body`.
fn write_box(out: &mut Vec<u8>, box_type: &[u8; 4], body: &[u8])
    requires
        8 + body@.len() <= u32::MAX,
    ensures
        final(out)@ == old(out)@ + box_bytes(box_type@, body@),
{
    push_be32(out, (8 + body.len()) as u32);
    append(out, box_type);
    append(out, body);
    assert(out@ =~= old(out)@ + box_bytes(box_type@, body@));
}

/// Appends a full box of the given type, version and flags around `body`.
fn write_fullbox(out: &mut Vec<u8>, box_type: &[u8; 4], version: u8, flags: u32, body: &[u8])
    requires
        12 + body@.len() <= u32::MAX,
    ensures
        final(out)@ == old(out)@ + fullbox_bytes(box_type@, version, flags, body@),
{
    push_be32(out, (12 + body.len()) as u32);
    append(out, box_type);
    push_be32(out, (version as u32) * 0x100_0000 + flags % 0x100_0000);
    append(out, body);
    assert(out@ =~= old(out)@ + fullbox_bytes(box_type@, version, flags, body@));
}

proof fn lemma_pow128_step(n: nat)
    ensures
        pow128(n + 1) == 128 * pow128(n),
        pow128(n) >= 1,
    decreases n,
{
    if n > 0 {
        lemma_pow128_step((n - 1) as nat);
    }
}

proof fn lemma_pow128_monotone(m: nat, n: nat)
    requires
        m <= n,
    ensures
        pow128(m) <= pow128(n),
    decreases n,
{
    if m < n {
        lemma_pow128_monotone(m, (n - 1) as nat);
        lemma_pow128_step((n - 1) as nat);
    }
}

proof fn lemma_leb128_sum_bound(d: Seq<u8>, n: nat)
    requires
        n <= d.len(),
    ensures
        leb128_sum(d, n) < pow128(n),
    decreases n,
{
    lemma_pow128_step(n);
    if n > 0 {
        let m = (n - 1) as nat;
        lemma_leb128_sum_bound(d, m);
        lemma_pow128_step(m);
        let a = leb128_sum(d, m);
        let b = (d[m as int] % 128) as nat;
        let p = pow128(m);
        assert(a + b * p < 128 * p) by (nonlinear_arith)
            requires
                a < p,
                b < 128,
        ;
    }
}

proof fn lemma_leb128_from_len(d: Seq<u8>, k: nat)
    ensures
        leb128_from(d, k) matches Some((v, n)) ==> 1 <= n <= d.len() && n <= 8,
    decreases 8 - k,
{
    if k < 8 && k < d.len() && d[k as int] >= 128 {
        lemma_leb128_from_len(d, k + 1);
    }
}

/// Reads the LEB128 number at the start of `data`: its value and how many
/// bytes it took.
fn read_leb128(data: &[u8]) -> (r: Option<(u64, usize)>)
    ensures
        match r {
            None => leb128(data@) is None,
            Some((v, n)) => leb128(data@) == Some((v as nat, n as nat)),
        },
{
    let mut value: u64 = 0;
    let mut mult: u64 = 1;
    let mut k: usize = 0;
    proof {
        reveal_with_fuel(pow128, 9);
    }
    while k < 8 && k < data.len()
        invariant
            k <= 8,
            value as nat == leb128_sum(data@, k as nat),
            mult as nat == pow128(k as nat),
            leb128(data@) == leb128_from(data@, k as nat),
            pow128(8) == 0x100_0000_0000_0000,
        decreases 8 - k,
    {
        let byte = data[k];
        proof {
            lemma_leb128_sum_bound(data@, (k + 1) as nat);
            lemma_pow128_step(k as nat);
            lemma_pow128_step((k + 1) as nat);
            lemma_pow128_monotone((k + 1) as nat, 8);
        }
        value = value + (byte % 128) as u64 * mult;
        mult = mult * 128;
        k = k + 1;
        if byte < 128 {
            return Some((value, k));
        }
    }
    None
}

/// Profile and level of the first sequence header OBU in `data`.
fn parse_seq_header_simple(data: &[u8]) -> (r: Option<(u8, u8)>)
    ensures
        r == seq_header_from(data@, 0),
{
    let len = data.len();
    if len == 0 {
        return None;
    }
    let mut i: usize = 0;
    while i < len
        invariant
            len == data@.len(),
            i <= len,
            seq_header_from(data@, 0) == seq_header_from(data@, i as int),
        decreases len - i,
    {
        let head = data[i];
        let obu_type = (head / 8) % 16;
        let mut j = i + 1;
        if (head / 4) % 2 == 1 && j < len {
            j = j + 1;
        }
        let size: u64;
        let k: usize;
        if (head / 2) % 2 == 1 {
            let rest = vstd::slice::slice_subrange(data, j, len);
            match read_leb128(rest) {
                None => {
                    return None;
                },
                Some((sz, used)) => {
                    proof {
                        lemma_leb128_from_len(rest@, 0);
                    }
                    size = sz;
                    k = j + used;
                },
            }
        } else {
            size = (len - j) as u64;
            k = j;
        }
        if obu_type == 1 {
            if len - k > 1 {
                let first = data[k];
                if (first / 8) % 2 == 1 {
                    return Some(((first / 32) % 8, (first % 8) * 4 + data[k + 1] / 64));
                } else {
                    return Some((0, 0));
                }
            }
            return None;
        }
        if size >= (len - k) as u64 {
            return None;
        }
        i = k + size as usize;
    }
    None
}

/// The codec-configuration record for `av1_data`.
fn build_av1c(av1_data: &[u8]) -> (r: Vec<u8>)
    ensures
        r@ == av1c_record(av1_data@),
{
    let (profile, level) = match parse_seq_header_simple(av1_data) {
        Some(p) => p,
        None => (0u8, 0u8),
    };
    proof {
        reveal_with_fuel(seq_header_from, 1);
    }
    let mut av1c: Vec<u8> = Vec::new();
    av1c.push(0x81);
    av1c.push(#[verifier::truncate] ((profile as u32 * 32 + (level % 32) as u32) as u8));
    av1c.push(0x06);
    av1c.push(0x00);
    assert(av1c@ =~= av1c_record(av1_data@));
    av1c
}

/// The file-type box.
fn build_ftyp() -> (r: Vec<u8>)
    ensures
        r@ == ftyp_box(),
{
    let mut body: Vec<u8> = Vec::new();
    append(&mut body, &[0x61, 0x76, 0x69, 0x66]);  // "avif"
    push_be32(&mut body, 0);
    append(&mut body, &[0x61, 0x76, 0x69, 0x66]);  // "avif"
    append(&mut body, &[0x6d, 0x69, 0x66, 0x31]);  // "mif1"
    let mut out: Vec<u8> = Vec::new();
    write_box(&mut out, &[0x66, 0x74, 0x79, 0x70], &body);  // "ftyp"
    assert(out@ =~= ftyp_box());
    out
}

/// The sub-boxes of the metadata box. The item-location box is written with
/// a placeholder offset, which is overwritten once the size of the metadata
/// box, and so the offset of the payload, is known.
fn build_meta_inner(av1_data: &[u8], width: u32, height: u32) -> (r: Vec<u8>)
    ensures
        r@ == meta_inner(av1_data@, width, height),
        r@.len() == 198,
{
    let mut inner: Vec<u8> = Vec::new();

    let mut hdlr: Vec<u8> = Vec::new();
    push_be32(&mut hdlr, 0);
    append(&mut hdlr, &[0x70, 0x69, 0x63, 0x74]);  // "pict"
    append(&mut hdlr, &[0u8; 12]);
    hdlr.push(0);
    assert(hdlr@ =~= be32(0) + seq![0x70u8, 0x69, 0x63, 0x74] + zeros(12) + seq![0u8]);
    write_fullbox(&mut inner, &[0x68, 0x64, 0x6c, 0x72], 0, 0, &hdlr);  // "hdlr"

    let mut pitm: Vec<u8> = Vec::new();
    push_be16(&mut pitm, 1);
    write_fullbox(&mut inner, &[0x70, 0x69, 0x74, 0x6d], 0, 0, &pitm);  // "pitm"

    let mut infe_body: Vec<u8> = Vec::new();
    push_be16(&mut infe_body, 1);
    push_be16(&mut infe_body, 0);
    append(&mut infe_body, &[0x61, 0x76, 0x30, 0x31]);  // "av01"
    infe_body.push(0);
    let mut iinf_body: Vec<u8> = Vec::new();
    push_be16(&mut iinf_body, 1);
    write_fullbox(&mut iinf_body, &[0x69, 0x6e, 0x66, 0x65], 2, 0, &infe_body);  // "infe"
    write_fullbox(&mut inner, &[0x69, 0x69, 0x6e, 0x66], 0, 0, &iinf_body);  // "iinf"

    let mut ipco: Vec<u8> = Vec::new();
    let mut ispe: Vec<u8> = Vec::new();
    push_be32(&mut ispe, width);
    push_be32(&mut ispe, height);
    write_fullbox(&mut ipco, &[0x69, 0x73, 0x70, 0x65], 0, 0, &ispe);  // "ispe"
    let av1c = build_av1c(av1_data);
    write_box(&mut ipco, &[0x61, 0x76, 0x31, 0x43], &av1c);  // "av1C"
    write_fullbox(&mut ipco, &[0x70, 0x69, 0x78, 0x69], 0, 0, &[3, 8, 8, 8]);  // "pixi"
    let mut iprp: Vec<u8> = Vec::new();
    write_box(&mut iprp, &[0x69, 0x70, 0x63, 0x6f], &ipco);  // "ipco"
    let mut ipma: Vec<u8> = Vec::new();
    push_be32(&mut ipma, 1);
    push_be16(&mut ipma, 1);
    append(&mut ipma, &[3, 0x81, 0x82, 3]);
    write_fullbox(&mut iprp, &[0x69, 0x70, 0x6d, 0x61], 0, 0, &ipma);  // "ipma"
    write_box(&mut inner, &[0x69, 0x70, 0x72, 0x70], &iprp);  // "iprp"

    let mut iloc: Vec<u8> = Vec::new();
    append(&mut iloc, &[0x44, 0x00]);
    push_be16(&mut iloc, 1);
    push_be16(&mut iloc, 1);
    push_be16(&mut iloc, 0);
    push_be16(&mut iloc, 1);
    let extent_offset_pos = iloc.len();
    push_be32(&mut iloc, 0);
    push_be32(&mut iloc, #[verifier::truncate] (av1_data.len() as u32));
    write_fullbox(&mut inner, &[0x69, 0x6c, 0x6f, 0x63], 0, 0, &iloc);  // "iloc"
    assert(inner@ =~= meta_inner_at(av1_data@, width, height, 0));

    let ftyp_len: usize = 24;
    let mdat_payload_offset = ftyp_len + 12 + inner.len() + 8;
    proof {
        assert(ftyp_box().len() == 24);
    }
    let offset = mdat_payload_offset as u32;
    let patch_pos = inner.len() - (12 + iloc.len()) + 12 + extent_offset_pos;
    inner[patch_pos] = (offset / 0x100_0000) as u8;
    inner[patch_pos + 1] = ((offset / 0x1_0000) % 256) as u8;
    inner[patch_pos + 2] = ((offset / 256) % 256) as u8;
    inner[patch_pos + 3] = (offset % 256) as u8;
    assert(inner@ =~= meta_inner_at(av1_data@, width, height, offset));
    proof {
        reveal(meta_inner);
    }
    inner
}

/// The AVIF file holding `av1_data`, an intra frame of the given size.
pub fn wrap_av1_in_avif(av1_data: &[u8], width: u32, height: u32) -> (r: Vec<u8>)
    requires
        8 + av1_data@.len() <= u32::MAX,
    ensures
        r@ == avif_bytes(av1_data@, width, height),
{
    let mut out = build_ftyp();
    let meta_inner = build_meta_inner(av1_data, width, height);
    write_fullbox(&mut out, &[0x6d, 0x65, 0x74, 0x61], 0, 0, &meta_inner);  // "meta"
    write_box(&mut out, &[0x6d, 0x64, 0x61, 0x74], av1_data);  // "mdat"
    out
}

proof fn lemma_be32_value(v: u32)
    ensures
        be32_at(be32(v), 0) == v,
{
    let a = v / 0x100_0000;
    let b = (v / 0x1_0000) % 256;
    let c = (v / 256) % 256;
    let d = v % 256;
    assert(a * 0x100_0000 + b * 0x1_0000 + c * 256 + d == v) by (bit_vector)
        requires
            a == v / 0x100_0000,
            b == (v / 0x1_0000) % 256,
            c == (v / 256) % 256,
            d == v % 256,
    ;
}

proof fn lemma_meta_inner_facts(data: Seq<u8>, width: u32, height: u32)
    ensures
        meta_inner(data, width, height).len() == 198,
        meta_inner(data, width, height).subrange(190, 194) == be32(242),
{
    reveal(meta_inner);
    let inner = meta_inner(data, width, height);
    assert(payload_offset(data, width, height) == 242);
    assert(inner.subrange(190, 194) =~= be32(242));
}

/// Where the item-location box's extent offset sits in the file.
pub open spec fn iloc_offset_field() -> int {
    226
}

/// The three top-level boxes fill the file exactly, and the offset that
/// the item-location box records points at the first byte of the media
/// data payload, which is the bitstream unchanged.
pub proof fn lemma_avif_layout(data: Seq<u8>, width: u32, height: u32)
    requires
        8 + data.len() <= u32::MAX,
    ensures
        ({
            let out = avif_bytes(data, width, height);
            let ftyp = be32_at(out, 0);
            let meta = be32_at(out, ftyp as int);
            let mdat = be32_at(out, (ftyp + meta) as int);
            &&& ftyp == 24
            &&& mdat == 8 + data.len()
            &&& ftyp + meta + mdat == out.len()
            &&& be32_at(out, iloc_offset_field()) == ftyp + meta + 8
            &&& out.subrange((ftyp + meta + 8) as int, out.len() as int) == data
        }),
{
    let out = avif_bytes(data, width, height);
    let inner = meta_inner(data, width, height);
    lemma_meta_inner_facts(data, width, height);
    assert(ftyp_box().len() == 24);
    let meta_box = fullbox_bytes(seq![0x6du8, 0x65, 0x74, 0x61], 0, 0, inner);
    let mdat_box = box_bytes(seq![0x6du8, 0x64, 0x61, 0x74], data);
    assert(meta_box.len() == 210);
    assert(out == ftyp_box() + meta_box + mdat_box);
    lemma_be32_value(24);
    lemma_be32_value(210);
    lemma_be32_value((8 + data.len()) as u32);
    assert(out.subrange(0, 4) =~= be32(24));
    assert(be32_at(out, 0) == be32_at(be32(24), 0));
    assert(out.subrange(24, 28) =~= be32(210));
    assert(be32_at(out, 24) == be32_at(be32(210), 0));
    assert(out.subrange(234, 238) =~= be32((8 + data.len()) as u32));
    assert(be32_at(out, 234) == be32_at(be32((8 + data.len()) as u32), 0));
    lemma_be32_value(242);
    assert(out.subrange(226, 230) =~= inner.subrange(190, 194));
    assert(be32_at(out, 226) == be32_at(be32(242), 0));
    assert(out.subrange(242, out.len() as int) =~= data);
}

} // verus!
