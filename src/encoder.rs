//! The chunked encoder: backgrounds of every scene first, then the changed
//! area of every other frame, buffered in chunks of bounded size whose
//! frames are compared and encoded in partitions that may run in parallel.
use vstd::prelude::*;

use crate::asset::{Asset, AssetModel};
use crate::container::{VaiContainer, VaiHeader, VERSION};
use crate::frame::{crop_pixels, RgbaFrame};
use crate::regions::{diff_box, find_diff_regions, DiffRegion, EncoderConfig};
use crate::segmenter::SceneSegment;
use crate::timeline::TimelineEntry;

verus! {

/// Why encoding failed.
#[derive(Debug, Clone, PartialEq, Eq)]
pub enum EncodeError {
    /// The still-image encoder refused an image; its message.
    AvifEncode(String),
    InvalidVideo,
    NoVideoStream,
}

/// The AVIF file that the still-image encoder makes of an RGBA image at a
/// quality (on its 1 to 100 scale) with a number of worker threads, which
/// sets how the image is split into tiles.
pub uninterp spec fn avif_encoding(
    pixels: Seq<u8>,
    width: u32,
    height: u32,
    quality: u8,
    threads: usize,
) -> Seq<u8>;

/// Relies on ravif's `Encoder::encode_rgba` (speed 4, the same quality for
/// colour and alpha, `threads` worker threads): on success its
/// `avif_file`, which depends on the pixels, the size, the quality and the
/// thread count alone; on failure the error's debug text. `with_quality`
/// and `with_alpha_quality` panic outside 1 to 100, `with_num_threads` on
/// zero threads and `Img::new` on a zero width.
#[verifier::external_body]
fn ravif_encode(pixels: &[u8], width: u32, height: u32, quality: u8, threads: usize) -> (r: Result<
    Vec<u8>,
    String,
>)
    requires
        width > 0,
        height > 0,
        pixels@.len() == width * height * 4,
        1 <= quality <= 100,
        threads > 0,
    ensures
        r matches Ok(v) ==> v@ == avif_encoding(pixels@, width, height, quality, threads),
{
    let px: Vec<ravif::RGBA8> = pixels.chunks_exact(4).map(
        |p| ravif::RGBA8::new(p[0], p[1], p[2], p[3]),
    ).collect();
    let img = ravif::Img::new(px.as_slice(), width as usize, height as usize);
    let encoder = ravif::Encoder::new().with_quality(quality.into()).with_speed(4).with_alpha_quality(
        quality.into(),
    ).with_num_threads(Some(threads));
    match encoder.encode_rgba(img) {
        Ok(encoded) => Ok(encoded.avif_file),
        Err(e) => Err(format!("{:?}", e)),
    }
}

/// A quality on the 0 to 100 scale as the still-image encoder takes it, on
/// 1 to 100: 0 becomes 1, anything above 100 becomes 100.
pub open spec fn encoder_quality(quality: u8) -> u8 {
    if quality < 1 {
        1
    } else if quality > 100 {
        100
    } else {
        quality
    }
}

pub fn to_encoder_quality(quality: u8) -> (r: u8)
    ensures
        r == encoder_quality(quality),
{
    if quality < 1 {
        1
    } else if quality > 100 {
        100
    } else {
        quality
    }
}

/// What the still-image encoder gave, as this library's result: its bytes,
/// or its message as an `AvifEncode` error.
pub fn encoder_result(r: Result<Vec<u8>, String>) -> (out: Result<Vec<u8>, EncodeError>)
    ensures
        r matches Ok(v) ==> out matches Ok(w) && w@ == v@,
        r matches Err(m) ==> out matches Err(e) && e == EncodeError::AvifEncode(m),
{
    match r {
        Ok(v) => Ok(v),
        Err(msg) => Err(EncodeError::AvifEncode(msg)),
    }
}

/// Encodes an image as AVIF at `quality` (0 to 100) with `threads` worker
/// threads.
pub fn encode_avif(image: &RgbaFrame, quality: u8, threads: usize) -> (r: Result<
    Vec<u8>,
    EncodeError,
>)
    requires
        image.wf(),
        image.width > 0,
        image.height > 0,
        threads > 0,
    ensures
        r matches Ok(v) ==> v@ == avif_encoding(
            image.pixels@,
            image.width,
            image.height,
            encoder_quality(quality),
            threads,
        ),
        r matches Err(e) ==> e is AvifEncode,
{
    let q = to_encoder_quality(quality);
    encoder_result(ravif_encode(image.pixels.as_slice(), image.width, image.height, q, threads))
}

/// Encodes the background of every scene, in scene order; the first
/// failure of the still-image encoder ends the work.
pub fn encode_backgrounds(segments: &[SceneSegment], quality: u8, threads: usize) -> (r: Result<
    Vec<Vec<u8>>,
    EncodeError,
>)
    requires
        threads > 0,
        forall|k: int|
            0 <= k < segments@.len() ==> (#[trigger] segments@[k]).background.wf()
                && segments@[k].background.width > 0 && segments@[k].background.height > 0,
    ensures
        segments@.len() == 0 ==> r is Ok,
        r matches Ok(v) ==> v@.len() == segments@.len() && forall|k: int|
            0 <= k < v@.len() ==> (#[trigger] v@[k])@ == avif_encoding(
                segments@[k].background.pixels@,
                segments@[k].background.width,
                segments@[k].background.height,
                encoder_quality(quality),
                threads,
            ),
        r matches Err(e) ==> e is AvifEncode,
{
    let mut out: Vec<Vec<u8>> = Vec::new();
    let mut k: usize = 0;
    while k < segments.len()
        invariant
            threads > 0,
            k <= segments@.len(),
            out@.len() == k,
            forall|j: int|
                0 <= j < segments@.len() ==> (#[trigger] segments@[j]).background.wf()
                    && segments@[j].background.width > 0 && segments@[j].background.height > 0,
            forall|j: int|
                0 <= j < k ==> (#[trigger] out@[j])@ == avif_encoding(
                    segments@[j].background.pixels@,
                    segments@[j].background.width,
                    segments@[j].background.height,
                    encoder_quality(quality),
                    threads,
                ),
        decreases segments@.len() - k,
    {
        match encode_avif(&segments[k].background, quality, threads) {
            Ok(data) => out.push(data),
            Err(e) => {
                return Err(e);
            },
        }
        k = k + 1;
    }
    Ok(out)
}

/// Frames that `duration_ms` holds at `fps_num / fps_den` frames per
/// second, rounded up and capped at `u64::MAX`; with a zero denominator,
/// `u64::MAX` unless the numerator or the duration is zero.
pub open spec fn estimated_frame_count(duration_ms: u64, fps_num: u32, fps_den: u32) -> nat {
    let num = duration_ms * fps_num;
    let den = fps_den * 1000;
    if fps_den == 0 {
        if num > 0 {
            u64::MAX as nat
        } else {
            0
        }
    } else if (num + den - 1) / den > u64::MAX {
        u64::MAX as nat
    } else {
        ((num + den - 1) / den) as nat
    }
}

pub open spec fn cap(v: int) -> nat {
    if v > u64::MAX {
        u64::MAX as nat
    } else if v < 0 {
        0
    } else {
        v as nat
    }
}

/// When frame `index` starts: `duration_ms × index / estimated`, rounded
/// down.
pub open spec fn frame_start_ms(duration_ms: u64, estimated: u64, index: int) -> nat {
    if estimated == 0 {
        cap(index * duration_ms)
    } else {
        cap(index * duration_ms / estimated as int)
    }
}

/// How long one frame lasts, rounded down.
pub open spec fn frame_span_ms(duration_ms: u64, estimated: u64) -> nat {
    if estimated == 0 {
        duration_ms as nat
    } else {
        (duration_ms / estimated) as nat
    }
}

pub fn estimate_frame_count(duration_ms: u64, fps_num: u32, fps_den: u32) -> (r: u64)
    ensures
        r == estimated_frame_count(duration_ms, fps_num, fps_den),
{
    proof {
        assert(duration_ms * fps_num <= 0xFFFF_FFFF_FFFF_FFFF * 0xFFFF_FFFF) by (nonlinear_arith)
            requires
                duration_ms <= 0xFFFF_FFFF_FFFF_FFFF,
                fps_num <= 0xFFFF_FFFF,
        ;
    }
    let num: u128 = duration_ms as u128 * fps_num as u128;
    let den: u128 = fps_den as u128 * 1000;
    if fps_den == 0 {
        if num > 0 {
            u64::MAX
        } else {
            0
        }
    } else {
        let c = (num + den - 1) / den;
        if c > u64::MAX as u128 {
            u64::MAX
        } else {
            c as u64
        }
    }
}

pub fn frame_start(duration_ms: u64, estimated: u64, index: usize) -> (r: u64)
    ensures
        r == frame_start_ms(duration_ms, estimated, index as int),
{
    proof {
        assert(index * duration_ms <= 0xFFFF_FFFF_FFFF_FFFF * 0xFFFF_FFFF_FFFF_FFFF)
            by (nonlinear_arith)
            requires
                duration_ms <= 0xFFFF_FFFF_FFFF_FFFF,
                index <= 0xFFFF_FFFF_FFFF_FFFF,
        ;
        assert(index * duration_ms >= 0) by (nonlinear_arith)
            requires
                duration_ms >= 0,
                index >= 0,
        ;
    }
    let product: u128 = index as u128 * duration_ms as u128;
    let v = if estimated == 0 {
        product
    } else {
        product / estimated as u128
    };
    if v > u64::MAX as u128 {
        u64::MAX
    } else {
        v as u64
    }
}

/// A buffered frame: its index in the video, the scene it belongs to and
/// its pixels.
pub struct BufferedFrame {
    pub frame_index: usize,
    pub segment_index: usize,
    pub frame: RgbaFrame,
}

/// The scene's background can be compared with the frame.
pub open spec fn fits(bg: RgbaFrame, f: RgbaFrame) -> bool {
    bg.wf() && f.wf() && bg.width <= f.width && bg.height <= f.height
}

/// The frame's scene exists and its background can be compared with it.
pub open spec fn item_fits(item: BufferedFrame, segments: Seq<SceneSegment>) -> bool {
    item.segment_index < segments.len() && fits(segments[item.segment_index as int].background, item.frame)
}

/// A changed area found in a frame, as mathematical values.
pub struct RegionModel {
    pub frame_index: int,
    pub x: int,
    pub y: int,
    pub width: int,
    pub height: int,
    pub pixels: Seq<u8>,
}

/// The changed area of one buffered frame against its scene's background,
/// if any.
pub open spec fn item_regions(
    item: BufferedFrame,
    segments: Seq<SceneSegment>,
    config: EncoderConfig,
) -> Seq<RegionModel> {
    let bg = segments[item.segment_index as int].background;
    match diff_box(bg, item.frame, config.threshold, config.min_region_size) {
        None => seq![],
        Some(b) => seq![
            RegionModel {
                frame_index: item.frame_index as int,
                x: b.0,
                y: b.1,
                width: b.2 - b.0 + 1,
                height: b.3 - b.1 + 1,
                pixels: crop_pixels(item.frame, b.0, b.1, b.2 - b.0 + 1, b.3 - b.1 + 1),
            },
        ],
    }
}

/// The changed areas of buffered frames, in frame order.
pub open spec fn chunk_regions(
    items: Seq<BufferedFrame>,
    segments: Seq<SceneSegment>,
    config: EncoderConfig,
) -> Seq<RegionModel>
    decreases items.len(),
{
    if items.len() == 0 {
        seq![]
    } else {
        chunk_regions(items.drop_last(), segments, config) + item_regions(
            items.last(),
            segments,
            config,
        )
    }
}

pub open spec fn region_model(frame_index: usize, reg: DiffRegion) -> RegionModel {
    RegionModel {
        frame_index: frame_index as int,
        x: reg.x as int,
        y: reg.y as int,
        width: reg.image.width as int,
        height: reg.image.height as int,
        pixels: reg.image.pixels@,
    }
}

/// The changed areas of `items`, each with its frame index.
pub fn extract_regions(
    items: &[BufferedFrame],
    segments: &[SceneSegment],
    config: &EncoderConfig,
) -> (r: Vec<(usize, DiffRegion)>)
    requires
        forall|i: int| 0 <= i < items@.len() ==> item_fits(#[trigger] items@[i], segments@),
    ensures
        r@.map_values(|p: (usize, DiffRegion)| region_model(p.0, p.1)) == chunk_regions(
            items@,
            segments@,
            *config,
        ),
        forall|i: int|
            0 <= i < r@.len() ==> (#[trigger] r@[i]).1.image.wf() && r@[i].1.image.width > 0
                && r@[i].1.image.height > 0,
{
    let mut out: Vec<(usize, DiffRegion)> = Vec::new();
    let mut i: usize = 0;
    while i < items.len()
        invariant
            i <= items@.len(),
            forall|k: int| 0 <= k < items@.len() ==> item_fits(#[trigger] items@[k], segments@),
            out@.map_values(|p: (usize, DiffRegion)| region_model(p.0, p.1)) == chunk_regions(
                items@.take(i as int),
                segments@,
                *config,
            ),
            forall|k: int|
                0 <= k < out@.len() ==> (#[trigger] out@[k]).1.image.wf() && out@[k].1.image.width
                    > 0 && out@[k].1.image.height > 0,
        decreases items@.len() - i,
    {
        let item = &items[i];
        assert(item_fits(items@[i as int], segments@));
        let bg = &segments[item.segment_index].background;
        let found = find_diff_regions(config, bg, &item.frame);
        let ghost before = out@;
        proof {
            assert(items@.take(i + 1).drop_last() =~= items@.take(i as int));
            assert(items@.take(i + 1).last() == items@[i as int]);
        }
        match found {
            Some(reg) => {
                proof {
                    crate::regions::lemma_box_nonempty(reg, *bg, item.frame, config.threshold);
                }
                out.push((item.frame_index, reg));
                proof {
                    assert(out@.map_values(|p: (usize, DiffRegion)| region_model(p.0, p.1))
                        =~= before.map_values(|p: (usize, DiffRegion)| region_model(p.0, p.1))
                        + item_regions(items@[i as int], segments@, *config));
                }
            },
            None => {
                assert(item_regions(items@[i as int], segments@, *config) =~= Seq::<RegionModel>::empty());
                assert(chunk_regions(items@.take(i + 1), segments@, *config) =~= chunk_regions(
                    items@.take(i as int),
                    segments@,
                    *config,
                ) + Seq::<RegionModel>::empty());
            },
        }
        i = i + 1;
    }
    assert(items@.take(i as int) =~= items@);
    out
}

/// The changed areas of `a + b` are those of `a` followed by those of `b`.
pub proof fn lemma_chunk_regions_split(
    a: Seq<BufferedFrame>,
    b: Seq<BufferedFrame>,
    segments: Seq<SceneSegment>,
    config: EncoderConfig,
)
    ensures
        chunk_regions(a + b, segments, config) == chunk_regions(a, segments, config)
            + chunk_regions(b, segments, config),
    decreases b.len(),
{
    if b.len() == 0 {
        assert(a + b =~= a);
        assert(chunk_regions(a, segments, config) + chunk_regions(b, segments, config)
            =~= chunk_regions(a, segments, config));
    } else {
        lemma_chunk_regions_split(a, b.drop_last(), segments, config);
        assert((a + b).drop_last() =~= a + b.drop_last());
        assert((a + b).last() == b.last());
        assert(chunk_regions(a + b, segments, config) =~= chunk_regions(a, segments, config)
            + chunk_regions(b, segments, config));
    }
}

/// `cuts` splits `0..len` into consecutive parts: it starts at 0, never
/// goes down and ends at `len`.
pub open spec fn is_partition(cuts: Seq<int>, len: int) -> bool {
    &&& cuts.len() >= 1
    &&& cuts[0] == 0
    &&& cuts.last() == len
    &&& forall|i: int| 0 <= i < cuts.len() - 1 ==> #[trigger] cuts[i] <= cuts[i + 1]
}

/// The changed areas of the first `n` parts, part after part.
pub open spec fn parts_regions(
    items: Seq<BufferedFrame>,
    cuts: Seq<int>,
    segments: Seq<SceneSegment>,
    config: EncoderConfig,
    n: int,
) -> Seq<RegionModel>
    decreases n,
{
    if n <= 0 {
        seq![]
    } else {
        parts_regions(items, cuts, segments, config, n - 1) + chunk_regions(
            items.subrange(cuts[n - 1], cuts[n]),
            segments,
            config,
        )
    }
}

/// However a chunk is split among workers, the changed areas found part by
/// part and put one after the other are those of the whole chunk, in frame
/// order: the result does not depend on the number of workers.
pub proof fn lemma_partition_independent(
    items: Seq<BufferedFrame>,
    cuts: Seq<int>,
    segments: Seq<SceneSegment>,
    config: EncoderConfig,
)
    requires
        is_partition(cuts, items.len() as int),
    ensures
        parts_regions(items, cuts, segments, config, cuts.len() - 1) == chunk_regions(
            items,
            segments,
            config,
        ),
{
    lemma_parts_prefix(items, cuts, segments, config, cuts.len() - 1);
    assert(items.subrange(0, cuts.last()) =~= items);
}

proof fn lemma_cuts_ordered(cuts: Seq<int>, i: int, j: int)
    requires
        forall|k: int| 0 <= k < cuts.len() - 1 ==> #[trigger] cuts[k] <= cuts[k + 1],
        0 <= i <= j < cuts.len(),
    ensures
        cuts[i] <= cuts[j],
    decreases j - i,
{
    if i < j {
        lemma_cuts_ordered(cuts, i, j - 1);
        assert(cuts[j - 1] <= cuts[j]);
    }
}

proof fn lemma_parts_prefix(
    items: Seq<BufferedFrame>,
    cuts: Seq<int>,
    segments: Seq<SceneSegment>,
    config: EncoderConfig,
    n: int,
)
    requires
        is_partition(cuts, items.len() as int),
        0 <= n < cuts.len(),
    ensures
        parts_regions(items, cuts, segments, config, n) == chunk_regions(
            items.subrange(0, cuts[n]),
            segments,
            config,
        ),
    decreases n,
{
    lemma_cuts_ordered(cuts, n, cuts.len() - 1);
    if n == 0 {
        assert(items.subrange(0, 0) =~= Seq::<BufferedFrame>::empty());
    } else {
        lemma_parts_prefix(items, cuts, segments, config, n - 1);
        lemma_cuts_ordered(cuts, 0, n - 1);
        assert(cuts[n - 1] <= cuts[n]);
        let a = items.subrange(0, cuts[n - 1]);
        let b = items.subrange(cuts[n - 1], cuts[n]);
        assert(items.subrange(0, cuts[n]) =~= a + b);
        lemma_chunk_regions_split(a, b, segments, config);
    }
}

/// One encoded changed area: the frame it comes from, where it goes and
/// its AVIF bytes.
pub struct RegionResult {
    pub frame_index: usize,
    pub x: u32,
    pub y: u32,
    pub width: u32,
    pub height: u32,
    pub data: Vec<u8>,
}

/// `r` is the area `m` encoded at `quality` with `threads` threads.
pub open spec fn encodes(r: RegionResult, m: RegionModel, quality: u8, threads: usize) -> bool {
    &&& r.frame_index == m.frame_index
    &&& r.x == m.x
    &&& r.y == m.y
    &&& r.width == m.width
    &&& r.height == m.height
    &&& r.data@ == avif_encoding(m.pixels, r.width, r.height, encoder_quality(quality), threads)
}

/// `rs` are the areas `ms` encoded, one for one.
pub open spec fn encodes_all(
    rs: Seq<RegionResult>,
    ms: Seq<RegionModel>,
    quality: u8,
    threads: usize,
) -> bool {
    &&& rs.len() == ms.len()
    &&& forall|i: int| 0 <= i < rs.len() ==> encodes(#[trigger] rs[i], ms[i], quality, threads)
}

/// Appends the area found in frame `frame_index` with what the still-image
/// encoder gave for it: its bytes as a result, or its error, given back
/// with nothing appended.
pub fn add_encoded(
    out: &mut Vec<RegionResult>,
    frame_index: usize,
    reg: &DiffRegion,
    encoded: Result<Vec<u8>, EncodeError>,
) -> (r: Result<(), EncodeError>)
    ensures
        encoded matches Err(e) ==> r == Err::<(), EncodeError>(e) && final(out)@ == old(out)@,
        encoded matches Ok(d) ==> r is Ok && final(out)@.len() == old(out)@.len() + 1 && (forall|
            i: int,
        | 0 <= i < old(out)@.len() ==> #[trigger] final(out)@[i] == old(out)@[i]) && ({
            let n = final(out)@.last();
            &&& n.frame_index == frame_index
            &&& n.x == reg.x
            &&& n.y == reg.y
            &&& n.width == reg.image.width
            &&& n.height == reg.image.height
            &&& n.data@ == d@
        }),
{
    match encoded {
        Ok(data) => {
            out.push(
                RegionResult {
                    frame_index,
                    x: reg.x,
                    y: reg.y,
                    width: reg.image.width,
                    height: reg.image.height,
                    data,
                },
            );
            Ok(())
        },
        Err(e) => Err(e),
    }
}

/// Encodes each changed area; the first failure of the still-image encoder
/// ends the work.
pub fn encode_regions(regions: Vec<(usize, DiffRegion)>, quality: u8, threads: usize) -> (r: Result<
    Vec<RegionResult>,
    EncodeError,
>)
    requires
        threads > 0,
        forall|i: int|
            0 <= i < regions@.len() ==> (#[trigger] regions@[i]).1.image.wf()
                && regions@[i].1.image.width > 0 && regions@[i].1.image.height > 0,
    ensures
        regions@.len() == 0 ==> r is Ok,
        r matches Ok(rs) ==> encodes_all(
            rs@,
            regions@.map_values(|p: (usize, DiffRegion)| region_model(p.0, p.1)),
            quality,
            threads,
        ),
        r matches Err(e) ==> e is AvifEncode,
{
    let mut out: Vec<RegionResult> = Vec::new();
    let mut i: usize = 0;
    while i < regions.len()
        invariant
            threads > 0,
            i <= regions@.len(),
            out@.len() == i,
            forall|k: int|
                0 <= k < regions@.len() ==> (#[trigger] regions@[k]).1.image.wf()
                    && regions@[k].1.image.width > 0 && regions@[k].1.image.height > 0,
            forall|k: int|
                0 <= k < i ==> encodes(
                    #[trigger] out@[k],
                    region_model(regions@[k].0, regions@[k].1),
                    quality,
                    threads,
                ),
        decreases regions@.len() - i,
    {
        let (frame_index, reg) = (regions[i].0, &regions[i].1);
        let encoded = encode_avif(&reg.image, quality, threads);
        match add_encoded(&mut out, frame_index, reg, encoded) {
            Ok(()) => {},
            Err(e) => {
                return Err(e);
            },
        }
        i = i + 1;
    }
    Ok(out)
}

/// The work of one worker: the changed areas of its frames, encoded.
pub fn process_partition(
    items: &[BufferedFrame],
    segments: &[SceneSegment],
    config: &EncoderConfig,
    threads: usize,
) -> (r: Result<Vec<RegionResult>, EncodeError>)
    requires
        threads > 0,
        forall|i: int| 0 <= i < items@.len() ==> item_fits(#[trigger] items@[i], segments@),
    ensures
        chunk_regions(items@, segments@, *config).len() == 0 ==> r is Ok,
        r matches Ok(rs) ==> encodes_all(
            rs@,
            chunk_regions(items@, segments@, *config),
            config.quality,
            threads,
        ),
        r matches Err(e) ==> e is AvifEncode,
{
    let regions = extract_regions(items, segments, config);
    encode_regions(regions, config.quality, threads)
}

/// Results of consecutive parts put one after the other keep encoding the
/// areas of those parts, one after the other.
pub proof fn lemma_encodes_all_concat(
    a: Seq<RegionResult>,
    ma: Seq<RegionModel>,
    b: Seq<RegionResult>,
    mb: Seq<RegionModel>,
    quality: u8,
    threads: usize,
)
    requires
        encodes_all(a, ma, quality, threads),
        encodes_all(b, mb, quality, threads),
    ensures
        encodes_all(a + b, ma + mb, quality, threads),
{
    assert forall|i: int| 0 <= i < (a + b).len() implies encodes(
        #[trigger] (a + b)[i],
        (ma + mb)[i],
        quality,
        threads,
    ) by {
        if i < a.len() {
            assert((a + b)[i] == a[i] && (ma + mb)[i] == ma[i]);
        } else {
            assert((a + b)[i] == b[i - a.len()] && (ma + mb)[i] == mb[i - a.len()]);
        }
    }
}

/// However a chunk is split among workers, the workers' encoded results,
/// put one after the other, encode exactly the changed areas of the whole
/// chunk in frame order: the flush's result does not depend on the number
/// of workers.
pub proof fn lemma_flush_independent(
    items: Seq<BufferedFrame>,
    cuts: Seq<int>,
    parts: Seq<Seq<RegionResult>>,
    segments: Seq<SceneSegment>,
    config: EncoderConfig,
    threads: usize,
)
    requires
        is_partition(cuts, items.len() as int),
        parts.len() == cuts.len() - 1,
        forall|i: int|
            0 <= i < parts.len() ==> encodes_all(
                #[trigger] parts[i],
                chunk_regions(items.subrange(cuts[i], cuts[i + 1]), segments, config),
                config.quality,
                threads,
            ),
    ensures
        encodes_all(parts.flatten(), chunk_regions(items, segments, config), config.quality, threads),
{
    lemma_parts_encode(items, cuts, parts, segments, config, threads, parts.len() as int);
    assert(parts.take(parts.len() as int) =~= parts);
    lemma_partition_independent(items, cuts, segments, config);
}

proof fn lemma_parts_encode(
    items: Seq<BufferedFrame>,
    cuts: Seq<int>,
    parts: Seq<Seq<RegionResult>>,
    segments: Seq<SceneSegment>,
    config: EncoderConfig,
    threads: usize,
    n: int,
)
    requires
        is_partition(cuts, items.len() as int),
        parts.len() == cuts.len() - 1,
        0 <= n <= parts.len(),
        forall|i: int|
            0 <= i < parts.len() ==> encodes_all(
                #[trigger] parts[i],
                chunk_regions(items.subrange(cuts[i], cuts[i + 1]), segments, config),
                config.quality,
                threads,
            ),
    ensures
        encodes_all(
            parts.take(n).flatten(),
            parts_regions(items, cuts, segments, config, n),
            config.quality,
            threads,
        ),
    decreases n,
{
    if n == 0 {
        assert(parts.take(0) =~= Seq::<Seq<RegionResult>>::empty());
        assert(parts.take(0).flatten() =~= Seq::<RegionResult>::empty());
    } else {
        lemma_parts_encode(items, cuts, parts, segments, config, threads, n - 1);
        assert(parts.take(n - 1).push(parts[n - 1]) =~= parts.take(n));
        parts.take(n - 1).lemma_flatten_push(parts[n - 1]);
        lemma_encodes_all_concat(
            parts.take(n - 1).flatten(),
            parts_regions(items, cuts, segments, config, n - 1),
            parts[n - 1],
            chunk_regions(items.subrange(cuts[n - 1], cuts[n]), segments, config),
            config.quality,
            threads,
        );
    }
}

/// Where each of `n_threads` workers starts and ends in a chunk of `len`
/// frames: consecutive parts of `ceil(len / n_threads)` frames, the last
/// one possibly shorter, none empty.
pub fn partition_bounds(len: usize, n_threads: usize) -> (r: Vec<(usize, usize)>)
    requires
        n_threads > 0,
    ensures
        len == 0 ==> r@.len() == 0,
        len > 0 ==> r@.len() > 0 && r@[0].0 == 0 && r@.last().1 == len,
        forall|i: int| 0 <= i < r@.len() ==> (#[trigger] r@[i]).0 < r@[i].1,
        forall|i: int| 0 <= i < r@.len() - 1 ==> (#[trigger] r@[i]).1 == r@[i + 1].0,
        forall|i: int|
            0 <= i < r@.len() ==> (#[trigger] r@[i]).1 - r@[i].0 <= (len - 1) / (n_threads as int)
                + 1,
{
    let mut out: Vec<(usize, usize)> = Vec::new();
    if len == 0 {
        return out;
    }
    let per = (len - 1) / n_threads + 1;
    let mut start: usize = 0;
    while start < len
        invariant
            0 < per,
            per == (len - 1) / (n_threads as int) + 1,
            start <= len,
            out@.len() == 0 ==> start == 0,
            out@.len() > 0 ==> out@[0].0 == 0 && out@.last().1 == start,
            forall|i: int| 0 <= i < out@.len() ==> (#[trigger] out@[i]).0 < out@[i].1,
            forall|i: int| 0 <= i < out@.len() - 1 ==> (#[trigger] out@[i]).1 == out@[i + 1].0,
            forall|i: int| 0 <= i < out@.len() ==> (#[trigger] out@[i]).1 - out@[i].0 <= per,
        decreases len - start,
    {
        let end = if len - start > per {
            start + per
        } else {
            len
        };
        let ghost before = out@;
        out.push((start, end));
        proof {
            assert forall|i: int| 0 <= i < out@.len() - 1 implies (#[trigger] out@[i]).1 == out@[i
                + 1].0 by {
                if i < before.len() - 1 {
                    assert(out@[i] == before[i] && out@[i + 1] == before[i + 1]);
                } else {
                    assert(out@[i] == before.last());
                }
            }
        }
        start = end;
    }
    out
}

/// The results of the workers, one part after the other; the first part
/// that failed makes the whole flush fail with its error.
pub fn merge_partition_results(parts: Vec<Result<Vec<RegionResult>, EncodeError>>) -> (r: Result<
    Vec<RegionResult>,
    EncodeError,
>)
    ensures
        r is Ok <==> forall|i: int| 0 <= i < parts@.len() ==> (#[trigger] parts@[i]) is Ok,
        r matches Err(e) ==> exists|i: int|
            0 <= i < parts@.len() && (forall|j: int| 0 <= j < i ==> (#[trigger] parts@[j]) is Ok)
                && parts@[i] == Err::<Vec<RegionResult>, EncodeError>(e),
        r matches Ok(rs) ==> rs@ == parts@.map_values(
            |p: Result<Vec<RegionResult>, EncodeError>| p->Ok_0@,
        ).flatten(),
{
    let ghost all = parts@.map_values(|p: Result<Vec<RegionResult>, EncodeError>| p->Ok_0@);
    let ghost orig = parts@;
    let mut rest = parts;
    let mut out: Vec<RegionResult> = Vec::new();
    let mut k: usize = 0;
    let n = rest.len();
    proof {
        assert(all.take(0) =~= Seq::<Seq<RegionResult>>::empty());
    }
    while rest.len() > 0
        invariant
            k + rest@.len() == n,
            n == all.len(),
            n == orig.len(),
            orig == parts@,
            forall|i: int| 0 <= i < rest@.len() ==> (#[trigger] rest@[i]) == orig[k + i],
            forall|j: int| 0 <= j < k ==> (#[trigger] orig[j]) is Ok,
            all == orig.map_values(|p: Result<Vec<RegionResult>, EncodeError>| p->Ok_0@),
            out@ == all.take(k as int).flatten(),
        decreases rest@.len(),
    {
        let part = rest.remove(0);
        assert(part == orig[k as int]);
        match part {
            Ok(mut rs) => {
                let ghost p = rs@;
                out.append(&mut rs);
                proof {
                    assert(p == all[k as int]);
                    assert(all.take(k as int).push(all[k as int]) =~= all.take(k + 1));
                    all.take(k as int).lemma_flatten_push(all[k as int]);
                }
            },
            Err(e) => {
                proof {
                    assert(orig[k as int] == Err::<Vec<RegionResult>, EncodeError>(e));
                    assert(!(orig[k as int] is Ok));
                    assert(forall|j: int| 0 <= j < k ==> (#[trigger] parts@[j]) is Ok);
                }
                return Err(e);
            },
        }
        k = k + 1;
    }
    assert(all.take(k as int) =~= all);
    Ok(out)
}

/// The first scene whose frame range holds `index`.
pub open spec fn segment_of(segments: Seq<SceneSegment>, index: int) -> Option<int>
    decreases segments.len(),
{
    if segments.len() == 0 {
        None
    } else {
        match segment_of(segments.drop_last(), index) {
            Some(k) => Some(k),
            None => if segments.last().start_frame <= index < segments.last().end_frame {
                Some(segments.len() - 1)
            } else {
                None
            },
        }
    }
}

/// The timeline entry of the background of scene `k`: from the scene's first
/// frame to its end, the last scene to the end of the video.
pub open spec fn background_entry(
    segments: Seq<SceneSegment>,
    k: int,
    duration_ms: u64,
    estimated: u64,
) -> TimelineEntry {
    TimelineEntry {
        asset_id: k as u32,
        start_time_ms: frame_start_ms(duration_ms, estimated, segments[k].start_frame as int) as u64,
        end_time_ms: if k == segments.len() - 1 {
            duration_ms
        } else {
            frame_start_ms(duration_ms, estimated, segments[k].end_frame as int) as u64
        },
        position_x: 0,
        position_y: 0,
        z_order: 0,
    }
}

/// The timeline entry of an encoded area that became asset `id`: the
/// frame's interval, at the area's corner, above the backgrounds.
pub open spec fn region_entry(r: RegionResult, id: int, duration_ms: u64, estimated: u64) -> TimelineEntry {
    TimelineEntry {
        asset_id: id as u32,
        start_time_ms: frame_start_ms(duration_ms, estimated, r.frame_index as int) as u64,
        end_time_ms: cap(
            (frame_start_ms(duration_ms, estimated, r.frame_index as int) + frame_span_ms(
                duration_ms,
                estimated,
            )) as int,
        ) as u64,
        position_x: r.x as i32,
        position_y: r.y as i32,
        z_order: 1,
    }
}

/// The encoder between two steps: the scenes, the frames buffered since the
/// last flush and the assets and timeline built so far.
pub struct ChunkedEncoder {
    pub width: u32,
    pub height: u32,
    pub fps_num: u32,
    pub fps_den: u32,
    pub duration_ms: u64,
    pub estimated_frames: u64,
    pub capacity: usize,
    pub segments: Vec<SceneSegment>,
    pub chunk: Vec<BufferedFrame>,
    pub assets: Vec<Asset>,
    pub timeline: Vec<TimelineEntry>,
    pub next_asset_id: u32,
}

impl ChunkedEncoder {
    /// Never more than `capacity` frames are buffered; each buffered frame
    /// can be compared with its scene's background; one timeline entry per
    /// asset, the ids handed out so far.
    pub open spec fn inv(&self) -> bool {
        &&& 0 < self.capacity
        &&& self.chunk@.len() <= self.capacity
        &&& forall|i: int|
            0 <= i < self.chunk@.len() ==> item_fits(#[trigger] self.chunk@[i], self.segments@)
        &&& self.assets@.len() == self.next_asset_id
        &&& self.timeline@.len() == self.next_asset_id
        &&& self.estimated_frames == estimated_frame_count(
            self.duration_ms,
            self.fps_num,
            self.fps_den,
        )
    }

    /// Starts an encode: every scene's background, already encoded, becomes
    /// an asset, ids from 0 in scene order, shown during its scene at the
    /// lowest layer.
    pub fn new(
        width: u32,
        height: u32,
        fps_num: u32,
        fps_den: u32,
        duration_ms: u64,
        segments: Vec<SceneSegment>,
        backgrounds: Vec<Vec<u8>>,
        capacity: usize,
    ) -> (r: Self)
        requires
            backgrounds@.len() == segments@.len(),
            segments@.len() <= u32::MAX,
            capacity > 0,
        ensures
            r.inv(),
            r.chunk@.len() == 0,
            r.segments@ == segments@,
            r.capacity == capacity,
            r.width == width && r.height == height && r.fps_num == fps_num && r.fps_den == fps_den
                && r.duration_ms == duration_ms,
            r.next_asset_id == segments@.len(),
            forall|k: int|
                0 <= k < segments@.len() ==> (#[trigger] r.assets@[k])@ == (AssetModel {
                    id: k as u32,
                    width,
                    height,
                    data: backgrounds@[k]@,
                }),
            forall|k: int|
                0 <= k < segments@.len() ==> #[trigger] r.timeline@[k] == background_entry(
                    segments@,
                    k,
                    duration_ms,
                    r.estimated_frames,
                ),
    {
        let estimated_frames = estimate_frame_count(duration_ms, fps_num, fps_den);
        let n = segments.len();
        let mut assets: Vec<Asset> = Vec::new();
        let mut timeline: Vec<TimelineEntry> = Vec::new();
        let ghost all = backgrounds@;
        let mut rest = backgrounds;
        let mut k: usize = 0;
        while k < n
            invariant
                n == segments@.len(),
                n <= u32::MAX,
                all.len() == n,
                k <= n,
                rest@ == all.skip(k as int),
                assets@.len() == k,
                timeline@.len() == k,
                estimated_frames == estimated_frame_count(duration_ms, fps_num, fps_den),
                forall|j: int|
                    0 <= j < k ==> (#[trigger] assets@[j])@ == (AssetModel {
                        id: j as u32,
                        width,
                        height,
                        data: all[j]@,
                    }),
                forall|j: int|
                    0 <= j < k ==> #[trigger] timeline@[j] == background_entry(
                        segments@,
                        j,
                        duration_ms,
                        estimated_frames,
                    ),
            decreases n - k,
        {
            let data = rest.remove(0);
            proof {
                assert(all.skip(k as int)[0] == all[k as int]);
                assert(all.skip(k + 1) =~= all.skip(k as int).drop_first());
            }
            assets.push(Asset::new(k as u32, width, height, data));
            let seg = &segments[k];
            let start = frame_start(duration_ms, estimated_frames, seg.start_frame);
            let end = if k == n - 1 {
                duration_ms
            } else {
                frame_start(duration_ms, estimated_frames, seg.end_frame)
            };
            timeline.push(TimelineEntry::new(k as u32, start, end, 0, 0, 0));
            k = k + 1;
        }
        ChunkedEncoder {
            width,
            height,
            fps_num,
            fps_den,
            duration_ms,
            estimated_frames,
            capacity,
            segments,
            chunk: Vec::new(),
            assets,
            timeline,
            next_asset_id: n as u32,
        }
    }

    /// Whether the buffer is full and must be flushed before the next frame.
    pub fn is_full(&self) -> (r: bool)
        requires
            self.inv(),
        ensures
            r == (self.chunk@.len() >= self.capacity),
    {
        self.chunk.len() >= self.capacity
    }

    /// Takes frame `frame_index`. A frame inside a scene other than the
    /// scene's first (whose background is already encoded) is buffered;
    /// others are dropped. Gives whether the buffer is now full.
    pub fn push_frame(&mut self, frame_index: usize, frame: RgbaFrame) -> (full: bool)
        requires
            old(self).inv(),
            old(self).chunk@.len() < old(self).capacity,
            segment_of(old(self).segments@, frame_index as int) matches Some(k) ==> fits(
                old(self).segments@[k].background,
                frame,
            ),
        ensures
            final(self).inv(),
            final(self).chunk@ == match segment_of(old(self).segments@, frame_index as int) {
                Some(k) => if frame_index != old(self).segments@[k].start_frame {
                    old(self).chunk@.push(
                        BufferedFrame { frame_index, segment_index: k as usize, frame },
                    )
                } else {
                    old(self).chunk@
                },
                None => old(self).chunk@,
            },
            full == (final(self).chunk@.len() >= final(self).capacity),
            final(self).segments@ == old(self).segments@,
            final(self).assets@ == old(self).assets@,
            final(self).timeline@ == old(self).timeline@,
            final(self).next_asset_id == old(self).next_asset_id,
            final(self).capacity == old(self).capacity,
            final(self).duration_ms == old(self).duration_ms,
            final(self).estimated_frames == old(self).estimated_frames,
    {
        let ghost segs = self.segments@;
        let mut k: usize = 0;
        let n = self.segments.len();
        while k < n
            invariant
                n == segs.len(),
                segs == self.segments@,
                k <= n,
                segment_of(segs.take(k as int), frame_index as int) is None,
                *self == *old(self),
                old(self).inv(),
                old(self).chunk@.len() < old(self).capacity,
                segment_of(segs, frame_index as int) matches Some(j) ==> fits(
                    segs[j].background,
                    frame,
                ),
            decreases n - k,
        {
            proof {
                assert(segs.take(k + 1).drop_last() =~= segs.take(k as int));
                assert(segs.take(k + 1).last() == segs[k as int]);
            }
            let seg = &self.segments[k];
            if frame_index >= seg.start_frame && frame_index < seg.end_frame {
                proof {
                    lemma_segment_of_prefix(segs, k as int, frame_index as int);
                }
                assert(segment_of(segs, frame_index as int) == Some(k as int));
                assert(fits(segs[k as int].background, frame));
                if frame_index != seg.start_frame {
                    let ghost before = self.chunk@;
                    let ghost f = frame;
                    self.chunk.push(BufferedFrame { frame_index, segment_index: k, frame });
                    proof {
                        assert forall|i: int| 0 <= i < self.chunk@.len() implies item_fits(
                            #[trigger] self.chunk@[i],
                            self.segments@,
                        ) by {
                            if i < before.len() {
                                assert(self.chunk@[i] == before[i]);
                            } else {
                                assert(self.chunk@[i].frame == f);
                                assert(self.chunk@[i].segment_index == k);
                            }
                        }
                    }
                }
                return self.chunk.len() >= self.capacity;
            }
            k = k + 1;
        }
        proof {
            assert(segs.take(k as int) =~= segs);
        }
        self.chunk.len() >= self.capacity
    }

    /// Hands the buffered frames over for a flush and empties the buffer.
    pub fn take_chunk(&mut self) -> (r: Vec<BufferedFrame>)
        requires
            old(self).inv(),
        ensures
            final(self).inv(),
            r@ == old(self).chunk@,
            forall|i: int| 0 <= i < r@.len() ==> item_fits(#[trigger] r@[i], final(self).segments@),
            final(self).chunk@.len() == 0,
            final(self).segments@ == old(self).segments@,
            final(self).assets@ == old(self).assets@,
            final(self).timeline@ == old(self).timeline@,
            final(self).next_asset_id == old(self).next_asset_id,
            final(self).capacity == old(self).capacity,
            final(self).duration_ms == old(self).duration_ms,
            final(self).estimated_frames == old(self).estimated_frames,
    {
        let mut taken: Vec<BufferedFrame> = Vec::new();
        std::mem::swap(&mut taken, &mut self.chunk);
        taken
    }

    /// Appends the encoded areas of a flush, in the order given: each gets
    /// the next id, becomes an asset and is shown during its frame's
    /// interval, above the backgrounds.
    pub fn append_results(&mut self, results: Vec<RegionResult>)
        requires
            old(self).inv(),
            old(self).next_asset_id + results@.len() <= u32::MAX,
        ensures
            final(self).inv(),
            final(self).next_asset_id == old(self).next_asset_id + results@.len(),
            final(self).assets@.len() == old(self).assets@.len() + results@.len(),
            final(self).timeline@.len() == old(self).timeline@.len() + results@.len(),
            forall|i: int|
                0 <= i < old(self).assets@.len() ==> #[trigger] final(self).assets@[i]
                    == old(self).assets@[i],
            forall|i: int|
                0 <= i < old(self).timeline@.len() ==> #[trigger] final(self).timeline@[i]
                    == old(self).timeline@[i],
            forall|i: int|
                0 <= i < results@.len() ==> (#[trigger] final(self).assets@[old(
                    self,
                ).assets@.len() + i])@ == (AssetModel {
                    id: (old(self).next_asset_id + i) as u32,
                    width: results@[i].width,
                    height: results@[i].height,
                    data: results@[i].data@,
                }),
            forall|i: int|
                0 <= i < results@.len() ==> #[trigger] final(self).timeline@[old(
                    self,
                ).timeline@.len() + i] == region_entry(
                    results@[i],
                    old(self).next_asset_id + i,
                    old(self).duration_ms,
                    old(self).estimated_frames,
                ),
            final(self).chunk@ == old(self).chunk@,
            final(self).segments@ == old(self).segments@,
            final(self).capacity == old(self).capacity,
            final(self).duration_ms == old(self).duration_ms,
            final(self).estimated_frames == old(self).estimated_frames,
    {
        let ghost all = results@;
        let ghost base = self.next_asset_id as int;
        let ghost old_assets = self.assets@;
        let ghost old_timeline = self.timeline@;
        let span: u64 = if self.estimated_frames == 0 {
            self.duration_ms
        } else {
            self.duration_ms / self.estimated_frames
        };
        let mut rest = results;
        let mut i: usize = 0;
        let n = rest.len();
        while rest.len() > 0
            invariant
                self.inv(),
                n == all.len(),
                i + rest@.len() == n,
                rest@ == all.skip(i as int),
                base + n <= u32::MAX,
                self.next_asset_id == base + i,
                span == frame_span_ms(self.duration_ms, self.estimated_frames),
                self.assets@.len() == old_assets.len() + i,
                self.timeline@.len() == old_timeline.len() + i,
                old_assets.len() == base,
                old_timeline.len() == base,
                forall|j: int| 0 <= j < old_assets.len() ==> #[trigger] self.assets@[j] == old_assets[j],
                forall|j: int|
                    0 <= j < old_timeline.len() ==> #[trigger] self.timeline@[j] == old_timeline[j],
                forall|j: int|
                    0 <= j < i ==> (#[trigger] self.assets@[old_assets.len() + j])@ == (AssetModel {
                        id: (base + j) as u32,
                        width: all[j].width,
                        height: all[j].height,
                        data: all[j].data@,
                    }),
                forall|j: int|
                    0 <= j < i ==> #[trigger] self.timeline@[old_timeline.len() + j] == region_entry(
                        all[j],
                        base + j,
                        self.duration_ms,
                        self.estimated_frames,
                    ),
                self.chunk@ == old(self).chunk@,
                self.segments@ == old(self).segments@,
                self.capacity == old(self).capacity,
                self.duration_ms == old(self).duration_ms,
                self.estimated_frames == old(self).estimated_frames,
            decreases rest@.len(),
        {
            let r = rest.remove(0);
            proof {
                assert(all.skip(i as int)[0] == all[i as int]);
                assert(all.skip(i + 1) =~= all.skip(i as int).drop_first());
            }
            let id = self.next_asset_id;
            let start = frame_start(self.duration_ms, self.estimated_frames, r.frame_index);
            let end = start.saturating_add(span);
            let x = crate::container::signed(r.x);
            let y = crate::container::signed(r.y);
            self.timeline.push(TimelineEntry::new(id, start, end, x, y, 1));
            self.assets.push(Asset::new(id, r.width, r.height, r.data));
            self.next_asset_id = id + 1;
            i = i + 1;
        }
    }

    /// The container built: the header with the video's size, rate and
    /// duration and the counts, then the assets and the timeline.
    pub fn finish(self) -> (r: VaiContainer)
        requires
            self.inv(),
        ensures
            r.header == (VaiHeader {
                version: VERSION,
                width: self.width,
                height: self.height,
                fps_num: self.fps_num,
                fps_den: self.fps_den,
                duration_ms: self.duration_ms,
                num_assets: self.assets@.len() as u32,
                num_timeline_entries: self.timeline@.len() as u32,
            }),
            r.assets@ == self.assets@,
            r.timeline@ == self.timeline@,
    {
        let header = VaiHeader::new(
            self.width,
            self.height,
            self.fps_num,
            self.fps_den,
            self.duration_ms,
            self.assets.len() as u32,
            self.timeline.len() as u32,
        );
        VaiContainer::new(header, self.assets, self.timeline)
    }
}

proof fn lemma_segment_of_prefix(segs: Seq<SceneSegment>, k: int, index: int)
    requires
        0 <= k < segs.len(),
        segment_of(segs.take(k), index) is None,
        segs[k].start_frame <= index < segs[k].end_frame,
    ensures
        segment_of(segs, index) == Some(k),
    decreases segs.len(),
{
    if k == segs.len() - 1 {
        assert(segs.take(k) =~= segs.drop_last());
    } else {
        assert(segs.drop_last().take(k) =~= segs.take(k));
        lemma_segment_of_prefix(segs.drop_last(), k, index);
    }
}

/// However long the video, an encoder in a reachable state buffers at most
/// `capacity` raw frames: `new` starts empty, `push_frame` is only allowed
/// below the capacity and every step keeps `inv`.
pub proof fn lemma_buffer_bounded(e: ChunkedEncoder)
    requires
        e.inv(),
    ensures
        e.chunk@.len() <= e.capacity,
{
}

/// Smallest width and height that the FFmpeg AV1 encoders accept.
pub const FFMPEG_MIN_DIMENSION: u32 = 64;

/// The encoder's constant-rate factor for a quality from 0 to 100:
/// `(100 - quality) × 63 / 100`, rounded to nearest, 0 above 100.
pub open spec fn crf_for(quality: u8) -> int {
    if quality >= 100 {
        0
    } else {
        ((100 - quality) * 63 + 50) / 100
    }
}

/// The constant-rate factor to ask the FFmpeg AV1 encoder for, or an error
/// when the image is smaller than it accepts, so that the caller can fall
/// back to the other encoder.
pub fn ffmpeg_rate_factor(width: u32, height: u32, quality: u8) -> (r: Result<u32, EncodeError>)
    ensures
        r is Err <==> width < FFMPEG_MIN_DIMENSION || height < FFMPEG_MIN_DIMENSION,
        r matches Ok(crf) ==> crf == crf_for(quality),
        r matches Err(e) ==> e is AvifEncode,
{
    if width < FFMPEG_MIN_DIMENSION || height < FFMPEG_MIN_DIMENSION {
        return Err(
            EncodeError::AvifEncode(
                String::from_str("image too small for the FFmpeg AV1 encoder (min 64x64)"),
            ),
        );
    }
    let q: u32 = if quality >= 100 {
        100
    } else {
        quality as u32
    };
    Ok(((100 - q) * 63 + 50) / 100)
}

} // verus!
