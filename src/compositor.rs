//! Rebuilds frames from a container: the assets active at a timestamp are
//! drawn back to front over an opaque black frame. Each asset is decoded
//! once, by the caller, and kept for the compositor's lifetime.
use vstd::prelude::*;

use crate::container::{active_at, stable_sorted_by_layer, Error, VaiContainer};
use crate::frame::{Rgba, RgbaFrame};
use crate::timeline::TimelineEntry;
use std::collections::HashMap;

verus! {

broadcast use vstd::std_specs::hash::group_hash_axioms;

/// One channel of `over` drawn with opacity `alpha` on `under`.
pub open spec fn blend_channel(over: u8, under: u8, alpha: u8) -> u8 {
    ((over * alpha + under * (255 - alpha)) / 255) as u8
}

/// "Over" blending by the drawn pixel's alpha; the result is opaque.
pub open spec fn blend(over: Rgba, under: Rgba) -> Rgba {
    Rgba {
        r: blend_channel(over.r, under.r, over.a),
        g: blend_channel(over.g, under.g, over.a),
        b: blend_channel(over.b, under.b, over.a),
        a: 255,
    }
}

/// Pixel `(i, j)` of `base` after drawing `over` with its top-left corner
/// at `(x, y)`; parts of `over` outside `base` are clipped.
pub open spec fn overlaid(base: RgbaFrame, over: RgbaFrame, x: int, y: int, i: int, j: int) -> Rgba {
    if 0 <= i - x < over.width && 0 <= j - y < over.height {
        blend(over.pixel(i - x, j - y), base.pixel(i, j))
    } else {
        base.pixel(i, j)
    }
}

fn blend_ch(over: u8, under: u8, alpha: u8) -> (r: u8)
    ensures
        r == blend_channel(over, under, alpha),
{
    proof {
        assert(over * alpha + under * (255 - alpha) <= 255 * 255) by (nonlinear_arith)
            requires
                over <= 255,
                under <= 255,
                alpha <= 255,
        ;
        assert(over * alpha + under * (255 - alpha) >= 0) by (nonlinear_arith)
            requires
                over >= 0,
                under >= 0,
                alpha <= 255,
                alpha >= 0,
        ;
    }
    ((over as u32 * alpha as u32 + under as u32 * (255 - alpha as u32)) / 255) as u8
}

fn blend_pixel(over: Rgba, under: Rgba) -> (r: Rgba)
    ensures
        r == blend(over, under),
{
    Rgba {
        r: blend_ch(over.r, under.r, over.a),
        g: blend_ch(over.g, under.g, over.a),
        b: blend_ch(over.b, under.b, over.a),
        a: 255,
    }
}

/// Draws `overlay` on `base` with its top-left corner at `(x, y)`, which
/// may lie outside `base`.
pub fn overlay_image(base: &mut RgbaFrame, overlay: &RgbaFrame, x: i32, y: i32)
    requires
        old(base).wf(),
        overlay.wf(),
    ensures
        final(base).wf(),
        final(base).width == old(base).width,
        final(base).height == old(base).height,
        forall|i: int, j: int|
            0 <= i < old(base).width && 0 <= j < old(base).height ==> #[trigger] final(base).pixel(
                i,
                j,
            ) == overlaid(*old(base), *overlay, x as int, y as int, i, j),
{
    let ghost start = *base;
    let bw = base.width as i64;
    let bh = base.height as i64;
    let x0: i64 = if (x as i64) > 0 { x as i64 } else { 0 };
    let y0: i64 = if (y as i64) > 0 { y as i64 } else { 0 };
    let x1: i64 = if (x as i64) + (overlay.width as i64) < bw {
        (x as i64) + (overlay.width as i64)
    } else {
        bw
    };
    let y1: i64 = if (y as i64) + (overlay.height as i64) < bh {
        (y as i64) + (overlay.height as i64)
    } else {
        bh
    };
    let mut j: i64 = y0;
    while j < y1
        invariant
            base.wf(),
            base.width == start.width,
            base.height == start.height,
            overlay.wf(),
            0 <= x0,
            0 <= y0 <= j,
            x1 <= bw == start.width,
            y1 <= bh == start.height,
            x0 == (if x > 0 { x as int } else { 0 }),
            y0 == (if y > 0 { y as int } else { 0 }),
            x1 == (if x + overlay.width < bw { x + overlay.width } else { bw as int }),
            y1 == (if y + overlay.height < bh { y + overlay.height } else { bh as int }),
            forall|i: int, k: int|
                0 <= i < start.width && 0 <= k < start.height ==> #[trigger] base.pixel(i, k) == if x0
                    <= i < x1 && y0 <= k < j {
                    overlaid(start, *overlay, x as int, y as int, i, k)
                } else {
                    start.pixel(i, k)
                },
        decreases y1 - j,
    {
        let mut i: i64 = x0;
        while i < x1
            invariant
                base.wf(),
                base.width == start.width,
                base.height == start.height,
                overlay.wf(),
                0 <= x0 <= i,
                0 <= y0 <= j < y1,
                x1 <= bw == start.width,
                y1 <= bh == start.height,
                x0 == (if x > 0 { x as int } else { 0 }),
                y0 == (if y > 0 { y as int } else { 0 }),
                x1 == (if x + overlay.width < bw { x + overlay.width } else { bw as int }),
                y1 == (if y + overlay.height < bh { y + overlay.height } else { bh as int }),
                forall|a: int, k: int|
                    0 <= a < start.width && 0 <= k < start.height ==> #[trigger] base.pixel(a, k)
                        == if x0 <= a < x1 && (y0 <= k < j || (k == j && a < i)) {
                        overlaid(start, *overlay, x as int, y as int, a, k)
                    } else {
                        start.pixel(a, k)
                    },
            decreases x1 - i,
        {
            let under = base.get_pixel(i as u32, j as u32);
            let over = overlay.get_pixel((i - x as i64) as u32, (j - y as i64) as u32);
            base.put_pixel(i as u32, j as u32, blend_pixel(over, under));
            i = i + 1;
        }
        j = j + 1;
    }
}

/// The bytes in which frames are rendered: opaque black.
pub open spec fn black() -> Rgba {
    Rgba { r: 0, g: 0, b: 0, a: 255 }
}

/// Pixel `(i, j)` after drawing the first `n` of `entries`, each with its
/// decoded image, over opaque black.
pub open spec fn composite_pixel(
    cache: Map<u32, RgbaFrame>,
    entries: Seq<TimelineEntry>,
    n: int,
    i: int,
    j: int,
) -> Rgba
    decreases n,
{
    if n <= 0 {
        black()
    } else {
        let e = entries[n - 1];
        let over = cache[e.asset_id];
        let under = composite_pixel(cache, entries, n - 1, i, j);
        if 0 <= i - e.position_x < over.width && 0 <= j - e.position_y < over.height {
            blend(over.pixel(i - e.position_x, j - e.position_y), under)
        } else {
            under
        }
    }
}

/// Renders frames of a container, keeping every decoded asset.
pub struct FrameCompositor {
    pub container: VaiContainer,
    pub decoded_assets: HashMap<u32, RgbaFrame>,
}

impl FrameCompositor {
    /// Every kept image is well formed.
    pub open spec fn inv(&self) -> bool {
        forall|id: u32| #[trigger]
            self.decoded_assets@.contains_key(id) ==> self.decoded_assets@[id].wf()
    }

    /// Asset `id` is shown at `t` and is not decoded yet.
    pub open spec fn needs_decode(&self, t: u64, id: u32) -> bool {
        &&& exists|k: int|
            0 <= k < self.container.timeline@.len() && (#[trigger] self.container.timeline@[k]).active_at(t)
                && self.container.timeline@[k].asset_id == id
        &&& !self.decoded_assets@.contains_key(id)
    }

    pub fn new(container: VaiContainer) -> (r: Self)
        ensures
            r.inv(),
            r.container == container,
            r.decoded_assets@ == Map::<u32, RgbaFrame>::empty(),
    {
        FrameCompositor { container, decoded_assets: HashMap::new() }
    }

    pub fn container(&self) -> (r: &VaiContainer)
        ensures
            r == &self.container,
    {
        &self.container
    }

    /// The assets to decode before rendering `timestamp_ms`: those shown
    /// then that are not kept yet, each once.
    pub fn pending_decodes(&self, timestamp_ms: u64) -> (r: Vec<u32>)
        ensures
            forall|id: u32| r@.contains(id) <==> self.needs_decode(timestamp_ms, id),
            r@.no_duplicates(),
    {
        let mut out: Vec<u32> = Vec::new();
        let mut k: usize = 0;
        while k < self.container.timeline.len()
            invariant
                k <= self.container.timeline@.len(),
                out@.no_duplicates(),
                forall|id: u32|
                    out@.contains(id) <==> (exists|m: int|
                        0 <= m < k && (#[trigger] self.container.timeline@[m]).active_at(timestamp_ms)
                            && self.container.timeline@[m].asset_id == id)
                        && !self.decoded_assets@.contains_key(id),
            decreases self.container.timeline@.len() - k,
        {
            let e = self.container.timeline[k];
            let ghost before = out@;
            if e.is_active(timestamp_ms) && !self.decoded_assets.contains_key(&e.asset_id) {
                let mut seen = false;
                let mut m: usize = 0;
                while m < out.len()
                    invariant
                        m <= out@.len(),
                        seen <==> exists|q: int| 0 <= q < m && out@[q] == e.asset_id,
                    decreases out@.len() - m,
                {
                    if out[m] == e.asset_id {
                        seen = true;
                    }
                    m = m + 1;
                }
                if !seen {
                    out.push(e.asset_id);
                }
            }
            proof {
                assert forall|id: u32|
                    out@.contains(id) <==> (exists|m: int|
                        0 <= m < k + 1 && (#[trigger] self.container.timeline@[m]).active_at(
                            timestamp_ms,
                        ) && self.container.timeline@[m].asset_id == id)
                        && !self.decoded_assets@.contains_key(id) by {
                    if exists|m: int|
                        0 <= m < k + 1 && (#[trigger] self.container.timeline@[m]).active_at(
                            timestamp_ms,
                        ) && self.container.timeline@[m].asset_id == id {
                        let m = choose|m: int|
                            0 <= m < k + 1 && (#[trigger] self.container.timeline@[m]).active_at(
                                timestamp_ms,
                            ) && self.container.timeline@[m].asset_id == id;
                        if m == k {
                            assert(e.asset_id == id && e.active_at(timestamp_ms));
                            if !self.decoded_assets@.contains_key(id) {
                                if before.contains(id) {
                                    let q = choose|q: int| 0 <= q < before.len() && before[q] == id;
                                    assert(out@[q] == id);
                                } else {
                                    assert(out@[out@.len() - 1] == id);
                                }
                            }
                        } else {
                            if !self.decoded_assets@.contains_key(id) {
                                assert(before.contains(id));
                                let q = choose|q: int| 0 <= q < before.len() && before[q] == id;
                                assert(out@[q] == id);
                            }
                        }
                    }
                    if out@.contains(id) {
                        let q = choose|q: int| 0 <= q < out@.len() && out@[q] == id;
                        if q < before.len() {
                            assert(before[q] == id);
                            assert(before.contains(id));
                        } else {
                            assert(id == e.asset_id);
                            assert(self.container.timeline@[k as int] == e);
                        }
                    }
                }
            }
            k = k + 1;
        }
        out
    }

    /// The compressed bytes of asset `id`, for the caller to decode.
    pub fn asset_data(&self, asset_id: u32) -> (r: Result<&Vec<u8>, Error>)
        ensures
            r is Err <==> forall|i: int|
                0 <= i < self.container.assets@.len() ==> self.container.assets@[i].id != asset_id,
            r matches Err(e) ==> e == Error::AssetNotFound(asset_id),
            r matches Ok(d) ==> exists|i: int|
                0 <= i < self.container.assets@.len() && self.container.assets@[i].id == asset_id
                    && d == &self.container.assets@[i].data,
    {
        match self.container.get_asset(asset_id) {
            Some(a) => Ok(&a.data),
            None => Err(Error::AssetNotFound(asset_id)),
        }
    }

    /// Keeps the decoded image of asset `id`. An image already kept for
    /// that id stays: each asset is decoded once.
    pub fn store_decoded(&mut self, asset_id: u32, image: RgbaFrame)
        requires
            old(self).inv(),
            image.wf(),
        ensures
            final(self).inv(),
            final(self).container == old(self).container,
            final(self).decoded_assets@ == if old(self).decoded_assets@.contains_key(asset_id) {
                old(self).decoded_assets@
            } else {
                old(self).decoded_assets@.insert(asset_id, image)
            },
    {
        if !self.decoded_assets.contains_key(&asset_id) {
            self.decoded_assets.insert(asset_id, image);
        }
    }

    /// Renders the frame at `timestamp_ms`: opaque black, then every entry
    /// shown then, by ascending layer, each image blended over what is
    /// below. Fails on the first of those entries whose asset is not kept.
    pub fn render_frame(&self, timestamp_ms: u64) -> (r: Result<RgbaFrame, Error>)
        requires
            self.inv(),
            self.container.header.width * self.container.header.height * 4 <= usize::MAX,
        ensures
            r is Err <==> exists|k: int|
                0 <= k < self.container.timeline@.len() && (#[trigger] self.container.timeline@[k]).active_at(
                    timestamp_ms,
                ) && !self.decoded_assets@.contains_key(self.container.timeline@[k].asset_id),
            r matches Err(e) ==> exists|k: int|
                0 <= k < self.container.timeline@.len() && (#[trigger] self.container.timeline@[k]).active_at(
                    timestamp_ms,
                ) && !self.decoded_assets@.contains_key(self.container.timeline@[k].asset_id) && e
                    == Error::AssetNotFound(self.container.timeline@[k].asset_id),
            r matches Err(e) ==> exists|es: Seq<TimelineEntry>, m: int|
                {
                    &&& stable_sorted_by_layer(
                        es,
                        self.container.timeline@.filter(active_at(timestamp_ms)),
                    )
                    &&& 0 <= m < es.len()
                    &&& forall|j: int|
                        0 <= j < m ==> self.decoded_assets@.contains_key(
                            (#[trigger] es[j]).asset_id,
                        )
                    &&& !self.decoded_assets@.contains_key(es[m].asset_id)
                    &&& e == Error::AssetNotFound(es[m].asset_id)
                },
            r matches Ok(f) ==> f.wf() && f.width == self.container.header.width && f.height
                == self.container.header.height && exists|es: Seq<TimelineEntry>|
                {
                    &&& stable_sorted_by_layer(
                        es,
                        self.container.timeline@.filter(active_at(timestamp_ms)),
                    )
                    &&& forall|i: int, j: int|
                        0 <= i < f.width && 0 <= j < f.height ==> #[trigger] f.pixel(i, j)
                            == composite_pixel(self.decoded_assets@, es, es.len() as int, i, j)
                },
    {
        let ghost tl = self.container.timeline@;
        let ghost active = tl.filter(active_at(timestamp_ms));
        let entries = self.container.get_active_entries(timestamp_ms);
        let width = self.container.header.width;
        let height = self.container.header.height;
        let mut frame = RgbaFrame::from_pixel(width, height, Rgba { r: 0, g: 0, b: 0, a: 255 });
        let mut n: usize = 0;
        while n < entries.len()
            invariant
                self.inv(),
                tl == self.container.timeline@,
                active == tl.filter(active_at(timestamp_ms)),
                stable_sorted_by_layer(entries@, active),
                n <= entries@.len(),
                frame.wf(),
                frame.width == width,
                frame.height == height,
                forall|i: int, j: int|
                    0 <= i < width && 0 <= j < height ==> #[trigger] frame.pixel(i, j)
                        == composite_pixel(self.decoded_assets@, entries@, n as int, i, j),
                forall|m: int|
                    0 <= m < n ==> self.decoded_assets@.contains_key(
                        (#[trigger] entries@[m]).asset_id,
                    ),
            decreases entries@.len() - n,
        {
            let e = entries[n];
            match self.decoded_assets.get(&e.asset_id) {
                None => {
                    proof {
                        lemma_sorted_entry_in_timeline(entries@, active, tl, timestamp_ms, n as int);
                        assert(stable_sorted_by_layer(entries@, active) && 0 <= n < entries@.len()
                            && !self.decoded_assets@.contains_key(entries@[n as int].asset_id));
                    }
                    return Err(Error::AssetNotFound(e.asset_id));
                },
                Some(img) => {
                    overlay_image(&mut frame, img, e.position_x, e.position_y);
                },
            }
            n = n + 1;
        }
        proof {
            assert forall|k: int|
                0 <= k < tl.len() && (#[trigger] tl[k]).active_at(timestamp_ms) implies self.decoded_assets@.contains_key(
                tl[k].asset_id,
            ) by {
                let m = lemma_timeline_entry_sorted(entries@, active, tl, timestamp_ms, k);
            }
        }
        Ok(frame)
    }
}

/// An entry of the sorted active entries is an active entry of the
/// timeline.
proof fn lemma_sorted_entry_in_timeline(
    es: Seq<TimelineEntry>,
    active: Seq<TimelineEntry>,
    tl: Seq<TimelineEntry>,
    t: u64,
    n: int,
)
    requires
        active == tl.filter(active_at(t)),
        stable_sorted_by_layer(es, active),
        0 <= n < es.len(),
    ensures
        exists|k: int| 0 <= k < tl.len() && #[trigger] tl[k] == es[n] && tl[k].active_at(t),
{
    let e = es[n];
    let z = e.z_order;
    broadcast use vstd::seq_lib::group_filter_ensures;
    es.lemma_filter_contains(crate::container::on_layer(z), n);
    assert(es.filter(crate::container::on_layer(z)) == active.filter(crate::container::on_layer(z)));
    active.lemma_filter_contains_rev(crate::container::on_layer(z), e);
    tl.lemma_filter_contains_rev(active_at(t), e);
    let a = choose|a: int| 0 <= a < active.len() && active[a] == e;
    tl.lemma_filter_pred(active_at(t), a);
    let k = choose|k: int| 0 <= k < tl.len() && tl[k] == e;
}

/// An active entry of the timeline is among the sorted active entries.
proof fn lemma_timeline_entry_sorted(
    es: Seq<TimelineEntry>,
    active: Seq<TimelineEntry>,
    tl: Seq<TimelineEntry>,
    t: u64,
    k: int,
) -> (m: int)
    requires
        active == tl.filter(active_at(t)),
        stable_sorted_by_layer(es, active),
        0 <= k < tl.len(),
        tl[k].active_at(t),
    ensures
        0 <= m < es.len(),
        es[m] == tl[k],
{
    let e = tl[k];
    let z = e.z_order;
    broadcast use vstd::seq_lib::group_filter_ensures;
    tl.lemma_filter_contains(active_at(t), k);
    let a = choose|a: int| 0 <= a < active.len() && active[a] == e;
    active.lemma_filter_contains(crate::container::on_layer(z), a);
    assert(es.filter(crate::container::on_layer(z)) == active.filter(crate::container::on_layer(z)));
    es.lemma_filter_contains_rev(crate::container::on_layer(z), e);
    choose|m: int| 0 <= m < es.len() && es[m] == e
}

/// A kept asset is never asked for again, whatever the timestamp: each
/// asset is decoded at most once in a compositor's lifetime.
pub proof fn lemma_decoded_once(c: FrameCompositor, t: u64, id: u32)
    requires
        c.decoded_assets@.contains_key(id),
    ensures
        !c.needs_decode(t, id),
{
}

} // verus!
