//! Scene detection: splits a frame sequence into segments that share one
//! background, comparing each frame with the current background.
use vstd::prelude::*;

use crate::frame::{Rgba, RgbaFrame};

verus! {

pub open spec fn abs_diff(a: u8, b: u8) -> int {
    if a >= b {
        a - b
    } else {
        b - a
    }
}

/// Mean of the absolute differences of the red, green and blue channels,
/// rounded down; alpha is ignored.
pub open spec fn pixel_diff(a: Rgba, b: Rgba) -> int {
    (abs_diff(a.r, b.r) + abs_diff(a.g, b.g) + abs_diff(a.b, b.b)) / 3
}

/// The pixel `(x, y)` differs between `a` and `b` by more than `threshold`.
pub open spec fn is_changed(a: RgbaFrame, b: RgbaFrame, x: int, y: int, threshold: u8) -> bool {
    pixel_diff(a.pixel(x, y), b.pixel(x, y)) > threshold
}

/// Changed pixels among the first `n` of row `y`.
pub open spec fn count_row(a: RgbaFrame, b: RgbaFrame, threshold: u8, y: int, n: int) -> nat
    decreases n,
{
    if n <= 0 {
        0
    } else {
        count_row(a, b, threshold, y, n - 1) + if is_changed(a, b, n - 1, y, threshold) {
            1nat
        } else {
            0nat
        }
    }
}

/// Changed pixels in the first `m` rows, each `w` pixels long.
pub open spec fn count_changed(a: RgbaFrame, b: RgbaFrame, threshold: u8, w: int, m: int) -> nat
    decreases m,
{
    if m <= 0 {
        0
    } else {
        count_changed(a, b, threshold, w, m - 1) + count_row(a, b, threshold, m - 1, w)
    }
}

pub open spec fn min_u32(a: u32, b: u32) -> u32 {
    if a <= b {
        a
    } else {
        b
    }
}

/// Settings of scene detection.
#[derive(Debug, Clone, Copy)]
pub struct SceneDetectorConfig {
    /// A pixel counts as changed when its difference exceeds this value.
    pub pixel_threshold: u8,
    /// A new scene starts when at least this many thousandths of the pixels
    /// changed.
    pub scene_change_permille: u32,
}

impl Default for SceneDetectorConfig {
    fn default() -> (r: Self)
        ensures
            r.pixel_threshold == 40,
            r.scene_change_permille == 350,
    {
        SceneDetectorConfig { pixel_threshold: 40, scene_change_permille: 350 }
    }
}

/// The share `changed / total` is at least `permille` thousandths; an empty
/// comparison is a share of zero.
pub open spec fn reaches_ratio(changed: nat, total: nat, permille: u32) -> bool {
    if total == 0 {
        permille == 0
    } else {
        changed * 1000 >= permille * total
    }
}

/// Frame `f` starts a new scene against background `bg`.
pub open spec fn starts_scene(bg: RgbaFrame, f: RgbaFrame, config: SceneDetectorConfig) -> bool {
    let w = min_u32(bg.width, f.width);
    let h = min_u32(bg.height, f.height);
    reaches_ratio(
        count_changed(bg, f, config.pixel_threshold, w as int, h as int),
        (w * h) as nat,
        config.scene_change_permille,
    )
}

/// Indices of the frames, among the first `n`, that start a scene: the
/// first frame, then each frame that differs enough from the background of
/// the scene before it.
pub open spec fn scene_starts(frames: Seq<RgbaFrame>, config: SceneDetectorConfig, n: nat) -> Seq<
    int,
>
    decreases n,
{
    if n == 0 {
        seq![]
    } else if n == 1 {
        seq![0]
    } else {
        let prev = scene_starts(frames, config, (n - 1) as nat);
        if starts_scene(frames[prev.last()], frames[n - 1], config) {
            prev.push(n - 1)
        } else {
            prev
        }
    }
}

pub proof fn lemma_scene_starts_shape(frames: Seq<RgbaFrame>, config: SceneDetectorConfig, n: nat)
    ensures
        n == 0 ==> scene_starts(frames, config, n).len() == 0,
        n > 0 ==> scene_starts(frames, config, n).len() >= 1 && scene_starts(frames, config, n)[0]
            == 0 && scene_starts(frames, config, n).last() < n,
        forall|i: int, j: int|
            0 <= i < j < scene_starts(frames, config, n).len() ==> scene_starts(frames, config, n)[i]
                < scene_starts(frames, config, n)[j],
    decreases n,
{
    if n > 1 {
        lemma_scene_starts_shape(frames, config, (n - 1) as nat);
    }
}

/// A run of frames `[start_frame, end_frame)` sharing one background, the
/// scene's first frame.
#[derive(Debug, Clone)]
pub struct SceneSegment {
    pub start_frame: usize,
    pub end_frame: usize,
    pub background: RgbaFrame,
}

impl SceneSegment {
    pub fn frame_count(&self) -> (r: usize)
        requires
            self.start_frame <= self.end_frame,
        ensures
            r == self.end_frame - self.start_frame,
    {
        self.end_frame - self.start_frame
    }
}

/// `segs` are the scenes of `frames`: one per scene start, each ending
/// where the next begins and the last at the end of the frames.
pub open spec fn are_scenes_of(
    segs: Seq<SceneSegment>,
    frames: Seq<RgbaFrame>,
    config: SceneDetectorConfig,
) -> bool {
    let s = scene_starts(frames, config, frames.len());
    &&& segs.len() == s.len()
    &&& forall|k: int|
        0 <= k < segs.len() ==> {
            &&& #[trigger] segs[k].start_frame == s[k]
            &&& segs[k].end_frame == if k + 1 < s.len() {
                s[k + 1]
            } else {
                frames.len() as int
            }
            &&& segs[k].background == frames[s[k]]
        }
}

pub fn pixel_difference(a: Rgba, b: Rgba) -> (r: u8)
    ensures
        r == pixel_diff(a, b),
{
    let dr: u16 = if a.r >= b.r { (a.r - b.r) as u16 } else { (b.r - a.r) as u16 };
    let dg: u16 = if a.g >= b.g { (a.g - b.g) as u16 } else { (b.g - a.g) as u16 };
    let db: u16 = if a.b >= b.b { (a.b - b.b) as u16 } else { (b.b - a.b) as u16 };
    ((dr + dg + db) / 3) as u8
}

proof fn lemma_count_row_bound(a: RgbaFrame, b: RgbaFrame, threshold: u8, y: int, n: int)
    requires
        0 <= n,
    ensures
        count_row(a, b, threshold, y, n) <= n,
    decreases n,
{
    if n > 0 {
        lemma_count_row_bound(a, b, threshold, y, n - 1);
    }
}

proof fn lemma_count_changed_bound(a: RgbaFrame, b: RgbaFrame, threshold: u8, w: int, m: int)
    requires
        0 <= m,
        0 <= w,
    ensures
        count_changed(a, b, threshold, w, m) <= w * m,
    decreases m,
{
    if m > 0 {
        lemma_count_changed_bound(a, b, threshold, w, m - 1);
        lemma_count_row_bound(a, b, threshold, m - 1, w);
        assert(w * (m - 1) + w == w * m) by (nonlinear_arith);
    }
}

/// How many pixels of the area both frames cover differ by more than
/// `threshold`, and how many pixels that area has.
pub fn compute_change_ratio(a: &RgbaFrame, b: &RgbaFrame, threshold: u8) -> (r: (u64, u64))
    requires
        a.wf(),
        b.wf(),
    ensures
        r.0 == count_changed(
            *a,
            *b,
            threshold,
            min_u32(a.width, b.width) as int,
            min_u32(a.height, b.height) as int,
        ),
        r.1 == min_u32(a.width, b.width) * min_u32(a.height, b.height),
{
    let width = if a.width <= b.width { a.width } else { b.width };
    let height = if a.height <= b.height { a.height } else { b.height };
    proof {
        assert(width * height <= 0xFFFF_FFFE_0000_0001) by (nonlinear_arith)
            requires
                width <= u32::MAX,
                height <= u32::MAX,
        ;
    }
    let total: u64 = width as u64 * height as u64;
    let mut changed: u64 = 0;
    let mut y: u32 = 0;
    while y < height
        invariant
            y <= height,
            changed == count_changed(*a, *b, threshold, width as int, y as int),
            width <= a.width && width <= b.width && height <= a.height && height <= b.height,
            a.wf(),
            b.wf(),
            total == width * height,
        decreases height - y,
    {
        let mut x: u32 = 0;
        let ghost base = changed;
        while x < width
            invariant
                x <= width,
                y < height,
                changed == base + count_row(*a, *b, threshold, y as int, x as int),
                base == count_changed(*a, *b, threshold, width as int, y as int),
                width <= a.width && width <= b.width && height <= a.height && height <= b.height,
                a.wf(),
                b.wf(),
                total == width * height,
            decreases width - x,
        {
            proof {
                lemma_count_changed_bound(*a, *b, threshold, width as int, y as int);
                lemma_count_row_bound(*a, *b, threshold, y as int, x as int);
                assert(width * y + x < width * height) by (nonlinear_arith)
                    requires
                        x < width,
                        y < height,
                ;
            }
            let pa = a.get_pixel(x, y);
            let pb = b.get_pixel(x, y);
            if pixel_difference(pa, pb) > threshold {
                changed = changed + 1;
            }
            x = x + 1;
        }
        y = y + 1;
    }
    (changed, total)
}

/// Whether `changed` of `total` pixels reach `permille` thousandths.
pub fn is_scene_change(changed: u64, total: u64, permille: u32) -> (r: bool)
    ensures
        r == reaches_ratio(changed as nat, total as nat, permille),
{
    if total == 0 {
        permille == 0
    } else {
        proof {
            assert(permille * total <= 0xFFFF_FFFF * 0xFFFF_FFFF_FFFF_FFFF) by (nonlinear_arith)
                requires
                    permille <= 0xFFFF_FFFF,
                    total <= 0xFFFF_FFFF_FFFF_FFFF,
            ;
        }
        changed as u128 * 1000 >= permille as u128 * total as u128
    }
}

/// Two runs of scene detection over the same frames with the same settings
/// give the same scenes.
pub proof fn lemma_scenes_deterministic(
    a: Seq<SceneSegment>,
    b: Seq<SceneSegment>,
    frames: Seq<RgbaFrame>,
    config: SceneDetectorConfig,
)
    requires
        are_scenes_of(a, frames, config),
        are_scenes_of(b, frames, config),
    ensures
        a.len() == b.len(),
        forall|k: int|
            0 <= k < a.len() ==> #[trigger] a[k].start_frame == b[k].start_frame && a[k].end_frame
                == b[k].end_frame && a[k].background == b[k].background,
{
    assert forall|k: int| 0 <= k < a.len() implies #[trigger] a[k].start_frame == b[k].start_frame
        && a[k].end_frame == b[k].end_frame && a[k].background == b[k].background by {
        assert(a[k].start_frame == scene_starts(frames, config, frames.len())[k]);
        assert(b[k].start_frame == scene_starts(frames, config, frames.len())[k]);
    }
}

/// Scene starts among the first `n` frames depend on those frames alone.
pub proof fn lemma_scene_starts_prefix(
    frames: Seq<RgbaFrame>,
    more: Seq<RgbaFrame>,
    config: SceneDetectorConfig,
    n: nat,
)
    requires
        n <= frames.len(),
    ensures
        scene_starts(frames + more, config, n) == scene_starts(frames, config, n),
    decreases n,
{
    if n > 1 {
        lemma_scene_starts_prefix(frames, more, config, (n - 1) as nat);
        lemma_scene_starts_shape(frames, config, (n - 1) as nat);
    }
}

/// Scene detection fed one frame at a time, holding only the background of
/// the current scene besides the scenes already closed.
pub struct SceneDetector {
    config: SceneDetectorConfig,
    segments: Vec<SceneSegment>,
    current_bg: Option<RgbaFrame>,
    scene_start: usize,
    frames_seen: usize,
    seen: Ghost<Seq<RgbaFrame>>,
}

impl SceneDetector {
    /// The frames pushed so far.
    pub closed spec fn frames(&self) -> Seq<RgbaFrame> {
        self.seen@
    }

    pub closed spec fn config(&self) -> SceneDetectorConfig {
        self.config
    }

    pub closed spec fn inv(&self) -> bool {
        let n = self.seen@.len();
        let s = scene_starts(self.seen@, self.config, n);
        &&& self.frames_seen == n
        &&& forall|i: int| 0 <= i < n ==> (#[trigger] self.seen@[i]).wf()
        &&& if n == 0 {
            self.current_bg is None && self.segments@.len() == 0
        } else {
            &&& s.len() == self.segments@.len() + 1
            &&& self.current_bg == Some(self.seen@[s.last()])
            &&& self.scene_start == s.last()
            &&& forall|k: int|
                0 <= k < self.segments@.len() ==> {
                    &&& #[trigger] self.segments@[k].start_frame == s[k]
                    &&& self.segments@[k].end_frame == s[k + 1]
                    &&& self.segments@[k].background == self.seen@[s[k]]
                }
        }
    }

    pub fn new(config: SceneDetectorConfig) -> (r: Self)
        ensures
            r.inv(),
            r.frames() == Seq::<RgbaFrame>::empty(),
            r.config() == config,
    {
        SceneDetector {
            config,
            segments: Vec::new(),
            current_bg: None,
            scene_start: 0,
            frames_seen: 0,
            seen: Ghost(Seq::empty()),
        }
    }

    /// Takes the next frame: it either continues the current scene or, when
    /// it differs enough from the background, closes it and starts a new
    /// scene with itself as background.
    pub fn push_frame(&mut self, frame: RgbaFrame)
        requires
            old(self).inv(),
            frame.wf(),
            old(self).frames().len() < usize::MAX,
        ensures
            final(self).inv(),
            final(self).frames() == old(self).frames().push(frame),
            final(self).config() == old(self).config(),
    {
        let ghost f = frame;
        let ghost seen = self.seen@;
        let ghost n = seen.len();
        let idx = self.frames_seen;
        let ghost old_segs = self.segments@;
        let ghost old_bg = self.current_bg;
        proof {
            assert(seen.push(f) == seen + seq![f]);
            lemma_scene_starts_prefix(seen, seq![f], self.config, n);
            lemma_scene_starts_shape(seen, self.config, n);
        }
        let change = match &self.current_bg {
            None => true,
            Some(bg) => {
                let (changed, total) = compute_change_ratio(bg, &frame, self.config.pixel_threshold);
                is_scene_change(changed, total, self.config.scene_change_permille)
            },
        };
        if self.current_bg.is_none() {
            self.current_bg = Some(frame);
            self.scene_start = 0;
        } else if change {
            let mut previous = Some(frame);
            std::mem::swap(&mut self.current_bg, &mut previous);
            match previous {
                Some(bg) => {
                    self.segments.push(
                        SceneSegment { start_frame: self.scene_start, end_frame: idx, background: bg },
                    );
                },
                None => {},
            }
            self.scene_start = idx;
        }
        self.frames_seen = idx + 1;
        self.seen = Ghost(seen.push(f));
        proof {
            let s2 = scene_starts(self.seen@, self.config, (n + 1) as nat);
            let s1 = scene_starts(seen, self.config, n);
            assert(self.seen@[n as int] == f);
            assert forall|i: int| 0 <= i < n + 1 implies (#[trigger] self.seen@[i]).wf() by {
                if i < n {
                    assert(self.seen@[i] == seen[i]);
                }
            }
            if n > 0 {
                assert(self.seen@ == seen + seq![f]);
                assert(scene_starts(self.seen@, self.config, n) == s1);
                assert(self.seen@[s1.last()] == seen[s1.last()]);
                assert(change == starts_scene(seen[s1.last()], f, self.config));
                if change {
                    assert(s2 == s1.push(n as int));
                } else {
                    assert(s2 == s1);
                }
                assert(self.seen@[s1.last()] == seen[s1.last()]);
                assert forall|k: int| 0 <= k < self.segments@.len() implies (
                #[trigger] self.segments@[k]).background == self.seen@[s2[k]] by {
                    assert(s2[k] == s1[k]);
                    if k < s1.len() - 1 {
                        assert(s1[k] < s1.last());
                    }
                    assert(0 <= s1[k] < n);
                    assert(self.seen@[s1[k]] == seen[s1[k]]);
                    if k < old_segs.len() {
                        assert(self.segments@[k] == old_segs[k]);
                        assert(old_segs[k].start_frame == s1[k]);
                        assert(old_segs[k].end_frame == s1[k + 1]);
                        assert(old_segs[k].background == seen[s1[k]]);
                    } else {
                        assert(change);
                        assert(self.segments@[k].background == old_bg.unwrap());
                        assert(s1[k] == s1.last());
                    }
                }
                assert forall|k: int| 0 <= k < self.segments@.len() implies {
                    &&& #[trigger] self.segments@[k].start_frame == s2[k]
                    &&& self.segments@[k].end_frame == s2[k + 1]
                } by {
                    if k < old_segs.len() {
                        assert(self.segments@[k] == old_segs[k]);
                        assert(old_segs[k].start_frame == s1[k]);
                        assert(old_segs[k].end_frame == s1[k + 1]);
                    }
                }
                if change {
                    assert(self.current_bg == Some(self.seen@[s2.last()]));
                } else {
                    assert(self.current_bg == Some(self.seen@[s2.last()]));
                }
            }
        }
    }

    /// Closes the last scene at the number of frames pushed and gives all
    /// scenes.
    pub fn finish(self) -> (r: Vec<SceneSegment>)
        requires
            self.inv(),
        ensures
            are_scenes_of(r@, self.frames(), self.config()),
    {
        let mut segments = self.segments;
        match self.current_bg {
            Some(bg) => {
                segments.push(
                    SceneSegment {
                        start_frame: self.scene_start,
                        end_frame: self.frames_seen,
                        background: bg,
                    },
                );
            },
            None => {},
        }
        segments
    }
}

/// Splits `frames` into scenes.
pub fn detect_scenes(frames: Vec<RgbaFrame>, config: &SceneDetectorConfig) -> (r: Vec<SceneSegment>)
    requires
        forall|i: int| 0 <= i < frames@.len() ==> (#[trigger] frames@[i]).wf(),
    ensures
        are_scenes_of(r@, frames@, *config),
{
    let ghost all = frames@;
    let count = frames.len();
    let mut rest = frames;
    let mut detector = SceneDetector::new(*config);
    while rest.len() > 0
        invariant
            detector.inv(),
            detector.config() == *config,
            detector.frames() + rest@ == all,
            forall|i: int| 0 <= i < all.len() ==> (#[trigger] all[i]).wf(),
            all.len() <= usize::MAX,
        decreases rest@.len(),
    {
        let ghost before = rest@;
        let frame = rest.remove(0);
        proof {
            assert(all[detector.frames().len() as int] == before[0]);
            assert(detector.frames().push(frame) + rest@ =~= all);
        }
        detector.push_frame(frame);
    }
    assert(detector.frames() =~= all);
    detector.finish()
}

} // verus!
