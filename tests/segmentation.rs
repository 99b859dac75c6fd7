use vai::regions::{find_bounding_box, find_diff_regions};
use vai::segmenter::{compute_change_ratio, detect_scenes, is_scene_change, pixel_difference};
use vai::{EncoderConfig, Rgba, RgbaFrame, SceneDetector, SceneDetectorConfig};

fn px(r: u8, g: u8, b: u8, a: u8) -> Rgba {
    Rgba { r, g, b, a }
}

fn solid(w: u32, h: u32, p: Rgba) -> RgbaFrame {
    RgbaFrame::from_pixel(w, h, p)
}

fn with_square(w: u32, h: u32, x0: u32, y0: u32, side: u32, p: Rgba) -> RgbaFrame {
    let mut f = solid(w, h, px(0, 0, 0, 255));
    for y in y0..y0 + side {
        for x in x0..x0 + side {
            f.put_pixel(x, y, p);
        }
    }
    f
}

#[test]
fn pixel_difference_is_mean_of_color_channels() {
    assert_eq!(pixel_difference(px(10, 20, 30, 0), px(13, 14, 30, 255)), 3);
    assert_eq!(pixel_difference(px(0, 0, 0, 0), px(255, 255, 255, 0)), 255);
    assert_eq!(pixel_difference(px(0, 0, 0, 0), px(1, 1, 0, 0)), 0);
    assert_eq!(pixel_difference(px(200, 0, 0, 9), px(100, 0, 0, 200)), 33);
}

#[test]
fn change_ratio_counts_pixels_over_threshold() {
    let a = solid(4, 4, px(0, 0, 0, 255));
    let b = with_square(4, 4, 1, 1, 2, px(90, 90, 90, 255));
    assert_eq!(compute_change_ratio(&a, &b, 40), (4, 16));
    assert_eq!(compute_change_ratio(&a, &b, 90), (0, 16));
    let small = solid(2, 3, px(255, 255, 255, 255));
    assert_eq!(compute_change_ratio(&a, &small, 0), (6, 6));
}

#[test]
fn scene_change_ratio_is_inclusive() {
    assert!(is_scene_change(35, 100, 350));
    assert!(!is_scene_change(34, 100, 350));
    assert!(!is_scene_change(0, 0, 350));
    assert!(is_scene_change(0, 0, 0));
}

#[test]
fn scenes_split_on_large_changes() {
    let black = px(0, 0, 0, 255);
    let white = px(255, 255, 255, 255);
    let frames = vec![
        solid(8, 8, black),
        with_square(8, 8, 0, 0, 2, white),
        solid(8, 8, white),
        solid(8, 8, white),
        solid(8, 8, black),
    ];
    let config = SceneDetectorConfig::default();
    let segs = detect_scenes(frames, &config);
    let bounds: Vec<(usize, usize)> = segs.iter().map(|s| (s.start_frame, s.end_frame)).collect();
    assert_eq!(bounds, vec![(0, 2), (2, 4), (4, 5)]);
    assert_eq!(segs[1].background.get_pixel(3, 3), white);
    assert_eq!(segs[2].background.get_pixel(0, 0), black);
}

#[test]
fn streaming_detection_matches_batch_detection() {
    let config = SceneDetectorConfig { pixel_threshold: 10, scene_change_permille: 500 };
    let make = || {
        (0..12u32)
            .map(|i| solid(4, 4, px(((i / 4) * 100) as u8, 0, 0, 255)))
            .collect::<Vec<_>>()
    };
    let batch: Vec<(usize, usize)> =
        detect_scenes(make(), &config).iter().map(|s| (s.start_frame, s.end_frame)).collect();
    let mut det = SceneDetector::new(config);
    for f in make() {
        det.push_frame(f);
    }
    let streamed: Vec<(usize, usize)> = det.finish().iter().map(|s| (s.start_frame, s.end_frame)).collect();
    assert_eq!(batch, vec![(0, 4), (4, 8), (8, 12)]);
    assert_eq!(batch, streamed);
    let again: Vec<(usize, usize)> =
        detect_scenes(make(), &config).iter().map(|s| (s.start_frame, s.end_frame)).collect();
    assert_eq!(batch, again);
}

#[test]
fn no_frames_no_scenes() {
    let segs = detect_scenes(Vec::new(), &SceneDetectorConfig::default());
    assert!(segs.is_empty());
}

#[test]
fn bounding_box_of_mask() {
    let mut mask = vec![vec![false; 6]; 4];
    mask[1][2] = true;
    mask[3][4] = true;
    mask[2][1] = true;
    assert_eq!(find_bounding_box(&mask), (1, 1, 4, 3));
    let empty = vec![vec![false; 6]; 4];
    assert_eq!(find_bounding_box(&empty), (6, 4, 0, 0));
}

#[test]
fn diff_region_crops_the_changed_box_from_the_frame() {
    let bg = solid(10, 8, px(0, 0, 0, 255));
    let mut frame = solid(10, 8, px(0, 0, 0, 255));
    frame.put_pixel(2, 3, px(200, 200, 200, 255));
    frame.put_pixel(6, 5, px(100, 150, 250, 255));
    let config = EncoderConfig { quality: 80, threshold: 30, min_region_size: 4 };
    let r = find_diff_regions(&config, &bg, &frame).unwrap();
    assert_eq!((r.x, r.y, r.image.width, r.image.height), (2, 3, 5, 3));
    assert_eq!(r.image.get_pixel(0, 0), px(200, 200, 200, 255));
    assert_eq!(r.image.get_pixel(4, 2), px(100, 150, 250, 255));
    assert_eq!(r.image.get_pixel(1, 1), px(0, 0, 0, 255));
}

#[test]
fn small_or_absent_changes_give_no_region() {
    let bg = solid(10, 8, px(0, 0, 0, 255));
    let config = EncoderConfig { quality: 80, threshold: 30, min_region_size: 64 };
    assert!(find_diff_regions(&config, &bg, &bg.clone()).is_none());
    let mut frame = solid(10, 8, px(0, 0, 0, 255));
    frame.put_pixel(1, 1, px(255, 255, 255, 255));
    frame.put_pixel(7, 6, px(255, 255, 255, 255));
    assert!(find_diff_regions(&config, &bg, &frame).is_none());
    let faint = solid(10, 8, px(30, 30, 30, 255));
    assert!(find_diff_regions(&config, &bg, &faint).is_none());
}

#[test]
fn frame_from_raw_checks_length() {
    assert!(RgbaFrame::from_raw(2, 2, vec![0; 16]).is_some());
    assert!(RgbaFrame::from_raw(2, 2, vec![0; 15]).is_none());
}
