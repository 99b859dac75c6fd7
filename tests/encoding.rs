use vai::encoder::{
    encode_avif, encode_backgrounds, encode_regions, encoder_result, estimate_frame_count,
    extract_regions, ffmpeg_rate_factor, frame_start, merge_partition_results, partition_bounds,
    process_partition, to_encoder_quality, BufferedFrame, RegionResult,
};
use vai::{
    ChunkedEncoder, EncodeError, EncoderConfig, Rgba, RgbaFrame, SceneDetector, SceneDetectorConfig,
    SceneSegment,
};

fn black() -> Rgba {
    Rgba { r: 0, g: 0, b: 0, a: 255 }
}

fn white() -> Rgba {
    Rgba { r: 255, g: 255, b: 255, a: 255 }
}

/// Frame `i` of a 100×100 black video with a 20×20 white square at
/// (10, 10) in frames 5 to 14.
fn square_video_frame(i: usize) -> RgbaFrame {
    let mut f = RgbaFrame::from_pixel(100, 100, black());
    if (5..15).contains(&i) {
        for y in 10..30 {
            for x in 10..30 {
                f.put_pixel(x, y, white());
            }
        }
    }
    f
}

/// Runs both passes over `count` frames with placeholder payloads instead
/// of AVIF bytes; gives the container and the buffer size at each flush.
fn run_encode(
    count: usize,
    frame: &dyn Fn(usize) -> RgbaFrame,
    capacity: usize,
    workers: usize,
) -> (vai::VaiContainer, Vec<usize>) {
    let mut detector = SceneDetector::new(SceneDetectorConfig::default());
    for i in 0..count {
        detector.push_frame(frame(i));
    }
    let segments = detector.finish();
    let backgrounds: Vec<Vec<u8>> = (0..segments.len()).map(|k| vec![0xB0, k as u8]).collect();
    let config = EncoderConfig::default();
    let mut enc = ChunkedEncoder::new(100, 100, 10, 1, 2000, segments, backgrounds, capacity);
    let mut flushes = Vec::new();
    let mut flush = |enc: &mut ChunkedEncoder, flushes: &mut Vec<usize>| {
        let chunk: Vec<BufferedFrame> = enc.take_chunk();
        flushes.push(chunk.len());
        let mut parts = Vec::new();
        for (s, e) in partition_bounds(chunk.len(), workers) {
            let regions = extract_regions(&chunk[s..e], &enc.segments, &config);
            parts.push(Ok(
                regions
                    .into_iter()
                    .map(|(idx, r)| RegionResult {
                        frame_index: idx,
                        x: r.x,
                        y: r.y,
                        width: r.image.width,
                        height: r.image.height,
                        data: vec![idx as u8],
                    })
                    .collect::<Vec<_>>(),
            ));
        }
        enc.append_results(merge_partition_results(parts).unwrap());
    };
    for i in 0..count {
        if enc.push_frame(i, frame(i)) {
            flush(&mut enc, &mut flushes);
        }
    }
    if !enc.chunk.is_empty() {
        flush(&mut enc, &mut flushes);
    }
    (enc.finish(), flushes)
}

#[test]
fn white_square_scenario() {
    let (c, _) = run_encode(20, &square_video_frame, 4, 3);
    assert_eq!(c.assets.len(), 11);
    assert_eq!(c.header.num_assets, 11);
    assert_eq!(c.header.num_timeline_entries, 11);
    let bg = &c.assets[0];
    assert_eq!((bg.id, bg.width, bg.height), (0, 100, 100));
    assert_eq!(c.timeline[0], vai::TimelineEntry::new(0, 0, 2000, 0, 0, 0));
    for k in 1..11usize {
        let a = &c.assets[k];
        assert_eq!((a.id, a.width, a.height), (k as u32, 20, 20));
        assert_eq!(a.data, vec![(k + 4) as u8]);
        let e = c.timeline[k];
        assert_eq!((e.asset_id, e.position_x, e.position_y, e.z_order), (k as u32, 10, 10, 1));
        assert_eq!(e.start_time_ms, 100 * (k as u64 + 4));
        assert_eq!(e.end_time_ms, e.start_time_ms + 100);
    }
    assert_eq!(c.timeline[1].start_time_ms, 500);
    assert_eq!(c.timeline[10].end_time_ms, 1500);
    assert!(c.get_active_entries(499).iter().all(|e| e.z_order == 0));
    assert!(c.get_active_entries(1500).iter().all(|e| e.z_order == 0));
    let mid = c.get_active_entries(1000);
    assert_eq!(mid.len(), 2);
    assert_eq!(mid[1].asset_id, 6);
}

#[test]
fn buffer_never_exceeds_capacity() {
    for capacity in [1usize, 3, 7, 50] {
        let (c, flushes) = run_encode(20, &square_video_frame, capacity, 2);
        assert!(flushes.iter().all(|&n| n <= capacity));
        assert_eq!(flushes.iter().sum::<usize>(), 19);
        assert_eq!(c.assets.len(), 11);
    }
}

#[test]
fn results_do_not_depend_on_workers_or_chunks() {
    let moving = |i: usize| {
        let mut f = RgbaFrame::from_pixel(100, 100, black());
        let x = (i as u32 * 3) % 70;
        for y in 40..52 {
            for dx in 0..12 {
                f.put_pixel(x + dx, y, white());
            }
        }
        f
    };
    let (base, _) = run_encode(20, &moving, 5, 1);
    for (capacity, workers) in [(5usize, 4usize), (3, 2), (20, 7), (1, 1)] {
        let (c, _) = run_encode(20, &moving, capacity, workers);
        assert_eq!(c.timeline, base.timeline);
        let ids: Vec<(u32, u32, u32, Vec<u8>)> =
            c.assets.iter().map(|a| (a.id, a.width, a.height, a.data.clone())).collect();
        let base_ids: Vec<(u32, u32, u32, Vec<u8>)> =
            base.assets.iter().map(|a| (a.id, a.width, a.height, a.data.clone())).collect();
        assert_eq!(ids, base_ids);
    }
}

#[test]
fn frame_timing_arithmetic() {
    assert_eq!(estimate_frame_count(2000, 10, 1), 20);
    assert_eq!(estimate_frame_count(1001, 30000, 1001), 30);
    assert_eq!(estimate_frame_count(1000, 24, 1), 24);
    assert_eq!(estimate_frame_count(1001, 24, 1), 25);
    assert_eq!(estimate_frame_count(0, 24, 1), 0);
    assert_eq!(estimate_frame_count(10, 24, 0), u64::MAX);
    assert_eq!(frame_start(2000, 20, 5), 500);
    assert_eq!(frame_start(1000, 3, 1), 333);
    assert_eq!(frame_start(1000, 0, 2), 2000);
}

#[test]
fn partitions_cover_the_chunk() {
    assert_eq!(partition_bounds(10, 3), vec![(0, 4), (4, 8), (8, 10)]);
    assert_eq!(partition_bounds(3, 8), vec![(0, 1), (1, 2), (2, 3)]);
    assert_eq!(partition_bounds(5, 1), vec![(0, 5)]);
    assert!(partition_bounds(0, 4).is_empty());
}

#[test]
fn ffmpeg_quality_maps_to_rate_factor() {
    assert_eq!(ffmpeg_rate_factor(64, 64, 100).unwrap(), 0);
    assert_eq!(ffmpeg_rate_factor(64, 64, 0).unwrap(), 63);
    assert_eq!(ffmpeg_rate_factor(64, 64, 80).unwrap(), 13);
    assert_eq!(ffmpeg_rate_factor(64, 64, 50).unwrap(), 32);
    assert!(matches!(ffmpeg_rate_factor(63, 64, 80), Err(EncodeError::AvifEncode(_))));
    assert!(matches!(ffmpeg_rate_factor(64, 10, 80), Err(EncodeError::AvifEncode(_))));
}

#[test]
fn still_image_encoder_produces_avif() {
    let img = RgbaFrame::from_pixel(8, 8, Rgba { r: 200, g: 30, b: 60, a: 255 });
    let bytes = encode_avif(&img, 60, 1).unwrap();
    assert!(bytes.len() > 32);
    assert_eq!(&bytes[4..8], b"ftyp");
    assert!(bytes.windows(4).any(|w| w == b"av1C"));
}

#[test]
fn worker_encodes_each_changed_frame() {
    let bg = RgbaFrame::from_pixel(16, 16, black());
    let segments = vec![SceneSegment { start_frame: 0, end_frame: 3, background: bg }];
    let mut changed = RgbaFrame::from_pixel(16, 16, black());
    for y in 2..6 {
        for x in 3..7 {
            changed.put_pixel(x, y, white());
        }
    }
    let items = vec![
        BufferedFrame { frame_index: 1, segment_index: 0, frame: RgbaFrame::from_pixel(16, 16, black()) },
        BufferedFrame { frame_index: 2, segment_index: 0, frame: changed },
    ];
    let config = EncoderConfig { quality: 50, threshold: 30, min_region_size: 4 };
    let out = process_partition(&items, &segments, &config, 1).unwrap();
    assert_eq!(out.len(), 1);
    assert_eq!((out[0].frame_index, out[0].x, out[0].y, out[0].width, out[0].height), (2, 3, 2, 4, 4));
    assert_eq!(&out[0].data[4..8], b"ftyp");
}

#[test]
fn progress_reports_at_intervals_and_at_the_end() {
    let mut p = vai::ProgressTracker::new(7, "frames");
    let due: Vec<Option<u64>> = (0..8).map(|_| p.increment_and_report(3)).collect();
    assert_eq!(due, vec![None, None, Some(3), None, None, Some(6), Some(7), None]);
    assert_eq!(p.counter(), 8);
    assert_eq!(p.label, "frames");
}

fn result_at(frame_index: usize, byte: u8) -> RegionResult {
    RegionResult { frame_index, x: 0, y: 0, width: 1, height: 1, data: vec![byte] }
}

#[test]
fn merge_keeps_part_order_and_stops_at_first_failure() {
    let ok = merge_partition_results(vec![
        Ok(vec![result_at(1, 1), result_at(2, 2)]),
        Ok(vec![]),
        Ok(vec![result_at(5, 5)]),
    ])
    .unwrap();
    let idx: Vec<usize> = ok.iter().map(|r| r.frame_index).collect();
    assert_eq!(idx, vec![1, 2, 5]);
    let failed = merge_partition_results(vec![
        Ok(vec![result_at(1, 1)]),
        Err(EncodeError::AvifEncode("first".to_string())),
        Err(EncodeError::AvifEncode("second".to_string())),
    ]);
    assert_eq!(failed.err(), Some(EncodeError::AvifEncode("first".to_string())));
    assert!(merge_partition_results(Vec::new()).unwrap().is_empty());
}

#[test]
fn encoder_failure_becomes_the_error() {
    assert_eq!(
        encoder_result(Err("too few pixels".to_string())).err(),
        Some(EncodeError::AvifEncode("too few pixels".to_string()))
    );
    assert_eq!(encoder_result(Ok(vec![1, 2])).unwrap(), vec![1, 2]);
}

#[test]
fn quality_is_mapped_onto_the_encoder_scale() {
    assert_eq!(to_encoder_quality(0), 1);
    assert_eq!(to_encoder_quality(1), 1);
    assert_eq!(to_encoder_quality(80), 80);
    assert_eq!(to_encoder_quality(100), 100);
    assert_eq!(to_encoder_quality(255), 100);
    let img = RgbaFrame::from_pixel(4, 4, Rgba { r: 9, g: 9, b: 9, a: 255 });
    assert!(encode_avif(&img, 0, 1).is_ok());
    assert!(encode_avif(&img, 255, 2).is_ok());
}

#[test]
fn nothing_to_encode_succeeds() {
    assert!(encode_regions(Vec::new(), 80, 1).unwrap().is_empty());
    assert!(encode_backgrounds(&[], 80, 1).unwrap().is_empty());
    let bg = RgbaFrame::from_pixel(8, 8, black());
    let segments = vec![SceneSegment { start_frame: 0, end_frame: 2, background: bg }];
    let items = vec![BufferedFrame {
        frame_index: 1,
        segment_index: 0,
        frame: RgbaFrame::from_pixel(8, 8, black()),
    }];
    assert!(process_partition(&items, &segments, &EncoderConfig::default(), 1).unwrap().is_empty());
}

#[test]
fn backgrounds_are_encoded_in_scene_order() {
    let segments = vec![
        SceneSegment { start_frame: 0, end_frame: 2, background: RgbaFrame::from_pixel(8, 8, black()) },
        SceneSegment { start_frame: 2, end_frame: 3, background: RgbaFrame::from_pixel(8, 8, white()) },
    ];
    let out = encode_backgrounds(&segments, 70, 1).unwrap();
    assert_eq!(out.len(), 2);
    assert_eq!(out[0], encode_avif(&segments[0].background, 70, 1).unwrap());
    assert_eq!(out[1], encode_avif(&segments[1].background, 70, 1).unwrap());
    assert_eq!(&out[0][4..8], b"ftyp");
}

#[test]
fn encoded_flush_does_not_depend_on_workers() {
    let bg = RgbaFrame::from_pixel(16, 16, black());
    let segments = vec![SceneSegment { start_frame: 0, end_frame: 5, background: bg }];
    let items: Vec<BufferedFrame> = (1..5usize)
        .map(|i| {
            let mut f = RgbaFrame::from_pixel(16, 16, black());
            for y in 2..8 {
                for x in i as u32..i as u32 + 6 {
                    f.put_pixel(x, y, white());
                }
            }
            BufferedFrame { frame_index: i, segment_index: 0, frame: f }
        })
        .collect();
    let config = EncoderConfig { quality: 70, threshold: 30, min_region_size: 4 };
    let run = |workers: usize| {
        let parts = partition_bounds(items.len(), workers)
            .into_iter()
            .map(|(s, e)| process_partition(&items[s..e], &segments, &config, 1))
            .collect::<Vec<_>>();
        merge_partition_results(parts)
            .unwrap()
            .into_iter()
            .map(|r| (r.frame_index, r.x, r.y, r.width, r.height, r.data))
            .collect::<Vec<_>>()
    };
    let one = run(1);
    assert_eq!(one.len(), 4);
    assert_eq!(one, run(3));
    assert_eq!(one, run(4));
}
