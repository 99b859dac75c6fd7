use vai::container::Error;
use vai::playback::{frame_count, frame_timestamp_ms, tick_from_ms, PlaybackState};
use vai::{Asset, TimelineEntry, VaiContainer, VaiHeader};

#[test]
fn test_header_roundtrip() {
    let header = VaiHeader::new(1920, 1080, 30, 1, 5000, 10, 20);

    let mut buffer = Vec::new();
    header.write(&mut buffer);

    let read_header = VaiHeader::read(&buffer).unwrap();

    assert_eq!(header.version, read_header.version);
    assert_eq!(header.width, read_header.width);
    assert_eq!(header.height, read_header.height);
    assert_eq!(header.fps_num, read_header.fps_num);
    assert_eq!(header.fps_den, read_header.fps_den);
    assert_eq!(header.duration_ms, read_header.duration_ms);
    assert_eq!(header.num_assets, read_header.num_assets);
    assert_eq!(header.num_timeline_entries, read_header.num_timeline_entries);
}

#[test]
fn test_container_roundtrip() {
    let header = VaiHeader::new(1920, 1080, 30, 1, 1000, 1, 1);
    let assets = vec![Asset::new(0, 100, 100, vec![1, 2, 3, 4])];
    let timeline = vec![TimelineEntry::new(0, 0, 1000, 0, 0, 0)];

    let container = VaiContainer::new(header, assets, timeline);

    let mut buffer = Vec::new();
    container.write(&mut buffer).unwrap();

    let read_container = VaiContainer::read(&buffer).unwrap();

    assert_eq!(container.header.width, read_container.header.width);
    assert_eq!(container.assets.len(), read_container.assets.len());
    assert_eq!(container.timeline.len(), read_container.timeline.len());
}

fn sample_container() -> VaiContainer {
    let header = VaiHeader::new(640, 480, 30000, 1001, 4321, 2, 3);
    let assets = vec![
        Asset::new(0, 640, 480, vec![9, 8, 7]),
        Asset::new(7, 20, 10, (0..=255u8).collect()),
    ];
    let timeline = vec![
        TimelineEntry::new(0, 0, 4321, 0, 0, 0),
        TimelineEntry::new(7, 100, 200, -5, -300, 1),
        TimelineEntry::new(7, u64::MAX - 1, u64::MAX, i32::MIN, i32::MAX, -2),
    ];
    VaiContainer::new(header, assets, timeline)
}

#[test]
fn container_round_trip_keeps_every_field() {
    let c = sample_container();
    let mut buffer = Vec::new();
    c.write(&mut buffer).unwrap();
    let r = VaiContainer::read(&buffer).unwrap();
    assert_eq!(r.header, c.header);
    assert_eq!(r.assets.len(), 2);
    for (a, b) in c.assets.iter().zip(r.assets.iter()) {
        assert_eq!(a.id, b.id);
        assert_eq!(a.width, b.width);
        assert_eq!(a.height, b.height);
        assert_eq!(a.data, b.data);
    }
    assert_eq!(r.timeline, c.timeline);
}

#[test]
fn header_layout_is_little_endian() {
    let header = VaiHeader::new(0x0102_0304, 2, 3, 4, 0x0A0B_0C0D_0E0F_1011, 5, 6);
    let mut buffer = Vec::new();
    header.write(&mut buffer);
    assert_eq!(buffer.len(), 38);
    assert_eq!(&buffer[0..4], &[b'V', b'A', b'I', 0]);
    assert_eq!(&buffer[4..6], &[1, 0]);
    assert_eq!(&buffer[6..10], &[4, 3, 2, 1]);
    assert_eq!(&buffer[22..30], &[0x11, 0x10, 0x0F, 0x0E, 0x0D, 0x0C, 0x0B, 0x0A]);
}

#[test]
fn container_size_is_header_records_and_payloads() {
    let c = sample_container();
    let mut buffer = Vec::new();
    c.write(&mut buffer).unwrap();
    assert_eq!(buffer.len(), 38 + (16 + 3) + (16 + 256) + 3 * 32);
}

#[test]
fn altered_magic_is_rejected() {
    let c = sample_container();
    let mut buffer = Vec::new();
    c.write(&mut buffer).unwrap();
    for i in 0..4 {
        let mut bad = buffer.clone();
        bad[i] ^= 0x20;
        assert!(matches!(VaiContainer::read(&bad), Err(Error::InvalidMagic)));
        assert!(matches!(VaiHeader::read(&bad), Err(Error::InvalidMagic)));
    }
}

#[test]
fn other_version_is_rejected() {
    let c = sample_container();
    let mut buffer = Vec::new();
    c.write(&mut buffer).unwrap();
    buffer[4] = 2;
    assert!(matches!(VaiContainer::read(&buffer), Err(Error::UnsupportedVersion(2))));
    buffer[4] = 0;
    buffer[5] = 1;
    assert!(matches!(VaiContainer::read(&buffer), Err(Error::UnsupportedVersion(256))));
}

#[test]
fn truncated_bytes_are_rejected() {
    let c = sample_container();
    let mut buffer = Vec::new();
    c.write(&mut buffer).unwrap();
    for cut in [0usize, 3, 5, 20, 37, 40, 60, buffer.len() - 1] {
        assert!(matches!(VaiContainer::read(&buffer[..cut]), Err(Error::Truncated)), "cut {}", cut);
    }
    let mut longer = buffer.clone();
    longer.extend_from_slice(&[1, 2, 3]);
    assert!(VaiContainer::read(&longer).is_ok());
}

#[test]
fn entry_is_active_on_half_open_interval() {
    let e = TimelineEntry::new(3, 0, 1000, 0, 0, 0);
    assert!(e.is_active(0));
    assert!(e.is_active(999));
    assert!(!e.is_active(1000));
    assert_eq!(e.duration_ms(), 1000);
    let backwards = TimelineEntry::new(3, 50, 10, 0, 0, 0);
    assert_eq!(backwards.duration_ms(), 0);
}

#[test]
fn active_entries_are_sorted_by_layer() {
    let header = VaiHeader::new(10, 10, 1, 1, 1000, 0, 5);
    let timeline = vec![
        TimelineEntry::new(1, 0, 1000, 0, 0, 2),
        TimelineEntry::new(2, 0, 1000, 0, 0, 0),
        TimelineEntry::new(3, 0, 500, 0, 0, 1),
        TimelineEntry::new(4, 0, 1000, 0, 0, 2),
        TimelineEntry::new(5, 500, 1000, 0, 0, -1),
    ];
    let c = VaiContainer::new(header, Vec::new(), timeline);
    let at0: Vec<u32> = c.get_active_entries(0).iter().map(|e| e.asset_id).collect();
    assert_eq!(at0, vec![2, 3, 1, 4]);
    let at999: Vec<u32> = c.get_active_entries(999).iter().map(|e| e.asset_id).collect();
    assert_eq!(at999, vec![5, 2, 1, 4]);
    assert!(c.get_active_entries(1000).is_empty());
}

#[test]
fn get_asset_finds_by_id() {
    let c = sample_container();
    assert_eq!(c.get_asset(7).unwrap().width, 20);
    assert_eq!(c.get_asset(0).unwrap().data_size(), 3);
    assert!(c.get_asset(1).is_none());
}

#[test]
fn playback_frame_times() {
    assert_eq!(frame_timestamp_ms(3, 30, 1), Some(100));
    assert_eq!(frame_timestamp_ms(1, 30000, 1001), Some(33));
    assert_eq!(frame_timestamp_ms(5, 0, 1), None);
    assert_eq!(frame_count(2000, 10, 1), Some(20));
    assert_eq!(frame_count(10, 10, 1), Some(1));
    assert_eq!(frame_count(1000, 10, 0), None);
}

#[test]
fn playback_advances_and_seeks() {
    assert!(PlaybackState::new(0, 1, 1000).is_none());
    assert!(PlaybackState::new(10, 0, 1000).is_none());
    let mut p = PlaybackState::new(10, 1, 2000).unwrap();
    assert_eq!(p.total_frames, 20);
    assert_eq!(p.frame_length_ms(), 100);
    let mut shown = Vec::new();
    while let Some(t) = p.next_frame() {
        shown.push(t);
    }
    assert_eq!(shown.len(), 20);
    assert_eq!(shown[0], 0);
    assert_eq!(shown[19], 1900);
    assert_eq!(p.next_frame(), None);
    p.seek_time_ms(1234);
    assert_eq!(p.current_frame, 12);
    assert_eq!(p.timestamp_ms(), 1200);
    p.seek_time_ms(99_999);
    assert_eq!(p.current_frame, 19);
    p.seek_position(1, 2);
    assert_eq!(p.current_frame, 10);
    p.seek_position(3, 2);
    assert_eq!(p.current_frame, 19);
    assert_eq!(tick_from_ms(5), 5000);
    assert_eq!(tick_from_ms(u64::MAX), i64::MAX);
}
