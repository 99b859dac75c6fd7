use vai::compositor::overlay_image;
use vai::container::Error;
use vai::{Asset, FrameCompositor, Rgba, RgbaFrame, TimelineEntry, VaiContainer, VaiHeader};

fn px(r: u8, g: u8, b: u8, a: u8) -> Rgba {
    Rgba { r, g, b, a }
}

/// A stand-in decoder: the payload is width, height and one RGBA pixel
/// that fills the image. Every call is counted.
struct CountingDecoder {
    calls: Vec<u32>,
}

impl CountingDecoder {
    fn decode(&mut self, id: u32, data: &[u8]) -> RgbaFrame {
        self.calls.push(id);
        RgbaFrame::from_pixel(data[0] as u32, data[1] as u32, px(data[2], data[3], data[4], data[5]))
    }
}

fn render(c: &mut FrameCompositor, dec: &mut CountingDecoder, t: u64) -> Result<RgbaFrame, Error> {
    for id in c.pending_decodes(t) {
        let data = c.asset_data(id)?.clone();
        let image = dec.decode(id, &data);
        c.store_decoded(id, image);
    }
    c.render_frame(t)
}

fn sample() -> VaiContainer {
    let header = VaiHeader::new(4, 4, 10, 1, 1000, 2, 3);
    let assets = vec![
        Asset::new(0, 4, 4, vec![4, 4, 200, 0, 0, 255]),
        Asset::new(1, 2, 2, vec![2, 2, 255, 255, 255, 255]),
    ];
    let timeline = vec![
        TimelineEntry::new(0, 0, 1000, 0, 0, 0),
        TimelineEntry::new(1, 0, 500, 3, 3, 1),
        TimelineEntry::new(1, 500, 1000, -1, 0, 1),
    ];
    VaiContainer::new(header, assets, timeline)
}

#[test]
fn shared_asset_is_decoded_once() {
    let mut c = FrameCompositor::new(sample());
    let mut dec = CountingDecoder { calls: Vec::new() };
    let a = render(&mut c, &mut dec, 100).unwrap();
    let b = render(&mut c, &mut dec, 600).unwrap();
    let _ = render(&mut c, &mut dec, 100).unwrap();
    assert_eq!(dec.calls.iter().filter(|&&id| id == 1).count(), 1);
    assert_eq!(dec.calls.len(), 2);
    let red = px(200, 0, 0, 255);
    let white = px(255, 255, 255, 255);
    assert_eq!(a.get_pixel(3, 3), white);
    assert_eq!(a.get_pixel(2, 3), red);
    assert_eq!(b.get_pixel(0, 0), white);
    assert_eq!(b.get_pixel(0, 1), white);
    assert_eq!(b.get_pixel(1, 0), red);
    assert_eq!(b.get_pixel(3, 3), red);
}

#[test]
fn empty_timestamp_renders_opaque_black() {
    let mut c = FrameCompositor::new(sample());
    let mut dec = CountingDecoder { calls: Vec::new() };
    let f = render(&mut c, &mut dec, 5000).unwrap();
    assert_eq!((f.width, f.height), (4, 4));
    assert_eq!(f.get_pixel(2, 1), px(0, 0, 0, 255));
    assert!(dec.calls.is_empty());
}

#[test]
fn missing_asset_is_an_error() {
    let header = VaiHeader::new(2, 2, 1, 1, 100, 0, 1);
    let container = VaiContainer::new(header, Vec::new(), vec![TimelineEntry::new(9, 0, 100, 0, 0, 0)]);
    let mut c = FrameCompositor::new(container);
    let mut dec = CountingDecoder { calls: Vec::new() };
    assert!(matches!(render(&mut c, &mut dec, 10), Err(Error::AssetNotFound(9))));
    assert!(matches!(c.render_frame(10), Err(Error::AssetNotFound(9))));
}

#[test]
fn blending_uses_source_alpha() {
    let mut base = RgbaFrame::from_pixel(3, 1, px(100, 0, 255, 255));
    let over = RgbaFrame::from_pixel(2, 1, px(200, 255, 0, 51));
    overlay_image(&mut base, &over, 1, 0);
    assert_eq!(base.get_pixel(0, 0), px(100, 0, 255, 255));
    // (200·51 + 100·204) / 255 = 120, (255·51) / 255 = 51, (255·204) / 255 = 204
    assert_eq!(base.get_pixel(1, 0), px(120, 51, 204, 255));
    assert_eq!(base.get_pixel(2, 0), px(120, 51, 204, 255));
}

#[test]
fn overlay_is_clipped_on_every_side() {
    let mut base = RgbaFrame::from_pixel(3, 3, px(0, 0, 0, 255));
    let over = RgbaFrame::from_pixel(5, 5, px(10, 20, 30, 255));
    overlay_image(&mut base, &over, -4, -4);
    assert_eq!(base.get_pixel(0, 0), px(10, 20, 30, 255));
    assert_eq!(base.get_pixel(1, 0), px(0, 0, 0, 255));
    overlay_image(&mut base, &over, 10, 0);
    assert_eq!(base.get_pixel(2, 2), px(0, 0, 0, 255));
    let mut full = RgbaFrame::from_pixel(3, 3, px(0, 0, 0, 255));
    overlay_image(&mut full, &over, -1, -1);
    for y in 0..3 {
        for x in 0..3 {
            assert_eq!(full.get_pixel(x, y), px(10, 20, 30, 255));
        }
    }
}

#[test]
fn first_missing_asset_in_layer_order_is_named() {
    let header = VaiHeader::new(2, 2, 1, 1, 100, 0, 3);
    let timeline = vec![
        TimelineEntry::new(7, 0, 100, 0, 0, 5),
        TimelineEntry::new(8, 0, 100, 0, 0, 1),
        TimelineEntry::new(9, 0, 100, 0, 0, 3),
    ];
    let c = FrameCompositor::new(VaiContainer::new(header, Vec::new(), timeline));
    assert!(matches!(c.render_frame(10), Err(Error::AssetNotFound(8))));
}
