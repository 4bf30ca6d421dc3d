use pdf_viewer::{overlay_dims, PageGeometry, PointRect, RotationAngle, TextBounds};

fn geometry(pw: u32, ph: u32, bw: u32, bh: u32) -> PageGeometry {
    PageGeometry { page_width: pw, page_height: ph, bitmap_width: bw, bitmap_height: bh, rotation: RotationAngle::Rotate0 }
}

fn turned(rotation: RotationAngle, bw: u32, bh: u32) -> PageGeometry {
    PageGeometry { page_width: 100, page_height: 200, bitmap_width: bw, bitmap_height: bh, rotation }
}

#[test]
fn rectangles_turn_with_the_page() {
    let r = PointRect { left: 10, bottom: 20, right: 30, top: 60 };
    assert_eq!(turned(RotationAngle::Rotate90, 400, 200).map_rect(r), TextBounds { x: 40, y: 20, width: 80, height: 40 });
    assert_eq!(turned(RotationAngle::Rotate180, 200, 400).map_rect(r), TextBounds { x: 140, y: 40, width: 40, height: 80 });
    assert_eq!(turned(RotationAngle::Rotate270, 400, 200).map_rect(r), TextBounds { x: 280, y: 140, width: 80, height: 40 });
    assert_eq!(turned(RotationAngle::Rotate0, 200, 400).map_rect(r), TextBounds { x: 20, y: 280, width: 40, height: 80 });
}

#[test]
fn map_rect_scales_and_flips_y() {
    let g = geometry(500, 700, 1000, 1400);
    let r = PointRect { left: 10, bottom: 20, right: 60, top: 35 };
    assert_eq!(g.map_rect(r), TextBounds { x: 20, y: 1330, width: 100, height: 30 });
}

#[test]
fn map_rect_rounds_down_for_negative_coordinates() {
    let g = geometry(3, 3, 1, 1);
    let r = PointRect { left: -1, bottom: 0, right: 2, top: 2 };
    assert_eq!(g.map_rect(r), TextBounds { x: -1, y: 1, width: 1, height: 0 });
}

#[test]
fn map_rect_round_trips_within_one_pixel() {
    let g = geometry(612, 792, 1000, 1294);
    for (left, bottom, right, top) in [(72, 100, 300, 112), (0, 0, 612, 792), (305, 411, 306, 420)] {
        let r = PointRect { left, bottom, right, top };
        let b = g.map_rect(r);
        let (pw, bw) = (612i64, 1000i64);
        let (ph, bh) = (792i64, 1294i64);
        assert!(b.x * pw <= left as i64 * bw && (left as i64) * bw < b.x * pw + pw);
        assert!((bh - b.y) * ph <= top as i64 * bh && (top as i64) * bh < (bh - b.y) * ph + ph);
        let dx = (right - left) as i64;
        assert!(b.width * pw <= dx * bw && dx * bw < b.width * pw + pw);
        let dy = (top - bottom) as i64;
        assert!(b.height * ph <= dy * bh && dy * bh < b.height * ph + ph);
    }
}

#[test]
fn quarter_turns_swap_overlay_dims() {
    assert_eq!(overlay_dims(612, 792, RotationAngle::Rotate0), (612, 792));
    assert_eq!(overlay_dims(612, 792, RotationAngle::Rotate180), (612, 792));
    assert_eq!(overlay_dims(612, 792, RotationAngle::Rotate90), (792, 612));
    assert_eq!(overlay_dims(612, 792, RotationAngle::Rotate270), (792, 612));
}

#[test]
fn rotation_cycles_by_quarter_turns() {
    let mut r = RotationAngle::Rotate0;
    let mut seen = Vec::new();
    for _ in 0..4 {
        seen.push(r.to_degrees());
        r = r.next();
    }
    assert_eq!(seen, vec![0, 90, 180, 270]);
    assert_eq!(r, RotationAngle::Rotate0);
}
