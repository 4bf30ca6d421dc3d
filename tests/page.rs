use pdf_viewer::{build_page_data, Glyph, PointRect, RasterOutput, RenderError, RotationAngle};

fn raster(bgra: Vec<u8>, glyphs: Vec<Glyph>) -> RasterOutput {
    RasterOutput { page_width: 100, page_height: 200, bitmap_width: 2, bitmap_height: 1, bgra, glyphs }
}

fn word_glyphs() -> Vec<Glyph> {
    let mut v = Vec::new();
    for (k, ch) in "Page".chars().enumerate() {
        let left = 10 * k as i32;
        v.push(Glyph { ch, rect: PointRect { left, bottom: 0, right: left + 10, top: 100 } });
    }
    v
}

#[test]
fn out_of_range_page_is_rejected() {
    let r = build_page_data(3, 3, RotationAngle::Rotate0, &raster(vec![0; 8], Vec::new()));
    assert!(matches!(r, Err(RenderError::PageOutOfRange)));
}

#[test]
fn zero_sized_page_is_rejected() {
    let mut out = raster(vec![0; 8], Vec::new());
    out.page_width = 0;
    let r = build_page_data(0, 1, RotationAngle::Rotate0, &out);
    assert!(matches!(r, Err(RenderError::InvalidGeometry)));
}

#[test]
fn short_pixel_buffer_is_rejected() {
    let r = build_page_data(0, 1, RotationAngle::Rotate0, &raster(vec![0; 4], Vec::new()));
    assert!(matches!(r, Err(RenderError::InvalidImage)));
}

#[test]
fn rendered_page_carries_index_rotation_and_swapped_size() {
    let d = build_page_data(2, 5, RotationAngle::Rotate90, &raster(vec![1, 2, 3, 4, 5, 6, 7, 8], word_glyphs()))
        .expect("renders");
    assert_eq!(d.page_index, 2);
    assert_eq!(d.rotation, RotationAngle::Rotate90);
    assert_eq!((d.page_width, d.page_height), (200, 100));
    assert!(d.image_data.starts_with("data:image/png;base64,"));
    assert_eq!(d.text_elements.len(), 1);
    assert_eq!(d.text_elements[0].text, "Page");
    // the upright 100 × 200 page lies as 200 × 100 over a 2 × 1 bitmap; the
    // word's upright box (0, 0)–(40, 100) turns into (0, 60)–(100, 100)
    let b = d.text_elements[0].bounds;
    assert_eq!((b.x, b.y, b.width, b.height), (0, 0, 1, 0));
}

#[test]
fn upright_page_keeps_its_size() {
    let d = build_page_data(0, 1, RotationAngle::Rotate180, &raster(vec![0; 8], Vec::new())).expect("renders");
    assert_eq!((d.page_width, d.page_height), (100, 200));
    assert!(d.text_elements.is_empty());
}
