use base64::Engine;
use pdf_viewer::{bgra_to_rgba, encode_png_data_url, RenderError};

#[test]
fn bgra_fixture_becomes_rgba() {
    let bgra = vec![1u8, 2, 3, 4, 10, 20, 30, 40];
    let img = match bgra_to_rgba(2, 1, &bgra) {
        Ok(img) => img,
        Err(e) => panic!("unexpected {:?}", e),
    };
    assert_eq!(img.width, 2);
    assert_eq!(img.height, 1);
    assert_eq!(img.pixels, vec![3u8, 2, 1, 4, 30, 20, 10, 40]);
}

#[test]
fn bgra_with_wrong_length_is_invalid() {
    assert!(matches!(bgra_to_rgba(2, 1, &vec![0u8; 7]), Err(RenderError::InvalidImage)));
    assert!(matches!(bgra_to_rgba(2, 2, &vec![0u8; 8]), Err(RenderError::InvalidImage)));
    assert!(matches!(bgra_to_rgba(0, 0, &Vec::new()), Ok(_)));
}

#[test]
fn data_url_holds_a_lossless_png() {
    let bgra = vec![0u8, 0, 255, 255, 255, 0, 0, 128, 7, 8, 9, 10, 11, 12, 13, 14];
    let img = match bgra_to_rgba(2, 2, &bgra) {
        Ok(img) => img,
        Err(e) => panic!("unexpected {:?}", e),
    };
    let url = encode_png_data_url(&img).expect("encodes");
    let prefix = "data:image/png;base64,";
    assert!(url.starts_with(prefix));
    let png = base64::engine::general_purpose::STANDARD
        .decode(&url[prefix.len()..])
        .expect("base64");
    assert_eq!(&png[..8], &[0x89, b'P', b'N', b'G', 0x0d, 0x0a, 0x1a, 0x0a]);
    let decoded = image::load_from_memory_with_format(&png, image::ImageFormat::Png)
        .expect("png")
        .to_rgba8();
    assert_eq!(decoded.width(), 2);
    assert_eq!(decoded.height(), 2);
    assert_eq!(decoded.into_raw(), vec![255u8, 0, 0, 255, 0, 0, 255, 128, 9, 8, 7, 10, 13, 12, 11, 14]);
}
