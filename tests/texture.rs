use raytracer::texture::ImageTexture;

fn two_by_two() -> ImageTexture {
    // Row 0: red, green; row 1: blue, white.
    let data = vec![255, 0, 0, 0, 255, 0, 0, 0, 255, 255, 255, 255];
    ImageTexture::from_raw(2, 2, data).unwrap()
}

#[test]
fn texel_reads_pixels_by_column_and_row() {
    let t = two_by_two();
    assert_eq!(t.width(), 2);
    assert_eq!(t.height(), 2);
    assert_eq!(t.texel(0, 0), Some([255, 0, 0]));
    assert_eq!(t.texel(1, 0), Some([0, 255, 0]));
    assert_eq!(t.texel(0, 1), Some([0, 0, 255]));
    assert_eq!(t.texel(1, 1), Some([255, 255, 255]));
}

#[test]
fn texel_clamps_to_last_pixel() {
    let t = two_by_two();
    assert_eq!(t.texel(7, 0), Some([0, 255, 0]));
    assert_eq!(t.texel(0, 9), Some([0, 0, 255]));
    assert_eq!(t.texel(u32::MAX, u32::MAX), Some([255, 255, 255]));
}

#[test]
fn from_raw_rejects_short_buffer() {
    assert!(ImageTexture::from_raw(2, 2, vec![0; 11]).is_none());
    assert!(ImageTexture::from_raw(2, 2, vec![0; 13]).is_some());
}

#[test]
fn empty_raster_has_no_texel() {
    let t = ImageTexture::from_raw(0, 3, Vec::new()).unwrap();
    assert_eq!(t.texel(0, 0), None);
}
