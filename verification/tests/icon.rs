use desktag::icon::{
    bgra_from_rgba, bmp_icon_image, encode_ico, icon_font_next, icon_font_start, pill_radius,
    rgba_from_bgra, tray_mask,
};

/// A `size`×`size` RGBA pill stand-in: opaque except the four corner pixels.
fn pill_rgba(size: u32) -> Vec<u8> {
    let s = size as usize;
    let mut v = vec![0u8; s * s * 4];
    for y in 0..s {
        for x in 0..s {
            let i = (y * s + x) * 4;
            v[i] = 1;
            v[i + 1] = 2;
            v[i + 2] = 3;
            let corner = (x == 0 || x == s - 1) && (y == 0 || y == s - 1);
            v[i + 3] = if corner { 0 } else { 255 };
        }
    }
    v
}

#[test]
fn encode_ico_has_valid_header() {
    let sizes = [16u32, 32, 48, 256];
    let images: Vec<Vec<u8>> = sizes
        .iter()
        .map(|&sz| bmp_icon_image(&pill_rgba(sz), sz))
        .collect();
    let bytes = encode_ico(&sizes, &images);
    // ICONDIR magic: reserved=0, type=1 (icon).
    assert_eq!(&bytes[0..4], &[0, 0, 1, 0]);
    // Entry count.
    assert_eq!(u16::from_le_bytes([bytes[4], bytes[5]]), sizes.len() as u16);
    // First entry width byte (offset 6) = 16.
    assert_eq!(bytes[6], 16);
    // 256 is encoded as 0 in the last entry's width byte.
    let last = 6 + 16 * (sizes.len() - 1);
    assert_eq!(bytes[last], 0);
}

// --- further cases ---

#[test]
fn ico_entries_point_at_their_images() {
    let sizes = [16u32, 32, 48];
    let images: Vec<Vec<u8>> = sizes
        .iter()
        .map(|&sz| bmp_icon_image(&pill_rgba(sz), sz))
        .collect();
    let bytes = encode_ico(&sizes, &images);
    for (i, img) in images.iter().enumerate() {
        let e = 6 + 16 * i;
        assert_eq!(bytes[e], sizes[i] as u8);
        assert_eq!(bytes[e + 1], sizes[i] as u8);
        assert_eq!(u16::from_le_bytes([bytes[e + 4], bytes[e + 5]]), 1);
        assert_eq!(u16::from_le_bytes([bytes[e + 6], bytes[e + 7]]), 32);
        let len = u32::from_le_bytes(bytes[e + 8..e + 12].try_into().unwrap()) as usize;
        let off = u32::from_le_bytes(bytes[e + 12..e + 16].try_into().unwrap()) as usize;
        assert_eq!(len, img.len());
        assert_eq!(&bytes[off..off + len], &img[..]);
    }
    assert_eq!(bytes.len(), 6 + 16 * 3 + images.iter().map(|i| i.len()).sum::<usize>());
}

#[test]
fn bmp_image_layout() {
    let size = 16u32;
    let rgba = pill_rgba(size);
    let img = bmp_icon_image(&rgba, size);
    // header 40 + BGRA 16*16*4 + mask 16 rows * 4 bytes
    assert_eq!(img.len(), 40 + 1024 + 64);
    assert_eq!(u32::from_le_bytes(img[0..4].try_into().unwrap()), 40);
    assert_eq!(i32::from_le_bytes(img[4..8].try_into().unwrap()), 16);
    assert_eq!(i32::from_le_bytes(img[8..12].try_into().unwrap()), 32);
    assert_eq!(u16::from_le_bytes([img[12], img[13]]), 1);
    assert_eq!(u16::from_le_bytes([img[14], img[15]]), 32);
    // First stored pixel is the bottom-left corner: B, G, R, A.
    assert_eq!(&img[40..44], &[3, 2, 1, 0]);
    assert_eq!(&img[44..48], &[3, 2, 1, 255]);
    // Mask: first stored row is the bottom row; corners transparent.
    let mask = &img[40 + 1024..];
    assert_eq!(&mask[0..4], &[0x80, 0x01, 0, 0]);
    assert_eq!(&mask[4..8], &[0, 0, 0, 0]);
    assert_eq!(&mask[60..64], &[0x80, 0x01, 0, 0]);
}

#[test]
fn tray_mask_is_word_aligned_top_down() {
    let size = 20u32;
    let mut rgba = pill_rgba(size);
    // Make pixel (x=9, y=1) transparent.
    rgba[((1 * 20 + 9) * 4 + 3) as usize] = 0;
    let m = tray_mask(&rgba, size);
    // stride = ((20 + 15) / 16) * 2 = 4 bytes, 20 rows.
    assert_eq!(m.len(), 80);
    assert_eq!(&m[0..4], &[0x80, 0x00, 0x10, 0x00]);
    assert_eq!(&m[4..8], &[0x00, 0x40, 0x00, 0x00]);
}

#[test]
fn color_conversions_swap_red_and_blue() {
    let bgra = [10u8, 20, 30, 99, 40, 50, 60, 99];
    let rgba = rgba_from_bgra(&bgra, &[true, false]);
    assert_eq!(rgba, vec![30, 20, 10, 255, 60, 50, 40, 0]);
    assert_eq!(bgra_from_rgba(&rgba), vec![10, 20, 30, 255, 40, 50, 60, 0]);
}

#[test]
fn pill_radius_values() {
    assert_eq!(pill_radius(32), 19);
    assert_eq!(pill_radius(16), 9);
    assert_eq!(pill_radius(3), 2);
}

#[test]
fn icon_font_shrinks_until_it_fits() {
    assert_eq!(icon_font_start(32), (24, 23));
    assert_eq!(icon_font_start(4), (3, 6));
    // Fits: keep the height.
    assert_eq!(icon_font_next(23, 24, 20), None);
    // Too wide: scale by 24/30.
    assert_eq!(icon_font_next(23, 24, 30), Some(18));
    // Never below 6; at 6 stop.
    assert_eq!(icon_font_next(10, 24, 1000), Some(6));
    assert_eq!(icon_font_next(6, 24, 1000), None);
}
