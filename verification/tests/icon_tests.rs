use bt_battery_tray::icon::{battery_icon_pixels, ico_from_bgra, put};

fn pixel(px: &[u8], x: usize, y: usize) -> (u8, u8, u8, u8) {
    let i = (y * 32 + x) * 4;
    (px[i], px[i + 1], px[i + 2], px[i + 3])
}

fn filled_columns(px: &[u8]) -> usize {
    (4..=24).filter(|&x| pixel(px, x, 12).3 == 255).count()
}

#[test]
fn put_writes_one_pixel() {
    let mut px = vec![0u8; 4096];
    put(&mut px, 3, 2, 1, 2, 3, 4);
    assert_eq!(pixel(&px, 3, 2), (1, 2, 3, 4));
    assert_eq!(px.iter().filter(|&&b| b != 0).count(), 4);
    put(&mut px, 31, 31, 9, 9, 9, 9);
    assert_eq!(&px[4092..], &[9, 9, 9, 9]);
}

#[test]
fn icon_without_level_is_an_empty_battery() {
    let px = battery_icon_pixels(None);
    assert_eq!(px.len(), 4096);
    assert_eq!(pixel(&px, 0, 0), (0, 0, 0, 0));
    assert_eq!(pixel(&px, 27, 15), (70, 70, 70, 255));
    assert_eq!(pixel(&px, 2, 8), (70, 70, 70, 255));
    assert_eq!(pixel(&px, 3, 12), (0, 0, 0, 0));
    assert_eq!(pixel(&px, 25, 12), (70, 70, 70, 255));
    assert_eq!(pixel(&px, 4, 12), (0, 0, 0, 0));
    assert_eq!(pixel(&px, 4, 9), (0, 0, 0, 0));
    assert_eq!(pixel(&px, 21, 23), (0, 0, 0, 0));
    assert_eq!(pixel(&px, 2, 12), (70, 70, 70, 255));
    assert_eq!(pixel(&px, 10, 8), (70, 70, 70, 255));
    assert_eq!(pixel(&px, 10, 24), (70, 70, 70, 255));
    assert_eq!(filled_columns(&px), 0);
}

#[test]
fn icon_colours_by_level() {
    let red = battery_icon_pixels(Some(19));
    assert_eq!(pixel(&red, 4, 12), (56, 56, 226, 255));
    let amber = battery_icon_pixels(Some(20));
    assert_eq!(pixel(&amber, 4, 12), (40, 160, 235, 255));
    let amber = battery_icon_pixels(Some(49));
    assert_eq!(pixel(&amber, 4, 12), (40, 160, 235, 255));
    let green = battery_icon_pixels(Some(50));
    assert_eq!(pixel(&green, 4, 12), (110, 190, 52, 255));
}

#[test]
fn icon_fill_width() {
    // 18 * 50 / 100 = 9 columns from x = 4
    let px = battery_icon_pixels(Some(50));
    assert_eq!(pixel(&px, 12, 20), (110, 190, 52, 255));
    assert_eq!(pixel(&px, 13, 20), (0, 0, 0, 0));
    // a level of 5 fills nothing: the inner area is transparent
    let px = battery_icon_pixels(Some(5));
    assert_eq!(pixel(&px, 4, 12), (0, 0, 0, 0));
    // above 100 the fill is capped
    let px = battery_icon_pixels(Some(250));
    assert_eq!(pixel(&px, 21, 12), (110, 190, 52, 255));
    assert_eq!(pixel(&px, 22, 12), (0, 0, 0, 0));
}

#[test]
fn icon_fill_width_matches_fraction_of_inner_area() {
    for l in 0..=255u8 {
        let frac = (l as f32 / 100.0).clamp(0.0, 1.0);
        let expected = (18.0 * frac) as usize;
        let px = battery_icon_pixels(Some(l));
        assert_eq!(filled_columns(&px), expected, "level {}", l);
    }
}

#[test]
fn ico_header_and_size() {
    let px = battery_icon_pixels(Some(70));
    let ico = ico_from_bgra(&px);
    assert_eq!(ico.len(), 62 + 4096 + 128);
    assert_eq!(&ico[0..6], &[0, 0, 1, 0, 1, 0]);
    assert_eq!(&ico[6..14], &[32, 32, 0, 0, 1, 0, 32, 0]);
    assert_eq!(&ico[14..18], &(40u32 + 4096 + 128).to_le_bytes());
    assert_eq!(&ico[18..22], &22u32.to_le_bytes());
    assert_eq!(&ico[22..26], &40u32.to_le_bytes());
    assert_eq!(&ico[26..30], &32i32.to_le_bytes());
    assert_eq!(&ico[30..34], &64i32.to_le_bytes());
    assert_eq!(&ico[34..38], &[1, 0, 32, 0]);
    assert_eq!(&ico[38..42], &[0, 0, 0, 0]);
    assert_eq!(&ico[42..46], &4096u32.to_le_bytes());
    assert_eq!(&ico[46..62], &[0u8; 16]);
}

#[test]
fn ico_rows_bottom_up_and_mask() {
    let mut px = vec![0u8; 4096];
    // top-left opaque red, bottom-right half transparent
    put(&mut px, 0, 0, 1, 2, 3, 255);
    put(&mut px, 31, 31, 4, 5, 6, 127);
    put(&mut px, 9, 0, 7, 7, 7, 128);
    let ico = ico_from_bgra(&px);
    // row 0 is stored last among the colour rows
    let top = 62 + 31 * 128;
    assert_eq!(&ico[top..top + 4], &[1, 2, 3, 255]);
    let bottom = 62 + 31 * 4;
    assert_eq!(&ico[bottom..bottom + 4], &[4, 5, 6, 127]);
    // mask rows: row 0 is the last one; pixels 0 and 9 are opaque
    let mask_top = 62 + 4096 + 31 * 4;
    assert_eq!(ico[mask_top], 0x7F);
    assert_eq!(ico[mask_top + 1], 0xBF);
    assert_eq!(ico[mask_top + 2], 0xFF);
    assert_eq!(ico[mask_top + 3], 0xFF);
    let mask_bottom = 62 + 4096;
    assert_eq!(&ico[mask_bottom..mask_bottom + 4], &[0xFF, 0xFF, 0xFF, 0xFF]);
}

#[test]
fn ico_of_battery_icon_masks_background() {
    let px = battery_icon_pixels(None);
    let ico = ico_from_bgra(&px);
    // row 12 (stored at 31 - 12): only the outline at x = 2 is opaque among
    // x = 0..=7, the empty battery is transparent inside
    let m = 62 + 4096 + (31 - 12) * 4;
    assert_eq!(ico[m], 0b1101_1111);
    // row 0 fully transparent
    let m0 = 62 + 4096 + 31 * 4;
    assert_eq!(&ico[m0..m0 + 4], &[0xFF; 4]);
}
