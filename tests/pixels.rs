use raytracer::pixel::{average_pixel, color, rgb_bytes};

#[test]
fn packs_channels_into_one_word() {
    assert_eq!(color(255, 0, 0), 0x00FF0000);
    assert_eq!(color(1, 2, 3), 0x00010203);
    assert_eq!(color(0, 0, 0), 0);
    assert_eq!(color(255, 255, 255), 0x00FFFFFF);
}

#[test]
fn lays_out_rgb_bytes() {
    let bytes = rgb_bytes(&vec![0x00010203, 0x00FFFFFF, 0x00A0B0C0]);
    assert_eq!(bytes, vec![1, 2, 3, 255, 255, 255, 0xA0, 0xB0, 0xC0]);
    assert!(rgb_bytes(&vec![]).is_empty());
}

#[test]
fn averages_with_truncation() {
    let samples = vec![(10u8, 20u8, 30u8), (11, 21, 31), (12, 0, 0)];
    assert_eq!(average_pixel(&samples, 0, 2), color(10, 20, 30));
    assert_eq!(average_pixel(&samples, 0, 3), color(11, 13, 20));
    assert_eq!(average_pixel(&samples, 2, 1), color(12, 0, 0));
}

#[test]
fn average_of_full_channels_stays_in_range() {
    let samples = vec![(255u8, 255u8, 255u8); 100];
    assert_eq!(average_pixel(&samples, 0, 100), 0x00FFFFFF);
}
