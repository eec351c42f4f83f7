use rasterizer::color::Color;

#[test]
fn test_new() {
    let color = Color::new(100, 200, 255);
    assert_eq!(color.r, 100);
    assert_eq!(color.g, 200);
    assert_eq!(color.b, 255);
}

#[test]
fn test_from_hex() {
    let color = Color::from_hex(0xFF00FF);
    assert_eq!(color.r, 255);
    assert_eq!(color.g, 0);
    assert_eq!(color.b, 255);
}

#[test]
fn test_to_hex() {
    let color = Color::new(100, 200, 150);
    assert_eq!(color.to_hex(), 0x64C896);
}

#[test]
fn test_sum() {
    let color1 = Color::new(100, 150, 200);
    let color2 = Color::new(50, 100, 150);
    let result = color1.sum(&color2);
    assert_eq!(result.r, 150);
    assert_eq!(result.g, 250);
    assert_eq!(result.b, 255);
}

#[test]
fn test_multiply() {
    let color = Color::new(100, 150, 200);
    let result = color.multiply(128);

    assert_eq!(result.r, 50);
    assert_eq!(result.g, 75);
    assert_eq!(result.b, 100);
}

#[test]
fn from_hex_ignores_the_top_byte() {
    assert_eq!(Color::from_hex(0xAB123456), Color::new(0x12, 0x34, 0x56));
}

#[test]
fn hex_round_trips() {
    for hex in [0x000000u32, 0xFFFFFF, 0x010203, 0x64C896, 0xFF0000, 0x00FF00, 0x0000FF] {
        assert_eq!(Color::from_hex(hex).to_hex(), hex);
    }
    let color = Color::new(7, 8, 9);
    assert_eq!(Color::from_hex(color.to_hex()), color);
}

#[test]
fn sum_saturates_each_channel_alone() {
    let a = Color::new(255, 0, 128);
    let b = Color::new(1, 0, 127);
    assert_eq!(a.sum(&b), Color::new(255, 0, 255));
    let c = Color::new(200, 100, 128);
    let d = Color::new(100, 100, 128);
    assert_eq!(c.sum(&d), Color::new(255, 200, 255));
}

#[test]
fn multiply_by_the_extremes() {
    let color = Color::new(100, 150, 255);
    assert_eq!(color.multiply(255), color);
    assert_eq!(color.multiply(0), Color::new(0, 0, 0));
    assert_eq!(color.multiply(1), Color::new(0, 0, 1));
    assert_eq!(Color::new(255, 254, 3).multiply(254), Color::new(254, 253, 2));
}
