use rsfractal::color::Color;
use rsfractal::color::HSV;
use rsfractal::fixed::SCALE;

#[test]
fn color_lerp() {
    let color1 = Color::new(0, 0, 0);
    let color2 = Color::new(255, 255, 255);
    let color = Color::lerp(&color1, &color2, SCALE / 2);
    assert_eq!(color.r, 127);
    assert_eq!(color.g, 127);
    assert_eq!(color.b, 127);
}

#[test]
fn color_hex() {
    assert_eq!(
        Color::from_hex("#FF0000").unwrap(),
        Color { r: 255, g: 0, b: 0 }
    );
    assert_eq!(
        Color::from_hex("00ff00").unwrap(),
        Color { r: 0, g: 255, b: 0 }
    );
}

#[test]
#[should_panic]
fn color_hex_panic() {
    Color::from_hex("invalid").unwrap();
}

#[test]
fn to_hsv() {
    let color = Color::new(255, 0, 0);
    let hsv = Color::to_hsv(&color);
    assert_eq!(hsv.hue, 0);
    assert_eq!(hsv.saturation, SCALE);
    assert_eq!(hsv.value, SCALE);
}

#[test]
fn to_rgb() {
    let hsv = HSV {
        hue: 0,
        saturation: SCALE,
        value: SCALE,
    };
    let color = Color::to_rgb(&hsv);
    assert_eq!(color.r, 255);
    assert_eq!(color.g, 0);
    assert_eq!(color.b, 0);
}

#[test]
fn hex_rejects_malformed_text() {
    assert!(Color::from_hex("").is_none());
    assert!(Color::from_hex("#").is_none());
    assert!(Color::from_hex("#12345").is_none());
    assert!(Color::from_hex("#1234567").is_none());
    assert!(Color::from_hex("12345g").is_none());
    assert!(Color::from_hex("#gg0000").is_none());
    assert!(Color::from_hex("##12345").is_none());
}

#[test]
fn hex_round_trip() {
    let color = Color::from_hex("#3e0a9b").unwrap();
    assert_eq!(color, Color { r: 0x3e, g: 0x0a, b: 0x9b });
    assert_eq!(color.to_hex(), "#3e0a9b");
    // formatting is lower case whatever the input case was
    assert_eq!(Color::from_hex("#AB0CDE").unwrap().to_hex(), "#ab0cde");
}

#[test]
fn lerp_endpoints() {
    let color1 = Color::new(10, 200, 33);
    let color2 = Color::new(255, 0, 100);
    assert_eq!(Color::lerp(&color1, &color2, 0), color1);
    assert_eq!(Color::lerp(&color1, &color2, SCALE), color2);
}
