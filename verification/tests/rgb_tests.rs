use palette::Rgb;

#[test]
fn test_to_hex() {
    let rgb = Rgb(255, 255, 255);
    assert_eq!(rgb.to_hex(), "#FFFFFF");

    let rgb = Rgb(0, 0, 0);
    assert_eq!(rgb.to_hex(), "#000000");

    let rgb = Rgb(10, 10, 10);
    assert_eq!(rgb.to_hex(), "#0A0A0A");

    let rgb = Rgb(255, 0, 0);
    assert_eq!(rgb.to_hex(), "#FF0000");
}

#[test]
fn test_to_hex_mixed_digits() {
    assert_eq!(Rgb(1, 35, 69).to_hex(), "#012345");
    assert_eq!(Rgb(103, 137, 171).to_hex(), "#6789AB");
    assert_eq!(Rgb(205, 239, 18).to_hex(), "#CDEF12");
}

#[test]
fn test_rgb_equality() {
    assert_eq!(Rgb(1, 2, 3), Rgb(1, 2, 3));
    assert_ne!(Rgb(1, 2, 3), Rgb(1, 2, 4));
    assert_ne!(Rgb(1, 2, 3), Rgb(3, 2, 1));
}
