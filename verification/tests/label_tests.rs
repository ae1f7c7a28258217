use ascii_draw::label::{coord_label, int_label};

#[test]
fn coordinate_label_round_trip() {
    // the rounding a drawer applies to the point (3.4, -2.6), each axis
    // independently, half away from zero
    let x = (3.4f32).round() as i32;
    let y = (-2.6f32).round() as i32;
    assert_eq!((x, y), (3, -3));
    assert_eq!(coord_label(x, y), "(3, -3)");
}

#[test]
fn coordinate_label_origin() {
    assert_eq!(coord_label(0, 0), "(0, 0)");
}

#[test]
fn integer_labels() {
    assert_eq!(int_label(0), "0");
    assert_eq!(int_label(7), "7");
    assert_eq!(int_label(10), "10");
    assert_eq!(int_label(-12), "-12");
    assert_eq!(int_label(i32::MAX), "2147483647");
    assert_eq!(int_label(i32::MIN), "-2147483648");
}
