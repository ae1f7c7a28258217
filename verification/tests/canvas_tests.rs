use ascii_draw::bounds::AABB;
use ascii_draw::canvas::AsciiCanvas;

#[test]
fn bounding_box_monotone_over_calls() {
    let mut b = AABB::new();
    assert_eq!((b.x_min, b.x_max, b.y_min, b.y_max), (0, 0, 0, 0));
    b.include_point(3, -2);
    assert_eq!((b.x_min, b.x_max, b.y_min, b.y_max), (0, 3, -2, 0));
    b.include_point(-7, 5);
    assert_eq!((b.x_min, b.x_max, b.y_min, b.y_max), (-7, 3, -2, 5));
    // a point already inside changes nothing
    b.include_point(1, 1);
    assert_eq!((b.x_min, b.x_max, b.y_min, b.y_max), (-7, 3, -2, 5));
}

#[test]
fn render_single_origin_cell() {
    let mut c = AsciiCanvas::new();
    c.text(0, 0, "*");
    assert_eq!(c.render(), "*\n");
}

#[test]
fn render_far_cell_is_padded_to_origin() {
    // the bounding box starts at the origin, so a lone write at (5, 5)
    // renders as a 6 x 6 grid with the glyph in the top right corner
    let mut c = AsciiCanvas::new();
    c.text(5, 5, "*");
    assert_eq!(c.render(), "     *\n      \n      \n      \n      \n      \n");
}

#[test]
fn rectangle_outline_cells() {
    // half-extents as the drawer would derive them from size (4, 2)
    let hw = (4.0f32 / 2.0).ceil() as i32;
    let hh = (2.0f32 / 2.0).ceil() as i32;
    assert_eq!((hw, hh), (2, 1));
    let mut c = AsciiCanvas::new();
    c.rect(0, 0, hw, hh);
    // dashes on rows -1 and 1 over x in [-2, 2]; bars on columns -2 and 2
    // over y in [-1, 1]; the corners end up as bars
    assert_eq!(c.render(), "|---|\n|   |\n|---|\n");
}

#[test]
fn scaled_rectangle_cells() {
    // a drawer with uniform scale 5.0 maps center (-1, 0) and size (1, 1)
    // to canvas center (-5, 0) and size (5, 5): half-extents ceil(2.5) = 3
    let scale = 5.0f32;
    let cx = (-1.0f32 * scale).round() as i32;
    let cy = (0.0f32 * scale).round() as i32;
    let hw = (1.0f32 * scale / 2.0).ceil() as i32;
    let hh = (1.0f32 * scale / 2.0).ceil() as i32;
    assert_eq!((cx, cy, hw, hh), (-5, 0, 3, 3));
    let mut c = AsciiCanvas::new();
    c.rect(cx, cy, hw, hh);
    let top = "|-----|  \n";
    let mid = "|     |  \n";
    let expected = format!("{}{}{}{}{}{}{}", top, mid, mid, mid, mid, mid, top);
    assert_eq!(c.render(), expected);
}

#[test]
fn text_is_centered_on_position() {
    let mut c = AsciiCanvas::new();
    c.text(0, 0, "AB");
    // start column = round(0) - floor(2 / 2) = -1: 'A' at (-1, 0), 'B' at (0, 0)
    assert_eq!(c.render(), "AB\n");
}

#[test]
fn later_primitive_wins_shared_cell() {
    // the text run lands on the rectangle's top row: its character replaces
    // the dash at the shared cell
    let mut c = AsciiCanvas::new();
    c.rect(0, 0, 1, 1);
    c.text(0, 1, "X");
    assert_eq!(c.render(), "|X|\n| |\n|-|\n");
}

#[test]
fn later_rectangle_wins_shared_cell() {
    // same two primitives in the opposite order: the dash wins
    let mut c = AsciiCanvas::new();
    c.text(0, 1, "X");
    c.rect(0, 0, 1, 1);
    assert_eq!(c.render(), "|-|\n| |\n|-|\n");
}

#[test]
fn render_twice_is_identical() {
    let mut c = AsciiCanvas::new();
    c.rect(2, 1, 2, 2);
    c.text(-3, 0, "hi");
    let first = c.render();
    let second = c.render();
    assert_eq!(first, second);
}

#[test]
fn empty_text_writes_nothing() {
    let mut c = AsciiCanvas::new();
    c.text(4, 7, "");
    assert_eq!(c.render(), " \n");
}

#[test]
fn negative_size_rectangle_writes_nothing() {
    let mut c = AsciiCanvas::new();
    c.rect(3, 3, -1, -1);
    assert_eq!(c.render(), " \n");
}

#[test]
fn half_negative_rectangle_still_draws_bars() {
    // the row loop is skipped for a negative half-width, but the column loop
    // still writes bars at columns cx - hw and cx + hw
    let mut c = AsciiCanvas::new();
    c.rect(0, 0, -1, 0);
    assert_eq!(c.render(), "| |\n");
}
