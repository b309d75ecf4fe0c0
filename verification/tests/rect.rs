use pdf_to_image::rect::Rect;

// ---------- Rect ----------------------------------------------------------

#[test]
fn rect_from_corners_normalizes() {
    // Reversed corners should produce same result
    let r = Rect::from_corners(642, 822, 30, 30);
    assert_eq!(r.x, 30);
    assert_eq!(r.y, 30);
    assert_eq!(r.width, 612);
    assert_eq!(r.height, 792);
}

#[test]
fn rect_right_and_top() {
    let r = Rect::new(30, 30, 612, 792);
    assert_eq!(r.right(), 642);
    assert_eq!(r.top(), 822);
}

#[test]
fn rect_is_outside_all_directions() {
    let trim = Rect::from_corners(30, 30, 642, 822);

    assert!(Rect::new(650, 100, 10, 10).is_outside(&trim)); // right
    assert!(Rect::new(0, 100, 10, 10).is_outside(&trim)); // left
    assert!(Rect::new(100, 830, 10, 10).is_outside(&trim)); // above
    assert!(Rect::new(100, 0, 10, 10).is_outside(&trim)); // below
}

#[test]
fn rect_straddling_is_not_outside() {
    let trim = Rect::from_corners(30, 30, 642, 822);
    assert!(!Rect::new(635, 100, 20, 10).is_outside(&trim));
}

#[test]
fn rect_fully_inside_is_not_outside() {
    let trim = Rect::from_corners(30, 30, 642, 822);
    assert!(!Rect::new(100, 100, 50, 50).is_outside(&trim));
}

#[test]
fn rect_corner_order_does_not_matter() {
    let a = Rect::from_corners(30, 822, 642, 30);
    let b = Rect::from_corners(642, 30, 30, 822);
    let c = Rect::from_corners(30, 30, 642, 822);
    assert_eq!(a, c);
    assert_eq!(b, c);
}

#[test]
fn rect_outside_is_symmetric() {
    let trim = Rect::from_corners(30, 30, 642, 822);
    let mark = Rect::new(650, 100, 10, 10);
    assert!(trim.is_outside(&mark));
    assert!(!trim.is_outside(&trim));
}

#[test]
fn rect_touching_edge_shares_no_area() {
    let trim = Rect::from_corners(30, 30, 642, 822);
    assert!(Rect::new(642, 100, 10, 10).is_outside(&trim));
    assert!(Rect::new(20, 100, 10, 10).is_outside(&trim));
    assert!(!Rect::new(641, 100, 10, 10).is_outside(&trim));
}

#[test]
fn rect_extreme_coordinates() {
    let r = Rect::new(i64::MAX, 0, i64::MAX, 1);
    let s = Rect::new(i64::MIN, 0, 1, 1);
    assert!(s.is_outside(&r));
    assert!(r.is_outside(&s));
    let f = Rect::from_corners(0, -5, i64::MAX, 5);
    assert_eq!(f.width, i64::MAX);
    assert_eq!(f.height, 10);
    assert_eq!(f.y, -5);
}
