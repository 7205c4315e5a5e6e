use mapgen::dirs::Direction;
use mapgen::rect::{isqrt, midpoint, span_of, Rect};

#[test]
fn rect_new_keeps_corners() {
    let r = Rect::new(1, 2, 3, 4);
    assert_eq!((r.x1, r.y1, r.x2, r.y2), (1, 2, 3, 4));
}

#[test]
fn intersects_without_padding_is_strict() {
    let a = Rect::new(2, 2, 6, 6);
    let touching = Rect::new(6, 2, 9, 6);
    let overlapping = Rect::new(5, 5, 9, 9);
    assert!(!a.intersects(&touching, 0));
    assert!(a.intersects(&overlapping, 0));
}

#[test]
fn intersects_with_padding_reaches_further() {
    let a = Rect::new(10, 10, 14, 14);
    let b = Rect::new(17, 10, 20, 14);
    assert!(!a.intersects(&b, 3));
    assert!(a.intersects(&b, 4));
    assert!(b.intersects(&a, 4));
}

#[test]
fn intersects_padding_saturates_at_zero() {
    let a = Rect::new(1, 1, 3, 3);
    let b = Rect::new(0, 0, 1, 1);
    assert!(a.intersects(&b, 100));
}

#[test]
fn center_rounds_down() {
    assert_eq!(Rect::new(2, 2, 6, 7).center(), (4, 4));
    assert_eq!(Rect::new(0, 0, 1, 1).center(), (0, 0));
    assert_eq!(Rect::new(usize::MAX, usize::MAX, usize::MAX, usize::MAX).center(), (usize::MAX, usize::MAX));
}

#[test]
fn midpoint_does_not_overflow() {
    assert_eq!(midpoint(usize::MAX, usize::MAX - 2), usize::MAX - 1);
    assert_eq!(midpoint(3, 4), 3);
}

#[test]
fn isqrt_exact_values() {
    assert_eq!(isqrt(0), 0);
    assert_eq!(isqrt(1), 1);
    assert_eq!(isqrt(24), 4);
    assert_eq!(isqrt(25), 5);
    assert_eq!(isqrt(26), 5);
    assert_eq!(isqrt(u128::MAX), u64::MAX);
}

#[test]
fn distance_along_one_axis_is_the_gap() {
    let a = Rect::new(10, 10, 12, 12);
    assert_eq!(a.distance(&Rect::new(2, 10, 5, 12)), 5);
    assert_eq!(a.distance(&Rect::new(20, 9, 25, 11)), 8);
    assert_eq!(a.distance(&Rect::new(10, 1, 12, 3)), 7);
    assert_eq!(a.distance(&Rect::new(11, 15, 13, 18)), 3);
}

#[test]
fn distance_on_the_diagonal_is_the_straight_line() {
    let a = Rect::new(10, 10, 12, 12);
    assert_eq!(a.distance(&Rect::new(15, 16, 20, 20)), 5);
    assert_eq!(a.distance(&Rect::new(1, 1, 7, 6)), 5);
    assert_eq!(a.distance(&Rect::new(13, 1, 20, 9)), 1);
    assert_eq!(a.distance(&Rect::new(1, 14, 8, 20)), 2);
}

#[test]
fn distance_of_overlapping_rectangles_is_zero() {
    let a = Rect::new(10, 10, 12, 12);
    assert_eq!(a.distance(&Rect::new(11, 11, 20, 20)), 0);
    assert_eq!(a.distance(&a), 0);
}

#[test]
fn distance_saturates() {
    let a = Rect::new(0, 0, 0, 0);
    let b = Rect::new(usize::MAX, usize::MAX, usize::MAX, usize::MAX);
    assert_eq!(a.distance(&b), usize::MAX);
}

#[test]
fn wall_strips_lie_just_outside_the_rectangle() {
    let r = Rect::new(4, 5, 7, 8);
    assert_eq!(r.wall(&Direction::North), vec![(4, 4), (4, 5), (4, 6), (4, 7)]);
    assert_eq!(r.wall(&Direction::South), vec![(9, 4), (9, 5), (9, 6), (9, 7)]);
    assert_eq!(r.wall(&Direction::East), vec![(5, 8), (6, 8), (7, 8), (8, 8)]);
    assert_eq!(r.wall(&Direction::West), vec![(5, 3), (6, 3), (7, 3), (8, 3)]);
    assert_eq!(r.wall(&Direction::NorthEast), vec![]);
    // a rectangle of one cell has one cell on every side
    let cell = Rect::new(2, 3, 2, 3);
    assert_eq!(cell.wall(&Direction::North), vec![(2, 2)]);
    assert_eq!(cell.wall(&Direction::South), vec![(4, 2)]);
    assert_eq!(cell.wall(&Direction::East), vec![(3, 3)]);
    assert_eq!(cell.wall(&Direction::West), vec![(3, 1)]);
}

#[test]
fn wall_has_no_strip_where_nothing_lies_outside() {
    let r = Rect::new(0, 0, 2, 1);
    assert_eq!(r.wall(&Direction::North), vec![]);
    assert_eq!(r.wall(&Direction::West), vec![]);
    assert_eq!(r.wall(&Direction::South), vec![(2, 0), (2, 1), (2, 2)]);
    assert_eq!(r.wall(&Direction::East), vec![(0, 3), (1, 3)]);
    let far = Rect::new(usize::MAX - 1, usize::MAX - 2, usize::MAX, usize::MAX);
    assert_eq!(far.wall(&Direction::South), vec![]);
    assert_eq!(far.wall(&Direction::East), vec![]);
    assert_eq!(
        far.wall(&Direction::North),
        vec![(usize::MAX - 3, usize::MAX - 1), (usize::MAX - 3, usize::MAX)]
    );
    // no cells between a first corner and a second one before it
    assert_eq!(Rect::new(5, 5, 4, 9).wall(&Direction::North), vec![]);
    assert_eq!(span_of(3, 3), 1);
    assert_eq!(span_of(3, 7), 5);
    assert_eq!(span_of(7, 3), 0);
    assert_eq!(span_of(0, usize::MAX), 0);
    assert_eq!(span_of(1, usize::MAX), usize::MAX);
}
