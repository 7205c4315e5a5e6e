use mapgen::colors::Color;
use mapgen::coord::Coord;
use mapgen::dirs::Direction;
use mapgen::math::clamp;
use mapgen::message::Message;
use mapgen::priority::Priority;

#[test]
fn color_new_keeps_the_channels() {
    let c = Color::new(1, 2, 3, 4);
    assert_eq!((c.red, c.green, c.blue, c.alpha), (1, 2, 3, 4));
}

#[test]
fn color_packs_red_first() {
    assert_eq!(Color::new(0x12, 0x34, 0x56, 9).as_u32(), 0x123456);
    assert_eq!(Color::new(255, 255, 255, 0).as_u32(), 0xffffff);
    assert_eq!(Color::new(0, 0, 0, 255).as_u32(), 0);
    // what does not fit is cut off
    assert_eq!(Color::new(0x1_0001, 0, 0, 0).as_u32(), 0x1_0000);
    assert_eq!(Color::new(0, 256, 0, 0).as_u32(), 0x1_0000);
    assert_eq!(Color::new(usize::MAX, usize::MAX, usize::MAX, 0).as_u32(), 0xfffe_feff);
}

#[test]
fn color_unpacks_red_last() {
    let c = Color::from(0x12_3456u32);
    assert_eq!((c.red, c.green, c.blue, c.alpha), (0x56, 0x34, 0x12, 0));
    let c = Color::from(0xff00_00ffu32);
    assert_eq!((c.red, c.green, c.blue, c.alpha), (0xff, 0, 0, 0));
}

#[test]
fn color_darken_divides() {
    let c = Color::new(100, 51, 7, 9).darken(5);
    assert_eq!((c.red, c.green, c.blue, c.alpha), (20, 10, 1, 9));
    assert_eq!(Color::new(100, 51, 7, 9).darken(1), Color::new(100, 51, 7, 9));
}

#[test]
fn coord_conversions() {
    let c = Coord::new(3, 8);
    assert_eq!((c.x, c.y), (3, 8));
    assert_eq!(c.as_yx(), (8, 3));
    assert_eq!(c.as_xy(), (3, 8));
    assert_eq!(Coord::new(1, 2).as_yx(), (2, 1));
    assert_eq!(Coord::new(1, 2).as_xy(), (1, 2));
    assert_eq!(Coord::from((2usize, 1usize)).as_yx(), (2, 1));
    let c = Coord::from((8usize, 3usize));
    assert_eq!((c.x, c.y), (3, 8));
    let c = Coord::from((8i32, 3i32));
    assert_eq!((c.x, c.y), (3, 8));
}

#[test]
fn coord_neighbours() {
    let c = Coord::new(3, 8);
    assert_eq!(c.neighbor_in_direction(Direction::North), Coord::new(3, 7));
    assert_eq!(c.neighbor_in_direction(Direction::South), Coord::new(3, 9));
    assert_eq!(c.neighbor_in_direction(Direction::East), Coord::new(4, 8));
    assert_eq!(c.neighbor_in_direction(Direction::West), Coord::new(2, 8));
    assert_eq!(c.neighbor_in_direction(Direction::NorthEast), Coord::new(4, 7));
    assert_eq!(c.neighbor_in_direction(Direction::NorthWest), Coord::new(2, 7));
    assert_eq!(c.neighbor_in_direction(Direction::SouthEast), Coord::new(4, 9));
    assert_eq!(c.neighbor_in_direction(Direction::SouthWest), Coord::new(2, 9));
}

#[test]
fn coord_neighbours_stop_at_the_ends() {
    let origin = Coord::new(0, 0);
    assert_eq!(origin.neighbor_in_direction(Direction::North), origin);
    assert_eq!(origin.neighbor_in_direction(Direction::West), origin);
    assert_eq!(origin.neighbor_in_direction(Direction::NorthWest), origin);
    assert_eq!(origin.neighbor_in_direction(Direction::SouthWest), Coord::new(0, 1));
    let far = Coord::new(usize::MAX, usize::MAX);
    assert_eq!(far.neighbor_in_direction(Direction::South), far);
    assert_eq!(far.neighbor_in_direction(Direction::East), far);
    assert_eq!(far.neighbor_in_direction(Direction::NorthEast), Coord::new(usize::MAX, usize::MAX - 1));
}

#[test]
fn coord_clamps() {
    assert_eq!(Coord::new(9, 9).clamp_x(5), Coord::new(5, 9));
    assert_eq!(Coord::new(5, 9).clamp_x(5), Coord::new(5, 9));
    assert_eq!(Coord::new(2, 9).clamp_x(5), Coord::new(2, 9));
    assert_eq!(Coord::new(9, 9).clamp_y(5), Coord::new(9, 5));
    assert_eq!(Coord::new(9, 5).clamp_y(5), Coord::new(9, 5));
    assert_eq!(Coord::new(9, 2).clamp_y(5), Coord::new(9, 2));
}

#[test]
fn clamp_pulls_into_the_range() {
    assert_eq!(clamp(3, 5, 9), 5);
    assert_eq!(clamp(5, 5, 9), 5);
    assert_eq!(clamp(7, 5, 9), 7);
    assert_eq!(clamp(9, 5, 9), 9);
    assert_eq!(clamp(12, 5, 9), 9);
    assert_eq!(clamp(12, 4, 4), 4);
}

#[test]
fn priority_ranks() {
    assert_eq!(Priority::Min.as_usize(), 0);
    assert_eq!(Priority::VLow.as_usize(), 1);
    assert_eq!(Priority::Low.as_usize(), 2);
    assert_eq!(Priority::Normal.as_usize(), 3);
    assert_eq!(Priority::High.as_usize(), 4);
    assert_eq!(Priority::VHigh.as_usize(), 5);
    assert_eq!(Priority::Max.as_usize(), 6);
}

#[test]
fn message_keeps_text_and_priority() {
    let m = Message::new("the kobold strikes", Priority::High);
    assert_eq!(m.text, "the kobold strikes");
    assert_eq!(m.priority, Priority::High);
}
