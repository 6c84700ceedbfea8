use maze::board::Board;
use maze::board::Coord;
use maze::tile::Tile;

#[test]
fn new_board_is_all_walls() {
    let b = Board::new(4, 3);
    assert_eq!(b.size.x, 4);
    assert_eq!(b.size.y, 3);
    assert_eq!(b.player_pos, Coord::new(0, 0));
    assert!(!b.game_done);
    for y in 0..3 {
        for x in 0..4 {
            assert_eq!(b.get(x, y), Tile::Wall);
        }
    }
}

#[test]
fn get_far_out_of_bounds_returns_wall() {
    let b = Board::new(10, 10);
    assert_eq!(b.get(10_000, 10_000), Tile::Wall);
    assert_eq!(b.get(10, 0), Tile::Wall);
    assert_eq!(b.get(0, 10), Tile::Wall);
    assert_eq!(b.get(usize::MAX, usize::MAX), Tile::Wall);
}

#[test]
fn set_then_get_roundtrip() {
    let mut b = Board::new(4, 4);
    b.set(1, 2, Tile::Empty);
    assert_eq!(b.get(1, 2), Tile::Empty);
    b.set(3, 3, Tile::Exit);
    assert_eq!(b.get(3, 3), Tile::Exit);
    assert_eq!(b.get(2, 1), Tile::Wall);
}

#[test]
fn set_out_of_bounds_is_a_no_op() {
    let mut b = Board::new(3, 3);
    b.set(3, 0, Tile::Empty);
    b.set(0, 3, Tile::Empty);
    b.set(700, 700, Tile::Exit);
    for y in 0..3 {
        for x in 0..3 {
            assert_eq!(b.get(x, y), Tile::Wall);
        }
    }
}

#[test]
fn is_wall_and_is_empty_track_tiles_and_bounds() {
    let mut b = Board::new(3, 3);
    assert!(b.is_wall(1, 1));
    assert!(!b.is_empty(1, 1));
    b.set(1, 1, Tile::Empty);
    assert!(!b.is_wall(1, 1));
    assert!(b.is_empty(1, 1));
    b.set(2, 2, Tile::Exit);
    assert!(!b.is_wall(2, 2));
    assert!(!b.is_empty(2, 2));
    assert!(!b.is_wall(3, 0));
    assert!(!b.is_empty(0, 3));
}

#[test]
fn adjacent_walls_of_origin_on_fresh_board() {
    let b = Board::new(5, 5);
    let walls = b.get_adjacent_walls(0, 0);
    assert_eq!(walls.len(), 2);
    assert_eq!(walls[0], Coord::new(2, 0));
    assert_eq!(walls[1], Coord::new(0, 2));
}

#[test]
fn adjacent_walls_skip_underflow_and_edges() {
    let b = Board::new(3, 3);
    let walls = b.get_adjacent_walls(1, 1);
    // +2 and -2 leave the grid on both axes except where they underflow
    assert_eq!(walls.len(), 0);
    let walls = b.get_adjacent_walls(2, 2);
    assert_eq!(walls.len(), 2);
    assert_eq!(walls[0], Coord::new(0, 2));
    assert_eq!(walls[1], Coord::new(2, 0));
}

#[test]
fn adjacent_empty_scans_in_fixed_order() {
    let mut b = Board::new(5, 5);
    b.set(4, 2, Tile::Empty);
    b.set(0, 2, Tile::Empty);
    b.set(2, 4, Tile::Empty);
    b.set(2, 0, Tile::Empty);
    let empties = b.get_adjacent_empty(2, 2);
    assert_eq!(empties.len(), 4);
    assert_eq!(empties[0], Coord::new(4, 2));
    assert_eq!(empties[1], Coord::new(0, 2));
    assert_eq!(empties[2], Coord::new(2, 4));
    assert_eq!(empties[3], Coord::new(2, 0));
}

#[test]
fn adjacent_connections_look_one_step_away() {
    let mut b = Board::new(5, 5);
    b.set(3, 2, Tile::Empty);
    b.set(2, 1, Tile::Empty);
    // exit tiles are not "empty" for connection scans
    b.set(1, 2, Tile::Exit);
    let conns = b.get_adjacent_connections(2, 2);
    assert_eq!(conns.len(), 2);
    assert_eq!(conns[0], Coord::new(3, 2));
    assert_eq!(conns[1], Coord::new(2, 1));
}

#[test]
fn make_passage_carves_both_ends_and_the_midpoint() {
    let mut b = Board::new(5, 5);
    b.make_passage(Coord::new(0, 0), Coord::new(2, 0));
    assert_eq!(b.get(0, 0), Tile::Empty);
    assert_eq!(b.get(1, 0), Tile::Empty);
    assert_eq!(b.get(2, 0), Tile::Empty);
    assert_eq!(b.get(3, 0), Tile::Wall);

    let mut v = Board::new(5, 5);
    v.make_passage(Coord::new(2, 4), Coord::new(2, 2));
    assert_eq!(v.get(2, 4), Tile::Empty);
    assert_eq!(v.get(2, 3), Tile::Empty);
    assert_eq!(v.get(2, 2), Tile::Empty);
    assert_eq!(v.get(2, 1), Tile::Wall);
}

#[test]
fn pretty_print_draws_rows_with_newlines() {
    let mut b = Board::new(2, 2);
    b.set(1, 0, Tile::Empty);
    b.set(0, 1, Tile::Exit);
    let art = b.pretty_print();
    assert_eq!(art, "█ \nx█\n");
}

#[test]
fn pretty_print_all_walls() {
    let b = Board::new(3, 1);
    assert_eq!(b.pretty_print(), "███\n");
}
