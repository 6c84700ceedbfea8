use maze::board::Board;
use maze::board::Coord;
use maze::tile::Tile;

#[test]
fn moves_up_and_left_from_origin_are_rejected() {
    let mut b = Board::new(3, 3);
    b.set(0, 0, Tile::Empty);
    b.move_player_up();
    assert_eq!(b.player_pos, Coord::new(0, 0));
    assert!(!b.game_done);
    b.move_player_left();
    assert_eq!(b.player_pos, Coord::new(0, 0));
    assert!(!b.game_done);
}

#[test]
fn moves_down_and_right_at_far_edge_are_rejected() {
    let mut b = Board::new(2, 2);
    for y in 0..2 {
        for x in 0..2 {
            b.set(x, y, Tile::Empty);
        }
    }
    b.move_player_right();
    b.move_player_down();
    assert_eq!(b.player_pos, Coord::new(1, 1));
    b.move_player_right();
    assert_eq!(b.player_pos, Coord::new(1, 1));
    b.move_player_down();
    assert_eq!(b.player_pos, Coord::new(1, 1));
    assert!(!b.game_done);
}

#[test]
fn move_into_a_wall_is_rejected() {
    let mut b = Board::new(3, 1);
    b.set(0, 0, Tile::Empty);
    // (1, 0) stays a wall
    b.move_player_right();
    assert_eq!(b.player_pos, Coord::new(0, 0));
    assert!(!b.game_done);
}

#[test]
fn move_onto_empty_advances_the_player() {
    let mut b = Board::new(3, 3);
    b.set(0, 0, Tile::Empty);
    b.set(0, 1, Tile::Empty);
    b.move_player_down();
    assert_eq!(b.player_pos, Coord::new(0, 1));
    assert!(!b.game_done);
    b.move_player_up();
    assert_eq!(b.player_pos, Coord::new(0, 0));
    assert!(!b.game_done);
}

#[test]
fn move_onto_the_exit_wins_the_game() {
    let mut b = Board::new(3, 1);
    b.set(0, 0, Tile::Empty);
    b.set(1, 0, Tile::Exit);
    b.move_player_right();
    assert_eq!(b.player_pos, Coord::new(1, 0));
    assert!(b.game_done);
}

#[test]
fn done_stays_true_under_further_moves() {
    let mut b = Board::new(3, 1);
    b.set(0, 0, Tile::Empty);
    b.set(1, 0, Tile::Exit);
    b.set(2, 0, Tile::Empty);
    b.move_player_right();
    assert!(b.game_done);
    // a rejected move, a real move, and a move back: the flag never resets
    b.move_player_up();
    assert!(b.game_done);
    b.move_player_right();
    assert_eq!(b.player_pos, Coord::new(2, 0));
    assert!(b.game_done);
    b.move_player_left();
    assert!(b.game_done);
    b.move_player_left();
    assert_eq!(b.player_pos, Coord::new(0, 0));
    assert!(b.game_done);
}
