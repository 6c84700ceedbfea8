use maze::board::Board;
use maze::generate::generate_board;
use maze::tile::Tile;

fn is_open(b: &Board, x: usize, y: usize) -> bool {
    let t = b.get(x, y);
    t == Tile::Empty || t == Tile::Exit
}

/// Breadth-first search over open cells from (0, 0); returns, per cell,
/// the predecessor on some shortest path, or None when unreached.
fn bfs(b: &Board) -> Vec<Option<(usize, usize)>> {
    let w = b.size.x;
    let h = b.size.y;
    let mut pred: Vec<Option<(usize, usize)>> = vec![None; w * h];
    let mut seen: Vec<bool> = vec![false; w * h];
    let mut queue: Vec<(usize, usize)> = Vec::new();
    if is_open(b, 0, 0) {
        seen[0] = true;
        queue.push((0, 0));
    }
    let mut head = 0;
    while head < queue.len() {
        let (x, y) = queue[head];
        head += 1;
        let mut nbrs: Vec<(usize, usize)> = Vec::new();
        if x + 1 < w {
            nbrs.push((x + 1, y));
        }
        if x > 0 {
            nbrs.push((x - 1, y));
        }
        if y + 1 < h {
            nbrs.push((x, y + 1));
        }
        if y > 0 {
            nbrs.push((x, y - 1));
        }
        for (nx, ny) in nbrs {
            if is_open(b, nx, ny) && !seen[nx + ny * w] {
                seen[nx + ny * w] = true;
                pred[nx + ny * w] = Some((x, y));
                queue.push((nx, ny));
            }
        }
    }
    pred
}

fn reached(b: &Board, pred: &[Option<(usize, usize)>], x: usize, y: usize) -> bool {
    (x == 0 && y == 0 && is_open(b, 0, 0)) || pred[x + y * b.size.x].is_some()
}

#[test]
fn generated_maze_is_connected() {
    for &(w, h) in &[(3, 3), (5, 5), (9, 7), (11, 11)] {
        let mut b = Board::new(w, h);
        generate_board(&mut b);
        let pred = bfs(&b);
        for y in 0..h {
            for x in 0..w {
                if is_open(&b, x, y) {
                    assert!(reached(&b, &pred, x, y), "unreached open cell ({x}, {y})");
                }
            }
        }
    }
}

#[test]
fn generated_maze_is_a_tree() {
    for &(w, h) in &[(3, 3), (5, 5), (8, 6), (13, 9)] {
        let mut b = Board::new(w, h);
        generate_board(&mut b);
        let mut cells = 0usize;
        let mut edges = 0usize;
        for y in 0..h {
            for x in 0..w {
                if is_open(&b, x, y) {
                    cells += 1;
                    if x + 1 < w && is_open(&b, x + 1, y) {
                        edges += 1;
                    }
                    if y + 1 < h && is_open(&b, x, y + 1) {
                        edges += 1;
                    }
                }
            }
        }
        assert_eq!(cells, edges + 1, "not a spanning tree on {w}x{h}");
    }
}

#[test]
fn generated_maze_has_exactly_one_exit() {
    for &(w, h) in &[(1, 1), (2, 2), (3, 3), (5, 5), (10, 10)] {
        let mut b = Board::new(w, h);
        generate_board(&mut b);
        let mut exits = 0usize;
        for y in 0..h {
            for x in 0..w {
                if b.get(x, y) == Tile::Exit {
                    exits += 1;
                }
            }
        }
        assert_eq!(exits, 1, "exit count wrong on {w}x{h}");
    }
}

#[test]
fn degenerate_grid_turns_the_start_into_the_exit() {
    let mut b = Board::new(1, 1);
    generate_board(&mut b);
    assert_eq!(b.get(0, 0), Tile::Exit);

    let mut b = Board::new(2, 2);
    generate_board(&mut b);
    assert_eq!(b.get(0, 0), Tile::Exit);
    assert_eq!(b.get(1, 0), Tile::Wall);
    assert_eq!(b.get(0, 1), Tile::Wall);
    assert_eq!(b.get(1, 1), Tile::Wall);
}

#[test]
fn five_by_five_walk_to_the_exit() {
    let mut b = Board::new(5, 5);
    generate_board(&mut b);
    assert_eq!(b.get(0, 0), Tile::Empty);

    // locate the exit
    let mut exit: Option<(usize, usize)> = None;
    for y in 0..5 {
        for x in 0..5 {
            if b.get(x, y) == Tile::Exit {
                assert!(exit.is_none(), "more than one exit");
                exit = Some((x, y));
            }
        }
    }
    let (ex, ey) = exit.expect("no exit generated");

    // reconstruct the unique path from the start to the exit
    let pred = bfs(&b);
    assert!(reached(&b, &pred, ex, ey), "exit not reachable");
    let mut path: Vec<(usize, usize)> = vec![(ex, ey)];
    let (mut cx, mut cy) = (ex, ey);
    while (cx, cy) != (0, 0) {
        let (px, py) = pred[cx + cy * 5].expect("broken path");
        path.push((px, py));
        cx = px;
        cy = py;
    }
    path.reverse();

    // walk it; the flag must rise exactly on the final step
    for k in 1..path.len() {
        assert!(!b.game_done, "done set before reaching the exit");
        let (fx, fy) = path[k - 1];
        let (tx, ty) = path[k];
        assert_eq!(b.player_pos.x, fx);
        assert_eq!(b.player_pos.y, fy);
        if tx == fx + 1 {
            b.move_player_right();
        } else if tx + 1 == fx {
            b.move_player_left();
        } else if ty == fy + 1 {
            b.move_player_down();
        } else {
            b.move_player_up();
        }
        assert_eq!(b.player_pos.x, tx, "move was rejected unexpectedly");
        assert_eq!(b.player_pos.y, ty, "move was rejected unexpectedly");
    }
    assert!(b.game_done, "reaching the exit did not finish the game");
}
