use blob_pathfinding::cell::CellState;
use blob_pathfinding::maze::{f2d_to_1d, set_maze_point, sidewinder, Point};

fn check_maze(w: usize, h: usize) {
    let m = sidewinder(w, h);
    assert_eq!(m.len(), w * h);
    let start = 2 * w - 1;
    let end = (h - 2) * w + 1;
    // Exactly one start and one end, at their fixed places.
    assert_eq!(m.iter().filter(|&&s| s == CellState::Start).count(), 1);
    assert_eq!(m.iter().filter(|&&s| s == CellState::End).count(), 1);
    assert_eq!(m[start], CellState::Start);
    assert_eq!(m[end], CellState::End);
    for i in 0..w * h {
        let (x, y) = (i % w, i / w);
        let ring = x == 0 || y == 0 || x == w - 1 || y == h - 1;
        if ring && i != start {
            assert_eq!(m[i], CellState::Wall);
        }
        let room = x % 2 == 1 && y % 2 == 1 && x <= w - 2 && y <= h - 2;
        if room && i != end {
            assert_eq!(m[i], CellState::Passage);
        }
        if x % 2 == 0 && y % 2 == 0 {
            assert_eq!(m[i], CellState::Wall);
        }
    }
    // A perfect maze over the rooms: rooms - 1 links, all rooms reachable.
    let rooms: Vec<usize> = (0..w * h)
        .filter(|&i| {
            let (x, y) = (i % w, i / w);
            x % 2 == 1 && y % 2 == 1 && x <= w - 2 && y <= h - 2
        })
        .collect();
    let open = |i: usize| m[i] == CellState::Passage || m[i] == CellState::End;
    let links = (0..w * h)
        .filter(|&i| open(i) && !rooms.contains(&i) && i != end)
        .count();
    assert_eq!(links + 1, rooms.len());
    let mut seen = vec![false; w * h];
    let mut stack = vec![rooms[0]];
    seen[rooms[0]] = true;
    while let Some(i) = stack.pop() {
        for j in [i - w, i - 1, i + 1, i + w] {
            if open(j) && !seen[j] {
                seen[j] = true;
                stack.push(j);
            }
        }
    }
    assert!(rooms.iter().all(|&r| seen[r]));
}

#[test]
fn generated_mazes_have_the_expected_shape() {
    for &(w, h) in [(160usize, 160usize), (20, 20), (21, 21), (4, 4), (3, 7), (8, 3), (11, 6)].iter() {
        for _ in 0..5 {
            check_maze(w, h);
        }
    }
}

#[test]
fn points_map_to_row_major_indices() {
    assert_eq!(f2d_to_1d(Point { x: 3, y: 2 }, 10), 23);
    let mut m = vec![CellState::Wall; 12];
    set_maze_point(&mut m, Point { x: 1, y: 2 }, 4);
    assert_eq!(m[9], CellState::Passage);
    assert_eq!(m.iter().filter(|&&s| s == CellState::Passage).count(), 1);
}
