use blob_pathfinding::automaton::{Automaton, Config, ConfigError, GridError};
use blob_pathfinding::cell::{display_color, CellState};
use blob_pathfinding::direction::{
    find_target_index, reverse_direction, Direction, Topology,
};
use blob_pathfinding::maze::sidewinder;

const W: usize = 7;

fn idx(x: usize, y: usize) -> usize {
    y * W + x
}

fn count(a: &Automaton, s: CellState) -> usize {
    (0..a.cells.len()).filter(|&i| a.state_at(i) == s).count()
}

/// A 7x7 grid of walls with the start at (6,1), the seed spot at (5,1), a
/// straight corridor (1..=4, 1) and the end at (0,1).
fn corridor_states() -> Vec<CellState> {
    let mut s = vec![CellState::Wall; W * W];
    for x in 1..=5 {
        s[idx(x, 1)] = CellState::Passage;
    }
    s[idx(6, 1)] = CellState::Start;
    s[idx(0, 1)] = CellState::End;
    s
}

fn corridor_automaton(states: Vec<CellState>) -> Automaton {
    let config = Config::new(W, W, Topology::FourWay, false).unwrap();
    let mut a = Automaton::new(config, states).unwrap();
    a.seed();
    a
}

#[test]
fn straight_corridor_is_solved_without_erasure() {
    let mut a = corridor_automaton(corridor_states());
    assert_eq!(count(&a, CellState::Frontier), 1);
    // The frontier advances one cell per tick along the corridor.
    for t in 1..=4 {
        a.tick();
        assert_eq!(count(&a, CellState::Frontier), 1 + t);
        assert_eq!(a.state_at(idx(5 - t, 1)), CellState::Frontier);
        assert_eq!(count(&a, CellState::BacktracePath), 0);
    }
    // Tick 5, the corridor length: the frontier touches the end.
    a.tick();
    assert_eq!(a.state_at(idx(1, 1)), CellState::BacktracePath);
    assert_eq!(a.state_at(idx(2, 1)), CellState::BacktracePath);
    // The trace walks back one hop per tick.
    for hop in 1..=3 {
        a.tick();
        assert_eq!(a.state_at(idx(2 + hop, 1)), CellState::BacktracePath);
        if hop < 3 {
            assert_eq!(a.state_at(idx(3 + hop, 1)), CellState::Frontier);
        }
    }
    let mut ticks = 0;
    while !a.is_quiescent() {
        a.tick();
        assert_eq!(count(&a, CellState::Destruct), 0);
        ticks += 1;
        assert!(ticks < 50);
    }
    for x in 1..=5 {
        assert_eq!(a.state_at(idx(x, 1)), CellState::FinishedPath);
    }
    assert_eq!(a.state_at(idx(0, 1)), CellState::End);
    assert_eq!(a.state_at(idx(6, 1)), CellState::Start);
}

#[test]
fn dead_end_branch_is_erased() {
    let mut states = corridor_states();
    states[idx(3, 2)] = CellState::Passage;
    states[idx(3, 3)] = CellState::Passage;
    let mut a = corridor_automaton(states);
    let branch = [idx(3, 2), idx(3, 3)];
    let mut was_frontier = [false; 2];
    let mut was_destruct = [false; 2];
    let mut ticks = 0;
    while !a.is_quiescent() {
        a.tick();
        for (k, &b) in branch.iter().enumerate() {
            let s = a.state_at(b);
            assert!(s != CellState::BacktracePath && s != CellState::FinishedPath);
            was_frontier[k] |= s == CellState::Frontier;
            was_destruct[k] |= s == CellState::Destruct;
        }
        ticks += 1;
        assert!(ticks < 100);
    }
    assert_eq!(was_frontier, [true, true]);
    assert_eq!(was_destruct, [true, true]);
    for &b in branch.iter() {
        assert_eq!(a.state_at(b), CellState::Passage);
    }
    for x in 1..=5 {
        assert_eq!(a.state_at(idx(x, 1)), CellState::FinishedPath);
    }
    assert_eq!(count(&a, CellState::Frontier), 0);
    assert_eq!(count(&a, CellState::BacktracePath), 0);
    assert_eq!(count(&a, CellState::Destruct), 0);
}

#[test]
fn quick_mode_never_finishes_the_trace() {
    let config = Config::new(W, W, Topology::FourWay, true).unwrap();
    let mut a = Automaton::new(config, corridor_states()).unwrap();
    a.seed();
    for _ in 0..30 {
        a.tick();
    }
    for x in 1..=5 {
        assert_eq!(a.state_at(idx(x, 1)), CellState::BacktracePath);
    }
    assert_eq!(count(&a, CellState::FinishedPath), 0);
}

#[test]
fn destruct_cell_reverts_to_passage() {
    let mut states = vec![CellState::Wall; W * W];
    states[idx(2, 2)] = CellState::Destruct;
    let config = Config::new(W, W, Topology::EightWay, false).unwrap();
    let mut a = Automaton::new(config, states).unwrap();
    a.tick();
    assert_eq!(a.state_at(idx(2, 2)), CellState::Passage);
    assert!(a.is_quiescent());
}

#[test]
fn eight_way_frontier_spreads_diagonally() {
    let mut states = vec![CellState::Wall; W * W];
    states[idx(6, 1)] = CellState::Start;
    states[idx(4, 2)] = CellState::Passage;
    let config = Config::new(W, W, Topology::EightWay, false).unwrap();
    let mut a = Automaton::new(config, states).unwrap();
    a.seed();
    a.tick();
    assert_eq!(a.state_at(idx(4, 2)), CellState::Frontier);
    assert_eq!(a.parent_at(idx(4, 2)), Direction::Topright);
    assert_eq!(a.parent_at(idx(5, 1)), Direction::Center);
}

#[test]
fn config_errors() {
    assert_eq!(Config::new(2, 10, Topology::FourWay, false), Err(ConfigError::TooSmall));
    assert_eq!(Config::new(10, 0, Topology::FourWay, false), Err(ConfigError::TooSmall));
    assert_eq!(
        Config::new(usize::MAX / 2, 3, Topology::FourWay, false),
        Err(ConfigError::TooLarge)
    );
    assert_eq!(Config::new(3, 3, Topology::FourWay, false), Err(ConfigError::SeedOnEnd));
    let c = Config::new(3, 4, Topology::EightWay, true).unwrap();
    assert_eq!((c.width, c.height, c.topology, c.quick_mode), (3, 4, Topology::EightWay, true));
}

#[test]
fn grid_errors() {
    let config = Config::new(W, W, Topology::FourWay, false).unwrap();
    assert_eq!(
        Automaton::new(config, vec![CellState::Wall; W * W - 1]).err(),
        Some(GridError::WrongLength)
    );
    let mut open_ring = vec![CellState::Wall; W * W];
    open_ring[idx(0, 3)] = CellState::Passage;
    assert_eq!(Automaton::new(config, open_ring).err(), Some(GridError::OpenBorder));
    let mut start_on_ring = vec![CellState::Wall; W * W];
    start_on_ring[idx(6, 1)] = CellState::Start;
    assert!(Automaton::new(config, start_on_ring).is_ok());
}

#[test]
fn walls_never_change() {
    let config = Config::new(21, 15, Topology::EightWay, false).unwrap();
    let mut a = Automaton::new(config, sidewinder(21, 15)).unwrap();
    a.seed();
    let walls: Vec<usize> = (0..a.cells.len())
        .filter(|&i| a.state_at(i) == CellState::Wall)
        .collect();
    for _ in 0..400 {
        a.tick();
        for &i in walls.iter() {
            assert_eq!(a.state_at(i), CellState::Wall);
        }
    }
}

#[test]
fn generated_maze_is_solved() {
    for &(w, h) in [(20usize, 20usize), (21, 21), (9, 14)].iter() {
        let config = Config::new(w, h, Topology::FourWay, false).unwrap();
        let mut a = Automaton::new(config, sidewinder(w, h)).unwrap();
        a.seed();
        let mut ticks = 0;
        while !a.is_quiescent() {
            a.tick();
            ticks += 1;
            assert!(ticks < 4 * w * h);
        }
        assert!((0..a.cells.len()).any(|i| a.state_at(i) == CellState::FinishedPath));
        assert_eq!(a.state_at((h - 2) * w + 1), CellState::End);
    }
}

#[test]
fn seeding_makes_one_frontier_west_of_start() {
    let config = Config::new(12, 10, Topology::FourWay, false).unwrap();
    let mut a = Automaton::new(config, sidewinder(12, 10)).unwrap();
    assert_eq!(count(&a, CellState::Frontier), 0);
    a.seed();
    assert_eq!(count(&a, CellState::Frontier), 1);
    assert_eq!(a.state_at(2 * 12 - 2), CellState::Frontier);
    assert_eq!(a.parent_at(2 * 12 - 2), Direction::Center);
    assert_eq!(a.state_at(2 * 12 - 1), CellState::Start);
}

#[test]
fn index_and_direction_utilities() {
    assert_eq!(find_target_index(12, Direction::Topleft, 7), 4);
    assert_eq!(find_target_index(12, Direction::Top, 7), 5);
    assert_eq!(find_target_index(12, Direction::Topright, 7), 6);
    assert_eq!(find_target_index(12, Direction::Left, 7), 11);
    assert_eq!(find_target_index(12, Direction::Center, 7), 12);
    assert_eq!(find_target_index(12, Direction::Right, 7), 13);
    assert_eq!(find_target_index(12, Direction::Bottomleft, 7), 18);
    assert_eq!(find_target_index(12, Direction::Bottom, 7), 19);
    assert_eq!(find_target_index(12, Direction::Bottomright, 7), 20);
    assert_eq!(reverse_direction(Direction::Topleft), Direction::Bottomright);
    assert_eq!(reverse_direction(Direction::Top), Direction::Bottom);
    assert_eq!(reverse_direction(Direction::Left), Direction::Right);
    assert_eq!(reverse_direction(Direction::Center), Direction::Center);
    assert_eq!(reverse_direction(Direction::Bottomleft), Direction::Topright);
}

#[test]
fn display_colors() {
    assert_eq!(display_color(CellState::Wall), 0x000000);
    assert_eq!(display_color(CellState::Passage), 0xFFFFFF);
    assert_eq!(display_color(CellState::Start), 0x0000FF);
    assert_eq!(display_color(CellState::End), 0xFF0000);
    assert_eq!(display_color(CellState::Frontier), 0x00FF00);
    assert_eq!(display_color(CellState::BacktracePath), 0x0088FF);
    assert_eq!(display_color(CellState::FinishedPath), 0x8888FF);
    assert_eq!(display_color(CellState::Destruct), 0xFF00FF);
}

#[test]
fn traced_cells_lead_back_to_the_seed() {
    let (w, h) = (25usize, 19usize);
    let config = Config::new(w, h, Topology::FourWay, false).unwrap();
    let mut a = Automaton::new(config, sidewinder(w, h)).unwrap();
    a.seed();
    let seed = 2 * w - 2;
    for _ in 0..(4 * w * h) {
        a.tick();
        for i in 0..a.cells.len() {
            if a.state_at(i) != CellState::BacktracePath {
                continue;
            }
            let mut seen = vec![false; w * h];
            let mut c = i;
            while a.parent_at(c) != Direction::Center {
                assert!(!seen[c]);
                seen[c] = true;
                c = find_target_index(c, a.parent_at(c), w);
            }
            assert_eq!(c, seed);
        }
        if a.is_quiescent() {
            break;
        }
    }
}
