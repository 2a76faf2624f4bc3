use water_sort::color::Color;
use water_sort::container::{Container, CAPACITY};
use water_sort::game::Game;
use water_sort::level::{generate_level, init_fixed};
use water_sort::solver::{solve, SolveRes, Solver};

fn tube(colors: &[Color]) -> Container {
    let mut t = Container::new();
    for &c in colors {
        t.push(c);
    }
    t
}

fn game(tubes: &[&[Color]]) -> Game {
    let mut v: Vec<Container> = Vec::new();
    for &t in tubes {
        v.push(tube(t));
    }
    Game::new(v)
}

fn count_units(g: &Game, c: Color) -> usize {
    let mut n = 0;
    for i in 0..g.num_tubes() {
        let t = g.tube(i);
        for k in 0..t.len() {
            if t.unit_at(k) == c {
                n += 1;
            }
        }
    }
    n
}

#[test]
fn solved_state_returns_found_empty() {
    let a = Color::Red;
    let b = Color::Blue;
    // Already sorted, zero empty containers.
    let g = game(&[&[a, a, a, a], &[b, b, b, b]]);
    assert!(g.is_solved());
    match solve(&g, 0) {
        SolveRes::Found(moves) => assert!(moves.is_empty()),
        _ => panic!("expected an immediate empty solution"),
    }
}

#[test]
fn stuck_state_returns_no_solution_not_timeout() {
    let a = Color::Red;
    let b = Color::Blue;
    // Fully mixed, no empty tube, mismatched tops: no legal move exists,
    // so the frontier exhausts at once.
    let g = game(&[&[a, b, a, b], &[b, a, b, a]]);
    assert!(!g.is_solved());
    assert_eq!(g.valid_moves().len(), 0);
    match solve(&g, 10_000) {
        SolveRes::NoSolution => {}
        SolveRes::Timeout => panic!("search should exhaust, not time out"),
        SolveRes::Found(_) => panic!("state is unsolvable"),
    }
}

#[test]
fn undersupplied_colors_return_no_solution() {
    let a = Color::Red;
    let b = Color::Blue;
    // Two units of each color can never fill a container of four, so no
    // reachable configuration is solved.
    let g = game(&[&[a, b, a, b], &[]]);
    match solve(&g, 100_000) {
        SolveRes::NoSolution => {}
        _ => panic!("expected exhaustion"),
    }
}

#[test]
fn zero_budget_times_out() {
    let a = Color::Red;
    let b = Color::Blue;
    let g = game(&[&[a, b, a, b], &[b, a, b, a]]);
    match solve(&g, 0) {
        SolveRes::Timeout => {}
        _ => panic!("expected a timeout with no budget"),
    }
}

#[test]
fn solvable_state_found_and_replayable() {
    let a = Color::Red;
    let b = Color::Blue;
    // Two pours solve this: 0 -> 1 then 2 -> 0 (or 0 -> 2).
    let g = game(&[&[b, b, a, a], &[a, a], &[b, b]]);
    match solve(&g, 1_000_000) {
        SolveRes::Found(moves) => {
            assert!(!moves.is_empty());
            let mut replay = g.duplicate();
            for mv in &moves {
                assert!(mv.from < replay.num_tubes());
                assert!(mv.to < replay.num_tubes());
                replay.apply(mv);
            }
            assert!(replay.is_solved());
        }
        _ => panic!("expected a solution"),
    }
}

#[test]
fn solver_steps_match_solve() {
    let a = Color::Red;
    let b = Color::Blue;
    let g = game(&[&[b, b, a, a], &[a, a], &[b, b]]);
    let mut solver = Solver::new(&g);
    let mut result = None;
    for _ in 0..1_000_000 {
        if let Some(res) = solver.step() {
            result = Some(res);
            break;
        }
    }
    match result {
        Some(SolveRes::Found(moves)) => {
            let mut replay = g.duplicate();
            for mv in &moves {
                replay.apply(mv);
            }
            assert!(replay.is_solved());
        }
        _ => panic!("stepping should find the same solution"),
    }
}

#[test]
fn run_reports_each_outcome() {
    let a = Color::Red;
    let b = Color::Blue;
    let solvable = game(&[&[b, b, a, a], &[a, a], &[b, b]]);
    let mut s = Solver::new(&solvable);
    match s.run(1_000_000) {
        SolveRes::Found(moves) => {
            let mut replay = solvable.duplicate();
            for mv in &moves {
                replay.apply(mv);
            }
            assert!(replay.is_solved());
        }
        _ => panic!("expected a solution"),
    }
    let stuck = game(&[&[a, b, a, b], &[b, a, b, a]]);
    let mut s2 = Solver::new(&stuck);
    match s2.run(10_000) {
        SolveRes::NoSolution => {}
        _ => panic!("expected exhaustion"),
    }
    let mut s3 = Solver::new(&stuck);
    match s3.run(0) {
        SolveRes::Timeout => {}
        _ => panic!("expected a timeout with no budget"),
    }
}

#[test]
fn solver_reports_exhaustion_via_steps() {
    let a = Color::Red;
    let b = Color::Blue;
    let g = game(&[&[a, b, a, b], &[b, a, b, a]]);
    let mut solver = Solver::new(&g);
    // The first step expands the seed and finds no legal moves.
    assert!(solver.step().is_none());
    // The frontier is now empty: the next step reports exhaustion.
    match solver.step() {
        Some(SolveRes::NoSolution) => {}
        _ => panic!("expected exhaustion"),
    }
}

#[test]
fn empty_palette_level_is_solved() {
    let palette: Vec<Color> = Vec::new();
    let g = generate_level(&palette, 3);
    assert_eq!(g.num_tubes(), 3);
    assert!(g.is_solved());
    match solve(&g, 0) {
        SolveRes::Found(moves) => assert!(moves.is_empty()),
        _ => panic!("an all-empty level is already solved"),
    }
}

#[test]
fn fixed_level_shape() {
    let g = init_fixed();
    assert_eq!(g.num_tubes(), 14);
    for i in 0..12 {
        assert_eq!(g.tube(i).len(), CAPACITY);
    }
    assert!(g.tube(12).is_empty());
    assert!(g.tube(13).is_empty());
    assert_eq!(g.tube(0).unit_at(0), Color::Yellow);
    assert_eq!(g.tube(0).unit_at(1), Color::Red);
    assert_eq!(g.tube(0).top_color(), Some(Color::Red));
    assert_eq!(g.tube(11).top_color(), Some(Color::Cyan));
    assert!(!g.is_solved());
    for c in [
        Color::Red,
        Color::Green,
        Color::Yellow,
        Color::Cyan,
        Color::Magenta,
        Color::Pink,
        Color::Violet,
        Color::Orange,
        Color::LightGreen,
        Color::Brown,
    ] {
        assert_eq!(count_units(&g, c), 4);
    }
    assert_eq!(count_units(&g, Color::Blue), 3);
    assert_eq!(count_units(&g, Color::DarkBlue), 5);
}

#[test]
fn generated_level_shape_and_conservation() {
    let palette = vec![Color::Red, Color::Blue, Color::Green];
    let g = generate_level(&palette, 2);
    assert_eq!(g.num_tubes(), 5);
    for i in 0..3 {
        assert_eq!(g.tube(i).len(), CAPACITY);
    }
    assert!(g.tube(3).is_empty());
    assert!(g.tube(4).is_empty());
    for c in [Color::Red, Color::Blue, Color::Green] {
        assert_eq!(count_units(&g, c), CAPACITY);
    }
    assert_eq!(count_units(&g, Color::Pink), 0);
}

#[test]
fn generated_level_is_solvable_by_search() {
    let palette = vec![Color::Red, Color::Blue];
    let g = generate_level(&palette, 2);
    match solve(&g, 2_000_000) {
        SolveRes::Found(moves) => {
            let mut replay = g.duplicate();
            for mv in &moves {
                replay.apply(mv);
            }
            assert!(replay.is_solved());
        }
        SolveRes::NoSolution => {
            // A two-color shuffle with two spare containers is always
            // solvable; exhaustion would be a defect.
            panic!("two colors with two empties must be solvable");
        }
        SolveRes::Timeout => panic!("budget should suffice for two colors"),
    }
}
