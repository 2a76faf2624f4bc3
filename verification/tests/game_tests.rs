use water_sort::color::Color;
use water_sort::container::{Container, CAPACITY};
use water_sort::game::{Game, Move};

fn tube(colors: &[Color]) -> Container {
    let mut t = Container::new();
    for &c in colors {
        t.push(c);
    }
    t
}

fn game(tubes: &[&[Color]]) -> Game {
    let mut v: Vec<Container> = Vec::new();
    for &t in tubes {
        v.push(tube(t));
    }
    Game::new(v)
}

fn count_units(g: &Game, c: Color) -> usize {
    let mut n = 0;
    for i in 0..g.num_tubes() {
        let t = g.tube(i);
        for k in 0..t.len() {
            if t.unit_at(k) == c {
                n += 1;
            }
        }
    }
    n
}

#[test]
fn container_push_pop_top() {
    let mut t = Container::new();
    assert!(t.is_empty());
    assert_eq!(t.top_color(), None);
    assert_eq!(t.pop(), None);
    t.push(Color::Red);
    t.push(Color::Blue);
    assert_eq!(t.top_color(), Some(Color::Blue));
    assert_eq!(t.len(), 2);
    assert_eq!(t.pop(), Some(Color::Blue));
    assert_eq!(t.top_color(), Some(Color::Red));
    assert_eq!(t.len(), 1);
}

#[test]
fn container_uniform_predicates() {
    let e = Container::new();
    assert!(!e.all_one_color());
    assert!(!e.is_uniform_full());
    assert!(!e.is_full());
    let part = tube(&[Color::Red, Color::Red]);
    assert!(part.all_one_color());
    assert!(!part.is_uniform_full());
    let full = tube(&[Color::Red; CAPACITY]);
    assert!(full.all_one_color());
    assert!(full.is_uniform_full());
    assert!(full.is_full());
    let mixed = tube(&[Color::Red, Color::Green, Color::Red, Color::Red]);
    assert!(!mixed.all_one_color());
    assert!(!mixed.is_uniform_full());
    assert!(mixed.is_full());
}

#[test]
fn solved_recognises_empty_and_uniform_full() {
    let a = Color::Red;
    let b = Color::Blue;
    let solved = game(&[&[a, a, a, a], &[], &[b, b, b, b]]);
    assert!(solved.is_solved());
    let unsolved = game(&[&[a, a, a, b], &[b, b, b, a]]);
    assert!(!unsolved.is_solved());
    let partial = game(&[&[a, a], &[]]);
    assert!(!partial.is_solved());
}

#[test]
fn valid_moves_basic_enumeration() {
    let a = Color::Red;
    let b = Color::Blue;
    // Tube 1 is full, tube 2 is empty; only the mixed tube 0 may pour, and
    // only into the empty tube.
    let g = game(&[&[a, b], &[b, b, b, b], &[]]);
    let moves = g.valid_moves();
    assert_eq!(moves.len(), 1);
    assert_eq!(moves[0], Move { from: 0, to: 2 });
}

#[test]
fn valid_moves_excludes_full_destination_and_self_moves() {
    let a = Color::Red;
    let b = Color::Blue;
    let g = game(&[&[a, b], &[b, b, b, b], &[b, a]]);
    let moves = g.valid_moves();
    for m in &moves {
        assert_ne!(m.from, m.to);
        assert!(!g.tube(m.to).is_full());
        assert!(!(g.tube(m.from).all_one_color() && g.tube(m.to).is_empty()));
    }
    // tops: tube 0 = b, tube 2 = a; neither top matches the other, and
    // tube 1 is full, so nothing is legal.
    assert_eq!(moves.len(), 0);
}

#[test]
fn valid_moves_excludes_degenerate_shuffle() {
    let a = Color::Red;
    // A single-color partial tube may not move into an empty tube.
    let g = game(&[&[a, a], &[]]);
    assert_eq!(g.valid_moves().len(), 0);
}

#[test]
fn valid_moves_ascending_order() {
    let a = Color::Red;
    let b = Color::Blue;
    let g = game(&[&[a, b], &[b, a], &[], &[]]);
    let moves = g.valid_moves();
    for w in moves.windows(2) {
        assert!(
            w[0].from < w[1].from || (w[0].from == w[1].from && w[0].to < w[1].to)
        );
    }
}

#[test]
fn apply_pours_matching_run() {
    let a = Color::Red;
    let c = Color::Cyan;
    // Source holds three cyan on top of one red; destination has one cyan.
    let mut g = game(&[&[a, c, c, c], &[c]]);
    g.apply(&Move { from: 0, to: 1 });
    assert_eq!(g.tube(0).len(), 1);
    assert_eq!(g.tube(0).top_color(), Some(a));
    assert_eq!(g.tube(1).len(), 4);
    assert!(g.tube(1).all_one_color());
}

#[test]
fn apply_saturates_at_destination_capacity() {
    let c = Color::Green;
    // Destination has room for exactly two more units while the source has
    // three of that color on top: exactly two transfer.
    let mut g = game(&[&[c, c, c], &[c, c]]);
    g.apply(&Move { from: 0, to: 1 });
    assert_eq!(g.tube(0).len(), 1);
    assert_eq!(g.tube(1).len(), CAPACITY);
    assert!(g.tube(1).is_uniform_full());
}

#[test]
fn apply_mismatch_is_no_op() {
    let a = Color::Red;
    let b = Color::Blue;
    let mut g = game(&[&[a, a], &[b, b]]);
    g.apply(&Move { from: 0, to: 1 });
    assert_eq!(g.tube(0).len(), 2);
    assert_eq!(g.tube(1).len(), 2);
}

#[test]
fn apply_self_move_is_no_op() {
    let a = Color::Red;
    let mut g = game(&[&[a, a], &[]]);
    g.apply(&Move { from: 0, to: 0 });
    assert_eq!(g.tube(0).len(), 2);
    assert_eq!(g.tube(1).len(), 0);
}

#[test]
fn apply_into_full_destination_is_no_op() {
    let a = Color::Red;
    let mut g = game(&[&[a, a], &[a, a, a, a]]);
    g.apply(&Move { from: 0, to: 1 });
    assert_eq!(g.tube(0).len(), 2);
    assert_eq!(g.tube(1).len(), 4);
}

#[test]
fn apply_conserves_every_color() {
    let a = Color::Red;
    let b = Color::Blue;
    let y = Color::Yellow;
    let g0 = game(&[&[a, b, y, y], &[b, a], &[]]);
    let before: Vec<usize> = [a, b, y].iter().map(|&c| count_units(&g0, c)).collect();
    for mv in g0.valid_moves() {
        let mut g = g0.duplicate();
        g.apply(&mv);
        let after: Vec<usize> = [a, b, y].iter().map(|&c| count_units(&g, c)).collect();
        assert_eq!(before, after);
    }
}

#[test]
fn solved_state_has_no_moves_and_stays_solved() {
    let a = Color::Red;
    let b = Color::Blue;
    let g0 = game(&[&[a, a, a, a], &[], &[b, b, b, b]]);
    assert!(g0.is_solved());
    assert_eq!(g0.valid_moves().len(), 0);
    // Even a forced pour (full uniform tube into the empty one) keeps the
    // configuration solved.
    for from in 0..g0.num_tubes() {
        for to in 0..g0.num_tubes() {
            let mut g = g0.duplicate();
            g.apply(&Move { from, to });
            assert!(g.is_solved());
        }
    }
}

#[test]
fn same_state_is_structural_and_order_sensitive() {
    let a = Color::Red;
    let b = Color::Blue;
    let g1 = game(&[&[a, b], &[]]);
    let g2 = game(&[&[a, b], &[]]);
    let g3 = game(&[&[], &[a, b]]);
    let g4 = game(&[&[b, a], &[]]);
    assert!(g1.same_state(&g2));
    assert!(!g1.same_state(&g3));
    assert!(!g1.same_state(&g4));
}
