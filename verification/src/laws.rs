use vstd::prelude::*;
use crate::color::Color;
use crate::container::{CAPACITY, spec_uniform, spec_full, solved_shape, count_color};
use crate::game::{game_wf, spec_solved, spec_move_legal, pour_can_step, pour_step, spec_pour,
    total_count};

verus! {

/// All units of `s` are the color `col`.
pub open spec fn all_units(s: Seq<Color>, col: Color) -> bool {
    forall|i: int| 0 <= i < s.len() ==> #[trigger] s[i] == col
}

/// Appending one unit raises its color's count by one and no other.
pub proof fn lemma_count_push(s: Seq<Color>, x: Color, c: Color)
    ensures
        count_color(s.push(x), c) == count_color(s, c) + (if x == c {
            1nat
        } else {
            0nat
        }),
{
    assert(s.push(x).drop_last() =~= s);
    assert(s.push(x).last() == x);
}

/// Replacing one tube changes the game's count of `c` by the difference
/// between the new tube's count and the old tube's count.
pub proof fn lemma_total_count_update(g: Seq<Seq<Color>>, i: int, t: Seq<Color>, c: Color)
    requires
        0 <= i < g.len(),
    ensures
        total_count(g.update(i, t), c) + count_color(g[i], c) == total_count(g, c) + count_color(
            t,
            c,
        ),
    decreases g.len(),
{
    let n = g.len() as int;
    if i == n - 1 {
        assert(g.update(i, t).drop_last() =~= g.drop_last());
        assert(g.update(i, t).last() == t);
    } else {
        assert(g.update(i, t).drop_last() =~= g.drop_last().update(i, t));
        assert(g.update(i, t).last() == g.last());
        lemma_total_count_update(g.drop_last(), i, t, c);
    }
}

/// Conservation law: a pour moves units and never creates or destroys
/// them, so the game's total count of every color is unchanged by
/// applying any move, in particular every move `valid_moves` offers.
pub proof fn lemma_pour_conserves_units(g: Seq<Seq<Color>>, from: int, to: int, c: Color)
    requires
        0 <= from < g.len(),
        0 <= to < g.len(),
    ensures
        total_count(spec_pour(g, from, to), c) == total_count(g, c),
    decreases g[from].len(),
{
    if pour_can_step(g, from, to) {
        let x = g[from].last();
        let gm = g.update(from, g[from].drop_last());
        let g2 = pour_step(g, from, to);
        lemma_total_count_update(g, from, g[from].drop_last(), c);
        assert(count_color(g[from], c) == count_color(g[from].drop_last(), c) + (if x == c {
            1nat
        } else {
            0nat
        }));
        assert(gm[to] == g[to]);
        lemma_total_count_update(gm, to, g[to].push(x), c);
        lemma_count_push(g[to], x, c);
        assert(total_count(g2, c) == total_count(g, c));
        assert(g2[from].len() < g[from].len());
        lemma_pour_conserves_units(g2, from, to, c);
    }
}

/// From a solved configuration no move is legal: every container is empty
/// or already done, so every source is excluded.
pub proof fn lemma_solved_no_legal_moves(g: Seq<Seq<Color>>)
    requires
        spec_solved(g),
    ensures
        forall|f: int, t: int| !spec_move_legal(g, f, t),
{
    assert forall|f: int, t: int| !spec_move_legal(g, f, t) by {
        if spec_move_legal(g, f, t) {
            assert(solved_shape(g[f]));
        }
    }
}

/// A pour between two tubes that hold only the color `col`, while every
/// other tube is in solved shape and the two tubes' unit total is a
/// multiple of the capacity, ends in a solved configuration.
proof fn lemma_pour_uniform_solved(g: Seq<Seq<Color>>, from: int, to: int, col: Color)
    requires
        0 <= from < g.len(),
        0 <= to < g.len(),
        from != to,
        game_wf(g),
        forall|k: int| 0 <= k < g.len() && k != from && k != to ==> solved_shape(#[trigger] g[k]),
        all_units(g[from], col),
        all_units(g[to], col),
        g[from].len() + g[to].len() == 0 || g[from].len() + g[to].len() == CAPACITY || g[from].len()
            + g[to].len() == 2 * CAPACITY,
    ensures
        spec_solved(spec_pour(g, from, to)),
    decreases g[from].len(),
{
    if pour_can_step(g, from, to) {
        let x = g[from].last();
        let g2 = pour_step(g, from, to);
        assert(x == col);
        assert(all_units(g2[from], col));
        assert forall|i: int| 0 <= i < g2[to].len() implies #[trigger] g2[to][i] == col by {
            if i < g[to].len() {
                assert(g[to][i] == col);
            }
        }
        assert(game_wf(g2)) by {
            assert forall|k: int| 0 <= k < g2.len() implies (#[trigger] g2[k]).len() <= CAPACITY
            by {
                if k != from && k != to {
                    assert(g2[k] == g[k]);
                }
            }
        }
        lemma_pour_uniform_solved(g2, from, to, col);
    } else {
        assert(spec_pour(g, from, to) == g);
        assert forall|k: int| 0 <= k < g.len() implies solved_shape(#[trigger] g[k]) by {
            if k == from || k == to {
                if spec_full(g[to]) {
                    assert(g[to][0] == col);
                    assert(spec_uniform(g[to]));
                    assert(g[from].len() == 0 || g[from].len() == CAPACITY);
                    if g[from].len() == CAPACITY {
                        assert(g[from][0] == col);
                        assert(spec_uniform(g[from]));
                    }
                } else if g[from].len() == 0 {
                    assert(g[to].len() <= CAPACITY);
                    assert(g[to].len() == 0 || g[to].len() == CAPACITY);
                    if g[to].len() == CAPACITY {
                        assert(g[to][0] == col);
                        assert(spec_uniform(g[to]));
                    }
                } else {
                    assert(g[to].len() > 0 && g[to].last() != g[from].last());
                    assert(g[from].last() == col);
                    assert(g[to].last() == col);
                    assert(false);
                }
            }
        }
    }
}

/// Stability law: once a configuration is solved it stays solved under
/// applying any move, legal or not; a pour either does nothing or shifts
/// a full single-color tube into an empty one.
pub proof fn lemma_solved_stable(g: Seq<Seq<Color>>, from: int, to: int)
    requires
        spec_solved(g),
        game_wf(g),
        0 <= from < g.len(),
        0 <= to < g.len(),
    ensures
        spec_solved(spec_pour(g, from, to)),
{
    if from == to {
        assert(spec_pour(g, from, to) == g);
    } else if g[from].len() == 0 {
        assert(!pour_can_step(g, from, to));
        assert(spec_pour(g, from, to) == g);
    } else {
        assert(solved_shape(g[from]));
        assert(spec_full(g[from]) && spec_uniform(g[from]));
        let col = g[from][0];
        assert(all_units(g[from], col));
        if g[to].len() == 0 {
            assert(all_units(g[to], col));
            lemma_pour_uniform_solved(g, from, to, col);
        } else {
            assert(solved_shape(g[to]));
            assert(spec_full(g[to]));
            assert(!pour_can_step(g, from, to));
            assert(spec_pour(g, from, to) == g);
        }
    }
}

/// Exclusion law: no legal move targets a full destination, keeps `from`
/// equal to `to`, or shifts a single-color source into an empty
/// destination.
pub proof fn lemma_legal_move_shape(g: Seq<Seq<Color>>, f: int, t: int)
    requires
        spec_move_legal(g, f, t),
    ensures
        f != t,
        !spec_full(g[t]),
        !(spec_uniform(g[f]) && g[t].len() == 0),
{
}

} // verus!
