use vstd::prelude::*;
use vstd::arithmetic::power::pow;
use vstd::set_lib::{set_int_range, lemma_int_range, lemma_len_subset};
use crate::color::Color;
use crate::container::{CAPACITY, tube_wf};
use crate::game::{Move, game_wf, lex_before};

verus! {

/// Strictly more than the number of distinct container contents: the
/// sequences of at most `CAPACITY` units over the twelve colors.
pub const TUBE_STATES: usize = 22621;

/// A numeric label for each color, all twelve distinct and below 12.
pub open spec fn color_code(c: Color) -> int {
    match c {
        Color::Red => 0,
        Color::Green => 1,
        Color::Blue => 2,
        Color::Yellow => 3,
        Color::Cyan => 4,
        Color::Magenta => 5,
        Color::Pink => 6,
        Color::Violet => 7,
        Color::Orange => 8,
        Color::LightGreen => 9,
        Color::Brown => 10,
        Color::DarkBlue => 11,
    }
}

/// An injective numeric code for a container's contents.
pub open spec fn tube_code(s: Seq<Color>) -> int
    decreases s.len(),
{
    if s.len() == 0 {
        0
    } else {
        tube_code(s.drop_last()) * 12 + color_code(s.last()) + 1
    }
}

/// An injective numeric code for a whole configuration.
pub open spec fn state_code(g: Seq<Seq<Color>>) -> int
    decreases g.len(),
{
    if g.len() == 0 {
        0
    } else {
        state_code(g.drop_last()) * (TUBE_STATES as int) + tube_code(g.last())
    }
}

proof fn lemma_tube_code_nonneg(s: Seq<Color>)
    ensures
        tube_code(s) >= 0,
    decreases s.len(),
{
    if s.len() > 0 {
        lemma_tube_code_nonneg(s.drop_last());
    }
}

/// An exclusive bound on the codes of containers holding at most `k` units.
spec fn tube_code_cap(k: nat) -> int
    decreases k,
{
    if k == 0 {
        1
    } else {
        tube_code_cap((k - 1) as nat) * 12 + 1
    }
}

proof fn lemma_tube_code_cap_pos(k: nat)
    ensures
        tube_code_cap(k) >= 1,
    decreases k,
{
    if k > 0 {
        lemma_tube_code_cap_pos((k - 1) as nat);
    }
}

proof fn lemma_tube_code_bound(s: Seq<Color>, k: nat)
    requires
        s.len() <= k,
    ensures
        0 <= tube_code(s) < tube_code_cap(k),
    decreases k,
{
    lemma_tube_code_cap_pos(k);
    if s.len() > 0 {
        lemma_tube_code_bound(s.drop_last(), (k - 1) as nat);
    }
}

/// A well-formed container's code lies below `TUBE_STATES`.
pub proof fn lemma_tube_code_range(s: Seq<Color>)
    requires
        tube_wf(s),
    ensures
        0 <= tube_code(s) < TUBE_STATES as int,
{
    lemma_tube_code_bound(s, CAPACITY as nat);
    assert(tube_code_cap(0) == 1);
    assert(tube_code_cap(1) == 13);
    assert(tube_code_cap(2) == 157);
    assert(tube_code_cap(3) == 1885);
    assert(tube_code_cap(4) == 22621);
}

/// Distinct container contents get distinct codes.
pub proof fn lemma_tube_code_injective(a: Seq<Color>, b: Seq<Color>)
    requires
        tube_code(a) == tube_code(b),
    ensures
        a == b,
    decreases a.len(),
{
    if a.len() == 0 && b.len() == 0 {
        assert(a =~= b);
    } else if a.len() == 0 {
        lemma_tube_code_nonneg(b.drop_last());
        assert(false);
    } else if b.len() == 0 {
        lemma_tube_code_nonneg(a.drop_last());
        assert(false);
    } else {
        assert(0 <= color_code(a.last()) < 12);
        assert(0 <= color_code(b.last()) < 12);
        assert(tube_code(a.drop_last()) == tube_code(b.drop_last()));
        assert(color_code(a.last()) == color_code(b.last()));
        assert(a.last() == b.last());
        lemma_tube_code_injective(a.drop_last(), b.drop_last());
        assert(a =~= a.drop_last().push(a.last()));
        assert(b =~= b.drop_last().push(b.last()));
    }
}

/// A well-formed configuration's code lies below
/// `TUBE_STATES` to the power of its container count.
pub proof fn lemma_state_code_range(g: Seq<Seq<Color>>)
    requires
        game_wf(g),
    ensures
        0 <= state_code(g) < pow(TUBE_STATES as int, g.len() as nat),
    decreases g.len(),
{
    reveal(pow);
    let t = TUBE_STATES as int;
    if g.len() == 0 {
        assert(pow(t, 0) == 1);
    } else {
        assert(game_wf(g.drop_last())) by {
            assert(forall|i: int| 0 <= i < g.len() - 1 ==> g.drop_last()[i] == g[i]);
        }
        lemma_state_code_range(g.drop_last());
        lemma_tube_code_range(g.last());
        let x = state_code(g.drop_last());
        let p = pow(t, (g.len() - 1) as nat);
        assert(pow(t, g.len() as nat) == t * p);
        assert(0 <= x * t) by (nonlinear_arith)
            requires
                x >= 0,
                t > 0,
        ;
        assert(x * t <= (p - 1) * t) by (nonlinear_arith)
            requires
                x <= p - 1,
                t > 0,
        ;
        assert((p - 1) * t == p * t - t) by (nonlinear_arith);
        assert(p * t == t * p) by (nonlinear_arith);
    }
}

/// Distinct well-formed configurations of one length get distinct codes.
pub proof fn lemma_state_code_injective(a: Seq<Seq<Color>>, b: Seq<Seq<Color>>)
    requires
        a.len() == b.len(),
        game_wf(a),
        game_wf(b),
        state_code(a) == state_code(b),
    ensures
        a == b,
    decreases a.len(),
{
    if a.len() == 0 {
        assert(a =~= b);
    } else {
        lemma_tube_code_range(a.last());
        lemma_tube_code_range(b.last());
        assert(state_code(a.drop_last()) == state_code(b.drop_last()) && tube_code(a.last())
            == tube_code(b.last())) by {
            let d = state_code(a.drop_last()) - state_code(b.drop_last());
            let t = TUBE_STATES as int;
            assert(d * t == tube_code(b.last()) - tube_code(a.last())) by (nonlinear_arith)
                requires
                    state_code(a.drop_last()) * t + tube_code(a.last()) == state_code(
                        b.drop_last(),
                    ) * t + tube_code(b.last()),
                    d == state_code(a.drop_last()) - state_code(b.drop_last()),
            ;
            assert(-t < d * t < t);
            assert(d == 0) by (nonlinear_arith)
                requires
                    -t < d * t < t,
                    t == TUBE_STATES as int,
            ;
        }
        lemma_tube_code_injective(a.last(), b.last());
        assert(game_wf(a.drop_last())) by {
            assert(forall|i: int| 0 <= i < a.len() - 1 ==> a.drop_last()[i] == a[i]);
        }
        assert(game_wf(b.drop_last())) by {
            assert(forall|i: int| 0 <= i < b.len() - 1 ==> b.drop_last()[i] == b[i]);
        }
        lemma_state_code_injective(a.drop_last(), b.drop_last());
        assert(a =~= a.drop_last().push(a.last()));
        assert(b =~= b.drop_last().push(b.last()));
    }
}

/// Pigeonhole: a duplicate-free sequence of integers drawn from `[lo, hi)`
/// is no longer than the range.
pub proof fn lemma_distinct_ints_bounded(codes: Seq<int>, lo: int, hi: int)
    requires
        lo <= hi,
        forall|i: int| 0 <= i < codes.len() ==> lo <= #[trigger] codes[i] < hi,
        codes.no_duplicates(),
    ensures
        codes.len() <= hi - lo,
{
    codes.unique_seq_to_set();
    assert forall|x: int| codes.to_set().contains(x) implies set_int_range(lo, hi).contains(
        x,
    ) by {
        let i = choose|i: int| 0 <= i < codes.len() && codes[i] == x;
        assert(lo <= codes[i] < hi);
    }
    assert(codes.to_set().subset_of(set_int_range(lo, hi)));
    lemma_int_range(lo, hi);
    lemma_len_subset(codes.to_set(), set_int_range(lo, hi));
}

/// A sequence of pairwise distinct well-formed configurations, all of `n`
/// containers, is no longer than the number of codes available to them:
/// `TUBE_STATES` to the power `n`.
pub proof fn lemma_distinct_states_bounded(vs: Seq<Seq<Seq<Color>>>, n: int)
    requires
        n >= 0,
        forall|i: int| 0 <= i < vs.len() ==> (#[trigger] vs[i]).len() == n && game_wf(vs[i]),
        forall|i: int, j: int| 0 <= i < j < vs.len() ==> vs[i] != vs[j],
    ensures
        vs.len() <= pow(TUBE_STATES as int, n as nat),
{
    let codes = Seq::new(vs.len(), |i: int| state_code(vs[i]));
    assert(codes.no_duplicates()) by {
        assert forall|i: int, j: int|
            0 <= i < codes.len() && 0 <= j < codes.len() && i != j implies codes[i]
            != codes[j] by {
            if codes[i] == codes[j] {
                lemma_state_code_injective(vs[i], vs[j]);
            }
        }
    }
    let b = pow(TUBE_STATES as int, n as nat);
    vstd::arithmetic::power::lemma_pow_positive(TUBE_STATES as int, n as nat);
    assert forall|i: int| 0 <= i < codes.len() implies 0 <= #[trigger] codes[i] < b by {
        lemma_state_code_range(vs[i]);
    }
    lemma_distinct_ints_bounded(codes, 0, b);
}

/// A move list over `n` containers that ascends strictly in (from, to)
/// order holds at most `n * n` moves.
pub proof fn lemma_sorted_moves_bounded(ms: Seq<Move>, n: int)
    requires
        n >= 0,
        forall|i: int| 0 <= i < ms.len() ==> (#[trigger] ms[i]).from < n && ms[i].to < n,
        forall|i: int, j: int| 0 <= i < j < ms.len() ==> lex_before(
            #[trigger] ms[i],
            #[trigger] ms[j].from as int,
            ms[j].to as int,
        ),
    ensures
        ms.len() <= n * n,
{
    let keys = Seq::new(ms.len(), |i: int| (ms[i].from as int) * n + (ms[i].to as int));
    assert forall|i: int| 0 <= i < keys.len() implies 0 <= #[trigger] keys[i] < n * n by {
        let f = ms[i].from as int;
        let t = ms[i].to as int;
        assert(0 <= f * n) by (nonlinear_arith)
            requires
                f >= 0,
                n >= 0,
        ;
        assert(f * n + t < n * n) by (nonlinear_arith)
            requires
                0 <= f < n,
                0 <= t < n,
        ;
    }
    assert(keys.no_duplicates()) by {
        assert forall|i: int, j: int|
            0 <= i < keys.len() && 0 <= j < keys.len() && i != j implies keys[i] != keys[j] by {
            let (lo, hi) = if i < j {
                (i, j)
            } else {
                (j, i)
            };
            assert(lex_before(ms[lo], ms[hi].from as int, ms[hi].to as int));
            lemma_lex_key_increases(ms[lo], ms[hi], n);
        }
    }
    lemma_distinct_ints_bounded(keys, 0, n * n);
}

/// The (from, to) order agrees with the flattened key `from * n + to`.
proof fn lemma_lex_key_increases(a: Move, b: Move, n: int)
    requires
        a.to < n,
        b.to < n,
        lex_before(a, b.from as int, b.to as int),
    ensures
        (a.from as int) * n + (a.to as int) < (b.from as int) * n + (b.to as int),
{
    let af = a.from as int;
    let bf = b.from as int;
    if af < bf {
        assert(af * n + n <= bf * n) by (nonlinear_arith)
            requires
                af < bf,
                n >= 0,
        ;
    }
}

} // verus!
