use vstd::prelude::*;
use crate::color::Color;
use crate::container::{Container, CAPACITY, tube_wf, spec_uniform, spec_full, solved_shape,
    count_color};

verus! {

/// A candidate pour: source and destination container indices. A move is
/// not tied to one particular game; it is a reusable transition label.
#[derive(Clone, Copy, Debug, PartialEq, Eq, Structural)]
pub struct Move {
    pub from: usize,
    pub to: usize,
}

/// Every container of the game fits within the capacity.
pub open spec fn game_wf(g: Seq<Seq<Color>>) -> bool {
    forall|i: int| 0 <= i < g.len() ==> tube_wf(#[trigger] g[i])
}

/// The puzzle is solved when every container is empty or full of one color.
pub open spec fn spec_solved(g: Seq<Seq<Color>>) -> bool {
    forall|i: int| 0 <= i < g.len() ==> solved_shape(#[trigger] g[i])
}

/// The legality rules for a pour from `from` to `to`:
/// indices in range and distinct; the source is neither empty nor already
/// done (full of one color); the destination is not full; a single-color
/// source may not be shifted into an empty destination (the degenerate
/// shuffle guard); and the destination is empty or its top color matches
/// the source's top color.
pub open spec fn spec_move_legal(g: Seq<Seq<Color>>, from: int, to: int) -> bool {
    &&& 0 <= from < g.len()
    &&& 0 <= to < g.len()
    &&& from != to
    &&& g[from].len() > 0
    &&& !(spec_full(g[from]) && spec_uniform(g[from]))
    &&& !spec_full(g[to])
    &&& !(spec_uniform(g[from]) && g[to].len() == 0)
    &&& (g[to].len() == 0 || g[to].last() == g[from].last())
}

/// One more unit can flow from `from` to `to`: distinct tubes, destination
/// not full, source not empty, and the destination is empty or its top
/// matches the source's top.
pub open spec fn pour_can_step(g: Seq<Seq<Color>>, from: int, to: int) -> bool {
    &&& from != to
    &&& !spec_full(g[to])
    &&& g[from].len() > 0
    &&& (g[to].len() == 0 || g[to].last() == g[from].last())
}

/// The game after one unit moves from the top of `from` to the top of `to`.
pub open spec fn pour_step(g: Seq<Seq<Color>>, from: int, to: int) -> Seq<Seq<Color>> {
    g.update(from, g[from].drop_last()).update(to, g[to].push(g[from].last()))
}

/// The saturating pour: units flow one at a time from `from` to `to` until
/// the destination is full, the source is empty, or the colors mismatch.
/// Out-of-range indices or `from == to` leave the game unchanged.
pub open spec fn spec_pour(g: Seq<Seq<Color>>, from: int, to: int) -> Seq<Seq<Color>>
    decreases g[from].len(),
{
    if 0 <= from < g.len() && 0 <= to < g.len() && pour_can_step(g, from, to) {
        spec_pour(pour_step(g, from, to), from, to)
    } else {
        g
    }
}

/// How many units of color `c` the whole game holds, over all containers.
pub open spec fn total_count(g: Seq<Seq<Color>>, c: Color) -> nat
    decreases g.len(),
{
    if g.len() == 0 {
        0
    } else {
        total_count(g.drop_last(), c) + count_color(g.last(), c)
    }
}

/// `ms` holds a move from `f` to `t`.
pub open spec fn contains_move(ms: Seq<Move>, f: int, t: int) -> bool {
    exists|i: int| 0 <= i < ms.len() && ms[i].from == f && ms[i].to == t
}

/// Move `a` comes strictly before the pair `(f, t)` in ascending
/// (from, to) order.
pub open spec fn lex_before(a: Move, f: int, t: int) -> bool {
    a.from < f || (a.from == f && a.to < t)
}

/// One puzzle configuration: an ordered sequence of containers. A pure
/// value; two games with pairwise equal containers are the same state.
pub struct Game {
    tubes: Vec<Container>,
}

impl View for Game {
    type V = Seq<Seq<Color>>;

    closed spec fn view(&self) -> Seq<Seq<Color>> {
        Seq::new(self.tubes@.len(), |i: int| self.tubes@[i]@)
    }
}

impl Game {
    /// A game made of the given containers, in order.
    pub fn new(tubes: Vec<Container>) -> (r: Game)
        ensures
            r@.len() == tubes@.len(),
            forall|i: int| 0 <= i < tubes@.len() ==> r@[i] == #[trigger] tubes@[i]@,
    {
        Game { tubes }
    }

    /// The number of containers.
    pub fn num_tubes(&self) -> (n: usize)
        ensures
            n == self@.len(),
    {
        self.tubes.len()
    }

    /// A view of the container at index `i`.
    pub fn tube(&self, i: usize) -> (r: &Container)
        requires
            i < self@.len(),
        ensures
            r@ == self@[i as int],
    {
        &self.tubes[i]
    }

    /// True iff every container fits within the capacity.
    pub fn check_wf(&self) -> (r: bool)
        ensures
            r == game_wf(self@),
    {
        let mut i: usize = 0;
        while i < self.tubes.len()
            invariant
                i <= self.tubes.len(),
                forall|j: int| 0 <= j < i ==> tube_wf(#[trigger] self@[j]),
            decreases self.tubes.len() - i,
        {
            if self.tubes[i].len() > CAPACITY {
                proof {
                    assert(self@[i as int] == self.tubes@[i as int]@);
                    assert(!tube_wf(self@[i as int]));
                }
                return false;
            }
            i += 1;
        }
        true
    }

    /// True iff every container is empty or full of a single color.
    pub fn is_solved(&self) -> (r: bool)
        ensures
            r == spec_solved(self@),
    {
        let mut i: usize = 0;
        while i < self.tubes.len()
            invariant
                i <= self.tubes.len(),
                forall|j: int| 0 <= j < i ==> solved_shape(#[trigger] self@[j]),
            decreases self.tubes.len() - i,
        {
            if !(self.tubes[i].is_empty() || self.tubes[i].is_uniform_full()) {
                proof {
                    assert(self@[i as int] == self.tubes@[i as int]@);
                    assert(!solved_shape(self@[i as int]));
                }
                return false;
            }
            i += 1;
        }
        true
    }

    /// An identical copy of this game.
    pub fn duplicate(&self) -> (r: Game)
        ensures
            r@ == self@,
    {
        let mut tubes: Vec<Container> = Vec::new();
        let mut i: usize = 0;
        while i < self.tubes.len()
            invariant
                i <= self.tubes.len(),
                tubes@.len() == i,
                forall|j: int| 0 <= j < i ==> #[trigger] tubes@[j]@ == self@[j],
            decreases self.tubes.len() - i,
        {
            let t = self.tubes[i].duplicate();
            tubes.push(t);
            i += 1;
        }
        let r = Game { tubes };
        proof {
            assert(r@ =~= self@);
        }
        r
    }

    /// True iff the two games are the same configuration: the same number
    /// of containers with pairwise equal contents.
    pub fn same_state(&self, other: &Game) -> (r: bool)
        ensures
            r == (self@ == other@),
    {
        if self.tubes.len() != other.tubes.len() {
            proof {
                assert(self@.len() != other@.len());
            }
            return false;
        }
        let mut i: usize = 0;
        while i < self.tubes.len()
            invariant
                i <= self.tubes.len(),
                self.tubes.len() == other.tubes.len(),
                self@.len() == other@.len(),
                forall|j: int| 0 <= j < i ==> #[trigger] self@[j] == other@[j],
            decreases self.tubes.len() - i,
        {
            if !same_contents(&self.tubes[i], &other.tubes[i]) {
                proof {
                    assert(self@[i as int] != other@[i as int]);
                }
                return false;
            }
            i += 1;
        }
        proof {
            assert(self@ =~= other@);
        }
        true
    }

    /// All legal moves from this configuration, in ascending (from, to)
    /// index order: exactly the pairs that `spec_move_legal` admits.
    pub fn valid_moves(&self) -> (r: Vec<Move>)
        ensures
            forall|i: int| 0 <= i < r@.len()
                ==> spec_move_legal(self@, #[trigger] r@[i].from as int, r@[i].to as int),
            forall|f: int, t: int| #[trigger] spec_move_legal(self@, f, t)
                ==> contains_move(r@, f, t),
            forall|i: int, j: int| 0 <= i < j < r@.len()
                ==> lex_before(#[trigger] r@[i], #[trigger] r@[j].from as int, r@[j].to as int),
    {
        let n = self.tubes.len();
        let mut out: Vec<Move> = Vec::new();
        let mut from_i: usize = 0;
        while from_i < n
            invariant
                n == self@.len(),
                from_i <= n,
                forall|k: int| 0 <= k < out@.len()
                    ==> spec_move_legal(self@, #[trigger] out@[k].from as int, out@[k].to as int),
                forall|k: int| 0 <= k < out@.len() ==> (#[trigger] out@[k].from as int) < from_i,
                forall|k1: int, k2: int| 0 <= k1 < k2 < out@.len()
                    ==> lex_before(#[trigger] out@[k1], #[trigger] out@[k2].from as int,
                        out@[k2].to as int),
                forall|f: int, t: int| 0 <= f < from_i && #[trigger] spec_move_legal(self@, f, t)
                    ==> contains_move(out@, f, t),
            decreases n - from_i,
        {
            let src_empty = self.tubes[from_i].is_empty();
            let src_done = self.tubes[from_i].is_uniform_full();
            if !src_empty && !src_done {
                let src_uniform = self.tubes[from_i].all_one_color();
                let c = match self.tubes[from_i].top_color() {
                    Some(c) => c,
                    None => {
                        proof {
                            assert(false);
                        }
                        Color::Red
                    }
                };
                let mut to_i: usize = 0;
                while to_i < n
                    invariant
                        n == self@.len(),
                        from_i < n,
                        to_i <= n,
                        self@[from_i as int].len() > 0,
                        !(spec_full(self@[from_i as int]) && spec_uniform(self@[from_i as int])),
                        src_uniform == spec_uniform(self@[from_i as int]),
                        c == self@[from_i as int].last(),
                        forall|k: int| 0 <= k < out@.len()
                            ==> spec_move_legal(self@, #[trigger] out@[k].from as int,
                                out@[k].to as int),
                        forall|k: int| 0 <= k < out@.len()
                            ==> lex_before(#[trigger] out@[k], from_i as int, to_i as int),
                        forall|k1: int, k2: int| 0 <= k1 < k2 < out@.len()
                            ==> lex_before(#[trigger] out@[k1], #[trigger] out@[k2].from as int,
                                out@[k2].to as int),
                        forall|f: int, t: int|
                            (0 <= f < from_i || (f == from_i && 0 <= t < to_i))
                                && #[trigger] spec_move_legal(self@, f, t)
                            ==> contains_move(out@, f, t),
                    decreases n - to_i,
                {
                    let ghost prev_out = out@;
                    if to_i != from_i {
                        let dst_empty = self.tubes[to_i].is_empty();
                        let dst_full = self.tubes[to_i].is_full();
                        let degenerate = src_uniform && dst_empty;
                        if !dst_full && !degenerate {
                            let top_match = match self.tubes[to_i].top_color() {
                                None => true,
                                Some(tc) => tc == c,
                            };
                            if top_match {
                                out.push(Move { from: from_i, to: to_i });
                                proof {
                                    assert(spec_move_legal(self@, from_i as int, to_i as int));
                                }
                            }
                        }
                    }
                    proof {
                        assert forall|f: int, t: int|
                            (0 <= f < from_i || (f == from_i && 0 <= t < to_i + 1))
                                && #[trigger] spec_move_legal(self@, f, t)
                            implies contains_move(out@, f, t) by {
                            if f == from_i && t == to_i {
                                assert(out@.last().from == f && out@.last().to == t);
                                assert(contains_move(out@, f, t));
                            } else {
                                assert(contains_move(prev_out, f, t));
                                lemma_contains_extend(prev_out, out@, f, t);
                            }
                        }
                    }
                    to_i += 1;
                }
            } else {
                proof {
                    assert forall|t: int| !spec_move_legal(self@, from_i as int, t) by {
                        assert(src_empty || src_done);
                    }
                }
            }
            from_i += 1;
        }
        out
    }

    /// Apply the saturating pour for `mv` to this game. Degenerate moves
    /// (`from == to`, full destination, empty or mismatched source) leave
    /// the game unchanged; callers that must reject illegal moves check
    /// with `valid_moves` first.
    pub fn apply(&mut self, mv: &Move)
        requires
            mv.from < old(self)@.len(),
            mv.to < old(self)@.len(),
            game_wf(old(self)@),
        ensures
            final(self)@ == spec_pour(old(self)@, mv.from as int, mv.to as int),
            final(self)@.len() == old(self)@.len(),
            game_wf(final(self)@),
    {
        let ghost f = mv.from as int;
        let ghost t = mv.to as int;
        if mv.from == mv.to {
            proof {
                assert(spec_pour(self@, f, t) == self@);
            }
            return;
        }
        let mut done: bool = false;
        while !done
            invariant
                mv.from != mv.to,
                mv.from < self@.len(),
                mv.to < self@.len(),
                f == mv.from as int,
                t == mv.to as int,
                self@.len() == old(self)@.len(),
                game_wf(self@),
                spec_pour(self@, f, t) == spec_pour(old(self)@, f, t),
                done ==> !pour_can_step(self@, f, t),
            decreases self@[f].len(), (if done { 0int } else { 1int }),
        {
            let ghost prev = self@;
            let dst_full = self.tubes[mv.to].is_full();
            if dst_full {
                done = true;
            } else {
                match self.tubes[mv.from].top_color() {
                    None => {
                        done = true;
                    }
                    Some(fc) => {
                        let accepts = match self.tubes[mv.to].top_color() {
                            None => true,
                            Some(tc) => tc == fc,
                        };
                        if accepts {
                            self.tubes[mv.from].pop();
                            self.tubes[mv.to].push(fc);
                            proof {
                                assert(pour_can_step(prev, f, t));
                                assert(self@ =~~= pour_step(prev, f, t));
                                assert(spec_pour(prev, f, t) == spec_pour(self@, f, t));
                            }
                        } else {
                            done = true;
                        }
                    }
                }
            }
        }
        proof {
            assert(spec_pour(self@, f, t) == self@);
        }
    }
}

/// True iff the two containers hold the same units in the same order.
pub fn same_contents(a: &Container, b: &Container) -> (r: bool)
    ensures
        r == (a@ == b@),
{
    if a.len() != b.len() {
        return false;
    }
    let mut i: usize = 0;
    while i < a.len()
        invariant
            i <= a@.len(),
            a@.len() == b@.len(),
            forall|j: int| 0 <= j < i ==> #[trigger] a@[j] == b@[j],
        decreases a@.len() - i,
    {
        if a.unit_at(i) != b.unit_at(i) {
            return false;
        }
        i += 1;
    }
    proof {
        assert(a@ =~= b@);
    }
    true
}

/// A pair present in a prefix of a move list is present in the whole list.
proof fn lemma_contains_extend(pre: Seq<Move>, all: Seq<Move>, f: int, t: int)
    requires
        contains_move(pre, f, t),
        pre.len() <= all.len(),
        forall|i: int| 0 <= i < pre.len() ==> all[i] == pre[i],
    ensures
        contains_move(all, f, t),
{
    let i = choose|i: int| 0 <= i < pre.len() && pre[i].from == f && pre[i].to == t;
    assert(all[i].from == f && all[i].to == t);
}

} // verus!
