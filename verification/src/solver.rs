use vstd::prelude::*;
use vstd::arithmetic::power::pow;
use crate::color::Color;
use crate::game::{Game, Move, game_wf, spec_solved, spec_pour, spec_move_legal};
use crate::bounds::{TUBE_STATES, lemma_distinct_states_bounded, lemma_sorted_moves_bounded};

verus! {

/// Every move in `p` points inside a game of `n` containers.
pub open spec fn path_in_range(p: Seq<Move>, n: int) -> bool {
    forall|i: int| 0 <= i < p.len() ==> (#[trigger] p[i]).from < n && p[i].to < n
}

/// Every move of `p` is legal, under the enumeration rules, at the
/// configuration it is applied to when `p` is replayed from `g`.
pub open spec fn path_legal(g: Seq<Seq<Color>>, p: Seq<Move>) -> bool {
    forall|i: int| 0 <= i < p.len() ==> spec_move_legal(
        spec_apply_moves(g, #[trigger] p.take(i)),
        p[i].from as int,
        p[i].to as int,
    )
}

/// Some sequence of legal moves leads `g` to a solved configuration.
pub open spec fn solvable(g: Seq<Seq<Color>>) -> bool {
    exists|p: Seq<Move>| path_legal(g, p) && spec_solved(spec_apply_moves(g, p))
}

/// Extending a legal path with a move that is legal at the path's end
/// keeps the whole path legal.
pub proof fn lemma_path_legal_snoc(g: Seq<Seq<Color>>, p: Seq<Move>, m: Move)
    requires
        path_legal(g, p),
        spec_move_legal(spec_apply_moves(g, p), m.from as int, m.to as int),
    ensures
        path_legal(g, p.push(m)),
{
    let q = p.push(m);
    assert forall|i: int| 0 <= i < q.len() implies spec_move_legal(
        spec_apply_moves(g, #[trigger] q.take(i)),
        q[i].from as int,
        q[i].to as int,
    ) by {
        if i < p.len() {
            assert(q.take(i) =~= p.take(i));
            assert(q[i] == p[i]);
        } else {
            assert(q.take(i) =~= p);
            assert(q[i] == m);
        }
    }
}

/// The configuration reached by applying the moves of `p` in order to `g`.
pub open spec fn spec_apply_moves(g: Seq<Seq<Color>>, p: Seq<Move>) -> Seq<Seq<Color>>
    decreases p.len(),
{
    if p.len() == 0 {
        g
    } else {
        spec_apply_moves(spec_pour(g, p[0].from as int, p[0].to as int), p.drop_first())
    }
}

/// Appending one move to a path pours it after the rest of the path.
pub proof fn lemma_apply_moves_snoc(g: Seq<Seq<Color>>, p: Seq<Move>, m: Move)
    ensures
        spec_apply_moves(g, p.push(m))
            == spec_pour(spec_apply_moves(g, p), m.from as int, m.to as int),
    decreases p.len(),
{
    let q = p.push(m);
    if p.len() == 0 {
        assert(q[0] == m);
        assert(q.drop_first() =~= Seq::<Move>::empty());
        let g1 = spec_pour(g, m.from as int, m.to as int);
        assert(spec_apply_moves(g, q) == spec_apply_moves(g1, q.drop_first()));
        assert(spec_apply_moves(g1, q.drop_first()) == g1);
        assert(spec_apply_moves(g, p) == g);
    } else {
        assert(q[0] == p[0]);
        assert(q.drop_first() =~= p.drop_first().push(m));
        let g1 = spec_pour(g, p[0].from as int, p[0].to as int);
        assert(spec_apply_moves(g, q) == spec_apply_moves(g1, q.drop_first()));
        lemma_apply_moves_snoc(g1, p.drop_first(), m);
        assert(spec_apply_moves(g, p) == spec_apply_moves(g1, p.drop_first()));
    }
}

/// The outcome of one solver run: a replayable move sequence, an exhausted
/// search space, or an exhausted work budget.
pub enum SolveRes {
    Timeout,
    NoSolution,
    Found(Vec<Move>),
}

/// A frontier entry: a reached configuration, the path that reached it,
/// and either a chosen move to evaluate or `None`, meaning the entry still
/// awaits expansion of its legal moves.
struct Entry {
    state: Game,
    path: Vec<Move>,
    chosen: Option<Move>,
}

/// How many frontier entries still await expansion of their legal moves.
spec fn frontier_pending(fr: Seq<Entry>) -> int
    decreases fr.len(),
{
    if fr.len() == 0 {
        0
    } else {
        frontier_pending(fr.drop_last()) + if fr.last().chosen is None {
            1int
        } else {
            0int
        }
    }
}

/// How many frontier entries carry a chosen move to evaluate.
spec fn frontier_chosen(fr: Seq<Entry>) -> int
    decreases fr.len(),
{
    if fr.len() == 0 {
        0
    } else {
        frontier_chosen(fr.drop_last()) + if fr.last().chosen is Some {
            1int
        } else {
            0int
        }
    }
}

proof fn lemma_frontier_counts_nonneg(fr: Seq<Entry>)
    ensures
        frontier_pending(fr) >= 0,
        frontier_chosen(fr) >= 0,
    decreases fr.len(),
{
    if fr.len() > 0 {
        lemma_frontier_counts_nonneg(fr.drop_last());
    }
}

proof fn lemma_frontier_counts_push(fr: Seq<Entry>, e: Entry)
    ensures
        frontier_pending(fr.push(e)) == frontier_pending(fr) + (if e.chosen is None {
            1int
        } else {
            0int
        }),
        frontier_chosen(fr.push(e)) == frontier_chosen(fr) + (if e.chosen is Some {
            1int
        } else {
            0int
        }),
{
    assert(fr.push(e).drop_last() =~= fr);
    assert(fr.push(e).last() == e);
}

/// The work measure of a fresh search of `g`: every unit of solver work
/// lowers the measure, so no search of `g` ever spends more than this.
pub open spec fn search_work_bound(g: Seq<Seq<Color>>) -> int {
    let n = g.len() as int;
    (pow(TUBE_STATES as int, g.len()) - 1) * (n * n + 2) + (n * n + 1)
}

/// A depth-first state-space search over the configurations reachable from
/// one initial game, with visited-state deduplication. Each frontier entry
/// carries the move path that produced it, so any solving entry yields a
/// sequence that replays from the initial game.
pub struct Solver {
    initial: Game,
    frontier: Vec<Entry>,
    visited: Vec<Game>,
}

impl Solver {
    spec fn entry_ok(init: Seq<Seq<Color>>, e: Entry) -> bool {
        &&& game_wf(e.state@)
        &&& e.state@.len() == init.len()
        &&& path_in_range(e.path@, init.len() as int)
        &&& path_legal(init, e.path@)
        &&& spec_apply_moves(init, e.path@) == e.state@
        &&& match e.chosen {
            Option::Some(m) => spec_move_legal(e.state@, m.from as int, m.to as int),
            Option::None => true,
        }
    }

    /// The solver is consistent: its initial game is well formed, every
    /// frontier entry is a configuration its own legal path replays to,
    /// and the visited list holds pairwise distinct well-formed
    /// configurations of the initial game's size.
    pub closed spec fn wf(&self) -> bool {
        &&& game_wf(self.initial@)
        &&& forall|i: int| 0 <= i < self.frontier@.len()
            ==> Self::entry_ok(self.initial@, #[trigger] self.frontier@[i])
        &&& forall|i: int| 0 <= i < self.visited@.len() ==> game_wf(
            (#[trigger] self.visited@[i])@,
        ) && self.visited@[i]@.len() == self.initial@.len()
        &&& forall|i: int, j: int| 0 <= i < j < self.visited@.len()
            ==> (#[trigger] self.visited@[i])@ != (#[trigger] self.visited@[j])@
    }

    /// The initial configuration this solver searches from.
    pub closed spec fn init_view(&self) -> Seq<Seq<Color>> {
        self.initial@
    }

    /// The frontier is empty: every reachable entry was taken and nothing
    /// is left to explore.
    pub closed spec fn exhausted(&self) -> bool {
        self.frontier@.len() == 0
    }

    /// The work that remains: unclaimed configurations weigh most, entries
    /// awaiting expansion next, single chosen-move evaluations least, so
    /// every unit of search work lowers the measure by at least one.
    pub closed spec fn measure(&self) -> int {
        let n = self.initial@.len() as int;
        (pow(TUBE_STATES as int, self.initial@.len()) - self.visited@.len()) * (n * n + 2)
            + frontier_pending(self.frontier@) * (n * n + 1) + frontier_chosen(self.frontier@)
    }

    /// A consistent solver's remaining work is never negative: the visited
    /// configurations are pairwise distinct, so they never outnumber the
    /// codes available to them.
    proof fn lemma_measure_nonneg(&self)
        requires
            self.wf(),
        ensures
            self.measure() >= 0,
    {
        let n = self.initial@.len() as int;
        let views = Seq::new(self.visited@.len(), |i: int| self.visited@[i]@);
        assert forall|i: int| 0 <= i < views.len() implies (#[trigger] views[i]).len() == n
            && game_wf(views[i]) by {
            assert(views[i] == self.visited@[i]@);
        }
        assert forall|i: int, j: int| 0 <= i < j < views.len() implies views[i] != views[j] by {
            assert(views[i] == self.visited@[i]@ && views[j] == self.visited@[j]@);
        }
        lemma_distinct_states_bounded(views, n);
        vstd::arithmetic::power::lemma_pow_positive(TUBE_STATES as int, self.initial@.len());
        lemma_frontier_counts_nonneg(self.frontier@);
        let u = pow(TUBE_STATES as int, self.initial@.len());
        let v = self.visited@.len() as int;
        assert(v <= u);
        assert(n * n >= 0) by (nonlinear_arith);
        assert((u - v) * (n * n + 2) >= 0) by (nonlinear_arith)
            requires
                u - v >= 0,
                n * n >= 0,
        ;
        assert(frontier_pending(self.frontier@) * (n * n + 1) >= 0) by (nonlinear_arith)
            requires
                frontier_pending(self.frontier@) >= 0,
                n * n >= 0,
        ;
    }

    /// A fresh search seeded with the initial configuration.
    pub fn new(initial: &Game) -> (r: Solver)
        requires
            game_wf(initial@),
        ensures
            r.wf(),
            r.init_view() == initial@,
            !r.exhausted(),
            r.measure() == search_work_bound(initial@),
    {
        let seed = Entry { state: initial.duplicate(), path: Vec::new(), chosen: None };
        let mut frontier: Vec<Entry> = Vec::new();
        frontier.push(seed);
        let mut visited: Vec<Game> = Vec::new();
        visited.push(initial.duplicate());
        let s = Solver { initial: initial.duplicate(), frontier, visited };
        proof {
            let fr = s.frontier@;
            assert(fr.len() == 1);
            assert(fr.drop_last() =~= Seq::<Entry>::empty());
            assert(frontier_pending(Seq::<Entry>::empty()) == 0);
            assert(frontier_chosen(Seq::<Entry>::empty()) == 0);
            assert(fr.last().chosen is None);
            assert(frontier_pending(fr) == 1);
            assert(frontier_chosen(fr) == 0);
            assert(s.visited@.len() == 1);
            let n = s.initial@.len() as int;
            assert(s.measure() == (pow(TUBE_STATES as int, s.initial@.len()) - 1) * (n * n + 2)
                + (n * n + 1));
        }
        s
    }

    /// Run one unit of search work: pop a frontier entry, and either expand
    /// its legal moves or evaluate its chosen move. `Some` carries a final
    /// outcome; `None` asks the caller to keep stepping and lowers the
    /// work measure. Any `Found` path is legal throughout and replays from
    /// the initial configuration to a solved game; exhaustion is reported
    /// exactly when the frontier is empty; an exhausted work budget is
    /// never reported from here.
    pub fn step(&mut self) -> (r: Option<SolveRes>)
        requires
            old(self).wf(),
        ensures
            final(self).wf(),
            final(self).init_view() == old(self).init_view(),
            old(self).exhausted() ==> r == Some(SolveRes::NoSolution),
            (r matches Some(res) && res is NoSolution) ==> old(self).exhausted()
                && final(self).exhausted(),
            r is None ==> final(self).measure() < old(self).measure(),
            match r {
                Option::Some(res) => match res {
                    SolveRes::Found(p) => path_in_range(
                        p@,
                        old(self).init_view().len() as int,
                    ) && path_legal(old(self).init_view(), p@)
                        && spec_solved(spec_apply_moves(old(self).init_view(), p@)),
                    SolveRes::NoSolution => true,
                    SolveRes::Timeout => false,
                },
                Option::None => true,
            },
    {
        let ghost fr0 = self.frontier@;
        let popped = self.frontier.pop();
        let entry = match popped {
            None => {
                return Some(SolveRes::NoSolution);
            }
            Some(e) => e,
        };
        proof {
            assert(self.frontier@ =~= fr0.drop_last());
            assert(entry == fr0.last());
            assert(Self::entry_ok(self.initial@, entry));
            assert(frontier_pending(fr0) == frontier_pending(fr0.drop_last()) + (
            if fr0.last().chosen is None {
                1int
            } else {
                0int
            }));
            assert(frontier_chosen(fr0) == frontier_chosen(fr0.drop_last()) + (
            if fr0.last().chosen is Some {
                1int
            } else {
                0int
            }));
        }
        match entry.chosen {
            None => {
                if entry.state.is_solved() {
                    return Some(SolveRes::Found(entry.path));
                }
                let moves = entry.state.valid_moves();
                proof {
                    let n = self.init_view().len() as int;
                    assert forall|i: int| 0 <= i < moves@.len() implies (#[trigger] moves@[i]).from
                        < n && moves@[i].to < n by {
                        assert(spec_move_legal(
                            entry.state@,
                            moves@[i].from as int,
                            moves@[i].to as int,
                        ));
                    }
                    lemma_sorted_moves_bounded(moves@, n);
                }
                let mut k: usize = 0;
                while k < moves.len()
                    invariant
                        k <= moves@.len(),
                        self.wf(),
                        self.init_view() == old(self).init_view(),
                        Self::entry_ok(self.init_view(), entry),
                        forall|i: int| 0 <= i < moves@.len() ==> spec_move_legal(
                            entry.state@,
                            #[trigger] moves@[i].from as int,
                            moves@[i].to as int,
                        ),
                        moves@.len() <= (self.init_view().len() as int) * (
                        self.init_view().len() as int),
                        self.visited@ == old(self).visited@,
                        frontier_pending(self.frontier@) == frontier_pending(old(self).frontier@)
                            - 1,
                        frontier_chosen(self.frontier@) == frontier_chosen(old(self).frontier@)
                            + k,
                    decreases moves@.len() - k,
                {
                    let m = moves[k];
                    let child = Entry {
                        state: entry.state.duplicate(),
                        path: duplicate_path(&entry.path),
                        chosen: Some(m),
                    };
                    proof {
                        assert(spec_move_legal(entry.state@, m.from as int, m.to as int));
                        assert(Self::entry_ok(self.init_view(), child));
                    }
                    let ghost fr_prev = self.frontier@;
                    let ghost child_ghost = child;
                    self.frontier.push(child);
                    proof {
                        lemma_frontier_counts_push(fr_prev, child_ghost);
                    }
                    k += 1;
                }
                proof {
                    let n = self.init_view().len() as int;
                    let w2 = n * n + 1;
                    let p0 = frontier_pending(old(self).frontier@);
                    assert((p0 - 1) * w2 == p0 * w2 - w2) by (nonlinear_arith);
                    assert(self.measure() < old(self).measure());
                }
                None
            }
            Some(m) => {
                let mut child = entry.state.duplicate();
                child.apply(&m);
                let mut newpath = duplicate_path(&entry.path);
                newpath.push(m);
                proof {
                    lemma_apply_moves_snoc(self.initial@, entry.path@, m);
                    lemma_path_legal_snoc(self.initial@, entry.path@, m);
                    assert(spec_apply_moves(self.initial@, newpath@) == child@);
                    assert(path_in_range(newpath@, self.initial@.len() as int));
                }
                if child.is_solved() {
                    return Some(SolveRes::Found(newpath));
                }
                if !contains_state(&self.visited, &child) {
                    let ghost vis0 = self.visited@;
                    let ghost childv = child@;
                    self.visited.push(child.duplicate());
                    let e2 = Entry { state: child, path: newpath, chosen: None };
                    proof {
                        assert(Self::entry_ok(self.init_view(), e2));
                    }
                    let ghost fr1 = self.frontier@;
                    let ghost e2_ghost = e2;
                    self.frontier.push(e2);
                    proof {
                        lemma_frontier_counts_push(fr1, e2_ghost);
                        assert forall|i: int, j: int|
                            0 <= i < j < self.visited@.len() implies (
                        #[trigger] self.visited@[i])@ != (#[trigger] self.visited@[j])@ by {
                            if j == vis0.len() {
                                assert(self.visited@[j]@ == childv);
                                assert(self.visited@[i] == vis0[i]);
                                if vis0[i]@ == childv {
                                    assert(exists|q: int| 0 <= q < vis0.len()
                                        && (#[trigger] vis0[q])@ == childv);
                                    assert(false);
                                }
                            }
                        }
                        let n = self.init_view().len() as int;
                        let w1 = n * n + 2;
                        let w2 = n * n + 1;
                        let u = pow(TUBE_STATES as int, self.init_view().len());
                        let v = vis0.len() as int;
                        let p0 = frontier_pending(fr0);
                        assert((u - (v + 1)) * w1 == (u - v) * w1 - w1) by (nonlinear_arith);
                        assert((p0 + 1) * w2 == p0 * w2 + w2) by (nonlinear_arith);
                        assert(self.measure() < old(self).measure());
                    }
                } else {
                    proof {
                        assert(self.measure() < old(self).measure());
                    }
                }
                None
            }
        }
    }

    /// Step the search until an outcome arrives or `max_steps` units of
    /// work are spent. A `Found` path is legal throughout and replays from
    /// the initial configuration to a solved game; `NoSolution` comes only
    /// with the frontier exhausted; `Timeout` comes only when the budget
    /// was smaller than the work that remained.
    pub fn run(&mut self, max_steps: usize) -> (r: SolveRes)
        requires
            old(self).wf(),
        ensures
            final(self).wf(),
            final(self).init_view() == old(self).init_view(),
            match r {
                SolveRes::Found(p) => path_in_range(p@, old(self).init_view().len() as int)
                    && path_legal(old(self).init_view(), p@)
                    && spec_solved(spec_apply_moves(old(self).init_view(), p@)),
                SolveRes::NoSolution => final(self).exhausted(),
                SolveRes::Timeout => max_steps as int <= old(self).measure(),
            },
    {
        let mut steps: usize = 0;
        while steps < max_steps
            invariant
                steps <= max_steps,
                self.wf(),
                self.init_view() == old(self).init_view(),
                self.measure() + steps <= old(self).measure(),
            decreases max_steps - steps,
        {
            match self.step() {
                Some(res) => {
                    return res;
                }
                None => {},
            }
            steps += 1;
        }
        proof {
            self.lemma_measure_nonneg();
        }
        SolveRes::Timeout
    }
}

/// Search for a move sequence that solves `initial`, spending at most
/// `max_steps` units of work. An already-solved game yields `Found` with
/// the empty sequence at once; any `Found` path is legal throughout and
/// replays from `initial` to a solved game; `Timeout` comes only when the
/// budget was smaller than the search's total work bound — so on an
/// unsolvable game with an ample budget only `NoSolution` is left.
pub fn solve(initial: &Game, max_steps: usize) -> (r: SolveRes)
    requires
        game_wf(initial@),
    ensures
        spec_solved(initial@) ==> (r matches SolveRes::Found(p) && p@.len() == 0),
        r matches SolveRes::Found(p) ==> path_in_range(p@, initial@.len() as int)
            && path_legal(initial@, p@) && spec_solved(spec_apply_moves(initial@, p@)),
        r is Timeout ==> max_steps as int <= search_work_bound(initial@),
        !solvable(initial@) && max_steps as int > search_work_bound(initial@)
            ==> r is NoSolution,
{
    if initial.is_solved() {
        let empty: Vec<Move> = Vec::new();
        proof {
            assert(spec_apply_moves(initial@, empty@) == initial@);
            assert(path_legal(initial@, empty@));
            assert(solvable(initial@));
        }
        return SolveRes::Found(empty);
    }
    let mut solver = Solver::new(initial);
    let r = solver.run(max_steps);
    proof {
        match &r {
            SolveRes::Found(p) => {
                assert(path_legal(initial@, p@) && spec_solved(spec_apply_moves(initial@, p@)));
                assert(solvable(initial@));
            }
            _ => {},
        }
    }
    r
}

/// An identical copy of a move path.
fn duplicate_path(p: &Vec<Move>) -> (r: Vec<Move>)
    ensures
        r@ == p@,
{
    let mut r: Vec<Move> = Vec::new();
    let mut i: usize = 0;
    while i < p.len()
        invariant
            i <= p@.len(),
            r@ =~= p@.take(i as int),
        decreases p@.len() - i,
    {
        r.push(p[i]);
        i += 1;
    }
    proof {
        assert(r@ =~= p@);
    }
    r
}

/// True iff some game in `v` equals the configuration `g`.
fn contains_state(v: &Vec<Game>, g: &Game) -> (r: bool)
    ensures
        r == exists|i: int| 0 <= i < v@.len() && (#[trigger] v@[i])@ == g@,
{
    let mut i: usize = 0;
    while i < v.len()
        invariant
            i <= v@.len(),
            forall|j: int| 0 <= j < i ==> (#[trigger] v@[j])@ != g@,
        decreases v@.len() - i,
    {
        if v[i].same_state(g) {
            return true;
        }
        i += 1;
    }
    false
}

} // verus!
