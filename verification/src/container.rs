use vstd::prelude::*;
use crate::color::Color;

verus! {

/// Every container holds at most this many units.
pub const CAPACITY: usize = 4;

/// True when a tube's contents fit within the capacity.
pub open spec fn tube_wf(s: Seq<Color>) -> bool {
    s.len() <= CAPACITY
}

/// True when a tube is non-empty and all its units share one color.
pub open spec fn spec_uniform(s: Seq<Color>) -> bool {
    s.len() > 0 && forall|i: int| 0 <= i < s.len() ==> #[trigger] s[i] == s[0]
}

/// True when a tube holds exactly `CAPACITY` units.
pub open spec fn spec_full(s: Seq<Color>) -> bool {
    s.len() == CAPACITY
}

/// A tube is in solved shape when it is empty, or full of one color.
pub open spec fn solved_shape(s: Seq<Color>) -> bool {
    s.len() == 0 || (spec_full(s) && spec_uniform(s))
}

/// How many units of color `c` a tube holds.
pub open spec fn count_color(s: Seq<Color>, c: Color) -> nat
    decreases s.len(),
{
    if s.len() == 0 {
        0
    } else {
        count_color(s.drop_last(), c) + if s.last() == c { 1nat } else { 0nat }
    }
}

/// An ordered stack of colored units, bottom to top, holding at most
/// `CAPACITY` units whenever it was built through this module's functions.
pub struct Container {
    items: Vec<Color>,
}

impl View for Container {
    type V = Seq<Color>;

    closed spec fn view(&self) -> Seq<Color> {
        self.items@
    }
}

impl Container {
    /// A new, empty container.
    pub fn new() -> (r: Container)
        ensures
            r@.len() == 0,
    {
        Container { items: Vec::new() }
    }

    /// A container holding exactly the given units, bottom to top.
    pub fn from_vec(items: Vec<Color>) -> (r: Container)
        requires
            items@.len() <= CAPACITY,
        ensures
            r@ == items@,
    {
        Container { items }
    }

    /// The number of units currently held.
    pub fn len(&self) -> (n: usize)
        ensures
            n == self@.len(),
    {
        self.items.len()
    }

    /// The unit at height `i` (0 is the bottom).
    pub fn unit_at(&self, i: usize) -> (c: Color)
        requires
            i < self@.len(),
        ensures
            c == self@[i as int],
    {
        self.items[i]
    }

    /// True iff the container holds no units.
    pub fn is_empty(&self) -> (r: bool)
        ensures
            r == (self@.len() == 0),
    {
        self.items.len() == 0
    }

    /// True iff the container is non-empty and every unit matches the bottom one.
    pub fn all_one_color(&self) -> (r: bool)
        ensures
            r == spec_uniform(self@),
    {
        if self.items.len() == 0 {
            return false;
        }
        let first = self.items[0];
        let mut i: usize = 1;
        while i < self.items.len()
            invariant
                1 <= i <= self.items.len(),
                self.items.len() > 0,
                first == self.items@[0],
                forall|j: int| 0 <= j < i ==> #[trigger] self.items@[j] == self.items@[0],
            decreases self.items.len() - i,
        {
            if self.items[i] != first {
                return false;
            }
            i += 1;
        }
        true
    }

    /// True iff the container is full and all one color.
    pub fn is_uniform_full(&self) -> (r: bool)
        ensures
            r == (spec_full(self@) && spec_uniform(self@)),
    {
        self.items.len() == CAPACITY && self.all_one_color()
    }

    /// True iff the container holds exactly `CAPACITY` units.
    pub fn is_full(&self) -> (r: bool)
        ensures
            r == spec_full(self@),
    {
        self.items.len() == CAPACITY
    }

    /// The color on top, or `None` for an empty container.
    pub fn top_color(&self) -> (r: Option<Color>)
        ensures
            r == if self@.len() == 0 {
                Option::<Color>::None
            } else {
                Option::Some(self@.last())
            },
    {
        if self.items.len() == 0 {
            None
        } else {
            Some(self.items[self.items.len() - 1])
        }
    }

    /// Append one unit on top. The caller must guarantee room.
    pub fn push(&mut self, col: Color)
        requires
            old(self)@.len() < CAPACITY,
        ensures
            final(self)@ == old(self)@.push(col),
    {
        self.items.push(col);
    }

    /// Remove and return the top unit, or `None` when empty.
    pub fn pop(&mut self) -> (r: Option<Color>)
        ensures
            old(self)@.len() == 0 ==> r is None && final(self)@ == old(self)@,
            old(self)@.len() > 0 ==> r == Option::Some(old(self)@.last())
                && final(self)@ == old(self)@.drop_last(),
    {
        self.items.pop()
    }

    /// An identical copy of this container.
    pub fn duplicate(&self) -> (r: Container)
        ensures
            r@ == self@,
    {
        let mut items: Vec<Color> = Vec::new();
        let mut i: usize = 0;
        while i < self.items.len()
            invariant
                i <= self.items.len(),
                items@ =~= self.items@.take(i as int),
            decreases self.items.len() - i,
        {
            items.push(self.items[i]);
            i += 1;
        }
        proof {
            assert(items@ =~= self.items@);
        }
        Container { items }
    }
}

} // verus!
