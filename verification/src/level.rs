use vstd::prelude::*;
use crate::color::Color;
use crate::container::{Container, CAPACITY, count_color, tube_wf};
use crate::game::{Game, game_wf, total_count};
use crate::laws::{lemma_count_push, lemma_total_count_update};

verus! {

/// The views of a row of containers, in order.
spec fn tubes_view(tubes: Seq<Container>) -> Seq<Seq<Color>> {
    Seq::new(tubes.len(), |i: int| tubes[i]@)
}

/// A container holding exactly the four given units, bottom to top.
fn tube4(a: Color, b: Color, c: Color, d: Color) -> (r: Container)
    ensures
        r@ == seq![a, b, c, d],
{
    let mut t = Container::new();
    t.push(a);
    t.push(b);
    t.push(c);
    t.push(d);
    proof {
        assert(t@ =~= seq![a, b, c, d]);
    }
    t
}

/// The built-in fixed puzzle layout: twelve mixed containers and two
/// empty ones.
pub fn init_fixed() -> (r: Game)
    ensures
        r@.len() == 14,
        game_wf(r@),
        r@[0] == seq![Color::Yellow, Color::Red, Color::Red, Color::Red],
        r@[1] == seq![Color::DarkBlue, Color::Yellow, Color::LightGreen, Color::LightGreen],
        r@[2] == seq![Color::Violet, Color::Pink, Color::Pink, Color::Pink],
        r@[3] == seq![Color::Green, Color::Orange, Color::Magenta, Color::Yellow],
        r@[4] == seq![Color::Brown, Color::LightGreen, Color::LightGreen, Color::DarkBlue],
        r@[5] == seq![Color::Yellow, Color::Red, Color::Magenta, Color::Brown],
        r@[6] == seq![Color::Blue, Color::Green, Color::Green, Color::Green],
        r@[7] == seq![Color::DarkBlue, Color::Violet, Color::Violet, Color::Violet],
        r@[8] == seq![Color::Brown, Color::Orange, Color::Orange, Color::Orange],
        r@[9] == seq![Color::Cyan, Color::DarkBlue, Color::Magenta, Color::Magenta],
        r@[10] == seq![Color::DarkBlue, Color::Pink, Color::Blue, Color::Blue],
        r@[11] == seq![Color::Brown, Color::Cyan, Color::Cyan, Color::Cyan],
        r@[12].len() == 0,
        r@[13].len() == 0,
{
    let mut tubes: Vec<Container> = Vec::new();
    tubes.push(tube4(Color::Yellow, Color::Red, Color::Red, Color::Red));
    tubes.push(tube4(Color::DarkBlue, Color::Yellow, Color::LightGreen, Color::LightGreen));
    tubes.push(tube4(Color::Violet, Color::Pink, Color::Pink, Color::Pink));
    tubes.push(tube4(Color::Green, Color::Orange, Color::Magenta, Color::Yellow));
    tubes.push(tube4(Color::Brown, Color::LightGreen, Color::LightGreen, Color::DarkBlue));
    tubes.push(tube4(Color::Yellow, Color::Red, Color::Magenta, Color::Brown));
    tubes.push(tube4(Color::Blue, Color::Green, Color::Green, Color::Green));
    tubes.push(tube4(Color::DarkBlue, Color::Violet, Color::Violet, Color::Violet));
    tubes.push(tube4(Color::Brown, Color::Orange, Color::Orange, Color::Orange));
    tubes.push(tube4(Color::Cyan, Color::DarkBlue, Color::Magenta, Color::Magenta));
    tubes.push(tube4(Color::DarkBlue, Color::Pink, Color::Blue, Color::Blue));
    tubes.push(tube4(Color::Brown, Color::Cyan, Color::Cyan, Color::Cyan));
    tubes.push(Container::new());
    tubes.push(Container::new());
    let ghost tv = tubes@;
    let g = Game::new(tubes);
    proof {
        assert(g@.len() == 14);
        assert(g@[0] == tv[0]@);
        assert(g@[1] == tv[1]@);
        assert(g@[2] == tv[2]@);
        assert(g@[3] == tv[3]@);
        assert(g@[4] == tv[4]@);
        assert(g@[5] == tv[5]@);
        assert(g@[6] == tv[6]@);
        assert(g@[7] == tv[7]@);
        assert(g@[8] == tv[8]@);
        assert(g@[9] == tv[9]@);
        assert(g@[10] == tv[10]@);
        assert(g@[11] == tv[11]@);
        assert(g@[12] == tv[12]@);
        assert(g@[13] == tv[13]@);
        assert forall|m: int| 0 <= m < g@.len() implies tube_wf(#[trigger] g@[m]) by {
            assert(g@[m] == tv[m]@);
        }
    }
    g
}

/// Relies on rand::rng and rand::seq::SliceRandom::shuffle: shuffle picks
/// a uniformly random in-place permutation of the slice, so the length and
/// the count of every color are unchanged, whatever permutation came out.
#[verifier::external_body]
fn shuffle_colors(v: &mut Vec<Color>)
    ensures
        final(v)@.len() == old(v)@.len(),
        forall|c: Color| #[trigger] count_color(final(v)@, c) == count_color(old(v)@, c),
{
    let mut r = rand::rng();
    rand::seq::SliceRandom::shuffle(v.as_mut_slice(), &mut r);
}

/// A randomly shuffled level: enough units to fill one container per
/// palette entry, plus `empty` empty containers. The shuffled units are
/// dealt into the leading containers in order, so the first
/// `palette.len()` containers come out full, the rest empty, and every
/// color occurs exactly `CAPACITY` times per occurrence in the palette.
pub fn generate_level(palette: &Vec<Color>, empty: usize) -> (r: Game)
    ensures
        r@.len() == palette@.len() + empty,
        game_wf(r@),
        forall|k: int| 0 <= k < palette@.len() ==> (#[trigger] r@[k]).len() == CAPACITY,
        forall|k: int| palette@.len() <= k < r@.len() ==> (#[trigger] r@[k]).len() == 0,
        forall|c: Color| #[trigger] total_count(r@, c) == CAPACITY * count_color(palette@, c),
{
    let filled = palette.len();

    // One run of CAPACITY units per palette entry.
    let mut all_colors: Vec<Color> = Vec::new();
    let mut i: usize = 0;
    while i < filled
        invariant
            filled == palette@.len(),
            i <= filled,
            all_colors@.len() == i * CAPACITY,
            forall|c: Color| #[trigger] count_color(all_colors@, c) == CAPACITY * count_color(
                palette@.take(i as int),
                c,
            ),
        decreases filled - i,
    {
        let col = palette[i];
        let mut q: usize = 0;
        while q < CAPACITY
            invariant
                filled == palette@.len(),
                i < filled,
                col == palette@[i as int],
                q <= CAPACITY,
                all_colors@.len() == i * CAPACITY + q,
                forall|c: Color| #[trigger] count_color(all_colors@, c) == CAPACITY * count_color(
                    palette@.take(i as int),
                    c,
                ) + (q as nat) * (if col == c {
                    1nat
                } else {
                    0nat
                }),
            decreases CAPACITY - q,
        {
            let ghost prev = all_colors@;
            all_colors.push(col);
            proof {
                assert forall|c: Color| #[trigger] count_color(all_colors@, c) == CAPACITY
                    * count_color(palette@.take(i as int), c) + ((q + 1) as nat) * (if col == c {
                    1nat
                } else {
                    0nat
                }) by {
                    lemma_count_push(prev, col, c);
                }
            }
            q += 1;
        }
        proof {
            assert(palette@.take(i as int + 1) =~= palette@.take(i as int).push(col));
            assert forall|c: Color| #[trigger] count_color(all_colors@, c) == CAPACITY
                * count_color(palette@.take(i as int + 1), c) by {
                lemma_count_push(palette@.take(i as int), col, c);
            }
        }
        i += 1;
    }
    proof {
        assert(palette@.take(palette@.len() as int) =~= palette@);
    }

    // A uniformly random order for the units.
    shuffle_colors(&mut all_colors);

    // Empty containers to deal into.
    let mut tubes: Vec<Container> = Vec::new();
    let mut k: usize = 0;
    while k < filled
        invariant
            k <= filled,
            tubes@.len() == k,
            forall|m: int| 0 <= m < k ==> (#[trigger] tubes@[m])@.len() == 0,
        decreases filled - k,
    {
        tubes.push(Container::new());
        k += 1;
    }
    let mut k2: usize = 0;
    while k2 < empty
        invariant
            k2 <= empty,
            tubes@.len() == filled + k2,
            forall|m: int| 0 <= m < tubes@.len() ==> (#[trigger] tubes@[m])@.len() == 0,
        decreases empty - k2,
    {
        tubes.push(Container::new());
        k2 += 1;
    }

    // Deal the units into the leading containers in order.
    let mut j: usize = 0;
    let mut idx: usize = 0;
    proof {
        assert(all_colors@.take(0) =~= Seq::<Color>::empty());
        assert forall|c: Color| total_count(tubes_view(tubes@), c) == count_color(
            all_colors@.take(idx as int),
            c,
        ) by {
            lemma_total_count_empty_tubes(tubes@, c);
        }
    }
    while idx < all_colors.len()
        invariant
            filled == palette@.len(),
            all_colors@.len() == filled * CAPACITY,
            tubes@.len() == filled + empty,
            idx <= all_colors@.len(),
            j <= filled,
            (j as int) * CAPACITY <= idx,
            idx <= (j as int) * CAPACITY + CAPACITY,
            forall|m: int| 0 <= m < j ==> (#[trigger] tubes@[m])@.len() == CAPACITY,
            forall|m: int| j < m < tubes@.len() ==> (#[trigger] tubes@[m])@.len() == 0,
            j < tubes@.len() ==> tubes@[j as int]@.len() == idx - (j as int) * CAPACITY,
            j == tubes@.len() ==> idx == (j as int) * CAPACITY,
            forall|c: Color| total_count(tubes_view(tubes@), c) == count_color(
                #[trigger] all_colors@.take(idx as int),
                c,
            ),
        decreases all_colors@.len() - idx,
    {
        proof {
            assert(j < filled);
        }
        while tubes[j].is_full()
            invariant
                filled == palette@.len(),
                all_colors@.len() == filled * CAPACITY,
                tubes@.len() == filled + empty,
                idx < all_colors@.len(),
                j < filled,
                (j as int) * CAPACITY <= idx,
                idx <= (j as int) * CAPACITY + CAPACITY,
                forall|m: int| 0 <= m < j ==> (#[trigger] tubes@[m])@.len() == CAPACITY,
                forall|m: int| j < m < tubes@.len() ==> (#[trigger] tubes@[m])@.len() == 0,
                tubes@[j as int]@.len() == idx - (j as int) * CAPACITY,
            decreases tubes@.len() - j,
        {
            j += 1;
            proof {
                assert(j < filled);
            }
        }
        let col = all_colors[idx];
        let ghost prev_tubes = tubes@;
        let ghost prev_tube = tubes@[j as int]@;
        tubes[j].push(col);
        proof {
            assert(tubes@ =~= prev_tubes.update(j as int, tubes@[j as int]));
            assert(tubes@[j as int]@ == prev_tube.push(col));
            assert(tubes_view(tubes@) =~~= tubes_view(prev_tubes).update(
                j as int,
                prev_tube.push(col),
            ));
            assert(all_colors@.take(idx as int + 1) =~= all_colors@.take(idx as int).push(col));
            assert forall|c: Color| total_count(tubes_view(tubes@), c) == count_color(
                #[trigger] all_colors@.take(idx as int + 1),
                c,
            ) by {
                lemma_total_count_update(tubes_view(prev_tubes), j as int, prev_tube.push(col), c);
                lemma_count_push(prev_tube, col, c);
                lemma_count_push(all_colors@.take(idx as int), col, c);
            }
        }
        idx += 1;
    }
    let ghost tv = tubes@;
    let g = Game::new(tubes);
    proof {
        assert(g@ =~~= tubes_view(tv));
        assert(all_colors@.take(all_colors@.len() as int) =~= all_colors@);
        assert forall|m: int| 0 <= m < filled implies (#[trigger] g@[m]).len() == CAPACITY by {
            assert(g@[m] == tv[m]@);
            if m == j {
                assert(tv[m]@.len() == idx - (j as int) * CAPACITY);
            }
        }
        assert forall|m: int| filled <= m < g@.len() implies (#[trigger] g@[m]).len() == 0 by {
            assert(g@[m] == tv[m]@);
        }
        assert forall|m: int| 0 <= m < g@.len() implies tube_wf(#[trigger] g@[m]) by {
            if m < filled {
                assert(g@[m].len() == CAPACITY);
            } else {
                assert(g@[m].len() == 0);
            }
        }
    }
    g
}

/// A row of empty containers holds no units of any color.
proof fn lemma_total_count_empty_tubes(tubes: Seq<Container>, c: Color)
    requires
        forall|m: int| 0 <= m < tubes.len() ==> (#[trigger] tubes[m])@.len() == 0,
    ensures
        total_count(tubes_view(tubes), c) == 0,
    decreases tubes.len(),
{
    let tv = tubes_view(tubes);
    if tubes.len() == 0 {
        assert(tv.len() == 0);
    } else {
        assert(tv.drop_last() =~= tubes_view(tubes.drop_last()));
        assert(tv.last().len() == 0);
        assert(count_color(tv.last(), c) == 0);
        lemma_total_count_empty_tubes(tubes.drop_last(), c);
    }
}

} // verus!
