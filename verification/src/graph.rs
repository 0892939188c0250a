//! Which states of a graph can be reached from one another.

use vstd::prelude::*;
use vstd::set_lib::*;

verus! {

/// Whether `trail` leads from `from` to `to` along the edges of `hop`.
pub open spec fn is_trail(
    hop: spec_fn(u32, u32) -> bool,
    trail: Seq<u32>,
    from: u32,
    to: u32,
) -> bool {
    &&& trail.len() > 0
    &&& trail[0] == from
    &&& trail.last() == to
    &&& forall|i: int| 0 <= i < trail.len() - 1 ==> hop(#[trigger] trail[i], trail[i + 1])
}

/// Whether some trail leads from `from` to `to` along the edges of `hop`.
pub open spec fn reaches(hop: spec_fn(u32, u32) -> bool, from: u32, to: u32) -> bool {
    exists|trail: Seq<u32>| is_trail(hop, trail, from, to)
}

/// Every state reaches itself.
pub proof fn lemma_reaches_itself(hop: spec_fn(u32, u32) -> bool, state: u32)
    ensures
        reaches(hop, state, state),
{
    assert(is_trail(hop, seq![state], state, state));
}

/// One edge more leads one state further.
pub proof fn lemma_reaches_further(hop: spec_fn(u32, u32) -> bool, from: u32, middle: u32, to: u32)
    requires
        reaches(hop, from, middle),
        hop(middle, to),
    ensures
        reaches(hop, from, to),
{
    let trail = choose|trail: Seq<u32>| is_trail(hop, trail, from, middle);
    let longer = trail.push(to);
    assert forall|i: int| 0 <= i < longer.len() - 1 implies hop(#[trigger] longer[i], longer[i + 1]) by {
        if i < trail.len() - 1 {
            assert(hop(trail[i], trail[i + 1]));
        }
    }
    assert(is_trail(hop, longer, from, to));
}

/// A set that no edge leaves holds all that is reached from one of its members.
pub proof fn lemma_reached_within(hop: spec_fn(u32, u32) -> bool, closed: Set<u32>, from: u32, to: u32)
    requires
        closed.contains(from),
        forall|a: u32, b: u32| closed.contains(a) && #[trigger] hop(a, b) ==> closed.contains(b),
        reaches(hop, from, to),
    ensures
        closed.contains(to),
{
    let trail = choose|trail: Seq<u32>| is_trail(hop, trail, from, to);
    lemma_trail_within(hop, closed, trail, from, to, trail.len() as int);
}

proof fn lemma_trail_within(
    hop: spec_fn(u32, u32) -> bool,
    closed: Set<u32>,
    trail: Seq<u32>,
    from: u32,
    to: u32,
    n: int,
)
    requires
        closed.contains(from),
        forall|a: u32, b: u32| closed.contains(a) && #[trigger] hop(a, b) ==> closed.contains(b),
        is_trail(hop, trail, from, to),
        0 < n <= trail.len(),
    ensures
        closed.contains(trail[n - 1]),
    decreases n,
{
    if n > 1 {
        lemma_trail_within(hop, closed, trail, from, to, n - 1);
        assert(hop(trail[n - 2], trail[n - 2 + 1]));
    }
}

/// A set of numbers up to `max` is finite and has at most `max + 1` members.
pub proof fn lemma_bounded_set(set: Set<u32>, max: u32)
    requires
        forall|x: u32| #[trigger] set.contains(x) ==> x <= max,
    ensures
        set.finite(),
        set.len() <= max + 1,
{
    broadcast use range_set_properties;

    let all = Set::<u32>::range_inclusive(0, max);
    assert(set.subset_of(all));
    lemma_len_subset(set, all);
}

/// Taking the last of several distinct items leaves the others.
pub proof fn lemma_popped(items: Seq<u32>)
    requires
        items.len() > 0,
        items.no_duplicates(),
    ensures
        items.drop_last().no_duplicates(),
        forall|s: u32| #[trigger]
            items.drop_last().contains(s) <==> items.contains(s) && s != items.last(),
{
    let rest = items.drop_last();
    assert forall|s: u32| #[trigger] rest.contains(s) <==> items.contains(s) && s
        != items.last() by {
        if rest.contains(s) {
            let k = choose|k: int| 0 <= k < rest.len() && rest[k] == s;
            assert(items[k] == s);
        }
        if items.contains(s) && s != items.last() {
            let k = choose|k: int| 0 <= k < items.len() && items[k] == s;
            assert(rest[k] == s);
        }
    }
}

} // verus!
