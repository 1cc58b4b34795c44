//! Taking items out of a list.

use vstd::prelude::*;

verus! {

/// Picks what is not picked otherwise.
pub(crate) open spec fn others<T>(picks: spec_fn(T) -> bool) -> spec_fn(T) -> bool {
    |x: T| !picks(x)
}

/// Picking items of a list and then looking at each is looking at each and then
/// picking.
pub(crate) proof fn filter_of_map<T, V>(
    s: Seq<T>,
    look: spec_fn(T) -> V,
    picks: spec_fn(T) -> bool,
    wanted: spec_fn(V) -> bool,
)
    requires
        forall|x: T| #[trigger] picks(x) == wanted(look(x)),
    ensures
        s.filter(picks).map_values(look) == s.map_values(look).filter(wanted),
    decreases s.len(),
{
    reveal(Seq::filter);
    if s.len() > 0 {
        let rest = s.drop_last();
        filter_of_map(rest, look, picks, wanted);
        assert(s.map_values(look).drop_last() =~= rest.map_values(look));
        assert(s.map_values(look).last() == look(s.last()));
        assert(picks(s.last()) == wanted(look(s.last())));
        assert(s.filter(picks).map_values(look) =~= s.map_values(look).filter(wanted));
    } else {
        assert(s.filter(picks).map_values(look) =~= s.map_values(look).filter(wanted));
    }
}

/// Two picks that agree on every item pick the same items.
pub(crate) proof fn picks_that_agree<T>(
    s: Seq<T>,
    a: spec_fn(T) -> bool,
    b: spec_fn(T) -> bool,
)
    requires
        forall|i: int| 0 <= i < s.len() ==> a(#[trigger] s[i]) == b(s[i]),
    ensures
        s.filter(a) == s.filter(b),
    decreases s.len(),
{
    reveal(Seq::filter);
    if s.len() > 0 {
        let rest = s.drop_last();
        assert forall|i: int| 0 <= i < rest.len() implies a(#[trigger] rest[i]) == b(rest[i]) by {
            assert(rest[i] == s[i]);
        }
        picks_that_agree(rest, a, b);
        assert(a(s[s.len() - 1]) == b(s[s.len() - 1]));
    }
}

/// Picking twice is picking what both pick.
pub(crate) proof fn picks_in_a_row<T>(
    s: Seq<T>,
    a: spec_fn(T) -> bool,
    b: spec_fn(T) -> bool,
    both: spec_fn(T) -> bool,
)
    requires
        forall|x: T| #[trigger] both(x) == (a(x) && b(x)),
    ensures
        s.filter(a).filter(b) == s.filter(both),
    decreases s.len(),
{
    reveal(Seq::filter);
    if s.len() > 0 {
        let rest = s.drop_last();
        picks_in_a_row(rest, a, b, both);
        assert(both(s.last()) == (a(s.last()) && b(s.last())));
        if a(s.last()) {
            assert(s.filter(a).drop_last() =~= rest.filter(a));
            assert(s.filter(a).last() == s.last());
        }
    } else {
        assert(s.filter(a).filter(b) =~= s.filter(both));
    }
}

/// An item at the end is picked, or not, after the others.
pub(crate) proof fn picks_of_push<T>(s: Seq<T>, x: T, a: spec_fn(T) -> bool)
    ensures
        s.push(x).filter(a) == if a(x) {
            s.filter(a).push(x)
        } else {
            s.filter(a)
        },
{
    reveal(Seq::filter);
    assert(s.push(x).drop_last() =~= s);
}

/// Takes the items that `test` picks out of the first `count` of a list.
pub(crate) fn take_out<T, F: Fn(&T) -> bool>(
    list: &mut Vec<T>,
    count: usize,
    test: F,
    Ghost(picks): Ghost<spec_fn(T) -> bool>,
) -> (taken: Vec<T>)
    requires
        count <= old(list)@.len(),
        forall|x: T| #[trigger] test.requires((&x,)),
        forall|x: T, yes: bool| #[trigger] test.ensures((&x,), yes) ==> yes == picks(x),
    ensures
        taken@ == old(list)@.take(count as int).filter(picks),
        final(list)@ == old(list)@.take(count as int).filter(others(picks)) + old(
            list,
        )@.skip(count as int),
{
    let ghost all = list@;
    let ghost keeps = others(picks);
    let mut taken: Vec<T> = Vec::new();
    let mut left: usize = count;
    let mut i: usize = 0;
    let ghost mut seen: int = 0;
    proof {
        reveal(Seq::filter);
        assert(taken@ =~= all.take(0).filter(picks));
        assert(list@.take(0) =~= all.take(0).filter(keeps));
        assert(list@.skip(0) =~= all.skip(0));
    }
    while left > 0
        invariant
            seen + left == count,
            0 <= seen <= count <= all.len(),
            i <= list@.len(),
            keeps == others(picks),
            forall|x: T| #[trigger] test.requires((&x,)),
            forall|x: T, yes: bool| #[trigger] test.ensures((&x,), yes) ==> yes == picks(x),
            taken@ == all.take(seen).filter(picks),
            list@.take(i as int) == all.take(seen).filter(keeps),
            list@.skip(i as int) == all.skip(seen),
        decreases left,
    {
        let ghost was = list@;
        proof {
            reveal(Seq::filter);
            assert(was.skip(i as int).len() == all.skip(seen).len());
            assert(was.skip(i as int)[0] == all.skip(seen)[0]);
            assert(all.take(seen + 1).drop_last() =~= all.take(seen));
            assert(all.take(seen + 1).last() == was[i as int]);
            assert(was.skip(i as int + 1) =~= was.skip(i as int).skip(1));
            assert(all.skip(seen + 1) =~= all.skip(seen).skip(1));
        }
        if test(&list[i]) {
            let item = list.remove(i);
            taken.push(item);
            proof {
                assert(list@.take(i as int) =~= was.take(i as int));
                assert(list@.skip(i as int) =~= was.skip(i as int + 1));
            }
        } else {
            assert(was.take(i as int + 1) =~= was.take(i as int).push(was[i as int]));
            i += 1;
        }
        left -= 1;
        proof {
            seen = seen + 1;
        }
    }
    assert(list@ =~= list@.take(i as int) + list@.skip(i as int));
    taken
}

} // verus!
