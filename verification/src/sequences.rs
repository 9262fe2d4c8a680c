//! Facts about sequences that the rest of the library leans on.

use vstd::prelude::*;

verus! {

/// Where every item maps to the empty sequence, so does the whole.
pub proof fn lemma_flat_map_of_nothing<A, B>(items: Seq<A>, f: spec_fn(A) -> Seq<B>)
    requires
        forall|i: int| 0 <= i < items.len() ==> (#[trigger] f(items[i])).len() == 0,
    ensures
        items.flat_map(f).len() == 0,
    decreases items.len(),
{
    if items.len() > 0 {
        let init = items.drop_last();
        assert forall|i: int| 0 <= i < init.len() implies (#[trigger] f(init[i])).len() == 0 by {
            assert(init[i] == items[i]);
        }
        lemma_flat_map_of_nothing(init, f);
        assert(items =~= init.push(items.last()));
        init.lemma_flat_map_push(f, items.last());
    }
}

/// What a flat map holds stems from one of the items: the result names one.
pub proof fn lemma_flat_map_member<A, B>(items: Seq<A>, f: spec_fn(A) -> Seq<B>, found: B) -> (at:
    int)
    requires
        items.flat_map(f).contains(found),
    ensures
        0 <= at < items.len(),
        f(items[at]).contains(found),
    decreases items.len(),
{
    if items.len() == 0 {
        assert(items.flat_map(f) =~= Seq::<B>::empty());
        0
    } else {
        let init = items.drop_last();
        assert(items =~= init.push(items.last()));
        init.lemma_flat_map_push(f, items.last());
        let whole = init.flat_map(f) + f(items.last());
        let k = choose|k: int| 0 <= k < whole.len() && whole[k] == found;
        if k < init.flat_map(f).len() {
            assert(init.flat_map(f)[k] == found);
            let at = lemma_flat_map_member(init, f, found);
            assert(init[at] == items[at]);
            at
        } else {
            assert(f(items.last())[k - init.flat_map(f).len()] == found);
            items.len() - 1
        }
    }
}

/// What stems from one of the items, the flat map holds.
pub proof fn lemma_flat_map_contains<A, B>(
    items: Seq<A>,
    f: spec_fn(A) -> Seq<B>,
    at: int,
    found: B,
)
    requires
        0 <= at < items.len(),
        f(items[at]).contains(found),
    ensures
        items.flat_map(f).contains(found),
    decreases items.len(),
{
    let init = items.drop_last();
    assert(items =~= init.push(items.last()));
    init.lemma_flat_map_push(f, items.last());
    let whole = init.flat_map(f) + f(items.last());
    if at == items.len() - 1 {
        let row = f(items[at]);
        let k = choose|k: int| 0 <= k < row.len() && row[k] == found;
        assert(whole[init.flat_map(f).len() + k] == found);
    } else {
        assert(init[at] == items[at]);
        lemma_flat_map_contains(init, f, at, found);
        let k = choose|k: int| 0 <= k < init.flat_map(f).len() && init.flat_map(f)[k] == found;
        assert(whole[k] == found);
    }
}

/// A filter begins with the first item that it keeps.
pub proof fn lemma_filter_first<A>(items: Seq<A>, keep: spec_fn(A) -> bool, at: int)
    requires
        0 <= at < items.len(),
        keep(items[at]),
        forall|i: int| 0 <= i < at ==> !keep(#[trigger] items[i]),
    ensures
        items.filter(keep).len() > 0,
        items.filter(keep)[0] == items[at],
    decreases items.len(),
{
    let init = items.drop_last();
    assert(items =~= init.push(items.last()));
    init.lemma_filter_push(items.last(), keep);
    if at == items.len() - 1 {
        assert(init.filter(keep).len() == 0) by {
            if init.filter(keep).len() > 0 {
                init.lemma_filter_pred(keep, 0);
                assert(init.filter(keep).contains(init.filter(keep)[0]));
                init.lemma_filter_contains_rev(keep, init.filter(keep)[0]);
                let k = choose|k: int| 0 <= k < init.len() && init[k] == init.filter(keep)[0];
                assert(init[k] == items[k]);
            }
        }
    } else {
        assert(init[at] == items[at]);
        assert forall|i: int| 0 <= i < at implies !keep(#[trigger] init[i]) by {
            assert(init[i] == items[i]);
        }
        lemma_filter_first(init, keep, at);
    }
}

} // verus!
