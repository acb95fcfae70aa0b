//! Facts about filtered lists that the proofs of removal use.

use vstd::prelude::*;

verus! {

/// Two tests that agree on every entry of a list keep the same entries.
pub proof fn lemma_filter_agree<A>(list: Seq<A>, p: spec_fn(A) -> bool, q: spec_fn(A) -> bool)
    requires
        forall|i: int| 0 <= i < list.len() ==> p(#[trigger] list[i]) == q(list[i]),
    ensures
        list.filter(p) == list.filter(q),
    decreases list.len(),
{
    reveal(Seq::filter);
    if list.len() > 0 {
        let front = list.drop_last();
        assert forall|i: int| 0 <= i < front.len() implies p(#[trigger] front[i]) == q(front[i]) by {
            assert(front[i] == list[i]);
        }
        lemma_filter_agree(front, p, q);
        assert(p(list[list.len() - 1]) == q(list[list.len() - 1]));
    }
}

/// A test that every entry passes keeps the whole list.
pub proof fn lemma_filter_all<A>(list: Seq<A>, p: spec_fn(A) -> bool)
    requires
        forall|i: int| 0 <= i < list.len() ==> p(#[trigger] list[i]),
    ensures
        list.filter(p) == list,
    decreases list.len(),
{
    reveal(Seq::filter);
    if list.len() > 0 {
        let front = list.drop_last();
        assert forall|i: int| 0 <= i < front.len() implies p(#[trigger] front[i]) by {
            assert(front[i] == list[i]);
        }
        lemma_filter_all(front, p);
        assert(p(list[list.len() - 1]));
        assert(front.push(list.last()) =~= list);
    }
}

/// Every entry that a filter keeps is an entry of the list that passes the
/// test, and the kept entries are distinct if the entries of the list are.
pub proof fn lemma_filter_entries<A>(list: Seq<A>, p: spec_fn(A) -> bool)
    ensures
        list.filter(p).len() <= list.len(),
        forall|i: int|
            0 <= i < list.filter(p).len() ==> p(#[trigger] list.filter(p)[i]) && list.contains(
                list.filter(p)[i],
            ),
        forall|i: int| 0 <= i < list.len() && p(list[i]) ==> list.filter(p).contains(#[trigger] list[i]),
        list.no_duplicates() ==> list.filter(p).no_duplicates(),
    decreases list.len(),
{
    reveal(Seq::filter);
    if list.len() > 0 {
        let front = list.drop_last();
        let last = list.last();
        lemma_filter_entries(front, p);
        let kept = list.filter(p);
        let sub = front.filter(p);
        assert forall|i: int| 0 <= i < kept.len() implies p(#[trigger] kept[i]) && list.contains(
            kept[i],
        ) by {
            if i < sub.len() {
                assert(kept[i] == sub[i]);
                assert(front.contains(sub[i]));
                let j = choose|j: int| 0 <= j < front.len() && front[j] == sub[i];
                assert(list[j] == sub[i]);
            } else {
                assert(kept[i] == last);
                assert(list[list.len() - 1] == last);
            }
        }
        assert forall|i: int| 0 <= i < list.len() && p(list[i]) implies kept.contains(
            #[trigger] list[i],
        ) by {
            if i < front.len() {
                assert(front[i] == list[i]);
                assert(sub.contains(front[i]));
                let j = choose|j: int| 0 <= j < sub.len() && sub[j] == front[i];
                assert(kept[j] == list[i]);
            } else {
                assert(kept[sub.len() as int] == list[i]);
            }
        }
        if list.no_duplicates() {
            assert(front.no_duplicates()) by {
                assert forall|i: int, j: int| 0 <= i < front.len() && 0 <= j < front.len() && i != j implies front[i]
                    != front[j] by {
                    assert(front[i] == list[i] && front[j] == list[j]);
                }
            }
            assert forall|i: int, j: int| 0 <= i < kept.len() && 0 <= j < kept.len() && i != j implies kept[i]
                != kept[j] by {
                if i < sub.len() && j < sub.len() {
                    assert(kept[i] == sub[i] && kept[j] == sub[j]);
                } else {
                    let a = if i < sub.len() {
                        i
                    } else {
                        j
                    };
                    assert(front.contains(sub[a]));
                    let b = choose|b: int| 0 <= b < front.len() && front[b] == sub[a];
                    assert(list[b] == sub[a]);
                    assert(list[list.len() - 1] == last);
                }
            }
        }
    }
}

/// Taking one entry out of a list of distinct entries keeps exactly the
/// entries that differ from it.
pub proof fn lemma_remove_is_filter<A>(list: Seq<A>, at: int, p: spec_fn(A) -> bool)
    requires
        list.no_duplicates(),
        0 <= at < list.len(),
        forall|x: A| #[trigger] p(x) == (x != list[at]),
    ensures
        list.remove(at) == list.filter(p),
    decreases list.len(),
{
    reveal(Seq::filter);
    let front = list.drop_last();
    let last = list.last();
    assert(front.no_duplicates()) by {
        assert forall|i: int, j: int| 0 <= i < front.len() && 0 <= j < front.len() && i != j implies front[i]
            != front[j] by {
            assert(front[i] == list[i] && front[j] == list[j]);
        }
    }
    if at == list.len() - 1 {
        assert forall|i: int| 0 <= i < front.len() implies p(#[trigger] front[i]) by {
            assert(front[i] == list[i]);
        }
        lemma_filter_all(front, p);
        assert(list.remove(at) =~= front);
        assert(!p(last));
    } else {
        assert(front[at] == list[at]);
        lemma_remove_is_filter(front, at, p);
        assert(p(last));
        assert(list.remove(at) =~= front.remove(at).push(last));
    }
}

/// Filtering twice is filtering once by both tests.
pub proof fn lemma_filter_twice<A>(
    list: Seq<A>,
    p: spec_fn(A) -> bool,
    q: spec_fn(A) -> bool,
    both: spec_fn(A) -> bool,
)
    requires
        forall|i: int| 0 <= i < list.len() ==> both(#[trigger] list[i]) == (p(list[i]) && q(list[i])),
    ensures
        list.filter(p).filter(q) == list.filter(both),
    decreases list.len(),
{
    reveal(Seq::filter);
    if list.len() > 0 {
        let front = list.drop_last();
        let last = list.last();
        assert forall|i: int| 0 <= i < front.len() implies both(#[trigger] front[i]) == (p(front[i])
            && q(front[i])) by {
            assert(front[i] == list[i]);
        }
        lemma_filter_twice(front, p, q, both);
        assert(both(list[list.len() - 1]) == (p(last) && q(last)));
        if p(last) {
            let sub = front.filter(p);
            assert(sub.push(last).drop_last() =~= sub);
        }
    }
}

/// Mapping the kept entries is keeping the mapped entries, for tests that
/// agree across the map.
pub proof fn lemma_filter_map<A, B>(
    list: Seq<A>,
    p: spec_fn(A) -> bool,
    f: spec_fn(A) -> B,
    q: spec_fn(B) -> bool,
)
    requires
        forall|i: int| 0 <= i < list.len() ==> p(#[trigger] list[i]) == q(f(list[i])),
    ensures
        list.filter(p).map_values(f) == list.map_values(f).filter(q),
    decreases list.len(),
{
    reveal(Seq::filter);
    if list.len() > 0 {
        let front = list.drop_last();
        let last = list.last();
        assert forall|i: int| 0 <= i < front.len() implies p(#[trigger] front[i]) == q(f(front[i])) by {
            assert(front[i] == list[i]);
        }
        lemma_filter_map(front, p, f, q);
        assert(p(list[list.len() - 1]) == q(f(last)));
        let mapped = list.map_values(f);
        assert(mapped.drop_last() =~= front.map_values(f));
        assert(mapped.last() == f(last));
        if p(last) {
            assert(front.filter(p).push(last).map_values(f) =~= front.filter(p).map_values(f).push(
                f(last),
            ));
        }
    } else {
        assert(list.filter(p).map_values(f) =~= list.map_values(f).filter(q));
    }
}

} // verus!
