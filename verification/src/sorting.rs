//! Sorting a list of titles into ascending order.

use crate::order::{
    is_sorted, lemma_title_le_total, lemma_title_le_transitive, lemma_title_order_total,
    precedes, title_le, title_order,
};
use vstd::prelude::*;
use vstd::relations::sorted_by;
use vstd::seq_lib::{group_to_multiset_ensures, lemma_sorted_unique};

verus! {

/// The titles that a list of strings holds, in the list's order.
pub open spec fn titles(v: Seq<String>) -> Seq<Seq<char>> {
    Seq::new(v.len(), |i: int| v[i]@)
}

/// The titles of `s` in ascending order.
pub open spec fn sorted_titles(s: Seq<Seq<char>>) -> Seq<Seq<char>> {
    s.sort_by(title_order())
}

/// `sorted_titles(s)` is in ascending order and holds each title as often as
/// `s` does.
pub proof fn lemma_sorted_titles(s: Seq<Seq<char>>)
    ensures
        is_sorted(sorted_titles(s)),
        sorted_titles(s).to_multiset() == s.to_multiset(),
        sorted_titles(s).len() == s.len(),
{
    lemma_title_order_total();
    s.lemma_sort_by_ensures(title_order());
    let t = sorted_titles(s);
    assert forall|i: int, j: int| 0 <= i < j < t.len() implies title_le(
        #[trigger] t[i],
        #[trigger] t[j],
    ) by {
        assert(title_order()(t[i], t[j]));
    }
    t.to_multiset_ensures();
    s.to_multiset_ensures();
}

/// There is one way only to put given titles in ascending order: a sorted
/// sequence that holds each title as often as `s` does is `sorted_titles(s)`.
pub proof fn lemma_sorted_titles_unique(s: Seq<Seq<char>>, t: Seq<Seq<char>>)
    requires
        is_sorted(t),
        t.to_multiset() == s.to_multiset(),
    ensures
        t == sorted_titles(s),
{
    lemma_title_order_total();
    lemma_sorted_titles(s);
    let u = sorted_titles(s);
    assert(sorted_by(t, title_order()));
    assert(sorted_by(u, title_order())) by {
        s.lemma_sort_by_ensures(title_order());
    }
    lemma_sorted_unique(t, u, title_order());
}

/// Sorting leaves a sorted sequence as it is.
pub proof fn lemma_sorted_titles_fixed(s: Seq<Seq<char>>)
    requires
        is_sorted(s),
    ensures
        sorted_titles(s) == s,
{
    lemma_sorted_titles_unique(s, s);
}

/// Sorting twice gives what sorting once gives.
pub proof fn lemma_sorted_titles_idempotent(s: Seq<Seq<char>>)
    ensures
        sorted_titles(sorted_titles(s)) == sorted_titles(s),
{
    lemma_sorted_titles(s);
    lemma_sorted_titles_fixed(sorted_titles(s));
}

/// The first place in the sorted list `sorted` at which `title` can stand
/// behind every title that comes no later than it.
fn insertion_point(sorted: &Vec<String>, title: &str) -> (p: usize)
    requires
        is_sorted(titles(sorted@)),
    ensures
        p <= sorted.len(),
        forall|j: int| 0 <= j < p ==> title_le(#[trigger] titles(sorted@)[j], title@),
        forall|j: int| p <= j < sorted.len() ==> title_le(title@, #[trigger] titles(sorted@)[j]),
{
    let mut p: usize = 0;
    while p < sorted.len() && precedes(sorted[p].as_str(), title)
        invariant
            p <= sorted.len(),
            forall|j: int| 0 <= j < p ==> title_le(#[trigger] titles(sorted@)[j], title@),
        decreases sorted.len() - p,
    {
        p += 1;
    }
    proof {
        let ts = titles(sorted@);
        if p < sorted.len() {
            lemma_title_le_total(ts[p as int], title@);
            assert forall|j: int| p <= j < sorted.len() implies title_le(
                title@,
                #[trigger] ts[j],
            ) by {
                if j > p {
                    lemma_title_le_transitive(title@, ts[p as int], ts[j]);
                }
            }
        }
    }
    p
}

/// Puts the titles of `works` in ascending order. The list holds afterwards
/// what it held before, each title as often, and no pair out of order.
pub fn sort_titles(works: &mut Vec<String>)
    ensures
        titles(final(works)@) == sorted_titles(titles(old(works)@)),
        is_sorted(titles(final(works)@)),
        titles(final(works)@).to_multiset() == titles(old(works)@).to_multiset(),
        final(works).len() == old(works).len(),
{
    let ghost start = titles(works@);
    let mut out: Vec<String> = Vec::new();
    proof {
        broadcast use group_to_multiset_ensures;
        assert(titles(out@) =~= Seq::<Seq<char>>::empty());
        assert(titles(out@).to_multiset().add(start.to_multiset()) =~= start.to_multiset());
    }
    while works.len() > 0
        invariant
            is_sorted(titles(out@)),
            titles(out@).to_multiset().add(titles(works@).to_multiset()) == start.to_multiset(),
            out.len() + works.len() == start.len(),
        decreases works.len(),
    {
        let ghost rest_before = titles(works@);
        let ghost out_before = titles(out@);
        let title = works.pop().unwrap();
        let p = insertion_point(&out, title.as_str());
        let ghost t = title@;
        out.insert(p, title);
        proof {
            broadcast use group_to_multiset_ensures;
            let rest = titles(works@);
            let grown = titles(out@);
            assert(rest_before =~= rest.push(t));
            assert(grown =~= out_before.insert(p as int, t));
            assert(grown.to_multiset().add(rest.to_multiset()) =~= out_before.to_multiset().add(
                rest_before.to_multiset(),
            ));
            assert forall|i: int, j: int| 0 <= i < j < grown.len() implies title_le(
                #[trigger] grown[i],
                #[trigger] grown[j],
            ) by {
                if j < p {
                    assert(grown[i] == out_before[i] && grown[j] == out_before[j]);
                } else if j == p {
                    assert(grown[i] == out_before[i]);
                } else if i < p {
                    assert(grown[i] == out_before[i] && grown[j] == out_before[j - 1]);
                } else if i == p {
                    assert(grown[j] == out_before[j - 1]);
                } else {
                    assert(grown[i] == out_before[i - 1] && grown[j] == out_before[j - 1]);
                }
            }
        }
    }
    proof {
        broadcast use group_to_multiset_ensures;
        assert(titles(works@) =~= Seq::<Seq<char>>::empty());
        assert(titles(out@).to_multiset() =~= start.to_multiset());
        lemma_sorted_titles_unique(start, titles(out@));
        titles(out@).to_multiset_ensures();
        start.to_multiset_ensures();
    }
    *works = out;
}

} // verus!
