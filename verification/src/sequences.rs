//! Facts about filtered sequences of entities.

use vstd::prelude::*;
use crate::objects::{distinct_ids, has_id, Entity};

verus! {

/// Filtering one element more either appends that element or changes nothing.
pub proof fn lemma_filter_step<A>(s: Seq<A>, pred: spec_fn(A) -> bool, i: int)
    requires
        0 <= i < s.len(),
    ensures
        s.take(i + 1).filter(pred) == if pred(s[i]) {
            s.take(i).filter(pred).push(s[i])
        } else {
            s.take(i).filter(pred)
        },
{
    reveal(Seq::filter);
    assert(s.take(i + 1).drop_last() == s.take(i));
}

/// Every element of a filtered sequence stands in the unfiltered one, at a
/// position where the predicate holds; and every such element of the
/// unfiltered sequence stands in the filtered one.
pub proof fn lemma_filter_members<A>(s: Seq<A>, pred: spec_fn(A) -> bool)
    ensures
        forall|i: int|
            0 <= i < s.filter(pred).len() ==> exists|j: int|
                0 <= j < s.len() && pred(s[j]) && #[trigger] s[j] == (#[trigger] s.filter(pred)[i]),
        forall|j: int|
            0 <= j < s.len() && pred(#[trigger] s[j]) ==> exists|i: int|
                0 <= i < s.filter(pred).len() && #[trigger] s.filter(pred)[i] == s[j],
    decreases s.len(),
{
    reveal(Seq::filter);
    if s.len() > 0 {
        let rest = s.drop_last();
        lemma_filter_members(rest, pred);
        let f = s.filter(pred);
        let fr = rest.filter(pred);
        assert forall|i: int| 0 <= i < f.len() implies exists|j: int|
            0 <= j < s.len() && pred(s[j]) && #[trigger] s[j] == (#[trigger] f[i]) by {
            if i < fr.len() {
                let j = choose|j: int| 0 <= j < rest.len() && pred(rest[j]) && #[trigger] rest[j] == fr[i];
                assert(s[j] == rest[j]);
            } else {
                assert(s[s.len() - 1] == f[i]);
            }
        }
        assert forall|j: int| 0 <= j < s.len() && pred(#[trigger] s[j]) implies exists|i: int|
            0 <= i < f.len() && #[trigger] f[i] == s[j] by {
            if j < rest.len() {
                assert(rest[j] == s[j]);
                let i = choose|i: int| 0 <= i < fr.len() && #[trigger] fr[i] == rest[j];
                assert(f[i] == s[j]);
            } else {
                assert(f[f.len() - 1] == s[j]);
            }
        }
    }
}

/// A filtered sequence holds an identifier exactly when the unfiltered one
/// holds it on an entity that the predicate keeps.
pub proof fn lemma_filter_has_id<T: Entity>(s: Seq<T>, pred: spec_fn(T) -> bool, id: Seq<char>)
    ensures
        has_id(s.filter(pred), id) <==> exists|j: int|
            0 <= j < s.len() && pred(s[j]) && (#[trigger] s[j]).spec_id() == id,
{
    lemma_filter_members(s, pred);
    let f = s.filter(pred);
    if has_id(f, id) {
        let i = choose|i: int| 0 <= i < f.len() && (#[trigger] f[i]).spec_id() == id;
        let j = choose|j: int| 0 <= j < s.len() && pred(s[j]) && #[trigger] s[j] == f[i];
        assert(0 <= j < s.len() && pred(s[j]) && s[j].spec_id() == id);
    }
    if exists|j: int| 0 <= j < s.len() && pred(s[j]) && (#[trigger] s[j]).spec_id() == id {
        let j = choose|j: int| 0 <= j < s.len() && pred(s[j]) && (#[trigger] s[j]).spec_id() == id;
        let i = choose|i: int| 0 <= i < f.len() && #[trigger] f[i] == s[j];
        assert(f[i].spec_id() == id);
    }
}

/// Filtering keeps identifiers distinct.
pub proof fn lemma_filter_distinct<T: Entity>(s: Seq<T>, pred: spec_fn(T) -> bool)
    requires
        distinct_ids(s),
    ensures
        distinct_ids(s.filter(pred)),
    decreases s.len(),
{
    reveal(Seq::filter);
    if s.len() > 0 {
        let rest = s.drop_last();
        assert(distinct_ids(rest)) by {
            assert forall|i: int, j: int| 0 <= i < j < rest.len() implies (#[trigger] rest[i]).spec_id()
                != (#[trigger] rest[j]).spec_id() by {
                assert(rest[i] == s[i] && rest[j] == s[j]);
            }
        }
        lemma_filter_distinct(rest, pred);
        lemma_filter_members(rest, pred);
        let f = s.filter(pred);
        let fr = rest.filter(pred);
        assert forall|i: int, j: int| 0 <= i < j < f.len() implies (#[trigger] f[i]).spec_id() != (
        #[trigger] f[j]).spec_id() by {
            if j < fr.len() {
                assert(f[i] == fr[i] && f[j] == fr[j]);
            } else {
                let k = choose|k: int| 0 <= k < rest.len() && pred(rest[k]) && #[trigger] rest[k] == fr[i];
                assert(s[k] == rest[k]);
                assert(f[j] == s[s.len() - 1]);
            }
        }
    }
}

/// Two predicates that agree on every element of a sequence filter it alike.
pub proof fn lemma_filter_agree<A>(s: Seq<A>, p: spec_fn(A) -> bool, q: spec_fn(A) -> bool)
    requires
        forall|i: int| 0 <= i < s.len() ==> p(#[trigger] s[i]) == q(s[i]),
    ensures
        s.filter(p) == s.filter(q),
    decreases s.len(),
{
    reveal(Seq::filter);
    if s.len() > 0 {
        let rest = s.drop_last();
        assert forall|i: int| 0 <= i < rest.len() implies p(#[trigger] rest[i]) == q(rest[i]) by {
            assert(rest[i] == s[i]);
        }
        lemma_filter_agree(rest, p, q);
        assert(p(s[s.len() - 1]) == q(s[s.len() - 1]));
    }
}

/// A predicate that holds of every element filters nothing out.
pub proof fn lemma_filter_all<A>(s: Seq<A>, pred: spec_fn(A) -> bool)
    requires
        forall|i: int| 0 <= i < s.len() ==> pred(#[trigger] s[i]),
    ensures
        s.filter(pred) == s,
    decreases s.len(),
{
    reveal(Seq::filter);
    if s.len() > 0 {
        let rest = s.drop_last();
        assert forall|i: int| 0 <= i < rest.len() implies pred(#[trigger] rest[i]) by {
            assert(rest[i] == s[i]);
        }
        lemma_filter_all(rest, pred);
        assert(pred(s[s.len() - 1]));
        assert(rest.push(s.last()) == s);
    }
}

/// What a sequence becomes when a predicate `keep` that computes `p` is asked
/// about each element and the elements answered `true` are kept: the
/// sequence filtered by `p`.
pub proof fn lemma_filter_by_answers<A, F: Fn(&A) -> bool>(s: Seq<A>, keep: F, p: spec_fn(A) -> bool)
    requires
        forall|i: int, answer: bool|
            0 <= i < s.len() && keep.ensures((&#[trigger] s[i],), answer) ==> answer == p(s[i]),
        forall|i: int|
            0 <= i < s.len() ==> keep.ensures((&#[trigger] s[i],), true) || keep.ensures(
                (&s[i],),
                false,
            ),
    ensures
        s.filter(|x: A| keep.ensures((&x,), true)) == s.filter(p),
{
    assert forall|i: int| 0 <= i < s.len() implies keep.ensures((&#[trigger] s[i],), true) == p(
        s[i],
    ) by {
        assert(keep.ensures((&s[i],), true) || keep.ensures((&s[i],), false));
    }
    lemma_filter_agree(s, |x: A| keep.ensures((&x,), true), p);
}

} // verus!
