//! The sorter: a stable ascending order on candidates by normalized key.
//!
//! The order is defined once, as the recursive insertion `sort_spec`; the
//! executable sort is proved to return exactly that sequence.  The public
//! lemmas state the properties a caller leans on: the result is sorted and
//! a permutation of the input, sorting a sorted sequence changes nothing
//! (so sorting is idempotent), and candidates with equal keys keep their
//! relative discovery order.

use vstd::prelude::*;
use vstd::multiset::Multiset;
use vstd::seq_lib::lemma_multiset_commutative;

use crate::bytes::bytes_leq;
use crate::bytes::lex_leq;
use crate::bytes::lemma_lex_leq_total;
use crate::bytes::lemma_lex_leq_transitive;
use crate::collect::Candidate;
use crate::collect::CandidateModel;

verus! {

/// Ascending lexicographic order on normalized keys.
pub open spec fn sorted_by_key(s: Seq<CandidateModel>) -> bool {
    forall|i: int, j: int| 0 <= i < j < s.len() ==> lex_leq(s[i].key, s[j].key)
}

/// Stable insertion: `c` goes after every element whose key is not
/// strictly greater than `c`'s.
pub open spec fn insert_sorted(c: CandidateModel, s: Seq<CandidateModel>) -> Seq<CandidateModel>
    decreases s.len(),
{
    if s.len() == 0 {
        seq![c]
    } else if lex_leq(s[0].key, c.key) {
        seq![s[0]] + insert_sorted(c, s.drop_first())
    } else {
        seq![c] + s
    }
}

/// The stable sort of a candidate sequence: each element, in discovery
/// order, inserted into the sorted prefix.
pub open spec fn sort_spec(s: Seq<CandidateModel>) -> Seq<CandidateModel>
    decreases s.len(),
{
    if s.len() == 0 {
        s
    } else {
        insert_sorted(s.last(), sort_spec(s.drop_last()))
    }
}

/// The position at which `insert_sorted` places `c`: the first index whose
/// key is strictly greater than `c`'s, or the length if there is none.
pub open spec fn insert_pos(c: CandidateModel, s: Seq<CandidateModel>) -> int
    decreases s.len(),
{
    if s.len() == 0 {
        0
    } else if lex_leq(s[0].key, c.key) {
        1 + insert_pos(c, s.drop_first())
    } else {
        0
    }
}

/// `insert_sorted` splits the sequence at `insert_pos`, which is the first
/// position whose key exceeds `c`'s.
pub proof fn lemma_insert_pos(c: CandidateModel, s: Seq<CandidateModel>)
    ensures
        0 <= insert_pos(c, s) <= s.len(),
        insert_sorted(c, s) =~= s.take(insert_pos(c, s)) + seq![c] + s.skip(insert_pos(c, s)),
        forall|k: int| 0 <= k < insert_pos(c, s) ==> lex_leq(s[k].key, c.key),
        insert_pos(c, s) == s.len() || !lex_leq(s[insert_pos(c, s)].key, c.key),
    decreases s.len(),
{
    if s.len() == 0 {
        assert(insert_sorted(c, s) =~= s.take(0) + seq![c] + s.skip(0));
    } else if lex_leq(s[0].key, c.key) {
        lemma_insert_pos(c, s.drop_first());
        let p = insert_pos(c, s);
        assert(s.drop_first().take(p - 1) =~= s.take(p).drop_first());
        assert(s.drop_first().skip(p - 1) =~= s.skip(p));
        assert(insert_sorted(c, s) =~= s.take(p) + seq![c] + s.skip(p));
        assert forall|k: int| 0 <= k < p implies lex_leq(s[k].key, c.key) by {
            if k > 0 {
                assert(s.drop_first()[k - 1] == s[k]);
            }
        }
    } else {
        assert(insert_sorted(c, s) =~= s.take(0) + seq![c] + s.skip(0));
    }
}

/// Inserting into a sorted sequence keeps it sorted.
pub proof fn lemma_insert_sorted_keeps_order(c: CandidateModel, s: Seq<CandidateModel>)
    requires
        sorted_by_key(s),
    ensures
        sorted_by_key(insert_sorted(c, s)),
{
    lemma_insert_pos(c, s);
    let p = insert_pos(c, s);
    let r = insert_sorted(c, s);
    assert forall|i: int, j: int| 0 <= i < j < r.len() implies lex_leq(r[i].key, r[j].key) by {
        if i < p && j < p {
        } else if i < p && j == p {
        } else if i < p && j > p {
            if i < j - 1 {
            } else {
                lemma_lex_leq_total(s[i].key, s[i].key);
            }
        } else if i == p && j > p {
            lemma_lex_leq_total(s[p].key, c.key);
            if p < j - 1 {
                lemma_lex_leq_transitive(c.key, s[p].key, s[j - 1].key);
            }
        } else {
        }
    }
}

/// Insertion adds exactly the new element to the contents.
pub proof fn lemma_insert_sorted_multiset(c: CandidateModel, s: Seq<CandidateModel>)
    ensures
        insert_sorted(c, s).to_multiset() == s.to_multiset().insert(c),
{
    lemma_insert_pos(c, s);
    let p = insert_pos(c, s);
    lemma_multiset_commutative(s.take(p) + seq![c], s.skip(p));
    lemma_multiset_commutative(s.take(p), seq![c]);
    lemma_multiset_commutative(s.take(p), s.skip(p));
    assert(s.take(p) + s.skip(p) =~= s);
    assert(seq![c].to_multiset() =~= Multiset::<CandidateModel>::empty().insert(c)) by {
        assert(seq![c] =~= Seq::<CandidateModel>::empty().push(c));
        Seq::<CandidateModel>::empty().to_multiset_ensures();
    }
    assert(insert_sorted(c, s).to_multiset() =~= s.to_multiset().insert(c));
}

/// The sorted sequence is sorted.
pub proof fn lemma_sort_spec_sorted(s: Seq<CandidateModel>)
    ensures
        sorted_by_key(sort_spec(s)),
    decreases s.len(),
{
    if s.len() > 0 {
        lemma_sort_spec_sorted(s.drop_last());
        lemma_insert_sorted_keeps_order(s.last(), sort_spec(s.drop_last()));
    }
}

/// Sorting permutes: the result holds exactly the input's candidates.
pub proof fn lemma_sort_spec_multiset(s: Seq<CandidateModel>)
    ensures
        sort_spec(s).to_multiset() == s.to_multiset(),
    decreases s.len(),
{
    if s.len() > 0 {
        lemma_sort_spec_multiset(s.drop_last());
        lemma_insert_sorted_multiset(s.last(), sort_spec(s.drop_last()));
        s.drop_last().to_multiset_ensures();
        assert(s.drop_last().push(s.last()) =~= s);
    }
}

/// Inserting an element no smaller than every key appends it.
proof fn lemma_insert_sorted_append(c: CandidateModel, s: Seq<CandidateModel>)
    requires
        forall|k: int| 0 <= k < s.len() ==> lex_leq(s[k].key, c.key),
    ensures
        insert_sorted(c, s) =~= s.push(c),
    decreases s.len(),
{
    if s.len() > 0 {
        lemma_insert_sorted_append(c, s.drop_first());
        assert(insert_sorted(c, s) =~= s.push(c));
    }
}

/// An already-sorted sequence is a fixed point of the sort.
pub proof fn lemma_sort_spec_fixpoint(s: Seq<CandidateModel>)
    requires
        sorted_by_key(s),
    ensures
        sort_spec(s) == s,
    decreases s.len(),
{
    if s.len() > 0 {
        assert(sorted_by_key(s.drop_last()));
        lemma_sort_spec_fixpoint(s.drop_last());
        assert forall|k: int| 0 <= k < s.drop_last().len() implies lex_leq(
            s.drop_last()[k].key,
            s.last().key,
        ) by {
            if k == s.len() - 1 {
                lemma_lex_leq_total(s[k].key, s[k].key);
            }
        }
        lemma_insert_sorted_append(s.last(), s.drop_last());
        assert(s.drop_last().push(s.last()) =~= s);
    }
}

/// Sorting is idempotent: sorting an already-sorted candidate sequence
/// yields the same sequence.
pub proof fn lemma_sort_idempotent(s: Seq<CandidateModel>)
    ensures
        sort_spec(sort_spec(s)) == sort_spec(s),
{
    lemma_sort_spec_sorted(s);
    lemma_sort_spec_fixpoint(sort_spec(s));
}

/// A sequence none of whose elements satisfies the predicate filters to
/// nothing.
proof fn lemma_filter_all_false<A>(s: Seq<A>, pred: spec_fn(A) -> bool)
    requires
        forall|i: int| 0 <= i < s.len() ==> !pred(s[i]),
    ensures
        s.filter(pred) =~= Seq::<A>::empty(),
    decreases s.len(),
{
    reveal(Seq::filter);
    if s.len() > 0 {
        lemma_filter_all_false(s.drop_last(), pred);
    }
}

/// Inserting into a sorted sequence commutes with filtering by any key
/// value: when the new element carries that key it lands at the end of the
/// filtered sequence, and otherwise the filtered sequence is untouched.
proof fn lemma_insert_sorted_filter(c: CandidateModel, s: Seq<CandidateModel>, k: Seq<u8>)
    requires
        sorted_by_key(s),
    ensures
        insert_sorted(c, s).filter(|x: CandidateModel| x.key == k) == if c.key == k {
            s.filter(|x: CandidateModel| x.key == k).push(c)
        } else {
            s.filter(|x: CandidateModel| x.key == k)
        },
    decreases s.len(),
{
    let pred = |x: CandidateModel| x.key == k;
    reveal(Seq::filter);
    if s.len() == 0 {
        assert(seq![c] =~= Seq::<CandidateModel>::empty().push(c));
        crate::name::lemma_seq_filter_push(Seq::<CandidateModel>::empty(), c, pred);
        if c.key == k {
            assert(insert_sorted(c, s).filter(pred) =~= s.filter(pred).push(c));
        } else {
            assert(insert_sorted(c, s).filter(pred) =~= s.filter(pred));
        }
    } else if lex_leq(s[0].key, c.key) {
        assert(sorted_by_key(s.drop_first()));
        lemma_insert_sorted_filter(c, s.drop_first(), k);
        Seq::filter_distributes_over_add(seq![s[0]], insert_sorted(c, s.drop_first()), pred);
        Seq::filter_distributes_over_add(seq![s[0]], s.drop_first(), pred);
        assert(seq![s[0]] + s.drop_first() =~= s);
        if c.key == k {
            assert(insert_sorted(c, s).filter(pred) =~= s.filter(pred).push(c));
        } else {
            assert(insert_sorted(c, s).filter(pred) =~= s.filter(pred));
        }
    } else {
        Seq::filter_distributes_over_add(seq![c], s, pred);
        if c.key == k {
            assert forall|j: int| 0 <= j < s.len() implies !pred(s[j]) by {
                if s[j].key == k {
                    lemma_lex_leq_total(s[0].key, c.key);
                    if j > 0 {
                        lemma_lex_leq_transitive(s[0].key, s[j].key, c.key);
                    }
                }
            }
            lemma_filter_all_false(s, pred);
            assert(seq![c] =~= Seq::<CandidateModel>::empty().push(c));
            crate::name::lemma_seq_filter_push(Seq::<CandidateModel>::empty(), c, pred);
            assert(insert_sorted(c, s).filter(pred) =~= s.filter(pred).push(c));
        } else {
            assert(seq![c] =~= Seq::<CandidateModel>::empty().push(c));
            crate::name::lemma_seq_filter_push(Seq::<CandidateModel>::empty(), c, pred);
            assert(seq![c].filter(pred) =~= Seq::<CandidateModel>::empty());
            assert(insert_sorted(c, s).filter(pred) =~= s.filter(pred));
        }
    }
}

/// Sorting is stable: for every key value, the candidates carrying that
/// key appear in the sorted sequence exactly as they appeared, and in the
/// order they appeared, in the input.
pub proof fn lemma_sort_stable(s: Seq<CandidateModel>, k: Seq<u8>)
    ensures
        sort_spec(s).filter(|x: CandidateModel| x.key == k) == s.filter(
            |x: CandidateModel| x.key == k,
        ),
    decreases s.len(),
{
    let pred = |x: CandidateModel| x.key == k;
    if s.len() > 0 {
        lemma_sort_stable(s.drop_last(), k);
        lemma_sort_spec_sorted(s.drop_last());
        lemma_insert_sorted_filter(s.last(), sort_spec(s.drop_last()), k);
        assert(s.drop_last().push(s.last()) =~= s);
        crate::name::lemma_seq_filter_push(s.drop_last(), s.last(), pred);
    }
}

/// Sorts the candidates by normalized key, stably and in place of the
/// given vector: the result is exactly the stable sort of the input.
#[verifier::loop_isolation(false)]
pub fn sort_candidates(v: Vec<Candidate>) -> (r: Vec<Candidate>)
    ensures
        r.deep_view() == sort_spec(v.deep_view()),
        sorted_by_key(r.deep_view()),
        r.deep_view().to_multiset() == v.deep_view().to_multiset(),
{
    proof {
        lemma_sort_spec_sorted(v.deep_view());
        lemma_sort_spec_multiset(v.deep_view());
    }
    let ghost gv = v.deep_view();
    let mut v = v;
    let mut r: Vec<Candidate> = Vec::new();
    let ghost mut i: int = 0;
    proof {
        assert(v.deep_view() =~= gv.skip(0));
        assert(r.deep_view() =~= sort_spec(gv.take(0)));
    }
    while v.len() > 0
        invariant
            0 <= i <= gv.len(),
            i + v@.len() == gv.len(),
            v.deep_view() == gv.skip(i),
            r.deep_view() == sort_spec(gv.take(i)),
        decreases v@.len(),
    {
        let ghost prevv = v.deep_view();
        let c = v.remove(0);
        proof {
            assert(prevv.len() > 0);
            assert(c.deep_view() == prevv[0]);
            assert(c.deep_view() == gv[i]);
            assert forall|t: int| 0 <= t < v.deep_view().len() implies v.deep_view()[t] == prevv[t
                + 1] by {}
            assert(v.deep_view() =~= gv.skip(i + 1));
        }
        let ghost prevr = r.deep_view();
        let mut j: usize = 0;
        while j < r.len() && bytes_leq(&r[j].key, &c.key)
            invariant
                0 <= j <= r@.len(),
                r.deep_view() == prevr,
                forall|t: int| 0 <= t < j ==> lex_leq(prevr[t].key, c.deep_view().key),
            decreases r@.len() - j,
        {
            proof {
                crate::bytes::lemma_bytes_deep_view(r@[j as int].key);
                crate::bytes::lemma_bytes_deep_view(c.key);
            }
            j = j + 1;
        }
        proof {
            crate::bytes::lemma_bytes_deep_view(c.key);
            if j < r@.len() {
                crate::bytes::lemma_bytes_deep_view(r@[j as int].key);
            }
        }
        r.insert(j, c);
        proof {
            lemma_insert_pos(c.deep_view(), prevr);
            let p = insert_pos(c.deep_view(), prevr);
            assert(j == p) by {
                if j < p {
                    assert(lex_leq(prevr[j as int].key, c.deep_view().key));
                } else if p < j {
                    assert(!lex_leq(prevr[p].key, c.deep_view().key));
                    assert(lex_leq(prevr[p].key, c.deep_view().key));
                }
            }
            assert forall|t: int| 0 <= t < r.deep_view().len() implies r.deep_view()[t] == (
            prevr.take(p) + seq![c.deep_view()] + prevr.skip(p))[t] by {
                if t < p {
                } else if t == p {
                } else {
                }
            }
            assert(r.deep_view() =~= insert_sorted(c.deep_view(), prevr));
            assert(gv.take(i + 1).last() == gv[i]);
            assert(gv.take(i + 1).drop_last() =~= gv.take(i));
            assert(r.deep_view() == sort_spec(gv.take(i + 1)));
            i = i + 1;
        }
    }
    proof {
        assert(gv.take(gv.len() as int) =~= gv);
    }
    r
}

} // verus!
