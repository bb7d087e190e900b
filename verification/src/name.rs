//! File-name decomposition and sort-key normalization.
//!
//! A path's display name is its final path component (after the last `/`).
//! Its stem is the part of the display name before the first `.`; its
//! extension is the part after the last `.`, provided that dot is not the
//! leading byte of the name.  The sort key is the display name, ASCII
//! case-folded, with every byte of the configured strip set removed.

use vstd::prelude::*;

verus! {

pub const SLASH: u8 = 47;

pub const DOT: u8 = 46;

pub const NEWLINE: u8 = 10;

/// ASCII case folding of one byte: `A`..`Z` map to `a`..`z`, everything
/// else is unchanged.
pub open spec fn fold_byte(b: u8) -> u8 {
    if 65 <= b && b <= 90 {
        (b + 32) as u8
    } else {
        b
    }
}

/// Executable ASCII case folding of one byte.
pub fn fold_byte_exec(b: u8) -> (r: u8)
    ensures
        r == fold_byte(b),
{
    if 65 <= b && b <= 90 {
        b + 32
    } else {
        b
    }
}

/// The final path component: everything after the last `/`, or the whole
/// path if it has no `/`.
pub open spec fn basename_spec(p: Seq<u8>) -> Seq<u8>
    decreases p.len(),
{
    if p.len() == 0 {
        p
    } else if p.last() == SLASH {
        Seq::empty()
    } else {
        basename_spec(p.drop_last()).push(p.last())
    }
}

/// If nothing at or after position `j` is a `/`, and `j` is either the
/// start or just past a `/`, then the basename is the suffix from `j`.
proof fn lemma_basename_suffix(p: Seq<u8>, j: int)
    requires
        0 <= j <= p.len(),
        forall|k: int| j <= k < p.len() ==> p[k] != SLASH,
        j == 0 || p[j - 1] == SLASH,
    ensures
        basename_spec(p) =~= p.skip(j),
    decreases p.len(),
{
    if p.len() == j {
        if j > 0 {
            assert(p.last() == SLASH);
        }
    } else {
        lemma_basename_suffix(p.drop_last(), j);
        assert(basename_spec(p) =~= p.drop_last().skip(j).push(p.last()));
    }
}

/// Computes the final path component of `p`.
pub fn basename(p: &Vec<u8>) -> (r: Vec<u8>)
    ensures
        r@ == basename_spec(p@),
{
    let mut j: usize = p.len();
    while j > 0
        invariant
            0 <= j <= p@.len(),
            forall|k: int| j <= k < p@.len() ==> p@[k] != SLASH,
        ensures
            0 <= j <= p@.len(),
            forall|k: int| j <= k < p@.len() ==> p@[k] != SLASH,
            j == 0 || p@[j - 1] == SLASH,
        decreases j,
    {
        if p[j - 1] == SLASH {
            break;
        }
        j = j - 1;
    }
    proof {
        lemma_basename_suffix(p@, j as int);
    }
    let mut r: Vec<u8> = Vec::new();
    let mut i: usize = j;
    while i < p.len()
        invariant
            j <= i <= p@.len(),
            r@ =~= p@.subrange(j as int, i as int),
        decreases p@.len() - i,
    {
        r.push(p[i]);
        i = i + 1;
    }
    proof {
        assert(p@.subrange(j as int, p@.len() as int) =~= p@.skip(j as int));
    }
    r
}

/// The stem of a display name: everything before the first `.`, or the
/// whole name if it has no `.`.
pub open spec fn stem_spec(n: Seq<u8>) -> Seq<u8>
    decreases n.len(),
{
    if n.len() == 0 {
        n
    } else if n[0] == DOT {
        Seq::empty()
    } else {
        seq![n[0]] + stem_spec(n.drop_first())
    }
}

/// The byte string `sample`.
pub open spec fn sample_bytes() -> Seq<u8> {
    seq![115u8, 97u8, 109u8, 112u8, 108u8, 101u8]
}

/// Whether a display name is excluded because its case-folded stem is
/// `sample`.
pub open spec fn is_sample(n: Seq<u8>) -> bool {
    stem_spec(n).map_values(|b: u8| fold_byte(b)) == sample_bytes()
}

/// The case-folded stem of the prefix `n.take(j)`, provided no byte before
/// `j` is a `.`, is the fold of that prefix.
proof fn lemma_stem_prefix(n: Seq<u8>, j: int)
    requires
        0 <= j <= n.len(),
        forall|k: int| 0 <= k < j ==> n[k] != DOT,
        j == n.len() || n[j] == DOT,
    ensures
        stem_spec(n) =~= n.take(j),
    decreases j,
{
    if n.len() == 0 {
    } else if j == 0 {
    } else {
        lemma_stem_prefix(n.drop_first(), j - 1);
        assert(stem_spec(n) =~= seq![n[0]] + n.drop_first().take(j - 1));
    }
}

/// Decides whether the case-folded stem of `n` equals `sample`.
pub fn is_sample_name(n: &Vec<u8>) -> (r: bool)
    ensures
        r == is_sample(n@),
{
    let mut j: usize = 0;
    while j < n.len()
        invariant
            0 <= j <= n@.len(),
            forall|k: int| 0 <= k < j ==> n@[k] != DOT,
        ensures
            0 <= j <= n@.len(),
            forall|k: int| 0 <= k < j ==> n@[k] != DOT,
            j == n@.len() || n@[j as int] == DOT,
        decreases n@.len() - j,
    {
        if n[j] == DOT {
            break;
        }
        j = j + 1;
    }
    proof {
        lemma_stem_prefix(n@, j as int);
    }
    let sample: [u8; 6] = [115, 97, 109, 112, 108, 101];
    if j != 6 {
        proof {
            assert(stem_spec(n@).map_values(|b: u8| fold_byte(b)).len() == j);
        }
        return false;
    }
    let mut i: usize = 0;
    while i < 6
        invariant
            0 <= i <= 6,
            j == 6 <= n@.len(),
            stem_spec(n@) =~= n@.take(6),
            sample@ =~= sample_bytes(),
            forall|k: int| 0 <= k < i ==> fold_byte(n@[k]) == sample_bytes()[k],
        decreases 6 - i,
    {
        if fold_byte_exec(n[i]) != sample[i] {
            proof {
                let folded = stem_spec(n@).map_values(|b: u8| fold_byte(b));
                assert(folded[i as int] == fold_byte(n@[i as int]));
            }
            return false;
        }
        i = i + 1;
    }
    proof {
        let folded = stem_spec(n@).map_values(|b: u8| fold_byte(b));
        assert(folded =~= sample_bytes());
    }
    true
}

/// The extension of a display name, with the platform's meaning: the part
/// after the last `.`, where a dot in leading position does not count.
/// `None` when the name has no such dot; `Some(empty)` when the name ends
/// in a qualifying dot.
pub open spec fn extension_spec(n: Seq<u8>) -> Option<Seq<u8>>
    decreases n.len(),
{
    if n.len() <= 1 {
        None
    } else if n.last() == DOT {
        Some(Seq::empty())
    } else {
        match extension_spec(n.drop_last()) {
            Some(e) => Some(e.push(n.last())),
            None => None,
        }
    }
}

/// If the last `.` of `n` stands at position `i >= 1`, the extension is the
/// suffix after it.
proof fn lemma_extension_at(n: Seq<u8>, i: int)
    requires
        1 <= i < n.len(),
        n[i] == DOT,
        forall|k: int| i < k < n.len() ==> n[k] != DOT,
    ensures
        extension_spec(n) matches Some(e) && e =~= n.skip(i + 1),
    decreases n.len(),
{
    if i == n.len() - 1 {
        assert(extension_spec(n) == Some(Seq::<u8>::empty()));
    } else {
        lemma_extension_at(n.drop_last(), i);
        let e0 = extension_spec(n.drop_last()).unwrap();
        assert(e0.push(n.last()) =~= n.skip(i + 1));
    }
}

/// A name with no `.` at any position `>= 1` has no extension.
proof fn lemma_extension_none(n: Seq<u8>)
    requires
        forall|k: int| 1 <= k < n.len() ==> n[k] != DOT,
    ensures
        extension_spec(n) is None,
    decreases n.len(),
{
    if n.len() > 1 {
        lemma_extension_none(n.drop_last());
    }
}

/// Computes the extension of a display name.
pub fn extension_of(n: &Vec<u8>) -> (r: Option<Vec<u8>>)
    ensures
        match r {
            Some(e) => extension_spec(n@) matches Some(s) && s == e@,
            None => extension_spec(n@) is None,
        },
{
    let mut j: usize = n.len();
    while j > 1
        invariant
            0 <= j <= n@.len(),
            forall|k: int| j <= k < n@.len() ==> n@[k] != DOT,
        ensures
            0 <= j <= n@.len(),
            forall|k: int| j <= k < n@.len() ==> n@[k] != DOT,
            j <= 1 || n@[j - 1] == DOT,
        decreases j,
    {
        if n[j - 1] == DOT {
            break;
        }
        j = j - 1;
    }
    if j <= 1 || n[j - 1] != DOT {
        proof {
            lemma_extension_none(n@);
        }
        return None;
    }
    proof {
        lemma_extension_at(n@, j - 1);
    }
    let mut e: Vec<u8> = Vec::new();
    let mut i: usize = j;
    while i < n.len()
        invariant
            j <= i <= n@.len(),
            e@ =~= n@.subrange(j as int, i as int),
        decreases n@.len() - i,
    {
        e.push(n[i]);
        i = i + 1;
    }
    proof {
        assert(n@.subrange(j as int, n@.len() as int) =~= n@.skip(j as int));
    }
    Some(e)
}

/// The normalized sort key of a display name under a strip set: the name is
/// ASCII case-folded, then exactly the bytes of the strip set are removed.
pub open spec fn normalize_spec(n: Seq<u8>, strip: Seq<u8>) -> Seq<u8> {
    n.map_values(|b: u8| fold_byte(b)).filter(|b: u8| !strip.contains(b))
}

/// Filtering a sequence extended by one element keeps the filtered prefix
/// and appends the element exactly when it satisfies the predicate.
pub proof fn lemma_seq_filter_push<A>(s: Seq<A>, x: A, pred: spec_fn(A) -> bool)
    ensures
        s.push(x).filter(pred) == if pred(x) {
            s.filter(pred).push(x)
        } else {
            s.filter(pred)
        },
{
    reveal(Seq::filter);
    assert(s.push(x).drop_last() =~= s);
    if pred(x) {
        assert(s.push(x).filter(pred) =~= s.filter(pred).push(x));
    }
}

proof fn lemma_normalize_step(n: Seq<u8>, strip: Seq<u8>, i: int)
    requires
        0 <= i < n.len(),
    ensures
        normalize_spec(n.take(i + 1), strip) == if !strip.contains(fold_byte(n[i])) {
            normalize_spec(n.take(i), strip).push(fold_byte(n[i]))
        } else {
            normalize_spec(n.take(i), strip)
        },
{
    let f = |b: u8| fold_byte(b);
    let pred = |b: u8| !strip.contains(b);
    assert(n.take(i + 1) =~= n.take(i).push(n[i]));
    assert(n.take(i).push(n[i]).map_values(f) =~= n.take(i).map_values(f).push(f(n[i])));
    lemma_seq_filter_push(n.take(i).map_values(f), f(n[i]), pred);
}

/// Computes the normalized sort key of `n` under the strip set `strip`.
pub fn normalize(n: &Vec<u8>, strip: &Vec<u8>) -> (r: Vec<u8>)
    ensures
        r@ == normalize_spec(n@, strip@),
{
    let mut r: Vec<u8> = Vec::new();
    proof {
        assert(n@.take(0).map_values(|b: u8| fold_byte(b)) =~= Seq::<u8>::empty());
        reveal(Seq::filter);
    }
    let mut i: usize = 0;
    while i < n.len()
        invariant
            0 <= i <= n@.len(),
            r@ == normalize_spec(n@.take(i as int), strip@),
        decreases n@.len() - i,
    {
        let b = fold_byte_exec(n[i]);
        proof {
            lemma_normalize_step(n@, strip@, i as int);
        }
        if !crate::bytes::contains_byte(strip, b) {
            r.push(b);
        }
        i = i + 1;
    }
    proof {
        assert(n@.take(n@.len() as int) =~= n@);
    }
    r
}

} // verus!
