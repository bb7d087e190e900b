//! The selection mapping and the launch decision.
//!
//! While the display names stream to the selector, a mapping from display
//! name to full path is built; when two files collide on one display name
//! the later insertion wins.  The selector's captured output then decides
//! the rest of the pipeline: empty output is a cancel, otherwise exactly
//! one trailing newline is stripped and the chosen name is resolved
//! through the mapping — a name the mapping does not know is a lookup
//! error and launches nothing.

use vstd::prelude::*;

use crate::Error;
use crate::bytes::bytes_eq;
use crate::bytes::copy_bytes;
use crate::bytes::lemma_bytes_deep_view;
use crate::collect::Candidate;
use crate::collect::CandidateModel;
use crate::name::NEWLINE;

verus! {

/// The mathematical content of an association list, later pairs
/// overwriting earlier ones.
pub open spec fn assoc_view(s: Seq<(Seq<u8>, Seq<u8>)>) -> Map<Seq<u8>, Seq<u8>>
    decreases s.len(),
{
    if s.len() == 0 {
        Map::empty()
    } else {
        assoc_view(s.drop_last()).insert(s.last().0, s.last().1)
    }
}

/// The mapping from display name to full path, with the last writer
/// winning on a collision.
pub struct SelectionMap {
    pub entries: Vec<(Vec<u8>, Vec<u8>)>,
}

impl View for SelectionMap {
    type V = Map<Seq<u8>, Seq<u8>>;

    open spec fn view(&self) -> Map<Seq<u8>, Seq<u8>> {
        assoc_view(self.entries.deep_view())
    }
}

/// The mapping a candidate sequence gives rise to, in order: each
/// candidate's display name maps to its full path, and on a collision the
/// later candidate wins.
pub open spec fn map_of(cands: Seq<CandidateModel>) -> Map<Seq<u8>, Seq<u8>>
    decreases cands.len(),
{
    if cands.len() == 0 {
        Map::empty()
    } else {
        map_of(cands.drop_last()).insert(cands.last().display, cands.last().path)
    }
}

impl SelectionMap {
    /// An empty mapping.
    pub fn new() -> (m: SelectionMap)
        ensures
            m@ == Map::<Seq<u8>, Seq<u8>>::empty(),
    {
        let m = SelectionMap { entries: Vec::new() };
        proof {
            assert(m.entries.deep_view() =~= Seq::<(Seq<u8>, Seq<u8>)>::empty());
        }
        m
    }

    /// Binds a display name to a path, overwriting any earlier binding.
    pub fn insert(&mut self, display: Vec<u8>, path: Vec<u8>)
        ensures
            final(self)@ == old(self)@.insert(display@, path@),
    {
        let ghost prev = self.entries.deep_view();
        proof {
            lemma_bytes_deep_view(display);
            lemma_bytes_deep_view(path);
        }
        self.entries.push((display, path));
        proof {
            assert forall|k: int| 0 <= k < prev.len() implies self.entries.deep_view()[k]
                == prev[k] by {}
            assert(self.entries.deep_view().drop_last() =~= prev);
        }
    }

    /// Looks a display name up, scanning for its latest binding.
    pub fn get(&self, display: &Vec<u8>) -> (r: Option<&Vec<u8>>)
        ensures
            match r {
                Some(p) => self@.contains_key(display@) && p@ == self@[display@],
                None => !self@.contains_key(display@),
            },
    {
        let mut i: usize = self.entries.len();
        let ghost gentries = self.entries.deep_view();
        while i > 0
            invariant
                0 <= i <= gentries.len(),
                gentries == self.entries.deep_view(),
                gentries.len() == self.entries@.len(),
                forall|k: int| i <= k < gentries.len() ==> gentries[k].0 != display.deep_view(),
            decreases i,
        {
            proof {
                lemma_bytes_deep_view(*display);
                lemma_bytes_deep_view(self.entries@[i - 1].0);
            }
            if bytes_eq(&self.entries[i - 1].0, display) {
                proof {
                    lemma_assoc_view_found(gentries, i - 1, display.deep_view());
                    lemma_bytes_deep_view(self.entries@[i - 1].1);
                }
                return Some(&self.entries[i - 1].1);
            }
            i = i - 1;
        }
        proof {
            lemma_bytes_deep_view(*display);
            lemma_assoc_view_missing(gentries, display.deep_view());
        }
        None
    }
}

/// If position `i` binds the key and nothing after it does, the
/// association list's content maps the key to that position's value.
proof fn lemma_assoc_view_found(s: Seq<(Seq<u8>, Seq<u8>)>, i: int, key: Seq<u8>)
    requires
        0 <= i < s.len(),
        s[i].0 == key,
        forall|k: int| i < k < s.len() ==> s[k].0 != key,
    ensures
        assoc_view(s).contains_key(key),
        assoc_view(s)[key] == s[i].1,
    decreases s.len(),
{
    if i < s.len() - 1 {
        lemma_assoc_view_found(s.drop_last(), i, key);
    }
}

/// A key no position binds is not in the association list's content.
proof fn lemma_assoc_view_missing(s: Seq<(Seq<u8>, Seq<u8>)>, key: Seq<u8>)
    requires
        forall|k: int| 0 <= k < s.len() ==> s[k].0 != key,
    ensures
        !assoc_view(s).contains_key(key),
    decreases s.len(),
{
    if s.len() > 0 {
        lemma_assoc_view_missing(s.drop_last(), key);
    }
}

/// Builds the selection mapping of a candidate sequence, in order.
pub fn map_of_candidates(cands: &Vec<Candidate>) -> (m: SelectionMap)
    ensures
        m@ == map_of(cands.deep_view()),
{
    let ghost gcands = cands.deep_view();
    let mut m = SelectionMap::new();
    let mut i: usize = 0;
    proof {
        assert(m@ =~~= map_of(gcands.take(0)));
    }
    while i < cands.len()
        invariant
            0 <= i <= gcands.len(),
            gcands == cands.deep_view(),
            gcands.len() == cands@.len(),
            m@ == map_of(gcands.take(i as int)),
        decreases gcands.len() - i,
    {
        let display = copy_bytes(&cands[i].display);
        let path = copy_bytes(&cands[i].path);
        proof {
            lemma_bytes_deep_view(display);
            lemma_bytes_deep_view(path);
            lemma_bytes_deep_view(cands@[i as int].display);
            lemma_bytes_deep_view(cands@[i as int].path);
        }
        m.insert(display, path);
        proof {
            assert(gcands.take(i + 1).drop_last() =~= gcands.take(i as int));
            assert(gcands.take(i + 1).last() == gcands[i as int]);
            assert(m@ =~~= map_of(gcands.take(i + 1)));
        }
        i = i + 1;
    }
    proof {
        assert(gcands.take(gcands.len() as int) =~= gcands);
    }
    m
}

/// The chosen display name inside the selector's non-empty output:
/// exactly one trailing newline is stripped.
pub open spec fn chomp_spec(out: Seq<u8>) -> Seq<u8> {
    if out.len() > 0 && out.last() == NEWLINE {
        out.drop_last()
    } else {
        out
    }
}

/// Strips exactly one trailing newline, if there is one.
pub fn chomp(out: &Vec<u8>) -> (r: Vec<u8>)
    ensures
        r@ == chomp_spec(out@),
{
    let mut r = copy_bytes(out);
    if r.len() > 0 {
        let last = r[r.len() - 1];
        if last == NEWLINE {
            let _ = r.pop();
            proof {
                assert(r@ =~= out@.drop_last());
            }
        }
    }
    r
}

/// What the pipeline does after the selector exits.
#[derive(Debug, PartialEq, Eq)]
pub enum Outcome {
    /// Start the player on this full path.
    Launch(Vec<u8>),
    /// The user cancelled the menu: launch nothing and end successfully.
    Cancel,
    /// Launch nothing and end with this error.
    Fail(Error),
}

/// Decides the rest of the pipeline from the selector's captured output.
/// Empty output is a cancel; otherwise the chosen name — the output with
/// exactly one trailing newline stripped — resolves through the mapping
/// to the path to launch, and a name with no binding is a lookup error.
pub fn decide(output: &Vec<u8>, map: &SelectionMap) -> (r: Outcome)
    ensures
        output@.len() == 0 ==> r is Cancel,
        output@.len() > 0 && map@.contains_key(chomp_spec(output@)) ==> (r matches Outcome::Launch(
            p,
        ) && p@ == map@[chomp_spec(output@)]),
        output@.len() > 0 && !map@.contains_key(chomp_spec(output@)) ==> r == Outcome::Fail(
            Error::Lookup,
        ),
{
    if output.len() == 0 {
        return Outcome::Cancel;
    }
    let chosen = chomp(output);
    match map.get(&chosen) {
        Option::Some(p) => Outcome::Launch(copy_bytes(p)),
        Option::None => Outcome::Fail(Error::Lookup),
    }
}

/// The round trip behind the selector: a candidate's display name, written
/// to the selector and echoed back with the selector's trailing newline,
/// chomps to the name itself, and the mapping resolves it to the full path
/// of the last discovered candidate carrying that display name.
pub proof fn lemma_round_trip(cands: Seq<CandidateModel>, i: int)
    requires
        0 <= i < cands.len(),
        forall|j: int| i < j < cands.len() ==> cands[j].display != cands[i].display,
    ensures
        chomp_spec(cands[i].display.push(NEWLINE)) == cands[i].display,
        map_of(cands).contains_key(cands[i].display),
        map_of(cands)[cands[i].display] == cands[i].path,
    decreases cands.len(),
{
    assert(cands[i].display.push(NEWLINE).drop_last() =~= cands[i].display);
    if i < cands.len() - 1 {
        lemma_round_trip(cands.drop_last(), i);
    }
}

} // verus!
