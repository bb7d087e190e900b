//! The collector: a worklist-driven walk over directory listings.
//!
//! The walk itself is a state machine.  The caller owns the filesystem: it
//! pops the next pending directory with [`Walk::next_dir`], reads that
//! directory's entries, and hands them back through [`Walk::record_dir`],
//! which files every admitted regular file as a candidate and queues every
//! subdirectory.  A root that is not a directory refuses the whole walk up
//! front with [`Error::Configuration`], before any traversal.

use vstd::prelude::*;

use crate::Error;
use crate::name::basename;
use crate::name::basename_spec;
use crate::name::extension_of;
use crate::name::extension_spec;
use crate::name::is_sample;
use crate::name::is_sample_name;
use crate::name::normalize;
use crate::name::normalize_spec;
use crate::bytes::bytes_eq;
use crate::bytes::copy_bytes;
use crate::bytes::lemma_bytes_deep_view;

verus! {

/// The read-only configuration of the collector: an optional extension
/// allow-set (`None` means every extension is admitted) and the set of
/// bytes the normalizer strips from sort keys.
pub struct Config {
    pub extensions: Option<Vec<Vec<u8>>>,
    pub strip_chars: Vec<u8>,
}

/// The mathematical model of a [`Config`].
#[verifier::ext_equal]
pub ghost struct ConfigModel {
    pub extensions: Option<Seq<Seq<u8>>>,
    pub strip_chars: Seq<u8>,
}

impl DeepView for Config {
    type V = ConfigModel;

    open spec fn deep_view(&self) -> ConfigModel {
        ConfigModel {
            extensions: self.extensions.deep_view(),
            strip_chars: self.strip_chars.deep_view(),
        }
    }
}

/// One directory entry as the filesystem reports it: its full path and
/// whether it is itself a directory.
pub struct Entry {
    pub path: Vec<u8>,
    pub is_dir: bool,
}

/// The mathematical model of an [`Entry`].
#[verifier::ext_equal]
pub ghost struct EntryModel {
    pub path: Seq<u8>,
    pub is_dir: bool,
}

impl DeepView for Entry {
    type V = EntryModel;

    open spec fn deep_view(&self) -> EntryModel {
        EntryModel { path: self.path.deep_view(), is_dir: self.is_dir }
    }
}

/// One discovered file: its full path, its display name (the final path
/// component) and its normalized sort key.
pub struct Candidate {
    pub path: Vec<u8>,
    pub display: Vec<u8>,
    pub key: Vec<u8>,
}

/// The mathematical model of a [`Candidate`].
#[verifier::ext_equal]
pub ghost struct CandidateModel {
    pub path: Seq<u8>,
    pub display: Seq<u8>,
    pub key: Seq<u8>,
}

impl DeepView for Candidate {
    type V = CandidateModel;

    open spec fn deep_view(&self) -> CandidateModel {
        CandidateModel {
            path: self.path.deep_view(),
            display: self.display.deep_view(),
            key: self.key.deep_view(),
        }
    }
}

/// Whether the extension `e` is a member of the allow-set `exts`
/// (case-sensitive exact match).
pub open spec fn ext_allowed(e: Seq<u8>, exts: Seq<Seq<u8>>) -> bool {
    exists|i: int| 0 <= i < exts.len() && exts[i] == e
}

/// Whether a file at `path` belongs in the candidate set: its case-folded
/// stem is not `sample`, and, when an allow-set is configured, its
/// extension is a member of it.
pub open spec fn admitted(path: Seq<u8>, cfg: ConfigModel) -> bool {
    let name = basename_spec(path);
    &&& !is_sample(name)
    &&& match cfg.extensions {
        Some(exts) => extension_spec(name) matches Some(e) && ext_allowed(e, exts),
        None => true,
    }
}

/// The candidate a path gives rise to under a configuration.
pub open spec fn candidate_model(path: Seq<u8>, cfg: ConfigModel) -> CandidateModel {
    CandidateModel {
        path: path,
        display: basename_spec(path),
        key: normalize_spec(basename_spec(path), cfg.strip_chars),
    }
}

/// The candidates one directory listing contributes, in entry order:
/// exactly its admitted regular files.
pub open spec fn collect_entries(entries: Seq<EntryModel>, cfg: ConfigModel) -> Seq<
    CandidateModel,
> {
    entries.filter(|e: EntryModel| !e.is_dir && admitted(e.path, cfg)).map_values(
        |e: EntryModel| candidate_model(e.path, cfg),
    )
}

/// The subdirectories one directory listing queues, in entry order.
pub open spec fn subdir_paths(entries: Seq<EntryModel>) -> Seq<Seq<u8>> {
    entries.filter(|e: EntryModel| e.is_dir).map_values(|e: EntryModel| e.path)
}

/// Every element of a filtered sequence comes from the sequence.
proof fn lemma_filter_elements<A>(s: Seq<A>, pred: spec_fn(A) -> bool)
    ensures
        forall|j: int|
            0 <= j < s.filter(pred).len() ==> s.contains(#[trigger] s.filter(pred)[j]),
    decreases s.len(),
{
    reveal(Seq::filter);
    if s.len() > 0 {
        lemma_filter_elements(s.drop_last(), pred);
        assert forall|j: int| 0 <= j < s.filter(pred).len() implies s.contains(
            #[trigger] s.filter(pred)[j],
        ) by {
            if j < s.drop_last().filter(pred).len() {
                let x = s.drop_last().filter(pred)[j];
                let t = choose|t: int| 0 <= t < s.drop_last().len() && s.drop_last()[t] == x;
                assert(s[t] == x);
            } else {
                assert(s.filter(pred)[j] == s.last());
            }
        }
    }
}

/// Whether a candidate is the one some admitted regular file of the
/// listing gives rise to.
pub open spec fn candidate_from(entries: Seq<EntryModel>, cfg: ConfigModel, c: CandidateModel) -> bool {
    exists|k: int|
        0 <= k < entries.len() && !entries[k].is_dir && admitted(entries[k].path, cfg) && c
            == candidate_model(entries[k].path, cfg)
}

/// The candidate set is exact: a directory listing contributes a candidate
/// if and only if one of its entries is a regular file that passes the
/// extension filter and the `sample` exclusion — no more, no fewer, and
/// each candidate is the one its path gives rise to.
pub proof fn lemma_collect_exact(entries: Seq<EntryModel>, cfg: ConfigModel)
    ensures
        forall|j: int|
            0 <= j < collect_entries(entries, cfg).len() ==> candidate_from(
                entries,
                cfg,
                #[trigger] collect_entries(entries, cfg)[j],
            ),
        forall|k: int|
            0 <= k < entries.len() && !(#[trigger] entries[k]).is_dir && admitted(
                entries[k].path,
                cfg,
            ) ==> collect_entries(entries, cfg).contains(candidate_model(entries[k].path, cfg)),
{
    broadcast use vstd::seq_lib::group_filter_ensures;

    let pred = |e: EntryModel| !e.is_dir && admitted(e.path, cfg);
    let f = |e: EntryModel| candidate_model(e.path, cfg);
    let kept = entries.filter(pred);
    lemma_filter_elements(entries, pred);
    assert forall|j: int| 0 <= j < collect_entries(entries, cfg).len() implies candidate_from(
        entries,
        cfg,
        #[trigger] collect_entries(entries, cfg)[j],
    ) by {
        assert(entries.contains(kept[j]));
        let k = choose|k: int| 0 <= k < entries.len() && entries[k] == kept[j];
        assert(pred(kept[j]));
        assert(collect_entries(entries, cfg)[j] == f(kept[j]));
        assert(collect_entries(entries, cfg)[j] == candidate_model(entries[k].path, cfg));
    }
    assert forall|k: int|
        0 <= k < entries.len() && !(#[trigger] entries[k]).is_dir && admitted(
            entries[k].path,
            cfg,
        ) implies collect_entries(entries, cfg).contains(candidate_model(entries[k].path, cfg)) by {
        assert(pred(entries[k]));
        assert(kept.contains(entries[k]));
        let j = choose|j: int| 0 <= j < kept.len() && kept[j] == entries[k];
        assert(collect_entries(entries, cfg)[j] == f(kept[j]));
        assert(collect_entries(entries, cfg)[j] == candidate_model(entries[k].path, cfg));
    }
}

/// Decides [`admitted`] for a path.
#[verifier::loop_isolation(false)]
pub fn file_admitted(path: &Vec<u8>, cfg: &Config) -> (r: bool)
    ensures
        r == admitted(path.deep_view(), cfg.deep_view()),
{
    proof {
        lemma_bytes_deep_view(*path);
    }
    let name = basename(path);
    if is_sample_name(&name) {
        return false;
    }
    match &cfg.extensions {
        Option::None => true,
        Option::Some(exts) => {
            match extension_of(&name) {
                Option::None => false,
                Option::Some(e) => {
                    let mut i: usize = 0;
                    let ghost gexts = exts.deep_view();
                    proof {
                        assert(cfg.deep_view().extensions == Some(gexts));
                    }
                    while i < exts.len()
                        invariant
                            0 <= i <= exts@.len(),
                            gexts == exts.deep_view(),
                            forall|k: int| 0 <= k < i ==> gexts[k] != e@,
                        decreases exts@.len() - i,
                    {
                        proof {
                            lemma_bytes_deep_view(exts@[i as int]);
                            assert(gexts[i as int] == exts@[i as int]@);
                        }
                        if bytes_eq(&exts[i], &e) {
                            proof {
                                assert(gexts[i as int] == e@);
                                assert(ext_allowed(e@, gexts));
                            }
                            return true;
                        }
                        i = i + 1;
                    }
                    proof {
                        assert(!ext_allowed(e@, gexts));
                    }
                    false
                },
            }
        },
    }
}

/// Builds the candidate a file path gives rise to.
pub fn make_candidate(path: Vec<u8>, cfg: &Config) -> (c: Candidate)
    ensures
        c.deep_view() == candidate_model(path.deep_view(), cfg.deep_view()),
{
    proof {
        lemma_bytes_deep_view(path);
        lemma_bytes_deep_view(cfg.strip_chars);
    }
    let display = basename(&path);
    let key = normalize(&display, &cfg.strip_chars);
    let c = Candidate { path, display, key };
    proof {
        lemma_bytes_deep_view(c.path);
        lemma_bytes_deep_view(c.display);
        lemma_bytes_deep_view(c.key);
    }
    c
}

/// The walk state: directories still to read, and the candidates found so
/// far, in discovery order.
pub struct Walk {
    pub pending: Vec<Vec<u8>>,
    pub found: Vec<Candidate>,
}

impl Walk {
    /// Starts a walk over the given roots.  Each root comes with the
    /// filesystem's answer to "is this a directory"; any root that is not
    /// one refuses the whole walk with a configuration error, with no
    /// traversal performed.  On success the pending worklist holds exactly
    /// the root paths and nothing has been collected yet.
    pub fn begin(roots: Vec<Entry>) -> (r: Result<Walk, Error>)
        ensures
            match r {
                Ok(w) => {
                    &&& forall|i: int|
                        0 <= i < roots.deep_view().len() ==> roots.deep_view()[i].is_dir
                    &&& w.pending.deep_view() == roots.deep_view().map_values(
                        |e: EntryModel| e.path,
                    )
                    &&& w.found.deep_view() == Seq::<CandidateModel>::empty()
                },
                Err(e) => {
                    &&& e == Error::Configuration
                    &&& exists|i: int|
                        0 <= i < roots.deep_view().len() && !roots.deep_view()[i].is_dir
                },
            },
    {
        let mut pending: Vec<Vec<u8>> = Vec::new();
        let mut i: usize = 0;
        while i < roots.len()
            invariant
                0 <= i <= roots@.len(),
                forall|k: int| 0 <= k < i ==> roots.deep_view()[k].is_dir,
                pending.deep_view() =~= roots.deep_view().take(i as int).map_values(
                    |e: EntryModel| e.path,
                ),
            decreases roots@.len() - i,
        {
            if !roots[i].is_dir {
                proof {
                    assert(!roots.deep_view()[i as int].is_dir);
                }
                return Err(Error::Configuration);
            }
            let ghost prev = pending.deep_view();
            let p = copy_bytes(&roots[i].path);
            proof {
                lemma_bytes_deep_view(p);
                lemma_bytes_deep_view(roots@[i as int].path);
            }
            pending.push(p);
            proof {
                assert forall|k: int| 0 <= k < prev.len() implies pending.deep_view()[k] == prev[k]
                by {
                }
                assert(pending.deep_view() =~= prev.push(roots@[i as int].path@));
                assert(pending.deep_view() =~= roots.deep_view().take(i + 1).map_values(
                    |e: EntryModel| e.path,
                ));
            }
            i = i + 1;
        }
        proof {
            assert(roots.deep_view().take(roots@.len() as int) =~= roots.deep_view());
        }
        let w = Walk { pending, found: Vec::new() };
        proof {
            assert(w.found.deep_view() =~= Seq::<CandidateModel>::empty());
        }
        Ok(w)
    }

    /// Pops the next pending directory, or reports that the walk is done.
    pub fn next_dir(&mut self) -> (r: Option<Vec<u8>>)
        ensures
            old(self).pending@.len() == 0 ==> {
                &&& r is None
                &&& final(self).pending.deep_view() == old(self).pending.deep_view()
                &&& final(self).found.deep_view() == old(self).found.deep_view()
            },
            old(self).pending@.len() > 0 ==> {
                &&& r matches Some(d) && d.deep_view() == old(self).pending.deep_view().last()
                &&& final(self).pending.deep_view() == old(self).pending.deep_view().drop_last()
                &&& final(self).found.deep_view() == old(self).found.deep_view()
            },
    {
        let r = self.pending.pop();
        proof {
            if old(self).pending@.len() > 0 {
                assert(self.pending.deep_view() =~= old(self).pending.deep_view().drop_last());
            }
        }
        r
    }

    /// Records one directory listing: queues every subdirectory onto the
    /// pending worklist and appends a candidate for exactly the admitted
    /// regular files, both in entry order.
    #[verifier::loop_isolation(false)]
    pub fn record_dir(&mut self, entries: Vec<Entry>, cfg: &Config)
        ensures
            final(self).pending.deep_view() == old(self).pending.deep_view() + subdir_paths(
                entries.deep_view(),
            ),
            final(self).found.deep_view() == old(self).found.deep_view() + collect_entries(
                entries.deep_view(),
                cfg.deep_view(),
            ),
    {
        let ghost gentries = entries.deep_view();
        let ghost gcfg = cfg.deep_view();
        let ghost dir_pred = |e: EntryModel| e.is_dir;
        let ghost file_pred = |e: EntryModel| !e.is_dir && admitted(e.path, gcfg);
        let mut entries = entries;
        let mut i: usize = 0;
        proof {
            assert(gentries.take(0).filter(dir_pred) =~= Seq::<EntryModel>::empty());
            assert(gentries.take(0).filter(file_pred) =~= Seq::<EntryModel>::empty());
            assert(self.pending.deep_view() =~= old(self).pending.deep_view() + subdir_paths(
                gentries.take(0),
            ));
            assert(self.found.deep_view() =~= old(self).found.deep_view() + collect_entries(
                gentries.take(0),
                gcfg,
            ));
        }
        while i < entries.len()
            invariant
                0 <= i <= entries@.len(),
                entries.deep_view() == gentries,
                self.pending.deep_view() == old(self).pending.deep_view() + subdir_paths(
                    gentries.take(i as int),
                ),
                self.found.deep_view() == old(self).found.deep_view() + collect_entries(
                    gentries.take(i as int),
                    gcfg,
                ),
            decreases entries@.len() - i,
        {
            proof {
                assert(gentries.take(i + 1) =~= gentries.take(i as int).push(gentries[i as int]));
                crate::name::lemma_seq_filter_push(gentries.take(i as int), gentries[i as int],
                    dir_pred);
                crate::name::lemma_seq_filter_push(gentries.take(i as int), gentries[i as int],
                    file_pred);
            }
            let is_dir = entries[i].is_dir;
            let path = copy_bytes(&entries[i].path);
            proof {
                lemma_bytes_deep_view(entries@[i as int].path);
                lemma_bytes_deep_view(path);
            }
            if is_dir {
                let ghost prevp = self.pending.deep_view();
                self.pending.push(path);
                proof {
                    assert(subdir_paths(gentries.take(i + 1)) =~~= subdir_paths(
                        gentries.take(i as int),
                    ).push(gentries[i as int].path));
                    assert forall|k: int| 0 <= k < prevp.len() implies self.pending.deep_view()[k]
                        == prevp[k] by {}
                    assert(self.pending.deep_view() =~= prevp.push(gentries[i as int].path));
                    assert(self.pending.deep_view() =~= old(self).pending.deep_view()
                        + subdir_paths(gentries.take(i + 1)));
                    assert(collect_entries(gentries.take(i + 1), gcfg) =~~= collect_entries(
                        gentries.take(i as int),
                        gcfg,
                    ));
                }
            } else {
                if file_admitted(&path, cfg) {
                    proof {
                        assert(admitted(gentries[i as int].path, gcfg));
                        assert(file_pred(gentries[i as int]));
                    }
                    let c = make_candidate(path, cfg);
                    let ghost prevf = self.found.deep_view();
                    self.found.push(c);
                    proof {
                        assert(c.deep_view() == candidate_model(gentries[i as int].path, gcfg));
                        assert(collect_entries(gentries.take(i + 1), gcfg) =~~= collect_entries(
                            gentries.take(i as int),
                            gcfg,
                        ).push(candidate_model(gentries[i as int].path, gcfg)));
                        assert forall|k: int| 0 <= k < prevf.len() implies self.found.deep_view()[k]
                            == prevf[k] by {}
                        assert(self.found.deep_view() =~= prevf.push(c.deep_view()));
                        assert(self.found.deep_view() =~= old(self).found.deep_view()
                            + collect_entries(gentries.take(i + 1), gcfg));
                        assert(subdir_paths(gentries.take(i + 1)) =~~= subdir_paths(
                            gentries.take(i as int),
                        ));
                    }
                } else {
                    proof {
                        assert(!file_pred(gentries[i as int]));
                        assert(collect_entries(gentries.take(i + 1), gcfg) =~~= collect_entries(
                            gentries.take(i as int),
                            gcfg,
                        ));
                        assert(subdir_paths(gentries.take(i + 1)) =~~= subdir_paths(
                            gentries.take(i as int),
                        ));
                    }
                }
            }
            i = i + 1;
        }
        proof {
            assert(gentries.take(gentries.len() as int) =~= gentries);
        }
    }
}

} // verus!
