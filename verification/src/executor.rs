//! Conflict-aware executor. `ModelFs` is the executor's picture of a
//! directory: a finite map from paths to file identities. `apply_changes`
//! applies a change batch to it with lazy single-hop displacement — a file
//! standing at a rename destination is moved to an auxiliary path exactly
//! when its slot is needed, and found there again when its own turn comes —
//! and `Redirects` records those displacements. The same decision helpers
//! drive the executor that works on a real directory.

use vstd::prelude::*;
use vstd::string::*;
use crate::model::{
    change_views, change_source, change_target, is_source, str_eq, Change, ChangeModel,
    ErrorModel, QuirenError,
};

verus! {

/// The map described by a listing of path/value pairs; a later pair wins,
/// though the containers below keep their keys distinct.
spec fn pairs_map(ps: Seq<(String, u64)>) -> Map<Seq<char>, u64>
    decreases ps.len(),
{
    if ps.len() == 0 {
        Map::empty()
    } else {
        pairs_map(ps.drop_last()).insert(ps.last().0@, ps.last().1)
    }
}

spec fn distinct_keys(ps: Seq<(String, u64)>) -> bool {
    forall|i: int, j: int| 0 <= i < j < ps.len() ==> ps[i].0@ != ps[j].0@
}

proof fn lemma_pairs_map_contains(ps: Seq<(String, u64)>, q: Seq<char>)
    ensures
        pairs_map(ps).contains_key(q) <==> exists|i: int| 0 <= i < ps.len() && (#[trigger] ps[i]).0@
            == q,
    decreases ps.len(),
{
    if ps.len() > 0 {
        let ps0 = ps.drop_last();
        lemma_pairs_map_contains(ps0, q);
        assert(forall|i: int| 0 <= i < ps0.len() ==> #[trigger] ps0[i] == ps[i]);
        if pairs_map(ps).contains_key(q) && ps.last().0@ != q {
            let i = choose|i: int| 0 <= i < ps0.len() && (#[trigger] ps0[i]).0@ == q;
            assert(ps[i].0@ == q);
        }
        if ps.last().0@ == q {
            assert(ps[ps.len() - 1].0@ == q);
        }
        if exists|i: int| 0 <= i < ps.len() && (#[trigger] ps[i]).0@ == q {
            let i = choose|i: int| 0 <= i < ps.len() && (#[trigger] ps[i]).0@ == q;
            if i < ps.len() - 1 {
                assert(ps0[i].0@ == q);
            }
        }
    }
}

proof fn lemma_pairs_map_index(ps: Seq<(String, u64)>, i: int)
    requires
        distinct_keys(ps),
        0 <= i < ps.len(),
    ensures
        pairs_map(ps).contains_key(ps[i].0@),
        pairs_map(ps)[ps[i].0@] == ps[i].1,
    decreases ps.len(),
{
    lemma_pairs_map_contains(ps, ps[i].0@);
    if i < ps.len() - 1 {
        assert(forall|k: int|
            0 <= k < ps.drop_last().len() ==> #[trigger] ps.drop_last()[k] == ps[k]);
        lemma_pairs_map_index(ps.drop_last(), i);
        assert(ps.last().0@ != ps[i].0@);
    }
}

proof fn lemma_pairs_map_remove(ps: Seq<(String, u64)>, k: int)
    requires
        distinct_keys(ps),
        0 <= k < ps.len(),
    ensures
        pairs_map(ps.remove(k)) == pairs_map(ps).remove(ps[k].0@),
        distinct_keys(ps.remove(k)),
    decreases ps.len(),
{
    let key = ps[k].0@;
    assert(distinct_keys(ps.remove(k))) by {
        assert(forall|i: int|
            0 <= i < ps.remove(k).len() ==> #[trigger] ps.remove(k)[i] == (if i < k {
                ps[i]
            } else {
                ps[i + 1]
            }));
    }
    if k == ps.len() - 1 {
        assert(ps.remove(k) =~= ps.drop_last());
        lemma_pairs_map_contains(ps.drop_last(), key);
        assert(!pairs_map(ps.drop_last()).contains_key(key));
        assert(pairs_map(ps).remove(key) =~= pairs_map(ps.drop_last()));
    } else {
        let ps0 = ps.drop_last();
        assert(forall|i: int| 0 <= i < ps0.len() ==> #[trigger] ps0[i] == ps[i]);
        lemma_pairs_map_remove(ps0, k);
        assert(ps.remove(k).drop_last() =~= ps0.remove(k));
        assert(ps.remove(k).last() == ps.last());
        assert(pairs_map(ps.remove(k)) == pairs_map(ps0.remove(k)).insert(
            ps.last().0@,
            ps.last().1,
        ));
        assert(pairs_map(ps.remove(k)) == pairs_map(ps0).remove(key).insert(
            ps.last().0@,
            ps.last().1,
        ));
        assert(ps.last().0@ != key);
        assert(pairs_map(ps0).remove(key).insert(ps.last().0@, ps.last().1) =~= pairs_map(
            ps0,
        ).insert(ps.last().0@, ps.last().1).remove(key));
    }
}

/// A directory's contents as the executor sees them: each present path is
/// bound to the identity of the file standing there.
pub struct ModelFs {
    files: Vec<(String, u64)>,
}

impl View for ModelFs {
    type V = Map<Seq<char>, u64>;

    closed spec fn view(&self) -> Map<Seq<char>, u64> {
        pairs_map(self.files@)
    }
}

impl ModelFs {
    /// The container's own invariant: one binding per path.
    pub closed spec fn wf(&self) -> bool {
        distinct_keys(self.files@)
    }

    /// An empty directory.
    pub fn new() -> (r: ModelFs)
        ensures
            r@ == Map::<Seq<char>, u64>::empty(),
            r.wf(),
    {
        let r = ModelFs { files: Vec::new() };
        proof {
            assert(r@ =~= Map::<Seq<char>, u64>::empty());
        }
        r
    }

    #[verifier::loop_isolation(false)]
    fn find(&self, p: &str) -> (r: Option<usize>)
        ensures
            match r {
                Some(i) => i < self.files@.len() && self.files@[i as int].0@ == p@,
                None => forall|i: int|
                    0 <= i < self.files@.len() ==> (#[trigger] self.files@[i]).0@ != p@,
            },
    {
        let mut i: usize = 0;
        while i < self.files.len()
            invariant
                0 <= i <= self.files@.len(),
                forall|k: int| 0 <= k < i ==> (#[trigger] self.files@[k]).0@ != p@,
            decreases self.files@.len() - i,
        {
            if str_eq(self.files[i].0.as_str(), p) {
                return Some(i);
            }
            i += 1;
        }
        None
    }

    /// Whether a file currently stands at `p`.
    pub fn contains_path(&self, p: &str) -> (r: bool)
        ensures
            r == self@.contains_key(p@),
    {
        proof {
            lemma_pairs_map_contains(self.files@, p@);
        }
        match self.find(p) {
            Some(_) => true,
            None => false,
        }
    }

    /// The identity of the file at `p`, if one stands there.
    pub fn get_path(&self, p: &str) -> (r: Option<u64>)
        requires
            self.wf(),
        ensures
            match r {
                Some(v) => self@.contains_key(p@) && self@[p@] == v,
                None => !self@.contains_key(p@),
            },
    {
        proof {
            lemma_pairs_map_contains(self.files@, p@);
        }
        match self.find(p) {
            Some(i) => {
                proof {
                    lemma_pairs_map_index(self.files@, i as int);
                }
                Some(self.files[i].1)
            },
            None => None,
        }
    }

    /// Take the binding at `p` away, if there is one.
    pub fn remove_path(&mut self, p: &str)
        requires
            old(self).wf(),
        ensures
            final(self)@ == old(self)@.remove(p@),
            final(self).wf(),
    {
        proof {
            lemma_pairs_map_contains(self.files@, p@);
        }
        match self.find(p) {
            Some(i) => {
                proof {
                    lemma_pairs_map_remove(self.files@, i as int);
                }
                self.files.remove(i);
            },
            None => {
                proof {
                    assert(final(self)@ =~= old(self)@.remove(p@));
                }
            },
        }
    }

    /// Bind `p` to `id`, replacing any previous binding.
    pub fn insert_path(&mut self, p: &str, id: u64)
        requires
            old(self).wf(),
        ensures
            final(self)@ == old(self)@.insert(p@, id),
            final(self).wf(),
    {
        self.remove_path(p);
        let ghost mid = self.files@;
        proof {
            lemma_pairs_map_contains(mid, p@);
        }
        self.files.push((p.to_owned(), id));
        proof {
            assert(self.files@.drop_last() =~= mid);
            assert(pairs_map(self.files@) == pairs_map(mid).insert(p@, id));
            assert(pairs_map(mid).insert(p@, id) =~= old(self)@.insert(p@, id));
            assert(forall|i: int| 0 <= i < mid.len() ==> (#[trigger] mid[i]).0@ != p@);
        }
    }

    /// Move the file at `from` to `to`: `from` becomes free, `to` holds what
    /// `from` held, replacing whatever stood at `to`.
    pub fn rename_path(&mut self, from: &str, to: &str)
        requires
            old(self).wf(),
            old(self)@.contains_key(from@),
        ensures
            final(self)@ == old(self)@.remove(from@).insert(to@, old(self)@[from@]),
            final(self).wf(),
    {
        let id = self.get_path(from).unwrap();
        self.remove_path(from);
        self.insert_path(to, id);
    }

    /// How many files the directory holds.
    pub fn file_count(&self) -> (r: usize)
        requires
            self.wf(),
        ensures
            r == self@.dom().len(),
    {
        proof {
            lemma_pairs_map_len(self.files@);
        }
        self.files.len()
    }

    /// An identical, independent copy.
    #[verifier::loop_isolation(false)]
    pub fn duplicate(&self) -> (r: ModelFs)
        requires
            self.wf(),
        ensures
            r@ == self@,
            r.wf(),
    {
        let mut files: Vec<(String, u64)> = Vec::new();
        let mut i: usize = 0;
        while i < self.files.len()
            invariant
                0 <= i <= self.files@.len(),
                files@ =~= self.files@.take(i as int),
            decreases self.files@.len() - i,
        {
            files.push((self.files[i].0.clone(), self.files[i].1));
            proof {
                assert(files@ =~= self.files@.take(i + 1));
            }
            i += 1;
        }
        proof {
            assert(self.files@.take(self.files@.len() as int) =~= self.files@);
        }
        ModelFs { files }
    }
}

proof fn lemma_pairs_map_len(ps: Seq<(String, u64)>)
    requires
        distinct_keys(ps),
    ensures
        pairs_map(ps).dom().finite(),
        pairs_map(ps).dom().len() == ps.len(),
    decreases ps.len(),
{
    if ps.len() > 0 {
        let ps0 = ps.drop_last();
        assert(forall|i: int| 0 <= i < ps0.len() ==> #[trigger] ps0[i] == ps[i]);
        lemma_pairs_map_len(ps0);
        lemma_pairs_map_contains(ps0, ps.last().0@);
        assert(!pairs_map(ps0).contains_key(ps.last().0@));
        assert(pairs_map(ps).dom() =~= pairs_map(ps0).dom().insert(ps.last().0@));
    } else {
        assert(pairs_map(ps).dom() =~= Set::<Seq<char>>::empty());
    }
}

/// The same listing-as-map reading, for path/path pairs.
spec fn rpairs_map(ps: Seq<(String, String)>) -> Map<Seq<char>, Seq<char>>
    decreases ps.len(),
{
    if ps.len() == 0 {
        Map::empty()
    } else {
        rpairs_map(ps.drop_last()).insert(ps.last().0@, ps.last().1@)
    }
}

spec fn rdistinct_keys(ps: Seq<(String, String)>) -> bool {
    forall|i: int, j: int| 0 <= i < j < ps.len() ==> ps[i].0@ != ps[j].0@
}

proof fn lemma_rpairs_map_contains(ps: Seq<(String, String)>, q: Seq<char>)
    ensures
        rpairs_map(ps).contains_key(q) <==> exists|i: int|
            0 <= i < ps.len() && (#[trigger] ps[i]).0@ == q,
    decreases ps.len(),
{
    if ps.len() > 0 {
        let ps0 = ps.drop_last();
        lemma_rpairs_map_contains(ps0, q);
        assert(forall|i: int| 0 <= i < ps0.len() ==> #[trigger] ps0[i] == ps[i]);
        if rpairs_map(ps).contains_key(q) && ps.last().0@ != q {
            let i = choose|i: int| 0 <= i < ps0.len() && (#[trigger] ps0[i]).0@ == q;
            assert(ps[i].0@ == q);
        }
        if ps.last().0@ == q {
            assert(ps[ps.len() - 1].0@ == q);
        }
        if exists|i: int| 0 <= i < ps.len() && (#[trigger] ps[i]).0@ == q {
            let i = choose|i: int| 0 <= i < ps.len() && (#[trigger] ps[i]).0@ == q;
            if i < ps.len() - 1 {
                assert(ps0[i].0@ == q);
            }
        }
    }
}

proof fn lemma_rpairs_map_index(ps: Seq<(String, String)>, i: int)
    requires
        rdistinct_keys(ps),
        0 <= i < ps.len(),
    ensures
        rpairs_map(ps).contains_key(ps[i].0@),
        rpairs_map(ps)[ps[i].0@] == ps[i].1@,
    decreases ps.len(),
{
    lemma_rpairs_map_contains(ps, ps[i].0@);
    if i < ps.len() - 1 {
        assert(forall|k: int|
            0 <= k < ps.drop_last().len() ==> #[trigger] ps.drop_last()[k] == ps[k]);
        lemma_rpairs_map_index(ps.drop_last(), i);
        assert(ps.last().0@ != ps[i].0@);
    }
}

proof fn lemma_rpairs_map_remove(ps: Seq<(String, String)>, k: int)
    requires
        rdistinct_keys(ps),
        0 <= k < ps.len(),
    ensures
        rpairs_map(ps.remove(k)) == rpairs_map(ps).remove(ps[k].0@),
        rdistinct_keys(ps.remove(k)),
    decreases ps.len(),
{
    let key = ps[k].0@;
    assert(rdistinct_keys(ps.remove(k))) by {
        assert(forall|i: int|
            0 <= i < ps.remove(k).len() ==> #[trigger] ps.remove(k)[i] == (if i < k {
                ps[i]
            } else {
                ps[i + 1]
            }));
    }
    if k == ps.len() - 1 {
        assert(ps.remove(k) =~= ps.drop_last());
        lemma_rpairs_map_contains(ps.drop_last(), key);
        assert(!rpairs_map(ps.drop_last()).contains_key(key));
        assert(rpairs_map(ps).remove(key) =~= rpairs_map(ps.drop_last()));
    } else {
        let ps0 = ps.drop_last();
        assert(forall|i: int| 0 <= i < ps0.len() ==> #[trigger] ps0[i] == ps[i]);
        lemma_rpairs_map_remove(ps0, k);
        assert(ps.remove(k).drop_last() =~= ps0.remove(k));
        assert(ps.remove(k).last() == ps.last());
        assert(rpairs_map(ps.remove(k)) == rpairs_map(ps0.remove(k)).insert(
            ps.last().0@,
            ps.last().1@,
        ));
        assert(rpairs_map(ps.remove(k)) == rpairs_map(ps0).remove(key).insert(
            ps.last().0@,
            ps.last().1@,
        ));
        assert(ps.last().0@ != key);
        assert(rpairs_map(ps0).remove(key).insert(ps.last().0@, ps.last().1@) =~= rpairs_map(
            ps0,
        ).insert(ps.last().0@, ps.last().1@).remove(key));
    }
}

/// The displacements performed so far: each key is a rename destination whose
/// previous occupant now waits at the bound auxiliary path.
pub struct Redirects {
    pairs: Vec<(String, String)>,
}

impl View for Redirects {
    type V = Map<Seq<char>, Seq<char>>;

    closed spec fn view(&self) -> Map<Seq<char>, Seq<char>> {
        rpairs_map(self.pairs@)
    }
}

impl Redirects {
    /// The container's own invariant: one binding per displaced path.
    pub closed spec fn wf(&self) -> bool {
        rdistinct_keys(self.pairs@)
    }

    /// No displacement yet.
    pub fn new() -> (r: Redirects)
        ensures
            r@ == Map::<Seq<char>, Seq<char>>::empty(),
            r.wf(),
    {
        let r = Redirects { pairs: Vec::new() };
        proof {
            assert(r@ =~= Map::<Seq<char>, Seq<char>>::empty());
        }
        r
    }

    #[verifier::loop_isolation(false)]
    fn find_key(&self, p: &str) -> (r: Option<usize>)
        ensures
            match r {
                Some(i) => i < self.pairs@.len() && self.pairs@[i as int].0@ == p@,
                None => forall|i: int|
                    0 <= i < self.pairs@.len() ==> (#[trigger] self.pairs@[i]).0@ != p@,
            },
    {
        let mut i: usize = 0;
        while i < self.pairs.len()
            invariant
                0 <= i <= self.pairs@.len(),
                forall|k: int| 0 <= k < i ==> (#[trigger] self.pairs@[k]).0@ != p@,
            decreases self.pairs@.len() - i,
        {
            if str_eq(self.pairs[i].0.as_str(), p) {
                return Some(i);
            }
            i += 1;
        }
        None
    }

    fn remove_key(&mut self, p: &str)
        requires
            old(self).wf(),
        ensures
            final(self)@ == old(self)@.remove(p@),
            final(self).wf(),
    {
        proof {
            lemma_rpairs_map_contains(self.pairs@, p@);
        }
        match self.find_key(p) {
            Some(i) => {
                proof {
                    lemma_rpairs_map_remove(self.pairs@, i as int);
                }
                self.pairs.remove(i);
            },
            None => {
                proof {
                    assert(final(self)@ =~= old(self)@.remove(p@));
                }
            },
        }
    }

    /// Record that the occupant of `from` now waits at `aux`, replacing any
    /// earlier note about `from`.
    pub fn record(&mut self, from: &str, aux: &str)
        requires
            old(self).wf(),
        ensures
            final(self)@ == old(self)@.insert(from@, aux@),
            final(self).wf(),
    {
        self.remove_key(from);
        let ghost mid = self.pairs@;
        proof {
            lemma_rpairs_map_contains(mid, from@);
        }
        self.pairs.push((from.to_owned(), aux.to_owned()));
        proof {
            assert(self.pairs@.drop_last() =~= mid);
            assert(rpairs_map(self.pairs@) == rpairs_map(mid).insert(from@, aux@));
            assert(rpairs_map(mid).insert(from@, aux@) =~= old(self)@.insert(from@, aux@));
            assert(forall|i: int| 0 <= i < mid.len() ==> (#[trigger] mid[i]).0@ != from@);
        }
    }

    /// Where the file once at `p` stands now: its auxiliary path if it was
    /// displaced, otherwise `p` itself.
    #[verifier::loop_isolation(false)]
    pub fn resolve(&self, p: &str) -> (r: String)
        requires
            self.wf(),
        ensures
            r@ == if self@.contains_key(p@) {
                self@[p@]
            } else {
                p@
            },
    {
        let mut i: usize = 0;
        while i < self.pairs.len()
            invariant
                0 <= i <= self.pairs@.len(),
                forall|k: int| 0 <= k < i ==> (#[trigger] self.pairs@[k]).0@ != p@,
            decreases self.pairs@.len() - i,
        {
            if str_eq(self.pairs[i].0.as_str(), p) {
                proof {
                    lemma_rpairs_map_index(self.pairs@, i as int);
                }
                return self.pairs[i].1.clone();
            }
            i += 1;
        }
        proof {
            lemma_rpairs_map_contains(self.pairs@, p@);
        }
        p.to_owned()
    }
}

/// Whether the batch also renames away or deletes the file at `dest`, so
/// that displacing it cannot lose it.
#[verifier::loop_isolation(false)]
pub fn dest_in_changes(changes: &Vec<Change>, dest: &str) -> (r: bool)
    ensures
        r == is_source(change_views(changes@), dest@),
{
    let ghost all = change_views(changes@);
    let mut i: usize = 0;
    let mut found = false;
    while i < changes.len()
        invariant
            all == change_views(changes@),
            0 <= i <= changes@.len(),
            found <==> exists|j: int|
                0 <= j < i && change_source(#[trigger] all[j]) == dest@,
        decreases changes@.len() - i,
    {
        proof {
            assert(all[i as int] == changes@[i as int]@);
        }
        let s = match &changes[i] {
            Change::Rename { from, .. } => from.as_str(),
            Change::Delete { path } => path.as_str(),
        };
        if str_eq(s, dest) {
            found = true;
            proof {
                assert(change_source(all[i as int]) == dest@);
            }
        }
        i += 1;
    }
    found
}

/// What the executor must do for one rename, given whether its destination
/// is currently occupied.
#[derive(Clone, Copy, Debug, PartialEq, Eq, Structural)]
pub enum RenameDecision {
    Proceed,
    Displace,
    Overwrite,
}

/// Decide one rename against its destination's occupancy: a free destination
/// is taken directly; an occupied one whose file is itself renamed away or
/// deleted in the same batch is displaced first; any other occupant must not
/// be overwritten, so the rename stops.
pub fn decide_rename(changes: &Vec<Change>, dest: &str, dest_exists: bool) -> (r: RenameDecision)
    ensures
        r is Proceed <==> !dest_exists,
        r is Displace <==> dest_exists && is_source(change_views(changes@), dest@),
        r is Overwrite <==> dest_exists && !is_source(change_views(changes@), dest@),
{
    if !dest_exists {
        RenameDecision::Proceed
    } else if dest_in_changes(changes, dest) {
        RenameDecision::Displace
    } else {
        RenameDecision::Overwrite
    }
}

} // verus!

verus! {

/// The executor's meaning, one change at a time from index `i` on, with the
/// directory contents `fs`, the displacements `red`, and the auxiliary paths
/// `auxs` consumed from index `ai`: the contents when the run stops, and the
/// error that stopped it, if any. A rename whose occupied destination is not
/// itself a source stops with `Overwrite`; a displacement with no auxiliary
/// path left stops with `Tempfile`; a missing source file stops with
/// `IoError`.
pub open spec fn spec_apply(
    all: Seq<ChangeModel>,
    fs: Map<Seq<char>, u64>,
    red: Map<Seq<char>, Seq<char>>,
    i: int,
    auxs: Seq<Seq<char>>,
    ai: int,
) -> (Map<Seq<char>, u64>, Option<ErrorModel>)
    decreases all.len() - i,
{
    if i < 0 || i >= all.len() {
        (fs, None)
    } else {
        match all[i] {
            ChangeModel::Rename { from, to } => {
                if fs.contains_key(to) && !is_source(all, to) {
                    (fs, Some(ErrorModel::Overwrite(from, to)))
                } else if fs.contains_key(to) && ai >= auxs.len() {
                    (fs, Some(ErrorModel::Tempfile))
                } else {
                    let displaced = fs.contains_key(to);
                    let fs1 = if displaced {
                        fs.remove(to).insert(auxs[ai], fs[to])
                    } else {
                        fs
                    };
                    let red1 = if displaced {
                        red.insert(to, auxs[ai])
                    } else {
                        red
                    };
                    let ai1: int = if displaced {
                        ai + 1
                    } else {
                        ai
                    };
                    let src = if red1.contains_key(from) {
                        red1[from]
                    } else {
                        from
                    };
                    if !fs1.contains_key(src) {
                        (fs1, Some(ErrorModel::IoError))
                    } else {
                        spec_apply(all, fs1.remove(src).insert(to, fs1[src]), red1, i + 1, auxs, ai1)
                    }
                }
            },
            ChangeModel::Delete { path } => {
                if !fs.contains_key(path) {
                    (fs, Some(ErrorModel::IoError))
                } else {
                    spec_apply(all, fs.remove(path), red, i + 1, auxs, ai)
                }
            },
        }
    }
}

/// Auxiliary-budget law: resolving a batch takes at most one auxiliary path
/// per change — a file is displaced at most once, right before its slot is
/// needed — so a pool as large as the remaining batch never runs out, and
/// the run never stops with the allocation error.
pub proof fn lemma_aux_budget(
    all: Seq<ChangeModel>,
    fs: Map<Seq<char>, u64>,
    red: Map<Seq<char>, Seq<char>>,
    i: int,
    auxs: Seq<Seq<char>>,
    ai: int,
)
    requires
        0 <= ai,
        auxs.len() - ai >= all.len() - i,
    ensures
        spec_apply(all, fs, red, i, auxs, ai).1 != Some(ErrorModel::Tempfile),
    decreases all.len() - i,
{
    if 0 <= i < all.len() {
        match all[i] {
            ChangeModel::Rename { from, to } => {
                if fs.contains_key(to) && !is_source(all, to) {
                } else {
                    let displaced = fs.contains_key(to);
                    let fs1 = if displaced {
                        fs.remove(to).insert(auxs[ai], fs[to])
                    } else {
                        fs
                    };
                    let red1 = if displaced {
                        red.insert(to, auxs[ai])
                    } else {
                        red
                    };
                    let ai1: int = if displaced {
                        ai + 1
                    } else {
                        ai
                    };
                    let src = if red1.contains_key(from) {
                        red1[from]
                    } else {
                        from
                    };
                    if fs1.contains_key(src) {
                        lemma_aux_budget(
                            all,
                            fs1.remove(src).insert(to, fs1[src]),
                            red1,
                            i + 1,
                            auxs,
                            ai1,
                        );
                    }
                }
            },
            ChangeModel::Delete { path } => {
                if fs.contains_key(path) {
                    lemma_aux_budget(all, fs.remove(path), red, i + 1, auxs, ai);
                }
            },
        }
    }
}

/// Apply every change, in list order, to the model directory. A rename whose
/// destination is occupied either fails with `Overwrite` — when the occupant
/// is not itself renamed away or deleted, so the rename would lose it — or
/// first moves the occupant to the next auxiliary path and notes where it
/// went; a rename whose own source was displaced earlier starts from its
/// auxiliary path. The outcome, contents and verdict alike, is exactly
/// `spec_apply` of the starting contents; on an error, the changes already
/// applied stay applied.
#[verifier::loop_isolation(false)]
pub fn apply_changes(fs: &mut ModelFs, changes: &Vec<Change>, auxs: &Vec<String>) -> (r: Result<
    (),
    QuirenError,
>)
    requires
        old(fs).wf(),
    ensures
        final(fs).wf(),
        ({
            let (m, e) = spec_apply(
                change_views(changes@),
                old(fs)@,
                Map::empty(),
                0,
                crate::model::views(auxs@),
                0,
            );
            &&& final(fs)@ == m
            &&& (match r {
                Ok(()) => e is None,
                Err(err) => e == Some(err@),
            })
        }),
{
    let ghost all = change_views(changes@);
    let ghost av = crate::model::views(auxs@);
    let mut red = Redirects::new();
    let mut ai: usize = 0;
    let mut i: usize = 0;
    while i < changes.len()
        invariant
            fs.wf(),
            red.wf(),
            0 <= i <= changes@.len(),
            0 <= ai <= auxs@.len(),
            spec_apply(all, old(fs)@, Map::empty(), 0, av, 0) == spec_apply(
                all,
                fs@,
                red@,
                i as int,
                av,
                ai as int,
            ),
        decreases changes@.len() - i,
    {
        let ghost fs_at = fs@;
        let ghost red_at = red@;
        let ghost ai_at = ai as int;
        proof {
            assert(all[i as int] == changes@[i as int]@);
        }
        match &changes[i] {
            Change::Rename { from, to } => {
                let dest_exists = fs.contains_path(to.as_str());
                match decide_rename(changes, to.as_str(), dest_exists) {
                    RenameDecision::Overwrite => {
                        let err = QuirenError::Overwrite(from.clone(), to.clone());
                        proof {
                            assert(spec_apply(all, fs_at, red_at, i as int, av, ai_at) == (
                                fs_at,
                                Some(err@),
                            ));
                        }
                        return Err(err);
                    },
                    RenameDecision::Displace => {
                        if ai >= auxs.len() {
                            proof {
                                assert(spec_apply(all, fs_at, red_at, i as int, av, ai_at) == (
                                    fs_at,
                                    Some(ErrorModel::Tempfile),
                                ));
                            }
                            return Err(QuirenError::Tempfile);
                        }
                        proof {
                            assert(av[ai as int] == auxs@[ai as int]@);
                        }
                        let aux = &auxs[ai];
                        fs.rename_path(to.as_str(), aux.as_str());
                        red.record(to.as_str(), aux.as_str());
                        ai += 1;
                    },
                    RenameDecision::Proceed => {},
                }
                let src = red.resolve(from.as_str());
                if !fs.contains_path(src.as_str()) {
                    proof {
                        assert(spec_apply(all, fs_at, red_at, i as int, av, ai_at) == (
                            fs@,
                            Some(ErrorModel::IoError),
                        ));
                    }
                    return Err(QuirenError::IoError);
                }
                fs.rename_path(src.as_str(), to.as_str());
                proof {
                    assert(spec_apply(all, fs_at, red_at, i as int, av, ai_at) == spec_apply(
                        all,
                        fs@,
                        red@,
                        i + 1,
                        av,
                        ai as int,
                    ));
                }
            },
            Change::Delete { path } => {
                if !fs.contains_path(path.as_str()) {
                    proof {
                        assert(spec_apply(all, fs_at, red_at, i as int, av, ai_at) == (
                            fs_at,
                            Some(ErrorModel::IoError),
                        ));
                    }
                    return Err(QuirenError::IoError);
                }
                fs.remove_path(path.as_str());
                proof {
                    assert(spec_apply(all, fs_at, red_at, i as int, av, ai_at) == spec_apply(
                        all,
                        fs@,
                        red@,
                        i + 1,
                        av,
                        ai as int,
                    ));
                }
            },
        }
        i += 1;
    }
    Ok(())
}

} // verus!

verus! {

/// Where the file a pending change must move currently stands: at its
/// auxiliary path if it was displaced, else still at its source.
pub open spec fn pending_loc(all: Seq<ChangeModel>, red: Map<Seq<char>, Seq<char>>, j: int) -> Seq<
    char,
> {
    if red.contains_key(change_source(all[j])) {
        red[change_source(all[j])]
    } else {
        change_source(all[j])
    }
}

/// A valid rename batch over the directory contents `fs0`, with the
/// auxiliary pool `auxs`: only renames, with distinct sources, distinct
/// destinations, no rename to itself, every source present, every occupied
/// destination itself a source, and a pool of distinct paths, one per
/// change, clear of the contents and of everything the batch names.
pub open spec fn valid_rename_batch(
    all: Seq<ChangeModel>,
    fs0: Map<Seq<char>, u64>,
    auxs: Seq<Seq<char>>,
) -> bool {
    &&& forall|i: int| 0 <= i < all.len() ==> (#[trigger] all[i]) is Rename
    &&& forall|i: int, j: int|
        0 <= i < j < all.len() ==> change_source(all[i]) != change_source(all[j])
    &&& forall|i: int, j: int|
        0 <= i < j < all.len() ==> change_target(all[i]) != change_target(all[j])
    &&& forall|i: int|
        0 <= i < all.len() ==> change_source(#[trigger] all[i]) != change_target(all[i])
    &&& forall|i: int| 0 <= i < all.len() ==> fs0.contains_key(change_source(#[trigger] all[i]))
    &&& forall|i: int|
        0 <= i < all.len() && fs0.contains_key(change_target(#[trigger] all[i])) ==> is_source(
            all,
            change_target(all[i]),
        )
    &&& auxs.len() >= all.len()
    &&& forall|t1: int, t2: int| 0 <= t1 < t2 < auxs.len() ==> auxs[t1] != auxs[t2]
    &&& forall|t: int| 0 <= t < auxs.len() ==> !fs0.contains_key(#[trigger] auxs[t])
    &&& forall|t: int, i: int|
        0 <= t < auxs.len() && 0 <= i < all.len() ==> #[trigger] auxs[t] != change_source(
            #[trigger] all[i],
        ) && auxs[t] != change_target(all[i])
}

/// The executor's running invariant after some prefix of a valid rename
/// batch: the redirects note only sources, each bound to a distinct consumed
/// auxiliary path; every performed change's file is at its destination, every
/// pending change's file at its pending location, every untouched file in
/// place, and nothing else is in the directory; and no pending location is
/// an already-filled destination.
pub open spec fn exec_inv(
    all: Seq<ChangeModel>,
    fs0: Map<Seq<char>, u64>,
    auxs: Seq<Seq<char>>,
    fs: Map<Seq<char>, u64>,
    red: Map<Seq<char>, Seq<char>>,
    i: int,
    ai: int,
) -> bool {
    &&& 0 <= ai <= i
    &&& (forall|q: Seq<char>|
        red.contains_key(q) ==> exists|j: int|
            0 <= j < all.len() && q == change_source(#[trigger] all[j]))
    &&& (forall|q: Seq<char>|
        #[trigger] red.contains_key(q) ==> exists|t: int| 0 <= t < ai && red[q] == auxs[t])
    &&& (forall|q1: Seq<char>, q2: Seq<char>|
        red.contains_key(q1) && red.contains_key(q2) && #[trigger] red[q1] == #[trigger] red[q2]
            ==> q1 == q2)
    &&& (forall|k: int|
        0 <= k < i ==> fs.contains_key(change_target(#[trigger] all[k])) && fs[change_target(
            all[k],
        )] == fs0[change_source(all[k])])
    &&& (forall|j: int|
        i <= j < all.len() ==> fs.contains_key(#[trigger] pending_loc(all, red, j))
            && fs[pending_loc(all, red, j)] == fs0[change_source(all[j])])
    &&& (forall|p: Seq<char>|
        fs0.contains_key(p) && !is_source(all, p) ==> fs.contains_key(p) && fs[p] == fs0[p])
    &&& (forall|q: Seq<char>|
        #[trigger] fs.contains_key(q) ==> (exists|k: int|
            0 <= k < i && change_target(#[trigger] all[k]) == q) || (exists|j: int|
            i <= j < all.len() && #[trigger] pending_loc(all, red, j) == q) || (
        fs0.contains_key(q) && !is_source(all, q)))
    &&& (forall|j: int, k: int|
        i <= j < all.len() && 0 <= k < i ==> #[trigger] pending_loc(all, red, j)
            != change_target(#[trigger] all[k]))
}

/// One successful executor step on change `i`: displace the destination's
/// occupant to the next auxiliary path when the destination is taken, then
/// move the change's file — from its auxiliary path if it was itself
/// displaced earlier — onto the destination; a deletion removes its path.
pub open spec fn apply_step(
    all: Seq<ChangeModel>,
    auxs: Seq<Seq<char>>,
    fs: Map<Seq<char>, u64>,
    red: Map<Seq<char>, Seq<char>>,
    i: int,
    ai: int,
) -> (Map<Seq<char>, u64>, Map<Seq<char>, Seq<char>>, int) {
    match all[i] {
        ChangeModel::Rename { from, to } => {
            let displaced = fs.contains_key(to);
            let fs1 = if displaced {
                fs.remove(to).insert(auxs[ai], fs[to])
            } else {
                fs
            };
            let red1 = if displaced {
                red.insert(to, auxs[ai])
            } else {
                red
            };
            let ai1: int = if displaced {
                ai + 1
            } else {
                ai
            };
            let src = if red1.contains_key(from) {
                red1[from]
            } else {
                from
            };
            (fs1.remove(src).insert(to, fs1[src]), red1, ai1)
        },
        ChangeModel::Delete { path } => (fs.remove(path), red, ai),
    }
}

/// The run's state after its first `steps` changes — directory contents,
/// displacement notes, auxiliary paths consumed — for a run that never stops
/// early, as a valid rename batch's never does.
pub open spec fn run_state(
    all: Seq<ChangeModel>,
    fs0: Map<Seq<char>, u64>,
    auxs: Seq<Seq<char>>,
    steps: int,
) -> (Map<Seq<char>, u64>, Map<Seq<char>, Seq<char>>, int)
    decreases steps,
{
    if steps <= 0 {
        (fs0, Map::empty(), 0)
    } else {
        let (fs, red, ai) = run_state(all, fs0, auxs, steps - 1);
        apply_step(all, auxs, fs, red, steps - 1, ai)
    }
}

#[verifier::rlimit(60)]
proof fn lemma_step_preserves(
    all: Seq<ChangeModel>,
    fs0: Map<Seq<char>, u64>,
    auxs: Seq<Seq<char>>,
    fs: Map<Seq<char>, u64>,
    red: Map<Seq<char>, Seq<char>>,
    i: int,
    ai: int,
)
    requires
        valid_rename_batch(all, fs0, auxs),
        0 <= i < all.len(),
        exec_inv(all, fs0, auxs, fs, red, i, ai),
    ensures
        ({
            let (fs2, red1, ai1) = apply_step(all, auxs, fs, red, i, ai);
            exec_inv(all, fs0, auxs, fs2, red1, i + 1, ai1) && spec_apply(
                all,
                fs,
                red,
                i,
                auxs,
                ai,
            ) == spec_apply(all, fs2, red1, i + 1, auxs, ai1)
        }),
{
    let n = all.len() as int;
    {
        let src_i = change_source(all[i]);
        let dst_i = change_target(all[i]);
        assert(all[i] is Rename);
        let from = all[i]->Rename_from;
        let to = all[i]->Rename_to;
        assert(from == src_i && to == dst_i);
        // The destination, if occupied, holds a pending change's file.
        if fs.contains_key(dst_i) {
            assert(is_source(all, dst_i)) by {
                if !(exists|k: int| 0 <= k < i && change_target(#[trigger] all[k]) == dst_i) && !(
                exists|j: int| i <= j < all.len() && #[trigger] pending_loc(all, red, j) == dst_i) {
                    assert(fs0.contains_key(dst_i) && !is_source(all, dst_i));
                }
            }
        }
        let displaced = fs.contains_key(dst_i);
        let fs1 = if displaced {
            fs.remove(dst_i).insert(auxs[ai], fs[dst_i])
        } else {
            fs
        };
        let red1 = if displaced {
            red.insert(dst_i, auxs[ai])
        } else {
            red
        };
        let ai1: int = if displaced {
            ai + 1
        } else {
            ai
        };
        if displaced {
            // The occupant is the not-yet-displaced file of a pending change.
            let j = choose|j: int|
                i <= j < all.len() && #[trigger] pending_loc(all, red, j) == dst_i;
            assert(i <= j < n && pending_loc(all, red, j) == dst_i) by {
                if !(exists|j: int|
                    i <= j < all.len() && #[trigger] pending_loc(all, red, j) == dst_i) {
                    assert(fs0.contains_key(dst_i) && !is_source(all, dst_i));
                    assert(false);
                }
            }
            assert(!red.contains_key(change_source(all[j]))) by {
                if red.contains_key(change_source(all[j])) {
                    let t = choose|t: int|
                        0 <= t < ai && red[change_source(all[j])] == auxs[t];
                    assert(auxs[t] == dst_i);
                }
            }
            assert(change_source(all[j]) == dst_i);
            assert(j != i);
            assert(fs[dst_i] == fs0[change_source(all[j])]);
        }
        let src_loc = if red1.contains_key(from) {
            red1[from]
        } else {
            from
        };
        assert(src_loc == pending_loc(all, red, i)) by {
            if displaced {
                assert(change_source(all[i]) != dst_i);
            }
        }
        assert(fs1.contains_key(src_loc) && fs1[src_loc] == fs0[src_i]) by {
            assert(fs.contains_key(pending_loc(all, red, i)));
            if displaced {
                assert(src_loc != dst_i);
                assert(src_loc != auxs[ai]) by {
                    if red.contains_key(src_i) {
                        let t = choose|t: int| 0 <= t < ai && red[src_i] == auxs[t];
                        assert(auxs[t] != auxs[ai]);
                    }
                }
            }
        }
        let fs2 = fs1.remove(src_loc).insert(dst_i, fs1[src_loc]);
        assert(spec_apply(all, fs, red, i, auxs, ai) == spec_apply(all, fs2, red1, i + 1, auxs, ai1));
        // Establish the invariant for the advanced state.
        assert forall|q: Seq<char>| red1.contains_key(q) implies exists|j: int|
            0 <= j < all.len() && q == change_source(#[trigger] all[j]) by {
            if displaced && q == dst_i {
                let j = choose|j: int|
                    i <= j < all.len() && #[trigger] pending_loc(all, red, j) == dst_i;
                assert(0 <= j < all.len() && q == change_source(all[j]));
            } else {
                assert(red.contains_key(q));
            }
        }
        assert forall|q: Seq<char>| #[trigger] red1.contains_key(q) implies exists|t: int|
            0 <= t < ai1 && red1[q] == auxs[t] by {
            if displaced && q == dst_i {
                assert(0 <= ai < ai1 && red1[q] == auxs[ai]);
            } else {
                let t = choose|t: int| 0 <= t < ai && red[q] == auxs[t];
                assert(0 <= t < ai1 && red1[q] == auxs[t]);
            }
        }
        assert forall|q1: Seq<char>, q2: Seq<char>|
            red1.contains_key(q1) && red1.contains_key(q2) && #[trigger] red1[q1]
                == #[trigger] red1[q2] implies q1 == q2 by {
            if displaced {
                if q1 == dst_i && q2 != dst_i {
                    let t = choose|t: int| 0 <= t < ai && red[q2] == auxs[t];
                    assert(auxs[t] != auxs[ai]);
                } else if q2 == dst_i && q1 != dst_i {
                    let t = choose|t: int| 0 <= t < ai && red[q1] == auxs[t];
                    assert(auxs[t] != auxs[ai]);
                }
            }
        }
        // Pending locations are stable for every change other than i and j.
        assert forall|j2: int| i + 1 <= j2 < n implies pending_loc(all, red1, j2) == (
            if displaced && change_source(all[j2]) == dst_i {
                auxs[ai]
            } else {
                pending_loc(all, red, j2)
            }
        ) by {}
        assert forall|j2: int| i + 1 <= j2 < n implies fs2.contains_key(
            #[trigger] pending_loc(all, red1, j2),
        ) && fs2[pending_loc(all, red1, j2)] == fs0[change_source(all[j2])] by {
            let l2 = pending_loc(all, red1, j2);
            if displaced && change_source(all[j2]) == dst_i {
                assert(l2 == auxs[ai]);
                assert(l2 != src_loc);
                assert(l2 != dst_i);
                let j = choose|j: int|
                    i <= j < all.len() && #[trigger] pending_loc(all, red, j) == dst_i;
                assert(j2 == j);
                assert(fs2[l2] == fs[dst_i]);
            } else {
                let l0 = pending_loc(all, red, j2);
                assert(l2 == l0);
                assert(fs.contains_key(l0) && fs[l0] == fs0[change_source(all[j2])]);
                assert(l0 != dst_i) by {
                    if red.contains_key(change_source(all[j2])) {
                        let t = choose|t: int|
                            0 <= t < ai && red[change_source(all[j2])] == auxs[t];
                        if displaced {
                            assert(auxs[t] != dst_i);
                        } else {
                            assert(fs.contains_key(l0));
                        }
                    } else {
                        if change_source(all[j2]) == dst_i {
                            if displaced {
                                let j = choose|j: int|
                                    i <= j < all.len() && #[trigger] pending_loc(all, red, j)
                                        == dst_i;
                                assert(change_source(all[j]) == dst_i);
                                assert(j == j2);
                                assert(pending_loc(all, red, j2) == dst_i);
                                assert(false);
                            } else {
                                assert(fs.contains_key(l0));
                                assert(false);
                            }
                        }
                    }
                }
                assert(l0 != src_loc) by {
                    // two distinct pending changes never share a location
                    if red.contains_key(change_source(all[j2])) {
                        if red.contains_key(src_i) {
                            assert(red[change_source(all[j2])] == l0);
                        } else {
                            let t = choose|t: int|
                                0 <= t < ai && red[change_source(all[j2])] == auxs[t];
                        }
                    } else {
                        if red.contains_key(src_i) {
                            let t = choose|t: int| 0 <= t < ai && red[src_i] == auxs[t];
                        }
                    }
                }
                if displaced {
                    assert(l0 != auxs[ai]) by {
                        if red.contains_key(change_source(all[j2])) {
                            let t = choose|t: int|
                                0 <= t < ai && red[change_source(all[j2])] == auxs[t];
                            assert(auxs[t] != auxs[ai]);
                        }
                    }
                }
            }
        }
        assert forall|k: int| 0 <= k < i + 1 implies fs2.contains_key(
            change_target(#[trigger] all[k]),
        ) && fs2[change_target(all[k])] == fs0[change_source(all[k])] by {
            if k == i {
            } else {
                let dk = change_target(all[k]);
                assert(fs.contains_key(dk) && fs[dk] == fs0[change_source(all[k])]);
                assert(dk != dst_i);
                assert(dk != src_loc) by {
                    assert(pending_loc(all, red, i) != change_target(all[k]));
                }
                if displaced {
                    assert(dk != auxs[ai]);
                }
            }
        }
        assert forall|p: Seq<char>|
            fs0.contains_key(p) && !is_source(all, p) implies fs2.contains_key(p) && fs2[p]
            == fs0[p] by {
            assert(fs.contains_key(p) && fs[p] == fs0[p]);
            assert(p != dst_i) by {
                if p == dst_i {
                    assert(fs.contains_key(dst_i));
                    assert(fs0.contains_key(dst_i) && is_source(all, dst_i));
                }
            }
            assert(p != src_loc) by {
                assert(pending_loc(all, red, i) == src_loc);
                if red.contains_key(src_i) {
                    let t = choose|t: int| 0 <= t < ai && red[src_i] == auxs[t];
                } else {
                    assert(src_loc == src_i);
                    assert(is_source(all, src_i)) by {
                        assert(change_source(all[i]) == src_i);
                    }
                }
            }
            if displaced {
                assert(p != auxs[ai]);
            }
        }
        assert forall|q: Seq<char>| #[trigger] fs2.contains_key(q) implies (exists|k: int|
            0 <= k < i + 1 && change_target(#[trigger] all[k]) == q) || (exists|j: int|
            i + 1 <= j < all.len() && #[trigger] pending_loc(all, red1, j) == q) || (
        fs0.contains_key(q) && !is_source(all, q)) by {
            if q == dst_i {
                assert(change_target(all[i]) == q);
            } else if displaced && q == auxs[ai] {
                let j = choose|j: int|
                    i <= j < all.len() && #[trigger] pending_loc(all, red, j) == dst_i;
                assert(pending_loc(all, red1, j) == auxs[ai]);
                assert(i + 1 <= j < all.len());
            } else {
                assert(fs.contains_key(q));
                assert(q != src_loc);
                if exists|k: int| 0 <= k < i && change_target(#[trigger] all[k]) == q {
                    let k = choose|k: int| 0 <= k < i && change_target(#[trigger] all[k]) == q;
                    assert(0 <= k < i + 1 && change_target(all[k]) == q);
                } else if exists|j: int|
                    i <= j < all.len() && #[trigger] pending_loc(all, red, j) == q {
                    let j = choose|j: int|
                        i <= j < all.len() && #[trigger] pending_loc(all, red, j) == q;
                    assert(j != i) by {
                        if j == i {
                            assert(pending_loc(all, red, i) == src_loc);
                        }
                    }
                    assert(pending_loc(all, red1, j) == q) by {
                        if displaced && change_source(all[j]) == dst_i {
                            assert(pending_loc(all, red, j) == dst_i);
                        }
                    }
                }
            }
        }
        assert forall|j2: int, k: int|
            i + 1 <= j2 < all.len() && 0 <= k < i + 1 implies #[trigger] pending_loc(
            all,
            red1,
            j2,
        ) != change_target(#[trigger] all[k]) by {
            let l2 = pending_loc(all, red1, j2);
            if displaced && change_source(all[j2]) == dst_i {
                assert(l2 == auxs[ai]);
            } else {
                assert(l2 == pending_loc(all, red, j2));
                if k < i {
                    assert(pending_loc(all, red, j2) != change_target(all[k]));
                } else {
                    // k == i: the destination just filled is no pending location
                    assert(l2 != dst_i) by {
                        if red.contains_key(change_source(all[j2])) {
                            let t = choose|t: int|
                                0 <= t < ai && red[change_source(all[j2])] == auxs[t];
                            if displaced {
                                assert(auxs[t] != dst_i);
                            } else {
                                assert(fs.contains_key(l2));
                            }
                        } else {
                            if change_source(all[j2]) == dst_i {
                                if displaced {
                                    let j = choose|j: int|
                                        i <= j < all.len() && #[trigger] pending_loc(all, red, j)
                                            == dst_i;
                                    assert(j == j2);
                                    assert(pending_loc(all, red, j2) == dst_i);
                                    assert(false);
                                } else {
                                    assert(fs.contains_key(l2));
                                    assert(false);
                                }
                            }
                        }
                    }
                }
            }
        }
        assert(apply_step(all, auxs, fs, red, i, ai) == (fs2, red1, ai1));
        assert(exec_inv(all, fs0, auxs, fs2, red1, i + 1, ai1));
    }
}

proof fn lemma_apply_renames_inv(
    all: Seq<ChangeModel>,
    fs0: Map<Seq<char>, u64>,
    auxs: Seq<Seq<char>>,
    fs: Map<Seq<char>, u64>,
    red: Map<Seq<char>, Seq<char>>,
    i: int,
    ai: int,
)
    requires
        valid_rename_batch(all, fs0, auxs),
        0 <= i <= all.len(),
        exec_inv(all, fs0, auxs, fs, red, i, ai),
    ensures
        spec_apply(all, fs, red, i, auxs, ai).1 is None,
        ({
            let m = spec_apply(all, fs, red, i, auxs, ai).0;
            &&& forall|k: int|
                0 <= k < all.len() ==> m.contains_key(change_target(#[trigger] all[k]))
                    && m[change_target(all[k])] == fs0[change_source(all[k])]
            &&& forall|p: Seq<char>|
                fs0.contains_key(p) && !is_source(all, p) ==> m.contains_key(p) && m[p] == fs0[p]
            &&& forall|q: Seq<char>|
                #[trigger] m.contains_key(q) ==> (exists|k: int|
                    0 <= k < all.len() && change_target(#[trigger] all[k]) == q) || (
                fs0.contains_key(q) && !is_source(all, q))
        }),
    decreases all.len() - i,
{
    if i < all.len() {
        lemma_step_preserves(all, fs0, auxs, fs, red, i, ai);
        let (fs2, red1, ai1) = apply_step(all, auxs, fs, red, i, ai);
        lemma_apply_renames_inv(all, fs0, auxs, fs2, red1, i + 1, ai1);
    }
}

/// Cycle and chain safety law: a valid rename batch — distinct sources and
/// destinations, every occupied destination itself renamed away, and a
/// sufficient pool of fresh auxiliary paths — always applies in full. No
/// error is reported, every destination ends up holding exactly the file its
/// source held, files the batch does not touch stay put, and nothing else —
/// no auxiliary file among it — remains.
proof fn lemma_exec_inv_init(all: Seq<ChangeModel>, fs0: Map<Seq<char>, u64>, auxs: Seq<Seq<char>>)
    requires
        valid_rename_batch(all, fs0, auxs),
    ensures
        exec_inv(all, fs0, auxs, fs0, Map::empty(), 0, 0),
{
    let red = Map::<Seq<char>, Seq<char>>::empty();
    assert forall|j: int| 0 <= j < all.len() implies fs0.contains_key(
        #[trigger] pending_loc(all, red, j),
    ) && fs0[pending_loc(all, red, j)] == fs0[change_source(all[j])] by {
        assert(pending_loc(all, red, j) == change_source(all[j]));
    }
    assert forall|q: Seq<char>| #[trigger] fs0.contains_key(q) implies (exists|k: int|
        0 <= k < 0 && change_target(#[trigger] all[k]) == q) || (exists|j: int|
        0 <= j < all.len() && #[trigger] pending_loc(all, red, j) == q) || (fs0.contains_key(q)
        && !is_source(all, q)) by {
        if is_source(all, q) {
            let j = choose|j: int| 0 <= j < all.len() && change_source(#[trigger] all[j]) == q;
            assert(pending_loc(all, red, j) == q);
        }
    }
}

pub proof fn lemma_apply_renames(
    all: Seq<ChangeModel>,
    fs0: Map<Seq<char>, u64>,
    auxs: Seq<Seq<char>>,
)
    requires
        valid_rename_batch(all, fs0, auxs),
    ensures
        spec_apply(all, fs0, Map::empty(), 0, auxs, 0).1 is None,
        ({
            let m = spec_apply(all, fs0, Map::empty(), 0, auxs, 0).0;
            &&& forall|k: int|
                0 <= k < all.len() ==> m.contains_key(change_target(#[trigger] all[k]))
                    && m[change_target(all[k])] == fs0[change_source(all[k])]
            &&& forall|p: Seq<char>|
                fs0.contains_key(p) && !is_source(all, p) ==> m.contains_key(p) && m[p] == fs0[p]
            &&& forall|q: Seq<char>|
                #[trigger] m.contains_key(q) ==> (exists|k: int|
                    0 <= k < all.len() && change_target(#[trigger] all[k]) == q) || (
                fs0.contains_key(q) && !is_source(all, q))
            &&& forall|t: int| 0 <= t < auxs.len() ==> !m.contains_key(#[trigger] auxs[t])
        }),
{
    lemma_exec_inv_init(all, fs0, auxs);
    lemma_apply_renames_inv(all, fs0, auxs, fs0, Map::empty(), 0, 0);
    let m = spec_apply(all, fs0, Map::empty(), 0, auxs, 0).0;
    assert forall|t: int| 0 <= t < auxs.len() implies !m.contains_key(#[trigger] auxs[t]) by {
        if m.contains_key(auxs[t]) {
            if exists|k: int| 0 <= k < all.len() && change_target(#[trigger] all[k]) == auxs[t] {
                let k = choose|k: int|
                    0 <= k < all.len() && change_target(#[trigger] all[k]) == auxs[t];
                assert(auxs[t] != change_target(all[k]));
            } else {
                assert(fs0.contains_key(auxs[t]));
                assert(!fs0.contains_key(auxs[t]));
            }
        }
    }
}

proof fn lemma_run_state_inv(
    all: Seq<ChangeModel>,
    fs0: Map<Seq<char>, u64>,
    auxs: Seq<Seq<char>>,
    steps: int,
)
    requires
        valid_rename_batch(all, fs0, auxs),
        0 <= steps <= all.len(),
    ensures
        ({
            let (fs, red, ai) = run_state(all, fs0, auxs, steps);
            exec_inv(all, fs0, auxs, fs, red, steps, ai)
        }),
    decreases steps,
{
    if steps == 0 {
        lemma_exec_inv_init(all, fs0, auxs);
    } else {
        lemma_run_state_inv(all, fs0, auxs, steps - 1);
        let (fs, red, ai) = run_state(all, fs0, auxs, steps - 1);
        lemma_step_preserves(all, fs0, auxs, fs, red, steps - 1, ai);
    }
}

/// No-loss law, at every moment of the run: while a valid rename batch
/// applies, each file always has a place. After any number of steps, every
/// change already performed has left its file at its destination, every
/// pending change's file stands at its source or at its recorded auxiliary
/// path, every file the batch does not touch is where it started, and at
/// most one auxiliary path has been consumed per step taken.
pub proof fn lemma_no_loss_at_every_step(
    all: Seq<ChangeModel>,
    fs0: Map<Seq<char>, u64>,
    auxs: Seq<Seq<char>>,
    steps: int,
)
    requires
        valid_rename_batch(all, fs0, auxs),
        0 <= steps <= all.len(),
    ensures
        ({
            let (fs, red, ai) = run_state(all, fs0, auxs, steps);
            &&& forall|k: int|
                0 <= k < steps ==> fs.contains_key(change_target(#[trigger] all[k]))
                    && fs[change_target(all[k])] == fs0[change_source(all[k])]
            &&& forall|j: int|
                steps <= j < all.len() ==> fs.contains_key(#[trigger] pending_loc(all, red, j))
                    && fs[pending_loc(all, red, j)] == fs0[change_source(all[j])]
            &&& forall|p: Seq<char>|
                fs0.contains_key(p) && !is_source(all, p) ==> fs.contains_key(p) && fs[p] == fs0[p]
            &&& 0 <= ai <= steps
        }),
{
    lemma_run_state_inv(all, fs0, auxs, steps);
}

} // verus!
