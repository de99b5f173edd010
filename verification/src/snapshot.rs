//! Snapshot builder: freezes a directory listing by sorting the names into a
//! single deterministic order — codepoint order — so that the same directory
//! state always serializes to the same text.

use vstd::prelude::*;
use vstd::string::*;
use crate::model::{views, entry_names, join_path, join_path_exec, wf_name, wf_snapshot, DirectoryEntry};

verus! {

broadcast use vstd::seq_lib::group_to_multiset_ensures, vstd::multiset::group_multiset_axioms;

/// Codepoint order on names: the shorter of an equal prefix comes first,
/// otherwise the first differing character decides.
pub open spec fn lex_le(a: Seq<char>, b: Seq<char>) -> bool
    decreases a.len(),
{
    if a.len() == 0 {
        true
    } else if b.len() == 0 {
        false
    } else if a[0] == b[0] {
        lex_le(a.drop_first(), b.drop_first())
    } else {
        a[0] < b[0]
    }
}

/// Any two names are ordered one way or the other.
pub proof fn lemma_lex_le_total(a: Seq<char>, b: Seq<char>)
    ensures
        lex_le(a, b) || lex_le(b, a),
    decreases a.len(),
{
    if a.len() > 0 && b.len() > 0 && a[0] == b[0] {
        lemma_lex_le_total(a.drop_first(), b.drop_first());
    }
}

/// The order is transitive.
pub proof fn lemma_lex_le_trans(a: Seq<char>, b: Seq<char>, c: Seq<char>)
    requires
        lex_le(a, b),
        lex_le(b, c),
    ensures
        lex_le(a, c),
    decreases a.len(),
{
    if a.len() > 0 {
        if a[0] == b[0] && b[0] == c[0] {
            lemma_lex_le_trans(a.drop_first(), b.drop_first(), c.drop_first());
        }
    }
}

proof fn lemma_lex_le_common_prefix(a: Seq<char>, b: Seq<char>, i: int)
    requires
        0 <= i <= a.len(),
        i <= b.len(),
        forall|k: int| 0 <= k < i ==> a[k] == b[k],
    ensures
        lex_le(a, b) == lex_le(a.skip(i), b.skip(i)),
    decreases i,
{
    if i == 0 {
        assert(a.skip(0) =~= a);
        assert(b.skip(0) =~= b);
    } else {
        assert(a[0] == b[0]);
        assert(a.drop_first() =~= a.skip(1));
        assert(b.drop_first() =~= b.skip(1));
        assert(forall|k: int| 0 <= k < i - 1 ==> a.skip(1)[k] == b.skip(1)[k]);
        lemma_lex_le_common_prefix(a.skip(1), b.skip(1), i - 1);
        assert(a.skip(1).skip(i - 1) =~= a.skip(i));
        assert(b.skip(1).skip(i - 1) =~= b.skip(i));
    }
}

/// Decide the codepoint order on two names.
#[verifier::loop_isolation(false)]
pub fn str_le(a: &str, b: &str) -> (r: bool)
    ensures
        r == lex_le(a@, b@),
{
    let na = a.unicode_len();
    let nb = b.unicode_len();
    let min = if na < nb {
        na
    } else {
        nb
    };
    let mut i: usize = 0;
    while i < min
        invariant
            0 <= i <= min,
            forall|k: int| 0 <= k < i ==> a@[k] == b@[k],
        decreases min - i,
    {
        let ca = a.get_char(i);
        let cb = b.get_char(i);
        if ca != cb {
            proof {
                lemma_lex_le_common_prefix(a@, b@, i as int);
                assert(a@.skip(i as int)[0] == a@[i as int]);
                assert(b@.skip(i as int)[0] == b@[i as int]);
            }
            return ca < cb;
        }
        i += 1;
    }
    proof {
        lemma_lex_le_common_prefix(a@, b@, min as int);
        if na <= nb {
            assert(a@.skip(min as int).len() == 0);
        } else {
            assert(b@.skip(min as int).len() == 0);
            assert(a@.skip(min as int).len() > 0);
        }
    }
    na <= nb
}

/// The names stand in codepoint order.
pub open spec fn sorted_names(ss: Seq<Seq<char>>) -> bool {
    forall|i: int, j: int| 0 <= i < j < ss.len() ==> lex_le(#[trigger] ss[i], #[trigger] ss[j])
}

/// Sort names into codepoint order, keeping exactly the given collection.
#[verifier::loop_isolation(false)]
pub fn sort_names(names: Vec<String>) -> (r: Vec<String>)
    ensures
        sorted_names(views(r@)),
        views(r@).to_multiset() == views(names@).to_multiset(),
{
    let mut out: Vec<String> = Vec::new();
    let mut i: usize = 0;
    proof {
        assert(views(out@) =~= Seq::<Seq<char>>::empty());
        assert(views(names@.take(0)) =~= Seq::<Seq<char>>::empty());
        assert(views(out@).to_multiset() =~= views(names@.take(0)).to_multiset());
    }
    while i < names.len()
        invariant
            0 <= i <= names@.len(),
            sorted_names(views(out@)),
            views(out@).to_multiset() == views(names@.take(i as int)).to_multiset(),
        decreases names@.len() - i,
    {
        let x = names[i].clone();
        let mut pos: usize = 0;
        #[verifier::loop_isolation(true)]
        loop
            invariant
                0 <= pos <= out@.len(),
                forall|k: int| 0 <= k < pos ==> lex_le(views(out@)[k], x@),
            ensures
                0 <= pos <= out@.len(),
                forall|k: int| 0 <= k < pos ==> lex_le(views(out@)[k], x@),
                pos == out@.len() || !lex_le(views(out@)[pos as int], x@),
            decreases out@.len() - pos,
        {
            if pos == out.len() {
                break ;
            }
            if !str_le(out[pos].as_str(), x.as_str()) {
                proof {
                    assert(views(out@)[pos as int] == out@[pos as int]@);
                }
                break ;
            }
            proof {
                assert(views(out@)[pos as int] == out@[pos as int]@);
            }
            pos += 1;
        }
        let ghost ov = views(out@);
        out.insert(pos, x);
        proof {
            let nv = views(out@);
            assert(nv =~= ov.insert(pos as int, x@));
            assert forall|i1: int, j1: int| 0 <= i1 < j1 < nv.len() implies lex_le(
                nv[i1],
                nv[j1],
            ) by {
                if j1 < pos {
                    assert(nv[i1] == ov[i1] && nv[j1] == ov[j1]);
                } else if i1 < pos && j1 == pos {
                    assert(nv[i1] == ov[i1] && nv[j1] == x@);
                } else if i1 < pos && j1 > pos {
                    assert(nv[i1] == ov[i1] && nv[j1] == ov[j1 - 1]);
                } else if i1 == pos {
                    assert(nv[i1] == x@ && nv[j1] == ov[j1 - 1]);
                    lemma_lex_le_total(ov[pos as int], x@);
                    assert(lex_le(x@, ov[pos as int]));
                    if j1 - 1 > pos {
                        assert(lex_le(ov[pos as int], ov[j1 - 1]));
                        lemma_lex_le_trans(x@, ov[pos as int], ov[j1 - 1]);
                    }
                } else {
                    assert(nv[i1] == ov[i1 - 1] && nv[j1] == ov[j1 - 1]);
                }
            }
            let t = ov.insert(pos as int, x@);
            assert(t.remove(pos as int) =~= ov);
            assert(t[pos as int] == x@);
            assert(t.remove(pos as int).to_multiset() =~= t.to_multiset().remove(x@));
            assert(t.contains(x@));
            assert(t.to_multiset().count(x@) > 0);
            assert(t.to_multiset() =~= ov.to_multiset().insert(x@));
            assert(views(names@.take(i + 1)) =~= views(names@.take(i as int)).push(
                names@[i as int]@,
            ));
            assert(views(names@.take(i + 1)).to_multiset() =~= views(
                names@.take(i as int),
            ).to_multiset().insert(names@[i as int]@));
            assert(x@ == names@[i as int]@);
        }
        i += 1;
    }
    proof {
        assert(names@.take(names@.len() as int) =~= names@);
    }
    out
}

/// Freeze a directory listing: sort the names into snapshot order and bind
/// each to its path inside `dir`. With distinct, well-formed names — which a
/// real directory listing always yields — the result is a well-formed
/// snapshot.
#[verifier::loop_isolation(false)]
pub fn build_snapshot(dir: &str, names: Vec<String>) -> (r: Vec<DirectoryEntry>)
    ensures
        sorted_names(entry_names(r@)),
        entry_names(r@).to_multiset() == views(names@).to_multiset(),
        forall|i: int|
            0 <= i < r@.len() ==> (#[trigger] r@[i])@.path == join_path(dir@, r@[i]@.name),
        views(names@).no_duplicates() && (forall|i: int|
            0 <= i < names@.len() ==> wf_name((#[trigger] names@[i])@)) ==> wf_snapshot(r@, dir@),
{
    let sorted = sort_names(names);
    let mut r: Vec<DirectoryEntry> = Vec::new();
    let mut i: usize = 0;
    proof {
        assert(entry_names(r@) =~= views(sorted@.take(0)));
    }
    while i < sorted.len()
        invariant
            0 <= i <= sorted@.len(),
            r@.len() == i,
            entry_names(r@) == views(sorted@.take(i as int)),
            forall|k: int|
                0 <= k < r@.len() ==> (#[trigger] r@[k])@.path == join_path(dir@, r@[k]@.name),
        decreases sorted@.len() - i,
    {
        let name = sorted[i].clone();
        let path = join_path_exec(dir, name.as_str());
        let ghost old_r = r@;
        r.push(DirectoryEntry { original_name: name, original_path: path });
        proof {
            assert(entry_names(r@) =~= entry_names(old_r).push(sorted@[i as int]@));
            assert(views(sorted@.take(i + 1)) =~= views(sorted@.take(i as int)).push(
                sorted@[i as int]@,
            ));
        }
        i += 1;
    }
    proof {
        assert(sorted@.take(sorted@.len() as int) =~= sorted@);
        assert(entry_names(r@) == views(sorted@));
        if views(names@).no_duplicates() && (forall|i: int|
            0 <= i < names@.len() ==> wf_name((#[trigger] names@[i])@)) {
            let nv = views(names@);
            let ev = entry_names(r@);
            nv.lemma_multiset_has_no_duplicates();
            assert(forall|x: Seq<char>| ev.to_multiset().contains(x) ==> ev.to_multiset().count(x)
                == 1);
            ev.lemma_multiset_has_no_duplicates_conv();
            assert forall|k: int| 0 <= k < r@.len() implies wf_name((#[trigger] r@[k])@.name) by {
                assert(ev[k] == r@[k]@.name);
                assert(ev.contains(ev[k]));
                assert(ev.to_multiset().count(ev[k]) > 0);
                assert(nv.to_multiset().count(ev[k]) > 0);
                assert(nv.contains(ev[k]));
                let w = choose|w: int| 0 <= w < nv.len() && nv[w] == ev[k];
                assert(wf_name(names@[w]@));
                assert(nv[w] == names@[w]@);
            }
            assert forall|k1: int, k2: int|
                0 <= k1 < k2 < r@.len() implies r@[k1]@.name != r@[k2]@.name by {
                assert(ev[k1] == r@[k1]@.name && ev[k2] == r@[k2]@.name);
            }
        }
    }
    r
}

} // verus!
