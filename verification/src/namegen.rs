//! Unique-name generation for temporary relocation targets: a fixed-length
//! random alphanumeric name, retried a bounded number of times until one is
//! free in the directory.

use vstd::prelude::*;
use vstd::string::*;
use rand::Rng;
use crate::executor::ModelFs;
use crate::model::{
    change_views, change_source, change_target, join_path, join_path_exec,
    lemma_join_path_injective, Change, ChangeModel, ErrorModel, QuirenError,
};

verus! {

/// How many characters a temporary name has.
pub const TEMPFILE_NAME_LENGTH: usize = 8;

/// How many collisions are tolerated before allocation gives up.
pub const TEMPFILE_MAX_RETRIES: usize = 20;

/// An ASCII letter or digit.
pub open spec fn is_alnum_char(c: char) -> bool {
    ||| '0' <= c <= '9'
    ||| 'A' <= c <= 'Z'
    ||| 'a' <= c <= 'z'
}

/// Every character an ASCII letter or digit.
pub open spec fn is_alnum(s: Seq<char>) -> bool {
    forall|i: int| 0 <= i < s.len() ==> is_alnum_char(#[trigger] s[i])
}

/// Relies on rand's `Alphanumeric` distribution, sampled from the thread's
/// own generator: every sampled byte is one of the ASCII characters a-z, A-Z
/// or 0-9, so collecting `len` of them gives `len` such characters. Nothing
/// is assumed about which characters come out.
#[verifier::external_body]
fn random_alphanumeric_name(len: usize) -> (r: String)
    ensures
        r@.len() == len as nat,
        is_alnum(r@),
{
    rand::thread_rng().sample_iter(&rand::distributions::Alphanumeric).take(len).map(
        char::from,
    ).collect()
}

/// A temporary relocation target inside `dir`: a path carrying a random
/// alphanumeric name that is free in the given directory contents. It can
/// give up, after a bounded number of tries, only because a sampled
/// candidate was already taken — so over contents holding no fixed-length
/// alphanumeric name under `dir`, the empty directory among them, it always
/// succeeds.
#[verifier::loop_isolation(false)]
pub fn tmpfile(fs: &ModelFs, dir: &str) -> (r: Result<String, QuirenError>)
    ensures
        match r {
            Ok(p) => !fs@.contains_key(p@) && (exists|s: Seq<char>|
                p@ == join_path(dir@, s) && s.len() == TEMPFILE_NAME_LENGTH && is_alnum(s)),
            Err(e) => e@ == ErrorModel::Tempfile && (exists|s: Seq<char>|
                s.len() == TEMPFILE_NAME_LENGTH && is_alnum(s) && fs@.contains_key(
                    join_path(dir@, s),
                )),
        },
{
    let mut attempt: usize = 0;
    while attempt < TEMPFILE_MAX_RETRIES
        invariant
            attempt > 0 ==> (exists|s: Seq<char>|
                s.len() == TEMPFILE_NAME_LENGTH && is_alnum(s) && fs@.contains_key(
                    join_path(dir@, s),
                )),
        decreases TEMPFILE_MAX_RETRIES - attempt,
    {
        let name = random_alphanumeric_name(TEMPFILE_NAME_LENGTH);
        let path = join_path_exec(dir, name.as_str());
        if !fs.contains_path(path.as_str()) {
            proof {
                assert(path@ == join_path(dir@, name@) && name@.len() == TEMPFILE_NAME_LENGTH
                    && is_alnum(name@));
            }
            return Ok(path);
        }
        proof {
            assert(name@.len() == TEMPFILE_NAME_LENGTH && is_alnum(name@) && fs@.contains_key(
                join_path(dir@, name@),
            ));
        }
        attempt += 1;
    }
    Err(QuirenError::Tempfile)
}

/// Why an allocation run can stop short: some fixed-length alphanumeric name
/// `s` made a path that was already accounted for — present in the directory
/// contents, named by the batch as a source or destination, or one of the
/// fewer-than-`count` auxiliary names `chosen` that the same run had already
/// allocated.
pub open spec fn aux_alloc_blocked(
    fs: Map<Seq<char>, u64>,
    changes: Seq<ChangeModel>,
    dir: Seq<char>,
    count: int,
    chosen: Seq<Seq<char>>,
    s: Seq<char>,
) -> bool {
    &&& chosen.len() < count
    &&& (forall|u: int|
        0 <= u < chosen.len() ==> (#[trigger] chosen[u]).len() == TEMPFILE_NAME_LENGTH
            && is_alnum(chosen[u]))
    &&& s.len() == TEMPFILE_NAME_LENGTH
    &&& is_alnum(s)
    &&& {
        ||| fs.contains_key(join_path(dir, s))
        ||| (exists|k: int|
            0 <= k < changes.len() && (change_source(#[trigger] changes[k]) == join_path(dir, s)
                || change_target(changes[k]) == join_path(dir, s)))
        ||| chosen.contains(s)
    }
}

/// Allocate `count` auxiliary paths inside `dir` for a change batch over the
/// directory contents `fs`: pairwise distinct, free in `fs`, and distinct
/// from every source and every destination the batch names, so that a
/// displaced file can wait there without colliding with anything the run
/// touches. It can give up only because a sampled candidate collided with
/// something the run must avoid.
#[verifier::loop_isolation(false)]
pub fn fresh_aux_names(fs: &ModelFs, changes: &Vec<Change>, dir: &str, count: usize) -> (r: Result<
    Vec<String>,
    QuirenError,
>)
    requires
        fs.wf(),
    ensures
        match r {
            Ok(v) => {
                &&& v@.len() == count
                &&& (forall|t: int| 0 <= t < count ==> !fs@.contains_key((#[trigger] v@[t])@))
                &&& (forall|t1: int, t2: int| 0 <= t1 < t2 < count ==> v@[t1]@ != v@[t2]@)
                &&& (forall|t: int, k: int|
                    0 <= t < count && 0 <= k < changes@.len() ==> (#[trigger] v@[t])@
                        != change_source(#[trigger] change_views(changes@)[k]) && v@[t]@
                        != change_target(change_views(changes@)[k]))
            },
            Err(e) => e@ == ErrorModel::Tempfile && (exists|chosen: Seq<Seq<char>>, s: Seq<char>|
                aux_alloc_blocked(fs@, change_views(changes@), dir@, count as int, chosen, s)),
        },
{
    let ghost all = change_views(changes@);
    let mut scratch = fs.duplicate();
    let mut i: usize = 0;
    while i < changes.len()
        invariant
            scratch.wf(),
            0 <= i <= changes@.len(),
            forall|q: Seq<char>| fs@.contains_key(q) ==> scratch@.contains_key(q),
            forall|k: int|
                0 <= k < i ==> scratch@.contains_key(change_source(#[trigger] all[k]))
                    && scratch@.contains_key(change_target(all[k])),
            forall|q: Seq<char>|
                #[trigger] scratch@.contains_key(q) ==> fs@.contains_key(q) || (exists|k: int|
                    0 <= k < i && (change_source(#[trigger] all[k]) == q || change_target(all[k])
                        == q)),
        decreases changes@.len() - i,
    {
        proof {
            assert(all[i as int] == changes@[i as int]@);
        }
        match &changes[i] {
            Change::Rename { from, to } => {
                scratch.insert_path(from.as_str(), 0);
                scratch.insert_path(to.as_str(), 0);
                proof {
                    assert(change_source(all[i as int]) == from@);
                    assert(change_target(all[i as int]) == to@);
                }
            },
            Change::Delete { path } => {
                scratch.insert_path(path.as_str(), 0);
                proof {
                    assert(change_source(all[i as int]) == path@);
                }
            },
        }
        i += 1;
    }
    let mut out: Vec<String> = Vec::new();
    let mut t: usize = 0;
    let ghost mut chosen: Seq<Seq<char>> = Seq::empty();
    while t < count
        invariant
            scratch.wf(),
            0 <= t <= count,
            out@.len() == t,
            chosen.len() == t,
            forall|u: int|
                0 <= u < t ==> (#[trigger] chosen[u]).len() == TEMPFILE_NAME_LENGTH && is_alnum(
                    chosen[u],
                ),
            forall|u: int| 0 <= u < t ==> (#[trigger] out@[u])@ == join_path(dir@, chosen[u]),
            forall|q: Seq<char>| fs@.contains_key(q) ==> scratch@.contains_key(q),
            forall|k: int|
                0 <= k < changes@.len() ==> scratch@.contains_key(change_source(#[trigger] all[k]))
                    && scratch@.contains_key(change_target(all[k])),
            forall|u: int| 0 <= u < t ==> scratch@.contains_key((#[trigger] out@[u])@),
            forall|u: int| 0 <= u < t ==> !fs@.contains_key((#[trigger] out@[u])@),
            forall|u1: int, u2: int| 0 <= u1 < u2 < t ==> out@[u1]@ != out@[u2]@,
            forall|u: int, k: int|
                0 <= u < t && 0 <= k < changes@.len() ==> (#[trigger] out@[u])@ != change_source(
                    #[trigger] all[k],
                ) && out@[u]@ != change_target(all[k]),
            forall|q: Seq<char>|
                #[trigger] scratch@.contains_key(q) ==> fs@.contains_key(q) || (exists|k: int|
                    0 <= k < changes@.len() && (change_source(#[trigger] all[k]) == q
                        || change_target(all[k]) == q)) || (exists|u: int|
                    0 <= u < t && q == join_path(dir@, chosen[u])),
        decreases count - t,
    {
        let aux = match tmpfile(&scratch, dir) {
            Ok(p) => p,
            Err(e) => {
                proof {
                    let s = choose|s: Seq<char>|
                        s.len() == TEMPFILE_NAME_LENGTH && is_alnum(s) && scratch@.contains_key(
                            join_path(dir@, s),
                        );
                    let p = join_path(dir@, s);
                    if !fs@.contains_key(p) && !(exists|k: int|
                        0 <= k < changes@.len() && (change_source(#[trigger] all[k]) == p
                            || change_target(all[k]) == p)) {
                        let u = choose|u: int| 0 <= u < t && p == join_path(dir@, chosen[u]);
                        lemma_join_path_injective(dir@, s, chosen[u]);
                        assert(chosen[u] == s);
                        assert(chosen.contains(s));
                    }
                    assert(aux_alloc_blocked(
                        fs@,
                        change_views(changes@),
                        dir@,
                        count as int,
                        chosen,
                        s,
                    ));
                }
                return Err(e);
            },
        };
        let ghost chosen0 = chosen;
        let ghost scratch0 = scratch@;
        proof {
            let s2 = choose|s2: Seq<char>|
                aux@ == join_path(dir@, s2) && s2.len() == TEMPFILE_NAME_LENGTH && is_alnum(s2);
            chosen = chosen.push(s2);
        }
        scratch.insert_path(aux.as_str(), 0);
        out.push(aux);
        proof {
            assert(aux@ == join_path(dir@, chosen[t as int]));
            assert forall|q: Seq<char>| #[trigger] scratch@.contains_key(q) implies
                fs@.contains_key(q) || (exists|k: int|
                    0 <= k < changes@.len() && (change_source(#[trigger] all[k]) == q
                        || change_target(all[k]) == q)) || (exists|u: int|
                    0 <= u < t + 1 && q == join_path(dir@, chosen[u])) by {
                if q == aux@ {
                    assert(0 <= t < t + 1 && q == join_path(dir@, chosen[t as int]));
                } else {
                    assert(scratch0.contains_key(q));
                    if !fs@.contains_key(q) && !(exists|k: int|
                        0 <= k < changes@.len() && (change_source(#[trigger] all[k]) == q
                            || change_target(all[k]) == q)) {
                        let u = choose|u: int| 0 <= u < t && q == join_path(dir@, chosen0[u]);
                        assert(chosen[u] == chosen0[u]);
                        assert(0 <= u < t + 1 && q == join_path(dir@, chosen[u]));
                    }
                }
            }
        }
        t += 1;
    }
    Ok(out)
}

} // verus!
