//! Listing codec: the snapshot is serialized as a newline-separated text, and
//! the edited text is parsed back into one candidate name per line. The final
//! line terminator does not produce a trailing empty line; nothing else is
//! trimmed or escaped.

use vstd::prelude::*;
use vstd::string::*;
use crate::model::{views, entry_names, wf_name, DirectoryEntry};

verus! {

/// Split `text` at every newline, keeping empty segments: one segment more
/// than there are newlines.
pub open spec fn split_lines_full(text: Seq<char>) -> Seq<Seq<char>>
    decreases text.len(),
{
    if text.len() == 0 {
        seq![Seq::<char>::empty()]
    } else if text.last() == '\n' {
        split_lines_full(text.drop_last()) + seq![Seq::<char>::empty()]
    } else {
        let rest = split_lines_full(text.drop_last());
        rest.update(rest.len() - 1, rest.last().push(text.last()))
    }
}

pub proof fn lemma_split_lines_full_len(text: Seq<char>)
    ensures
        split_lines_full(text).len() >= 1,
    decreases text.len(),
{
    if text.len() > 0 {
        lemma_split_lines_full_len(text.drop_last());
    }
}

/// The lines of an edited text: its newline-separated segments, except that a
/// final line terminator produces no trailing empty line.
pub open spec fn split_lines(text: Seq<char>) -> Seq<Seq<char>> {
    if text.len() == 0 {
        Seq::empty()
    } else {
        let full = split_lines_full(text);
        if full.last().len() == 0 {
            full.drop_last()
        } else {
            full
        }
    }
}

/// The serialized listing: the names in order, separated by single newlines.
pub open spec fn join_lines(names: Seq<Seq<char>>) -> Seq<char>
    decreases names.len(),
{
    if names.len() == 0 {
        Seq::empty()
    } else if names.len() == 1 {
        names[0]
    } else {
        join_lines(names.drop_last()) + seq!['\n'] + names.last()
    }
}

/// Parse an edited text into its lines.
#[verifier::loop_isolation(false)]
pub fn parse_listing(text: &str) -> (lines: Vec<String>)
    ensures
        views(lines@) == split_lines(text@),
{
    let n = text.unicode_len();
    let mut lines: Vec<String> = Vec::new();
    let mut start: usize = 0;
    let mut i: usize = 0;
    proof {
        assert(views(lines@).push(text@.subrange(0, 0)) =~~= split_lines_full(text@.take(0)));
    }
    while i < n
        invariant
            n == text@.len(),
            0 <= start <= i <= n,
            views(lines@).push(text@.subrange(start as int, i as int)) == split_lines_full(
                text@.take(i as int),
            ),
            forall|k: int| start <= k < i ==> text@[k] != '\n',
        decreases n - i,
    {
        let ghost prev = text@.take(i as int);
        let c = text.get_char(i);
        proof {
            assert(text@.take(i + 1).drop_last() =~= prev);
            assert(text@.take(i + 1).last() == text@[i as int]);
        }
        if c == '\n' {
            let line = text.substring_char(start, i).to_owned();
            let ghost old_lines = lines@;
            lines.push(line);
            proof {
                assert(views(lines@) =~= views(old_lines).push(line@));
                assert(views(lines@).push(text@.subrange(i + 1, i + 1)) =~~= split_lines_full(
                    text@.take(i + 1),
                ));
            }
            start = i + 1;
        } else {
            proof {
                let full = split_lines_full(prev);
                lemma_split_lines_full_len(prev);
                assert(full.last() == text@.subrange(start as int, i as int));
                assert(text@.subrange(start as int, i as int).push(text@[i as int])
                    =~= text@.subrange(start as int, i + 1));
                assert(views(lines@).push(text@.subrange(start as int, i + 1))
                    =~= split_lines_full(text@.take(i + 1)));
            }
        }
        i += 1;
    }
    proof {
        assert(text@.take(n as int) =~= text@);
    }
    if start < n {
        let line = text.substring_char(start, n).to_owned();
        let ghost old_lines = lines@;
        lines.push(line);
        proof {
            assert(views(lines@) =~= views(old_lines).push(line@));
            assert(views(lines@) =~= split_lines_full(text@));
            assert(split_lines_full(text@).last().len() > 0);
            assert(views(lines@) == split_lines(text@));
        }
    } else {
        proof {
            if n == 0 {
                assert(views(lines@) =~= split_lines(text@));
            } else {
                let full = split_lines_full(text@);
                assert(full.last() == text@.subrange(start as int, n as int));
                assert(full.last().len() == 0);
                assert(views(lines@) =~= full.drop_last());
            }
        }
    }
    lines
}

/// Serialize the snapshot: the entry names in order, newline-separated.
#[verifier::loop_isolation(false)]
pub fn serialize_listing(entries: &Vec<DirectoryEntry>) -> (text: String)
    ensures
        text@ == join_lines(entry_names(entries@)),
{
    let ghost names = entry_names(entries@);
    let mut text = String::new();
    let mut i: usize = 0;
    proof {
        reveal_strlit("\n");
        assert("\n"@ =~= seq!['\n']);
    }
    while i < entries.len()
        invariant
            0 <= i <= entries.len(),
            names == entry_names(entries@),
            names.len() == entries.len(),
            text@ == join_lines(names.take(i as int)),
            "\n"@ =~= seq!['\n'],
        decreases entries.len() - i,
    {
        if i > 0 {
            text.append("\n");
        }
        text.append(entries[i].original_name.as_str());
        proof {
            let cur = names.take(i + 1);
            assert(cur.drop_last() =~= names.take(i as int));
            assert(cur.last() == names[i as int]);
            assert(names[i as int] == entries@[i as int].original_name@);
            if i == 0 {
                assert(text@ =~= join_lines(cur));
            } else {
                assert(text@ =~= join_lines(names.take(i as int)) + seq!['\n'] + names[i as int]);
            }
        }
        i += 1;
    }
    proof {
        assert(names.take(entries@.len() as int) =~= names);
    }
    text
}

/// Appending newline-free text extends the final segment and nothing else.
proof fn lemma_split_full_append_clean(t: Seq<char>, s: Seq<char>)
    requires
        !s.contains('\n'),
    ensures
        split_lines_full(t + s) == split_lines_full(t).update(
            split_lines_full(t).len() - 1,
            split_lines_full(t).last() + s,
        ),
    decreases s.len(),
{
    lemma_split_lines_full_len(t);
    if s.len() == 0 {
        assert(t + s =~= t);
        assert(split_lines_full(t).last() + s =~= split_lines_full(t).last());
        assert(split_lines_full(t).update(
            split_lines_full(t).len() - 1,
            split_lines_full(t).last(),
        ) =~= split_lines_full(t));
    } else {
        let s0 = s.drop_last();
        assert(!s0.contains('\n')) by {
            assert(forall|i: int| 0 <= i < s0.len() ==> s0[i] == s[i]);
        }
        lemma_split_full_append_clean(t, s0);
        assert((t + s).drop_last() =~= t + s0);
        assert((t + s).last() == s.last());
        assert(s.last() != '\n') by {
            assert(s[s.len() - 1] == s.last());
        }
        let full0 = split_lines_full(t + s0);
        lemma_split_lines_full_len(t + s0);
        assert(split_lines_full(t + s) == full0.update(full0.len() - 1, full0.last().push(s.last())));
        assert(full0.last() == split_lines_full(t).last() + s0);
        assert((split_lines_full(t).last() + s0).push(s.last()) =~= split_lines_full(t).last() + s);
        assert(split_lines_full(t + s) =~= split_lines_full(t).update(
            split_lines_full(t).len() - 1,
            split_lines_full(t).last() + s,
        ));
    }
}

/// Appending a newline appends a fresh empty segment.
proof fn lemma_split_full_append_newline(t: Seq<char>)
    ensures
        split_lines_full(t + seq!['\n']) == split_lines_full(t) + seq![Seq::<char>::empty()],
{
    assert((t + seq!['\n']).drop_last() =~= t);
    assert((t + seq!['\n']).last() == '\n');
}

/// Newline-free text is a single segment.
proof fn lemma_split_full_clean(s: Seq<char>)
    requires
        !s.contains('\n'),
    ensures
        split_lines_full(s) == seq![s],
{
    let e = Seq::<char>::empty();
    lemma_split_full_append_clean(e, s);
    assert(e + s =~= s);
    assert(split_lines_full(e) == seq![e]);
    assert(seq![e].update(0, e + s) =~= seq![s]) by {
        assert(e + s =~= s);
    }
}

proof fn lemma_split_full_join(names: Seq<Seq<char>>)
    requires
        names.len() >= 1,
        forall|i: int| 0 <= i < names.len() ==> !(#[trigger] names[i]).contains('\n'),
    ensures
        split_lines_full(join_lines(names)) == names,
    decreases names.len(),
{
    if names.len() == 1 {
        lemma_split_full_clean(names[0]);
        assert(seq![names[0]] =~= names);
    } else {
        let prefix = names.drop_last();
        assert(forall|i: int| 0 <= i < prefix.len() ==> prefix[i] == names[i]);
        lemma_split_full_join(prefix);
        let jp = join_lines(prefix);
        assert(join_lines(names) == jp + seq!['\n'] + names.last());
        lemma_split_full_append_newline(jp);
        let mid = split_lines_full(jp + seq!['\n']);
        assert(mid == prefix + seq![Seq::<char>::empty()]);
        assert((jp + seq!['\n']) + names.last() =~= join_lines(names));
        lemma_split_full_append_clean(jp + seq!['\n'], names.last());
        assert(mid.last() == Seq::<char>::empty());
        assert(mid.last() + names.last() =~= names.last());
        assert(mid.update(mid.len() - 1, names.last()) =~= names);
    }
}

/// Round trip: parsing the serialized listing of well-formed names gives the
/// names back, position for position.
pub proof fn lemma_split_join(names: Seq<Seq<char>>)
    requires
        forall|i: int| 0 <= i < names.len() ==> wf_name(#[trigger] names[i]),
    ensures
        split_lines(join_lines(names)) == names,
{
    if names.len() == 0 {
        assert(split_lines(join_lines(names)) =~= names);
    } else {
        lemma_split_full_join(names);
        assert(join_lines(names).len() > 0) by {
            if names.len() == 1 {
                assert(join_lines(names) == names[0]);
                assert(names[0].len() > 0);
            }
        }
        assert(split_lines_full(join_lines(names)).last() == names.last());
        assert(names.last().len() > 0) by {
            assert(wf_name(names[names.len() - 1]));
        }
    }
}

} // verus!
