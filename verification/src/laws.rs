//! The laws that tie the operations together: replacing a group and reading
//! it back yields exactly the fragment's entries; replacing twice keeps one
//! group under the name; deleting keeps every outside line in order and
//! removes the name from the listing; a legacy scope write on a file without
//! sentinels appends exactly the fresh block.
use vstd::prelude::*;

use crate::editor::{fragment_lines, group_present, remove_lines, upsert_lines};
use crate::entry::{classify_line, EntryModel};
use crate::legacy::{has_legacy_start, legacy_end, legacy_insert, legacy_lines, legacy_start};
use crate::marker::{
    end_marker, is_group_start, lemma_end_marker_shape, lemma_marker_decompose,
    lemma_start_marker_shape, marker_name, start_marker, valid_group_name,
};
use crate::scanner::{entries_from, groups_in, read_state};
use crate::text::{
    contains_sub, join_nl, join_sep, lemma_split_join, lemma_split_join_sep,
    lemma_split_lines_no_nl, lemma_trim_idempotent, lemma_trim_no_nl, no_nl, split_lines, trim,
};

verus! {

/// The entries that parsing fragment text directly yields: each line is fed
/// to the entry parser; blank, comment-only and malformed lines yield none.
pub open spec fn parse_all(ls: Seq<Seq<u8>>) -> Seq<EntryModel>
    decreases ls.len(),
{
    if ls.len() == 0 {
        Seq::empty()
    } else {
        match classify_line(ls[0]) {
            Some(e) => seq![e] + parse_all(ls.skip(1)),
            None => parse_all(ls.skip(1)),
        }
    }
}

/// How many elements of `gs` equal `x`.
pub open spec fn count_eq(gs: Seq<Seq<u8>>, x: Seq<u8>) -> nat
    decreases gs.len(),
{
    if gs.len() == 0 {
        0
    } else {
        (if gs[0] == x {
            1nat
        } else {
            0nat
        }) + count_eq(gs.skip(1), x)
    }
}

/// `a` is obtained from `b` by deleting elements only, so what is kept is
/// unchanged and in its original relative order.
pub open spec fn subsequence_of(a: Seq<Seq<u8>>, b: Seq<Seq<u8>>) -> bool
    decreases b.len(),
{
    if a.len() == 0 {
        true
    } else if b.len() == 0 {
        false
    } else if a[0] == b[0] {
        subsequence_of(a.skip(1), b.skip(1))
    } else {
        subsequence_of(a, b.skip(1))
    }
}

proof fn lemma_sub_tail(a: Seq<Seq<u8>>, b: Seq<Seq<u8>>)
    requires
        subsequence_of(a, b),
        a.len() > 0,
    ensures
        subsequence_of(a.skip(1), b),
    decreases b.len(), 0nat,
{
    if a[0] == b[0] {
        if a.skip(1).len() > 0 {
            lemma_sub_prepend(a.skip(1), b.skip(1), b[0]);
            assert(seq![b[0]] + b.skip(1) =~= b);
        }
    } else {
        lemma_sub_tail(a, b.skip(1));
        lemma_sub_prepend(a.skip(1), b.skip(1), b[0]);
        assert(seq![b[0]] + b.skip(1) =~= b);
    }
}

proof fn lemma_sub_prepend(a: Seq<Seq<u8>>, b: Seq<Seq<u8>>, x: Seq<u8>)
    requires
        subsequence_of(a, b),
    ensures
        subsequence_of(a, seq![x] + b),
    decreases b.len(), 1nat,
{
    let c = seq![x] + b;
    if a.len() == 0 {
    } else {
        assert(c[0] == x);
        assert(c.skip(1) =~= b);
        if a[0] == x {
            lemma_sub_tail(a, b);
        }
    }
}

/// Deleting a group keeps every other line unchanged and in order: the
/// result is a subsequence of the original lines.
pub proof fn lemma_remove_subsequence(ls: Seq<Seq<u8>>, name: Seq<u8>, in_group: bool)
    ensures
        subsequence_of(remove_lines(ls, name, in_group), ls),
    decreases ls.len(),
{
    if ls.len() == 0 {
    } else {
        let t = trim(ls[0]);
        let r = remove_lines(ls, name, in_group);
        if t == start_marker(name) {
            lemma_remove_subsequence(ls.skip(1), name, true);
            lemma_sub_prepend(r, ls.skip(1), ls[0]);
            assert(seq![ls[0]] + ls.skip(1) =~= ls);
        } else if in_group {
            lemma_remove_subsequence(ls.skip(1), name, t != end_marker(name));
            lemma_sub_prepend(r, ls.skip(1), ls[0]);
            assert(seq![ls[0]] + ls.skip(1) =~= ls);
        } else {
            lemma_remove_subsequence(ls.skip(1), name, false);
            assert(r[0] == ls[0]);
            assert(r.skip(1) =~= remove_lines(ls.skip(1), name, false));
        }
    }
}

/// No line kept by a delete trims to the group's start marker.
pub proof fn lemma_remove_no_start(ls: Seq<Seq<u8>>, name: Seq<u8>, in_group: bool)
    ensures
        forall|i: int|
            0 <= i < remove_lines(ls, name, in_group).len() ==> trim(
                #[trigger] remove_lines(ls, name, in_group)[i],
            ) != start_marker(name),
    decreases ls.len(),
{
    if ls.len() == 0 {
    } else {
        let t = trim(ls[0]);
        let r = remove_lines(ls, name, in_group);
        if t == start_marker(name) {
            lemma_remove_no_start(ls.skip(1), name, true);
            let rest = remove_lines(ls.skip(1), name, true);
            assert forall|i: int| 0 <= i < r.len() implies trim(#[trigger] r[i]) != start_marker(
                name,
            ) by {
                assert(r[i] == rest[i]);
            }
        } else if in_group {
            let next = t != end_marker(name);
            lemma_remove_no_start(ls.skip(1), name, next);
            let rest = remove_lines(ls.skip(1), name, next);
            assert forall|i: int| 0 <= i < r.len() implies trim(#[trigger] r[i]) != start_marker(
                name,
            ) by {
                assert(r[i] == rest[i]);
            }
        } else {
            lemma_remove_no_start(ls.skip(1), name, false);
            let rest = remove_lines(ls.skip(1), name, false);
            assert forall|i: int| 0 <= i < r.len() implies trim(#[trigger] r[i]) != start_marker(
                name,
            ) by {
                if i == 0 {
                    assert(r[0] == ls[0]);
                } else {
                    assert(r[i] == rest[i - 1]);
                }
            }
        }
    }
}

/// Deleting keeps every line on one line: newline-free lines stay so.
pub proof fn lemma_remove_no_nl(ls: Seq<Seq<u8>>, name: Seq<u8>, in_group: bool)
    requires
        forall|i: int| 0 <= i < ls.len() ==> no_nl(#[trigger] ls[i]),
    ensures
        forall|i: int|
            0 <= i < remove_lines(ls, name, in_group).len() ==> no_nl(
                #[trigger] remove_lines(ls, name, in_group)[i],
            ),
    decreases ls.len(),
{
    if ls.len() == 0 {
    } else {
        let t = trim(ls[0]);
        let r = remove_lines(ls, name, in_group);
        assert(forall|i: int| 0 <= i < ls.skip(1).len() ==> no_nl(#[trigger] ls.skip(1)[i]));
        if t == start_marker(name) {
            lemma_remove_no_nl(ls.skip(1), name, true);
            let rest = remove_lines(ls.skip(1), name, true);
            assert forall|i: int| 0 <= i < r.len() implies no_nl(#[trigger] r[i]) by {
                assert(r[i] == rest[i]);
            }
        } else if in_group {
            let next = t != end_marker(name);
            lemma_remove_no_nl(ls.skip(1), name, next);
            let rest = remove_lines(ls.skip(1), name, next);
            assert forall|i: int| 0 <= i < r.len() implies no_nl(#[trigger] r[i]) by {
                assert(r[i] == rest[i]);
            }
        } else {
            lemma_remove_no_nl(ls.skip(1), name, false);
            let rest = remove_lines(ls.skip(1), name, false);
            assert forall|i: int| 0 <= i < r.len() implies no_nl(#[trigger] r[i]) by {
                if i == 0 {
                    assert(r[0] == ls[0]);
                } else {
                    assert(r[i] == rest[i - 1]);
                }
            }
        }
    }
}

/// Reading and the in-group flag distribute over concatenation of lines.
proof fn lemma_entries_concat(a: Seq<Seq<u8>>, b: Seq<Seq<u8>>, name: Seq<u8>, in_group: bool)
    ensures
        read_state(a + b, name, in_group) == read_state(b, name, read_state(a, name, in_group)),
        entries_from(a + b, name, in_group) == entries_from(a, name, in_group) + entries_from(
            b,
            name,
            read_state(a, name, in_group),
        ),
    decreases a.len(),
{
    if a.len() == 0 {
        assert(a + b =~= b);
        assert(entries_from(a, name, in_group) + entries_from(b, name, in_group) =~= entries_from(
            b,
            name,
            in_group,
        ));
    } else {
        assert((a + b)[0] == a[0]);
        assert((a + b).skip(1) =~= a.skip(1) + b);
        let t = trim(a[0]);
        let next = if t == start_marker(name) {
            true
        } else if t == end_marker(name) {
            false
        } else {
            in_group
        };
        lemma_entries_concat(a.skip(1), b, name, next);
        if t != start_marker(name) && t != end_marker(name) && in_group && classify_line(
            a[0],
        ) is Some {
            let e = classify_line(a[0]).unwrap();
            assert(seq![e] + (entries_from(a.skip(1), name, true) + entries_from(
                b,
                name,
                read_state(a.skip(1), name, true),
            )) =~= (seq![e] + entries_from(a.skip(1), name, true)) + entries_from(
                b,
                name,
                read_state(a.skip(1), name, true),
            ));
        }
    }
}

/// Group listing distributes over concatenation of lines.
proof fn lemma_groups_concat(a: Seq<Seq<u8>>, b: Seq<Seq<u8>>)
    ensures
        groups_in(a + b) == groups_in(a) + groups_in(b),
    decreases a.len(),
{
    if a.len() == 0 {
        assert(a + b =~= b);
        assert(groups_in(a) + groups_in(b) =~= groups_in(b));
    } else {
        assert((a + b)[0] == a[0]);
        assert((a + b).skip(1) =~= a.skip(1) + b);
        lemma_groups_concat(a.skip(1), b);
        if is_group_start(trim(a[0])) {
            assert(seq![marker_name(trim(a[0]))] + (groups_in(a.skip(1)) + groups_in(b)) =~= (
            seq![marker_name(trim(a[0]))] + groups_in(a.skip(1))) + groups_in(b));
        }
    }
}

/// Occurrence counting distributes over concatenation.
proof fn lemma_count_concat(a: Seq<Seq<u8>>, b: Seq<Seq<u8>>, x: Seq<u8>)
    ensures
        count_eq(a + b, x) == count_eq(a, x) + count_eq(b, x),
    decreases a.len(),
{
    if a.len() == 0 {
        assert(a + b =~= b);
    } else {
        assert((a + b)[0] == a[0]);
        assert((a + b).skip(1) =~= a.skip(1) + b);
        lemma_count_concat(a.skip(1), b, x);
    }
}

/// Lines none of which trims to the start marker yield no entries and leave
/// the reader outside the group.
proof fn lemma_outside_quiet(ls: Seq<Seq<u8>>, name: Seq<u8>)
    requires
        forall|i: int| 0 <= i < ls.len() ==> trim(#[trigger] ls[i]) != start_marker(name),
    ensures
        entries_from(ls, name, false) == Seq::<EntryModel>::empty(),
        read_state(ls, name, false) == false,
    decreases ls.len(),
{
    if ls.len() > 0 {
        assert(trim(ls[0]) != start_marker(name));
        assert(forall|i: int|
            0 <= i < ls.skip(1).len() ==> trim(#[trigger] ls.skip(1)[i]) != start_marker(name));
        lemma_outside_quiet(ls.skip(1), name);
    }
}

/// Lines none of which trims to the start marker list the name zero times.
proof fn lemma_groups_no_name(ls: Seq<Seq<u8>>, name: Seq<u8>)
    requires
        forall|i: int| 0 <= i < ls.len() ==> trim(#[trigger] ls[i]) != start_marker(name),
    ensures
        count_eq(groups_in(ls), name) == 0,
    decreases ls.len(),
{
    if ls.len() > 0 {
        assert(trim(ls[0]) != start_marker(name));
        assert(forall|i: int|
            0 <= i < ls.skip(1).len() ==> trim(#[trigger] ls.skip(1)[i]) != start_marker(name));
        lemma_groups_no_name(ls.skip(1), name);
        if is_group_start(trim(ls[0])) {
            lemma_marker_decompose(trim(ls[0]));
            assert(marker_name(trim(ls[0])) != name);
            let g = groups_in(ls);
            assert(g[0] == marker_name(trim(ls[0])));
            assert(g.skip(1) =~= groups_in(ls.skip(1)));
        }
    }
}

/// A fresh group body keeps fragment lines on one line each.
proof fn lemma_fragment_no_nl(frag: Seq<Seq<u8>>)
    requires
        forall|i: int| 0 <= i < frag.len() ==> no_nl(#[trigger] frag[i]),
    ensures
        forall|i: int|
            0 <= i < fragment_lines(frag).len() ==> no_nl(#[trigger] fragment_lines(frag)[i]),
    decreases frag.len(),
{
    if frag.len() > 0 {
        assert(forall|i: int| 0 <= i < frag.skip(1).len() ==> no_nl(#[trigger] frag.skip(1)[i]));
        lemma_fragment_no_nl(frag.skip(1));
        let t = trim(frag[0]);
        lemma_trim_no_nl(frag[0]);
        let r = fragment_lines(frag);
        let rest = fragment_lines(frag.skip(1));
        assert forall|i: int| 0 <= i < r.len() implies no_nl(#[trigger] r[i]) by {
            if t.len() > 0 {
                if i == 0 {
                    assert(r[0] == t);
                } else {
                    assert(r[i] == rest[i - 1]);
                }
            } else {
                assert(r[i] == rest[i]);
            }
        }
    }
}

/// Reading the body built from a fragment, starting inside the group, yields
/// exactly the fragment's parsed entries and never leaves the group, so long
/// as no fragment line trims to the group's end marker.
proof fn lemma_fragment_reads_back(frag: Seq<Seq<u8>>, name: Seq<u8>)
    requires
        forall|i: int| 0 <= i < frag.len() ==> trim(#[trigger] frag[i]) != end_marker(name),
    ensures
        entries_from(fragment_lines(frag), name, true) == parse_all(frag),
        read_state(fragment_lines(frag), name, true) == true,
    decreases frag.len(),
{
    if frag.len() == 0 {
    } else {
        let t = trim(frag[0]);
        lemma_trim_idempotent(frag[0]);
        assert(forall|i: int|
            0 <= i < frag.skip(1).len() ==> trim(#[trigger] frag.skip(1)[i]) != end_marker(name));
        lemma_fragment_reads_back(frag.skip(1), name);
        let rest_fl = fragment_lines(frag.skip(1));
        if t.len() == 0 {
            // A blank line is dropped from the body and parses to nothing.
            assert(classify_line(frag[0]) is None);
        } else {
            let fl = fragment_lines(frag);
            assert(fl[0] == t);
            assert(fl.skip(1) =~= rest_fl);
            assert(trim(t) == t);
            if t == start_marker(name) {
                // The line re-enters the group the reader is already in, and
                // as a comment line it parses to nothing.
                lemma_start_marker_shape(name);
                assert(t[0] == crate::marker::marker_prefix()[0]);
                assert(classify_line(frag[0]) is None);
            } else {
                assert(t != end_marker(name));
                assert(classify_line(t) == classify_line(frag[0]));
                match classify_line(frag[0]) {
                    Some(e) => {
                        assert(entries_from(fl, name, true) == seq![e] + entries_from(
                            rest_fl,
                            name,
                            true,
                        ));
                    },
                    None => {},
                }
            }
        }
    }
}

/// The content written by a replace splits back into exactly the lines the
/// replace assembled, provided the group name fits on one line.
proof fn lemma_upsert_split_join(content: Seq<u8>, name: Seq<u8>, fragment: Seq<u8>)
    requires
        no_nl(name),
    ensures
        split_lines(join_nl(upsert_lines(split_lines(content), name, split_lines(fragment))))
            == upsert_lines(split_lines(content), name, split_lines(fragment)),
{
    let ls = split_lines(content);
    let fls = split_lines(fragment);
    let base = if group_present(ls, name) {
        remove_lines(ls, name, false)
    } else {
        ls
    };
    let fl = fragment_lines(fls);
    let whole = upsert_lines(ls, name, fls);
    lemma_split_lines_no_nl(content);
    lemma_split_lines_no_nl(fragment);
    if group_present(ls, name) {
        lemma_remove_no_nl(ls, name, false);
    }
    lemma_fragment_no_nl(fls);
    crate::marker::lemma_marker_no_nl(name);
    assert forall|i: int| 0 <= i < whole.len() implies no_nl(#[trigger] whole[i]) by {
        if i < base.len() {
            assert(whole[i] == base[i]);
        } else if i == base.len() {
            assert(whole[i] == start_marker(name));
        } else if i < base.len() + 1 + fl.len() {
            assert(whole[i] == fl[i - base.len() - 1]);
        } else {
            assert(whole[i] == end_marker(name));
        }
    }
    lemma_split_join(whole);
}

/// Every line of a fresh group body is the trim of some fragment line.
proof fn lemma_fragment_elements(frag: Seq<Seq<u8>>)
    ensures
        forall|i: int|
            0 <= i < fragment_lines(frag).len() ==> exists|j: int|
                0 <= j < frag.len() && #[trigger] fragment_lines(frag)[i] == trim(frag[j]),
    decreases frag.len(),
{
    if frag.len() > 0 {
        lemma_fragment_elements(frag.skip(1));
        let t = trim(frag[0]);
        let r = fragment_lines(frag);
        let rest = fragment_lines(frag.skip(1));
        assert forall|i: int| 0 <= i < r.len() implies exists|j: int|
            0 <= j < frag.len() && #[trigger] r[i] == trim(frag[j]) by {
            if t.len() > 0 && i == 0 {
                assert(r[0] == trim(frag[0]));
            } else {
                let k = if t.len() > 0 {
                    i - 1
                } else {
                    i
                };
                assert(r[i] == rest[k]);
                let j0 = choose|j0: int| 0 <= j0 < frag.skip(1).len() && rest[k] == trim(
                    frag.skip(1)[j0],
                );
                assert(frag.skip(1)[j0] == frag[j0 + 1]);
                assert(r[i] == trim(frag[j0 + 1]));
            }
        }
    }
}

/// Replacing a group and reading it back yields exactly the entries of
/// parsing the fragment directly, whatever the file held before, so long as
/// the name fits on one line and no fragment line trims to the group's end
/// marker (such a line would cut the written body short).
pub proof fn lemma_upsert_read_round_trip(content: Seq<u8>, name: Seq<u8>, fragment: Seq<u8>)
    requires
        no_nl(name),
        forall|i: int|
            0 <= i < split_lines(fragment).len() ==> trim(#[trigger] split_lines(fragment)[i])
                != end_marker(name),
    ensures
        entries_from(
            split_lines(join_nl(upsert_lines(split_lines(content), name, split_lines(fragment)))),
            name,
            false,
        ) == parse_all(split_lines(fragment)),
{
    let ls = split_lines(content);
    let fls = split_lines(fragment);
    let base = if group_present(ls, name) {
        remove_lines(ls, name, false)
    } else {
        ls
    };
    let fl = fragment_lines(fls);
    let tail = seq![start_marker(name)] + fl + seq![end_marker(name)];
    let whole = upsert_lines(ls, name, fls);
    assert(whole =~= base + tail);
    lemma_upsert_split_join(content, name, fragment);

    // Nothing before the fresh group contributes entries or state.
    if group_present(ls, name) {
        lemma_remove_no_start(ls, name, false);
    }
    lemma_outside_quiet(base, name);
    lemma_entries_concat(base, tail, name, false);

    // The fresh group contributes exactly the fragment's entries.
    lemma_start_marker_shape(name);
    lemma_end_marker_shape(name);
    assert(start_marker(name).len() < end_marker(name).len());
    assert(tail[0] == start_marker(name));
    assert(trim(tail[0]) == start_marker(name));
    assert(tail.skip(1) =~= fl + seq![end_marker(name)]);
    assert(entries_from(tail, name, false) == entries_from(fl + seq![end_marker(name)], name, true));
    lemma_entries_concat(fl, seq![end_marker(name)], name, true);
    lemma_fragment_reads_back(fls, name);
    let endl = seq![end_marker(name)];
    assert(trim(endl[0]) == end_marker(name));
    assert(end_marker(name).len() == start_marker(name).len() + 4);
    assert(trim(endl[0]) != start_marker(name));
    assert(endl.skip(1) =~= Seq::<Seq<u8>>::empty());
    assert(entries_from(endl, name, true) == entries_from(endl.skip(1), name, false));
    assert(entries_from(endl.skip(1), name, false) =~= Seq::<EntryModel>::empty());
    assert(entries_from(whole, name, false) =~= parse_all(fls));
}

/// After a replace, the group listing carries the name exactly once: the
/// delete phase removed every start marker of the name and the fresh group
/// contributes one, so repeated replaces never accumulate duplicates. Asks
/// that the name fit on one line and be valid, and that no fragment line
/// trim to the group's own start marker.
pub proof fn lemma_upsert_lists_once(content: Seq<u8>, name: Seq<u8>, fragment: Seq<u8>)
    requires
        no_nl(name),
        valid_group_name(name),
        forall|i: int|
            0 <= i < split_lines(fragment).len() ==> trim(#[trigger] split_lines(fragment)[i])
                != start_marker(name),
    ensures
        count_eq(
            groups_in(
                split_lines(
                    join_nl(upsert_lines(split_lines(content), name, split_lines(fragment))),
                ),
            ),
            name,
        ) == 1,
{
    let ls = split_lines(content);
    let fls = split_lines(fragment);
    let base = if group_present(ls, name) {
        remove_lines(ls, name, false)
    } else {
        ls
    };
    let fl = fragment_lines(fls);
    let startl = seq![start_marker(name)];
    let endl = seq![end_marker(name)];
    let whole = upsert_lines(ls, name, fls);
    lemma_upsert_split_join(content, name, fragment);
    assert(whole =~= base + (startl + (fl + endl)));

    lemma_groups_concat(base, startl + (fl + endl));
    lemma_groups_concat(startl, fl + endl);
    lemma_groups_concat(fl, endl);
    lemma_count_concat(groups_in(base), groups_in(startl + (fl + endl)), name);
    lemma_count_concat(groups_in(startl), groups_in(fl + endl), name);
    lemma_count_concat(groups_in(fl), groups_in(endl), name);

    // The base contributes no start marker of the name.
    if group_present(ls, name) {
        lemma_remove_no_start(ls, name, false);
    } else {
        assert forall|i: int| 0 <= i < base.len() implies trim(#[trigger] base[i])
            != start_marker(name) by {
            if trim(base[i]) == start_marker(name) {
                assert(group_present(ls, name));
            }
        }
    }
    lemma_groups_no_name(base, name);

    // The fresh start marker contributes the name once.
    lemma_start_marker_shape(name);
    assert(startl[0] == start_marker(name));
    assert(is_group_start(trim(startl[0])));
    assert(startl.skip(1) =~= Seq::<Seq<u8>>::empty());
    assert(groups_in(startl.skip(1)) =~= Seq::<Seq<u8>>::empty());
    assert(groups_in(startl) =~= seq![name]);
    assert(count_eq(groups_in(startl), name) == 1) by {
        assert(groups_in(startl)[0] == name);
        assert(groups_in(startl).skip(1) =~= Seq::<Seq<u8>>::empty());
        assert(count_eq(groups_in(startl).skip(1), name) == 0);
    }

    // The body contributes nothing: its lines are trimmed fragment lines,
    // none of which is the start marker.
    lemma_fragment_elements(fls);
    assert forall|i: int| 0 <= i < fl.len() implies trim(#[trigger] fl[i]) != start_marker(
        name,
    ) by {
        let j = choose|j: int| 0 <= j < fls.len() && fl[i] == trim(fls[j]);
        lemma_trim_idempotent(fls[j]);
    }
    lemma_groups_no_name(fl, name);

    // The end marker is never a group start.
    lemma_end_marker_shape(name);
    assert(endl[0] == end_marker(name));
    assert(endl.skip(1) =~= Seq::<Seq<u8>>::empty());
    assert(groups_in(endl.skip(1)) =~= Seq::<Seq<u8>>::empty());
    assert(groups_in(endl) =~= Seq::<Seq<u8>>::empty());
}

/// Replace semantics: after two replaces under one name, reading the group
/// yields exactly the second fragment's entries, and the listing carries the
/// name exactly once.
pub proof fn lemma_replace_semantics(content: Seq<u8>, name: Seq<u8>, first: Seq<u8>, second: Seq<u8>)
    requires
        no_nl(name),
        valid_group_name(name),
        forall|i: int|
            0 <= i < split_lines(second).len() ==> trim(#[trigger] split_lines(second)[i])
                != end_marker(name) && trim(split_lines(second)[i]) != start_marker(name),
    ensures
        ({
            let once = join_nl(upsert_lines(split_lines(content), name, split_lines(first)));
            let twice = join_nl(upsert_lines(split_lines(once), name, split_lines(second)));
            entries_from(split_lines(twice), name, false) == parse_all(split_lines(second))
                && count_eq(groups_in(split_lines(twice)), name) == 1
        }),
{
    let once = join_nl(upsert_lines(split_lines(content), name, split_lines(first)));
    lemma_upsert_read_round_trip(once, name, second);
    lemma_upsert_lists_once(once, name, second);
}

proof fn lemma_count_positive(gs: Seq<Seq<u8>>, x: Seq<u8>)
    requires
        gs.contains(x),
    ensures
        count_eq(gs, x) > 0,
    decreases gs.len(),
{
    let i = choose|i: int| 0 <= i < gs.len() && gs[i] == x;
    if i > 0 {
        assert(gs.skip(1)[i - 1] == x);
        lemma_count_positive(gs.skip(1), x);
    }
}

/// Appending lines that never trim to a group's start marker does not change
/// what reading that group yields, so long as the file does not end inside
/// the group.
pub proof fn lemma_read_unaffected_by_suffix(ls: Seq<Seq<u8>>, name: Seq<u8>, extra: Seq<Seq<u8>>)
    requires
        read_state(ls, name, false) == false,
        forall|i: int| 0 <= i < extra.len() ==> trim(#[trigger] extra[i]) != start_marker(name),
    ensures
        entries_from(ls + extra, name, false) == entries_from(ls, name, false),
{
    lemma_entries_concat(ls, extra, name, false);
    lemma_outside_quiet(extra, name);
    assert(entries_from(ls, name, false) + Seq::<EntryModel>::empty() =~= entries_from(
        ls,
        name,
        false,
    ));
}

/// Writing a fresh group under another name leaves a group's entries
/// untouched: the two names' marker lines cannot collide, so the new block
/// is invisible to the old group's reader. Asks that the other group be new
/// to the file (a replace of an existing one also rewrites its old spans),
/// that the file not end inside the group being read, and that the fragment
/// carry no line that trims to the read group's start marker.
pub proof fn lemma_other_group_does_not_interfere(
    content: Seq<u8>,
    name: Seq<u8>,
    other: Seq<u8>,
    fragment: Seq<u8>,
)
    requires
        name != other,
        no_nl(other),
        valid_group_name(name),
        !group_present(split_lines(content), other),
        read_state(split_lines(content), name, false) == false,
        forall|i: int|
            0 <= i < split_lines(fragment).len() ==> trim(#[trigger] split_lines(fragment)[i])
                != start_marker(name),
    ensures
        entries_from(
            split_lines(join_nl(upsert_lines(split_lines(content), other, split_lines(fragment)))),
            name,
            false,
        ) == entries_from(split_lines(content), name, false),
{
    let ls = split_lines(content);
    let fls = split_lines(fragment);
    let fl = fragment_lines(fls);
    let tail = seq![start_marker(other)] + fl + seq![end_marker(other)];
    let whole = upsert_lines(ls, other, fls);
    lemma_upsert_split_join(content, other, fragment);
    assert(whole =~= ls + tail);
    lemma_start_marker_shape(other);
    lemma_start_marker_shape(name);
    lemma_end_marker_shape(other);
    lemma_fragment_elements(fls);
    assert forall|i: int| 0 <= i < tail.len() implies trim(#[trigger] tail[i]) != start_marker(
        name,
    ) by {
        if i == 0 {
            assert(tail[0] == start_marker(other));
            if start_marker(other) == start_marker(name) {
                assert(marker_name(start_marker(other)) == marker_name(start_marker(name)));
            }
        } else if i < 1 + fl.len() {
            assert(tail[i] == fl[i - 1]);
            let j = choose|j: int| 0 <= j < fls.len() && fl[i - 1] == trim(fls[j]);
            lemma_trim_idempotent(fls[j]);
        } else {
            assert(tail[i] == end_marker(other));
        }
    }
    lemma_read_unaffected_by_suffix(ls, name, tail);
}

/// After a delete, the listing no longer carries the name, and every kept
/// line is an original line in its original relative order.
pub proof fn lemma_delete_then_list(content: Seq<u8>, name: Seq<u8>)
    ensures
        !groups_in(
            split_lines(join_nl(remove_lines(split_lines(content), name, false))),
        ).contains(name),
        subsequence_of(remove_lines(split_lines(content), name, false), split_lines(content)),
{
    let ls = split_lines(content);
    let kept = remove_lines(ls, name, false);
    lemma_split_lines_no_nl(content);
    lemma_remove_no_nl(ls, name, false);
    lemma_split_join(kept);
    lemma_remove_no_start(ls, name, false);
    lemma_groups_no_name(kept, name);
    if groups_in(kept).contains(name) {
        lemma_count_positive(groups_in(kept), name);
    }
    lemma_remove_subsequence(ls, name, false);
}

/// Inserting a legacy payload into lines that never carry the end sentinel
/// changes nothing.
proof fn lemma_insert_no_sentinel(ls: Seq<Seq<u8>>, payload: Seq<u8>)
    requires
        forall|i: int| 0 <= i < ls.len() ==> !contains_sub(#[trigger] ls[i], legacy_end()),
    ensures
        legacy_insert(ls, payload) == ls,
    decreases ls.len(),
{
    if ls.len() > 0 {
        assert(!contains_sub(ls[0], legacy_end()));
        assert(forall|i: int|
            0 <= i < ls.skip(1).len() ==> !contains_sub(#[trigger] ls.skip(1)[i], legacy_end()));
        lemma_insert_no_sentinel(ls.skip(1), payload);
        assert(seq![ls[0]] + ls.skip(1) =~= ls);
    }
}

/// A legacy scope write on a file with no prior sentinels appends exactly
/// the start sentinel, the payload, and the end sentinel, in that order,
/// after the untouched original lines.
pub proof fn lemma_legacy_fresh_block(ls: Seq<Seq<u8>>, payload: Seq<u8>)
    requires
        forall|i: int|
            0 <= i < ls.len() ==> !contains_sub(#[trigger] ls[i], legacy_start()) && !contains_sub(
                ls[i],
                legacy_end(),
            ),
    ensures
        legacy_lines(ls, payload) == ls + seq![legacy_start(), payload, legacy_end()],
{
    lemma_insert_no_sentinel(ls, payload);
    assert(!has_legacy_start(ls));
}

/// The same, stated of the written bytes: a legacy scope write on content
/// with no prior sentinels yields text whose lines are the original lines
/// followed by exactly the start sentinel, the payload, and the end
/// sentinel. The payload must fit on one line for the three lines to read
/// back as written.
pub proof fn lemma_legacy_fresh_block_bytes(content: Seq<u8>, payload: Seq<u8>)
    requires
        no_nl(payload),
        forall|i: int|
            0 <= i < split_lines(content).len() ==> !contains_sub(
                #[trigger] split_lines(content)[i],
                legacy_start(),
            ) && !contains_sub(split_lines(content)[i], legacy_end()),
    ensures
        split_lines(join_sep(legacy_lines(split_lines(content), payload))) == split_lines(content)
            + seq![legacy_start(), payload, legacy_end()],
{
    let ls = split_lines(content);
    lemma_legacy_fresh_block(ls, payload);
    lemma_split_lines_no_nl(content);
    let block = seq![legacy_start(), payload, legacy_end()];
    let whole = ls + block;
    assert(no_nl(legacy_start()));
    assert(no_nl(legacy_end()));
    assert forall|i: int| 0 <= i < whole.len() implies no_nl(#[trigger] whole[i]) by {
        if i < ls.len() {
            assert(whole[i] == ls[i]);
        } else {
            assert(whole[i] == block[i - ls.len()]);
        }
    }
    assert(whole.last() == legacy_end());
    lemma_split_join_sep(whole);
}

} // verus!
