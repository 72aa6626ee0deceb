//! The group scanner: read-only walks over the file's lines that list the
//! group names in file order, and that collect the entries of one named
//! group. Both trim each line before comparing it to marker lines.
use vstd::prelude::*;

use crate::entry::{classify_line, parse_entry_line, EntryModel, HostsEntry, ParseOutcome};
use crate::marker::{
    build_end_marker, build_start_marker, end_marker, group_start_name, is_group_start,
    marker_name, start_marker,
};
use crate::text::{bytes_eq, lemma_bytes_deep_view, split_lines, split_lines_exec, trim, trim_bytes};

verus! {

/// The names announced by group start lines, in file order, duplicates kept.
pub open spec fn groups_in(ls: Seq<Seq<u8>>) -> Seq<Seq<u8>>
    decreases ls.len(),
{
    if ls.len() == 0 {
        Seq::empty()
    } else {
        let rest = groups_in(ls.skip(1));
        if is_group_start(trim(ls[0])) {
            seq![marker_name(trim(ls[0]))] + rest
        } else {
            rest
        }
    }
}

/// The entries between the markers of the group `name`, walking the lines
/// with an in-group flag: the start marker raises it, the end marker lowers
/// it, and every line read while it is up contributes what the entry parser
/// makes of it.
pub open spec fn entries_from(ls: Seq<Seq<u8>>, name: Seq<u8>, in_group: bool) -> Seq<EntryModel>
    decreases ls.len(),
{
    if ls.len() == 0 {
        Seq::empty()
    } else {
        let t = trim(ls[0]);
        if t == start_marker(name) {
            entries_from(ls.skip(1), name, true)
        } else if t == end_marker(name) {
            entries_from(ls.skip(1), name, false)
        } else if in_group {
            match classify_line(ls[0]) {
                Some(e) => seq![e] + entries_from(ls.skip(1), name, true),
                None => entries_from(ls.skip(1), name, true),
            }
        } else {
            entries_from(ls.skip(1), name, false)
        }
    }
}

/// The in-group flag after walking all of `ls` for the group `name`.
pub open spec fn read_state(ls: Seq<Seq<u8>>, name: Seq<u8>, in_group: bool) -> bool
    decreases ls.len(),
{
    if ls.len() == 0 {
        in_group
    } else {
        let t = trim(ls[0]);
        if t == start_marker(name) {
            read_state(ls.skip(1), name, true)
        } else if t == end_marker(name) {
            read_state(ls.skip(1), name, false)
        } else {
            read_state(ls.skip(1), name, in_group)
        }
    }
}

/// All group names found in `content`, in file order. A name occurs once per
/// start marker line, so duplicate markers yield duplicate names.
pub fn list_groups(content: &[u8]) -> (r: Vec<Vec<u8>>)
    ensures
        r.deep_view() == groups_in(split_lines(content@)),
{
    let lines = split_lines_exec(content);
    let ghost gls = split_lines(content@);
    let n = lines.len();
    let mut out: Vec<Vec<u8>> = Vec::new();
    let mut i: usize = 0;
    proof {
        assert(gls.skip(0) =~= gls);
        assert(out.deep_view() + groups_in(gls) =~= groups_in(gls));
    }
    while i < n
        invariant
            0 <= i <= n,
            n == lines@.len(),
            lines.deep_view() == gls,
            groups_in(gls) == out.deep_view() + groups_in(gls.skip(i as int)),
        decreases n - i,
    {
        proof {
            assert(gls.skip(i as int)[0] == gls[i as int]);
            assert(gls.skip(i as int).skip(1) =~= gls.skip(i + 1));
            lemma_bytes_deep_view(lines@[i as int]);
        }
        let t = trim_bytes(lines[i].as_slice());
        match group_start_name(t.as_slice()) {
            Some(name) => {
                let ghost prev = out.deep_view();
                proof {
                    lemma_bytes_deep_view(name);
                }
                out.push(name);
                proof {
                    assert(out.deep_view() =~= prev.push(marker_name(trim(gls[i as int]))));
                    assert(prev + (seq![marker_name(trim(gls[i as int]))] + groups_in(
                        gls.skip(i + 1),
                    )) =~= out.deep_view() + groups_in(gls.skip(i + 1)));
                }
            },
            None => {},
        }
        i = i + 1;
    }
    proof {
        assert(gls.skip(n as int) =~= Seq::<Seq<u8>>::empty());
        assert(out.deep_view() + Seq::<Seq<u8>>::empty() =~= out.deep_view());
    }
    out
}

/// The entries of the group `name` in `content`. An absent group and an
/// empty group both yield no entries.
pub fn read_group(content: &[u8], name: &[u8]) -> (r: Vec<HostsEntry>)
    ensures
        r.deep_view() == entries_from(split_lines(content@), name@, false),
{
    let lines = split_lines_exec(content);
    let ghost gls = split_lines(content@);
    let start = build_start_marker(name);
    let end = build_end_marker(name);
    let n = lines.len();
    let mut out: Vec<HostsEntry> = Vec::new();
    let mut in_group = false;
    let mut i: usize = 0;
    proof {
        assert(gls.skip(0) =~= gls);
        assert(out.deep_view() + entries_from(gls, name@, false) =~= entries_from(
            gls,
            name@,
            false,
        ));
    }
    while i < n
        invariant
            0 <= i <= n,
            n == lines@.len(),
            lines.deep_view() == gls,
            start@ == start_marker(name@),
            end@ == end_marker(name@),
            entries_from(gls, name@, false) == out.deep_view() + entries_from(
                gls.skip(i as int),
                name@,
                in_group,
            ),
        decreases n - i,
    {
        proof {
            assert(gls.skip(i as int)[0] == gls[i as int]);
            assert(gls.skip(i as int).skip(1) =~= gls.skip(i + 1));
            lemma_bytes_deep_view(lines@[i as int]);
        }
        let t = trim_bytes(lines[i].as_slice());
        if bytes_eq(t.as_slice(), start.as_slice()) {
            in_group = true;
        } else if bytes_eq(t.as_slice(), end.as_slice()) {
            in_group = false;
        } else if in_group {
            match parse_entry_line(lines[i].as_slice()) {
                ParseOutcome::Parsed(e) => {
                    let ghost prev = out.deep_view();
                    let ghost ev = e@;
                    out.push(e);
                    proof {
                        assert(out.deep_view() =~= prev.push(ev));
                        assert(prev + (seq![ev] + entries_from(gls.skip(i + 1), name@, true))
                            =~= out.deep_view() + entries_from(gls.skip(i + 1), name@, true));
                    }
                },
                ParseOutcome::Skipped => {},
            }
        }
        i = i + 1;
    }
    proof {
        assert(gls.skip(n as int) =~= Seq::<Seq<u8>>::empty());
        assert(out.deep_view() + Seq::<EntryModel>::empty() =~= out.deep_view());
    }
    out
}

} // verus!
