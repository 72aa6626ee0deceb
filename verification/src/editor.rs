//! The group editor: replace-or-create a group and delete a group. Both
//! derive the whole new file content as a value; nothing is mutated in
//! place. Deleting drops every span between the group's start marker and its
//! end marker and keeps all other lines verbatim, in order; replacing
//! deletes and then appends the fresh group at the end of the file.
use vstd::prelude::*;

use crate::marker::{
    build_end_marker, build_start_marker, end_marker, start_marker,
};
use crate::text::{
    bytes_eq, join_nl, join_nl_exec, lemma_bytes_deep_view, split_lines, split_lines_exec, trim,
    trim_bytes,
};
use crate::HostsError;

verus! {

/// The lines that survive deleting the group `name`: the start marker sets
/// the in-group flag, the end marker clears it, and a line is kept exactly
/// when the flag is down and the line is not a start marker.
pub open spec fn remove_lines(ls: Seq<Seq<u8>>, name: Seq<u8>, in_group: bool) -> Seq<Seq<u8>>
    decreases ls.len(),
{
    if ls.len() == 0 {
        Seq::empty()
    } else {
        let t = trim(ls[0]);
        if t == start_marker(name) {
            remove_lines(ls.skip(1), name, true)
        } else if in_group {
            if t == end_marker(name) {
                remove_lines(ls.skip(1), name, false)
            } else {
                remove_lines(ls.skip(1), name, true)
            }
        } else {
            seq![ls[0]] + remove_lines(ls.skip(1), name, false)
        }
    }
}

/// Some line of `ls` is the start marker of `name`.
pub open spec fn group_present(ls: Seq<Seq<u8>>, name: Seq<u8>) -> bool {
    exists|i: int| 0 <= i < ls.len() && trim(ls[i]) == start_marker(name)
}

/// Walks the lines once, keeping what lies outside the group `name` and
/// reporting whether its start marker was seen.
fn remove_walk(lines: &Vec<Vec<u8>>, name: &[u8]) -> (r: (Vec<Vec<u8>>, bool))
    ensures
        r.0.deep_view() == remove_lines(lines.deep_view(), name@, false),
        r.1 == group_present(lines.deep_view(), name@),
{
    let ghost gls = lines.deep_view();
    let start = build_start_marker(name);
    let end = build_end_marker(name);
    let n = lines.len();
    let mut out: Vec<Vec<u8>> = Vec::new();
    let mut in_group = false;
    let mut found = false;
    let mut i: usize = 0;
    proof {
        assert(gls.skip(0) =~= gls);
        assert(out.deep_view() + remove_lines(gls, name@, false) =~= remove_lines(
            gls,
            name@,
            false,
        ));
    }
    while i < n
        invariant
            0 <= i <= n,
            n == lines@.len(),
            lines.deep_view() == gls,
            start@ == start_marker(name@),
            end@ == end_marker(name@),
            remove_lines(gls, name@, false) == out.deep_view() + remove_lines(
                gls.skip(i as int),
                name@,
                in_group,
            ),
            found == exists|k: int| 0 <= k < i && trim(gls[k]) == start_marker(name@),
        decreases n - i,
    {
        proof {
            assert(gls.skip(i as int)[0] == gls[i as int]);
            assert(gls.skip(i as int).skip(1) =~= gls.skip(i + 1));
            lemma_bytes_deep_view(lines@[i as int]);
        }
        let t = trim_bytes(lines[i].as_slice());
        if bytes_eq(t.as_slice(), start.as_slice()) {
            in_group = true;
            found = true;
            proof {
                assert(trim(gls[i as int]) == start_marker(name@));
            }
        } else if in_group {
            if bytes_eq(t.as_slice(), end.as_slice()) {
                in_group = false;
            }
        } else {
            let ghost prev = out.deep_view();
            let kept = vstd::slice::slice_to_vec(lines[i].as_slice());
            proof {
                lemma_bytes_deep_view(kept);
            }
            out.push(kept);
            proof {
                assert(out.deep_view() =~= prev.push(gls[i as int]));
                assert(prev + (seq![gls[i as int]] + remove_lines(gls.skip(i + 1), name@, false))
                    =~= out.deep_view() + remove_lines(gls.skip(i + 1), name@, false));
            }
        }
        i = i + 1;
    }
    proof {
        assert(gls.skip(n as int) =~= Seq::<Seq<u8>>::empty());
        assert(out.deep_view() + Seq::<Seq<u8>>::empty() =~= out.deep_view());
    }
    (out, found)
}

/// Deletes the group `name` and returns the new file content, every kept
/// line newline-terminated. When no start marker of `name` is present the
/// file is not rewritten and the result is `GroupNotFound`.
pub fn delete_group(content: &[u8], name: &[u8]) -> (r: Result<Vec<u8>, HostsError>)
    ensures
        match r {
            Ok(c) => group_present(split_lines(content@), name@) && c@ == join_nl(
                remove_lines(split_lines(content@), name@, false),
            ),
            Err(e) => !group_present(split_lines(content@), name@) && e
                == HostsError::GroupNotFound,
        },
{
    let lines = split_lines_exec(content);
    let (kept, found) = remove_walk(&lines, name);
    if found {
        Ok(join_nl_exec(&kept))
    } else {
        Err(HostsError::GroupNotFound)
    }
}

/// The fragment lines that are written into a fresh group body: each line
/// trimmed, blank lines dropped, comment-only lines kept.
pub open spec fn fragment_lines(ls: Seq<Seq<u8>>) -> Seq<Seq<u8>>
    decreases ls.len(),
{
    if ls.len() == 0 {
        Seq::empty()
    } else {
        let t = trim(ls[0]);
        let rest = fragment_lines(ls.skip(1));
        if t.len() > 0 {
            seq![t] + rest
        } else {
            rest
        }
    }
}

/// The lines of the file after replace-or-create: what deleting the group
/// leaves (everything, when it is absent), then the start marker, the
/// fragment's surviving lines, and the end marker.
pub open spec fn upsert_lines(ls: Seq<Seq<u8>>, name: Seq<u8>, frag: Seq<Seq<u8>>) -> Seq<Seq<u8>> {
    let base = if group_present(ls, name) {
        remove_lines(ls, name, false)
    } else {
        ls
    };
    base + seq![start_marker(name)] + fragment_lines(frag) + seq![end_marker(name)]
}

/// Replaces or creates the group `name` with the entries of `fragment` and
/// returns the new file content, every line newline-terminated. The new
/// group always sits at the end of the file.
pub fn upsert_group(content: &[u8], name: &[u8], fragment: &[u8]) -> (r: Vec<u8>)
    ensures
        r@ == join_nl(upsert_lines(split_lines(content@), name@, split_lines(fragment@))),
{
    let lines = split_lines_exec(content);
    let ghost gls = lines.deep_view();
    let (kept, found) = remove_walk(&lines, name);
    let mut out = if found {
        kept
    } else {
        lines
    };
    let ghost base = out.deep_view();
    let start = build_start_marker(name);
    proof {
        lemma_bytes_deep_view(start);
    }
    out.push(start);
    proof {
        assert(out.deep_view() =~= base.push(start_marker(name@)));
    }
    let frag_lines = split_lines_exec(fragment);
    let ghost fls = frag_lines.deep_view();
    let fn_ = frag_lines.len();
    let mut j: usize = 0;
    proof {
        assert(fls.skip(0) =~= fls);
        assert(out.deep_view() + fragment_lines(fls) =~= base.push(start_marker(name@))
            + fragment_lines(fls));
    }
    while j < fn_
        invariant
            0 <= j <= fn_,
            fn_ == frag_lines@.len(),
            frag_lines.deep_view() == fls,
            out.deep_view() + fragment_lines(fls.skip(j as int)) == base.push(
                start_marker(name@),
            ) + fragment_lines(fls),
        decreases fn_ - j,
    {
        proof {
            assert(fls.skip(j as int)[0] == fls[j as int]);
            assert(fls.skip(j as int).skip(1) =~= fls.skip(j + 1));
            lemma_bytes_deep_view(frag_lines@[j as int]);
        }
        let t = trim_bytes(frag_lines[j].as_slice());
        if t.len() > 0 {
            let ghost prev = out.deep_view();
            proof {
                lemma_bytes_deep_view(t);
            }
            out.push(t);
            proof {
                assert(out.deep_view() =~= prev.push(trim(fls[j as int])));
                assert(prev.push(trim(fls[j as int])) + fragment_lines(fls.skip(j + 1)) =~= prev
                    + (seq![trim(fls[j as int])] + fragment_lines(fls.skip(j + 1))));
            }
        }
        j = j + 1;
    }
    proof {
        assert(fls.skip(fn_ as int) =~= Seq::<Seq<u8>>::empty());
        assert(out.deep_view() + Seq::<Seq<u8>>::empty() =~= out.deep_view());
    }
    let end = build_end_marker(name);
    let ghost before_end = out.deep_view();
    proof {
        lemma_bytes_deep_view(end);
    }
    out.push(end);
    proof {
        assert(out.deep_view() =~= before_end.push(end_marker(name@)));
        assert(base.push(start_marker(name@)) + fragment_lines(fls) + seq![end_marker(name@)]
            =~= base + seq![start_marker(name@)] + fragment_lines(fls) + seq![end_marker(name@)]);
        assert(out.deep_view() =~= upsert_lines(gls, name@, fls));
    }
    join_nl_exec(&out)
}

} // verus!
