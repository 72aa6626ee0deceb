//! The group marker protocol: a group named `name` is delimited by the start
//! marker line `"#------- " + name + " -------"` and the end marker line
//! `"#------- " + name + " end -------"`. Marker lines are compared after
//! trimming. A name that itself ends in `" end"` would make the start marker
//! collide with an end marker, so such names are not treated as group starts.
use vstd::prelude::*;

use crate::text::{
    bytes_eq, ends_with, ends_with_exec, is_space, lemma_trim_fixed, push_all, trim, HASH, SPACE,
};

verus! {

/// `"#------- "`: a hash, seven dashes, a space.
pub open spec fn marker_prefix() -> Seq<u8> {
    seq![HASH, 45u8, 45u8, 45u8, 45u8, 45u8, 45u8, 45u8, SPACE]
}

/// `" -------"`: a space, seven dashes.
pub open spec fn marker_suffix() -> Seq<u8> {
    seq![SPACE, 45u8, 45u8, 45u8, 45u8, 45u8, 45u8, 45u8]
}

/// `" end"`, the tag that turns a start marker into an end marker.
pub open spec fn end_tag() -> Seq<u8> {
    seq![SPACE, 101u8, 110u8, 100u8]
}

/// The start marker line of the group `name`.
pub open spec fn start_marker(name: Seq<u8>) -> Seq<u8> {
    marker_prefix() + name + marker_suffix()
}

/// The end marker line of the group `name`.
pub open spec fn end_marker(name: Seq<u8>) -> Seq<u8> {
    start_marker(name + end_tag())
}

/// A trimmed line has the marker shape: the prefix, some name, the suffix.
pub open spec fn is_marker_line(t: Seq<u8>) -> bool {
    &&& t.len() >= marker_prefix().len() + marker_suffix().len()
    &&& t.take(marker_prefix().len() as int) == marker_prefix()
    &&& ends_with(t, marker_suffix())
}

/// The name a marker line carries between prefix and suffix.
pub open spec fn marker_name(t: Seq<u8>) -> Seq<u8> {
    t.subrange(marker_prefix().len() as int, t.len() - marker_suffix().len())
}

/// A trimmed line announces the start of a group: it has the marker shape
/// and its name does not end in the end tag.
pub open spec fn is_group_start(t: Seq<u8>) -> bool {
    is_marker_line(t) && !ends_with(marker_name(t), end_tag())
}

/// A name is usable as a group name: its start marker is recognized as a
/// group start and not as anything else.
pub open spec fn valid_group_name(name: Seq<u8>) -> bool {
    !ends_with(name, end_tag())
}

/// A marker line is exactly the start marker of the name it carries.
pub proof fn lemma_marker_decompose(t: Seq<u8>)
    requires
        is_marker_line(t),
    ensures
        t == start_marker(marker_name(t)),
{
    assert(start_marker(marker_name(t)) =~= t);
}

/// The start marker of `name` has the marker shape and carries `name`.
pub proof fn lemma_start_marker_shape(name: Seq<u8>)
    ensures
        is_marker_line(start_marker(name)),
        marker_name(start_marker(name)) == name,
        trim(start_marker(name)) == start_marker(name),
{
    let t = start_marker(name);
    assert(t.take(marker_prefix().len() as int) =~= marker_prefix());
    assert(t.skip(t.len() - marker_suffix().len()) =~= marker_suffix());
    assert(marker_name(t) =~= name);
    assert(t[0] == HASH && !is_space(HASH));
    assert(t.last() == 45u8 && !is_space(45u8));
    lemma_trim_fixed(t);
}

/// The end marker of `name` is a marker line but never a group start, and it
/// differs from every start marker of a valid name.
pub proof fn lemma_end_marker_shape(name: Seq<u8>)
    ensures
        is_marker_line(end_marker(name)),
        marker_name(end_marker(name)) == name + end_tag(),
        !is_group_start(end_marker(name)),
        trim(end_marker(name)) == end_marker(name),
        forall|other: Seq<u8>|
            valid_group_name(other) ==> end_marker(name) != start_marker(other),
{
    lemma_start_marker_shape(name + end_tag());
    let n = name + end_tag();
    assert(n.skip(n.len() - end_tag().len()) =~= end_tag());
    assert(ends_with(marker_name(end_marker(name)), end_tag()));
    assert forall|other: Seq<u8>| valid_group_name(other) implies end_marker(name)
        != start_marker(other) by {
        if end_marker(name) == start_marker(other) {
            lemma_start_marker_shape(other);
            assert(marker_name(start_marker(other)) == other);
            assert(other == name + end_tag());
        }
    }
}

/// Markers of a newline-free name fit on one line.
pub proof fn lemma_marker_no_nl(name: Seq<u8>)
    requires
        crate::text::no_nl(name),
    ensures
        crate::text::no_nl(start_marker(name)),
        crate::text::no_nl(end_marker(name)),
{
    let s = start_marker(name);
    assert forall|k: int| 0 <= k < s.len() implies s[k] != crate::text::NL by {
        if k < marker_prefix().len() {
            assert(s[k] == marker_prefix()[k]);
        } else if k < marker_prefix().len() + name.len() {
            assert(s[k] == name[k - marker_prefix().len()]);
        } else {
            assert(s[k] == marker_suffix()[k - marker_prefix().len() - name.len()]);
        }
    }
    let n2 = name + end_tag();
    assert forall|k: int| 0 <= k < n2.len() implies n2[k] != crate::text::NL by {
        if k < name.len() {
            assert(n2[k] == name[k]);
        } else {
            assert(n2[k] == end_tag()[k - name.len()]);
        }
    }
    let e = end_marker(name);
    assert forall|k: int| 0 <= k < e.len() implies e[k] != crate::text::NL by {
        if k < marker_prefix().len() {
            assert(e[k] == marker_prefix()[k]);
        } else if k < marker_prefix().len() + n2.len() {
            assert(e[k] == n2[k - marker_prefix().len()]);
        } else {
            assert(e[k] == marker_suffix()[k - marker_prefix().len() - n2.len()]);
        }
    }
}

fn marker_prefix_vec() -> (r: Vec<u8>)
    ensures
        r@ == marker_prefix(),
{
    let mut v: Vec<u8> = Vec::new();
    v.push(HASH);
    v.push(45);
    v.push(45);
    v.push(45);
    v.push(45);
    v.push(45);
    v.push(45);
    v.push(45);
    v.push(SPACE);
    proof {
        assert(v@ =~= marker_prefix());
    }
    v
}

fn marker_suffix_vec() -> (r: Vec<u8>)
    ensures
        r@ == marker_suffix(),
{
    let mut v: Vec<u8> = Vec::new();
    v.push(SPACE);
    v.push(45);
    v.push(45);
    v.push(45);
    v.push(45);
    v.push(45);
    v.push(45);
    v.push(45);
    proof {
        assert(v@ =~= marker_suffix());
    }
    v
}

fn end_tag_vec() -> (r: Vec<u8>)
    ensures
        r@ == end_tag(),
{
    let mut v: Vec<u8> = Vec::new();
    v.push(SPACE);
    v.push(101);
    v.push(110);
    v.push(100);
    proof {
        assert(v@ =~= end_tag());
    }
    v
}

/// Builds the start marker line of the group `name`.
pub fn build_start_marker(name: &[u8]) -> (r: Vec<u8>)
    ensures
        r@ == start_marker(name@),
{
    let mut r = marker_prefix_vec();
    push_all(&mut r, name);
    let suffix = marker_suffix_vec();
    push_all(&mut r, suffix.as_slice());
    r
}

/// Builds the end marker line of the group `name`.
pub fn build_end_marker(name: &[u8]) -> (r: Vec<u8>)
    ensures
        r@ == end_marker(name@),
{
    let mut r = marker_prefix_vec();
    push_all(&mut r, name);
    let tag = end_tag_vec();
    push_all(&mut r, tag.as_slice());
    let suffix = marker_suffix_vec();
    push_all(&mut r, suffix.as_slice());
    proof {
        assert(marker_prefix() + name@ + tag@ + suffix@ =~= end_marker(name@));
    }
    r
}

/// If the trimmed line `t` starts a group, returns the group's name.
pub fn group_start_name(t: &[u8]) -> (r: Option<Vec<u8>>)
    ensures
        match r {
            Some(n) => is_group_start(t@) && n@ == marker_name(t@),
            None => !is_group_start(t@),
        },
{
    let prefix = marker_prefix_vec();
    let suffix = marker_suffix_vec();
    if t.len() < prefix.len() + suffix.len() {
        return None;
    }
    let head = vstd::slice::slice_subrange(t, 0, prefix.len());
    if !bytes_eq(head, prefix.as_slice()) {
        proof {
            assert(t@.take(marker_prefix().len() as int) =~= head@);
        }
        return None;
    }
    proof {
        assert(t@.take(marker_prefix().len() as int) =~= head@);
    }
    if !ends_with_exec(t, suffix.as_slice()) {
        return None;
    }
    let name = vstd::slice::slice_subrange(t, prefix.len(), t.len() - suffix.len());
    let tag = end_tag_vec();
    if ends_with_exec(name, tag.as_slice()) {
        return None;
    }
    Some(vstd::slice::slice_to_vec(name))
}

} // verus!
