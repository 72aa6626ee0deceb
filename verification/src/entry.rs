//! The entry parser: one trimmed, non-blank, non-comment line inside a group
//! body is split into an address, a host name, and an optional comment. The
//! address and the name are the first two whitespace-separated tokens; the
//! rest of the line, with surrounding whitespace and leading `'#'` characters
//! stripped, is the comment. A line with fewer than two tokens yields no
//! entry and is skipped, never an error.
use vstd::prelude::*;

use crate::text::{
    is_space, is_space_byte, lemma_trim_idempotent, lemma_trim_start_index, trim, trim_bytes, HASH,
};

verus! {

/// One address-to-hostname override record.
#[derive(Clone, Debug, PartialEq, Eq)]
pub struct HostsEntry {
    /// The address the name is mapped to, as written in the file.
    pub address: Vec<u8>,
    /// The host name being overridden.
    pub name: Vec<u8>,
    /// The trailing comment, if the line carries one.
    pub comment: Option<Vec<u8>>,
}

/// The mathematical value of an entry.
pub ghost struct EntryModel {
    pub address: Seq<u8>,
    pub name: Seq<u8>,
    pub comment: Option<Seq<u8>>,
}

impl View for HostsEntry {
    type V = EntryModel;

    open spec fn view(&self) -> EntryModel {
        EntryModel {
            address: self.address@,
            name: self.name@,
            comment: match self.comment {
                Some(c) => Some(c@),
                None => None,
            },
        }
    }
}

impl DeepView for HostsEntry {
    type V = EntryModel;

    open spec fn deep_view(&self) -> EntryModel {
        self@
    }
}

/// What parsing one raw line produced: an entry, or nothing because the line
/// is blank, a comment, or has too few tokens.
#[derive(Clone, Debug, PartialEq, Eq)]
pub enum ParseOutcome {
    Parsed(HostsEntry),
    Skipped,
}

/// The leading whitespace-free token of `s`.
pub open spec fn first_token(s: Seq<u8>) -> Seq<u8>
    decreases s.len(),
{
    if s.len() > 0 && !is_space(s[0]) {
        seq![s[0]] + first_token(s.skip(1))
    } else {
        Seq::empty()
    }
}

/// `s` with its leading whitespace-free token removed.
pub open spec fn after_token(s: Seq<u8>) -> Seq<u8>
    decreases s.len(),
{
    if s.len() > 0 && !is_space(s[0]) {
        after_token(s.skip(1))
    } else {
        s
    }
}

/// `s` with its leading `'#'` characters removed.
pub open spec fn strip_hashes(s: Seq<u8>) -> Seq<u8>
    decreases s.len(),
{
    if s.len() > 0 && s[0] == HASH {
        strip_hashes(s.skip(1))
    } else {
        s
    }
}

pub proof fn lemma_first_token_index(s: Seq<u8>, j: int)
    requires
        0 <= j <= s.len(),
        forall|k: int| 0 <= k < j ==> !is_space(s[k]),
        j == s.len() || is_space(s[j]),
    ensures
        first_token(s) == s.take(j),
        after_token(s) == s.skip(j),
    decreases j,
{
    if j == 0 {
        assert(s.skip(0) =~= s);
        assert(s.take(0) =~= Seq::<u8>::empty());
    } else {
        assert(!is_space(s[0]));
        lemma_first_token_index(s.skip(1), j - 1);
        assert(s.skip(1).skip(j - 1) =~= s.skip(j));
        assert(seq![s[0]] + s.skip(1).take(j - 1) =~= s.take(j));
    }
}

pub proof fn lemma_strip_hashes_index(s: Seq<u8>, j: int)
    requires
        0 <= j <= s.len(),
        forall|k: int| 0 <= k < j ==> s[k] == HASH,
        j == s.len() || s[j] != HASH,
    ensures
        strip_hashes(s) == s.skip(j),
    decreases j,
{
    if j == 0 {
        assert(s.skip(0) =~= s);
    } else {
        lemma_strip_hashes_index(s.skip(1), j - 1);
        assert(s.skip(1).skip(j - 1) =~= s.skip(j));
    }
}

/// The comment carried by the rest of an entry line after its second token:
/// absent when only whitespace is left, otherwise the remainder trimmed and
/// with its leading `'#'` characters stripped.
pub open spec fn comment_of(rest: Seq<u8>) -> Option<Seq<u8>> {
    if trim(rest).len() == 0 {
        None
    } else {
        Some(trim(strip_hashes(trim(rest))))
    }
}

/// Parses a trimmed entry line: the first two whitespace-separated tokens
/// are the address and the name; what follows them feeds the comment. A line
/// with fewer than two tokens yields nothing.
pub open spec fn parse_entry(t: Seq<u8>) -> Option<EntryModel> {
    let address = first_token(t);
    let rest1 = crate::text::trim_start(after_token(t));
    let name = first_token(rest1);
    let rest2 = after_token(rest1);
    if address.len() == 0 || name.len() == 0 {
        None
    } else {
        Some(EntryModel { address, name, comment: comment_of(rest2) })
    }
}

/// What one raw line inside a group body contributes: nothing when blank or
/// comment-only, otherwise whatever `parse_entry` makes of its trimmed form.
pub open spec fn classify_line(raw: Seq<u8>) -> Option<EntryModel> {
    let t = trim(raw);
    if t.len() == 0 || t[0] == HASH {
        None
    } else {
        parse_entry(t)
    }
}

/// Parses one raw line of a group body.
pub fn parse_entry_line(line: &[u8]) -> (r: ParseOutcome)
    ensures
        match r {
            ParseOutcome::Parsed(e) => classify_line(line@) == Some(e@),
            ParseOutcome::Skipped => classify_line(line@) is None,
        },
{
    let t = trim_bytes(line);
    proof {
        lemma_trim_idempotent(line@);
    }
    if t.len() == 0 {
        return ParseOutcome::Skipped;
    }
    if t[0] == HASH {
        return ParseOutcome::Skipped;
    }
    let n = t.len();
    let mut i: usize = 0;
    while i < n && !is_space_byte(t[i])
        invariant
            0 <= i <= n,
            n == t@.len(),
            forall|k: int| 0 <= k < i ==> !is_space(t@[k]),
        decreases n - i,
    {
        i = i + 1;
    }
    proof {
        lemma_first_token_index(t@, i as int);
    }
    let address = vstd::slice::slice_to_vec(vstd::slice::slice_subrange(t.as_slice(), 0, i));
    proof {
        assert(address@ =~= first_token(t@));
        assert(address@.len() > 0);
    }
    let mut j: usize = i;
    while j < n && is_space_byte(t[j])
        invariant
            i <= j <= n,
            n == t@.len(),
            forall|k: int| i <= k < j ==> is_space(t@[k]),
        decreases n - j,
    {
        j = j + 1;
    }
    proof {
        lemma_trim_start_index(t@.skip(i as int), j - i);
        assert(t@.skip(i as int).skip(j - i) =~= t@.skip(j as int));
    }
    let mut k: usize = j;
    while k < n && !is_space_byte(t[k])
        invariant
            j <= k <= n,
            n == t@.len(),
            forall|m: int| j <= m < k ==> !is_space(t@[m]),
        decreases n - k,
    {
        k = k + 1;
    }
    proof {
        lemma_first_token_index(t@.skip(j as int), k - j);
        assert(t@.skip(j as int).take(k - j) =~= t@.subrange(j as int, k as int));
        assert(t@.skip(j as int).skip(k - j) =~= t@.skip(k as int));
    }
    if k == j {
        // No second token: the line is skipped.
        return ParseOutcome::Skipped;
    }
    let name = vstd::slice::slice_to_vec(vstd::slice::slice_subrange(t.as_slice(), j, k));
    let rest = vstd::slice::slice_subrange(t.as_slice(), k, n);
    proof {
        assert(rest@ =~= t@.skip(k as int));
    }
    let c1 = trim_bytes(rest);
    let comment: Option<Vec<u8>> = if c1.len() == 0 {
        None
    } else {
        let cn = c1.len();
        let mut m: usize = 0;
        while m < cn && c1[m] == HASH
            invariant
                0 <= m <= cn,
                cn == c1@.len(),
                forall|q: int| 0 <= q < m ==> c1@[q] == HASH,
            decreases cn - m,
        {
            m = m + 1;
        }
        proof {
            lemma_strip_hashes_index(c1@, m as int);
        }
        let stripped = vstd::slice::slice_subrange(c1.as_slice(), m, cn);
        proof {
            assert(stripped@ =~= c1@.skip(m as int));
        }
        Some(trim_bytes(stripped))
    };
    let entry = HostsEntry { address, name, comment };
    proof {
        assert(classify_line(line@) == Some(entry@));
    }
    ParseOutcome::Parsed(entry)
}

} // verus!
