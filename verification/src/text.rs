//! Byte-level text utilities: whitespace trimming, line splitting and
//! joining, and substring search. All file content is modelled as `Seq<u8>`
//! and a file is a sequence of newline-separated lines.
use vstd::prelude::*;

verus! {

/// The line separator, `'\n'`.
pub const NL: u8 = 10;

/// The space character.
pub const SPACE: u8 = 32;

/// The tab character.
pub const TAB: u8 = 9;

/// The carriage return character.
pub const CR: u8 = 13;

/// The `'#'` character, which opens comments and marker lines.
pub const HASH: u8 = 35;

/// ASCII whitespace, the characters trimmed from line ends and separating
/// the fields of an entry line.
pub open spec fn is_space(c: u8) -> bool {
    c == SPACE || c == TAB || c == CR || c == NL
}

/// Whitespace test on one byte.
pub fn is_space_byte(c: u8) -> (r: bool)
    ensures
        r == is_space(c),
{
    c == SPACE || c == TAB || c == CR || c == NL
}

/// `s` without its leading whitespace.
pub open spec fn trim_start(s: Seq<u8>) -> Seq<u8>
    decreases s.len(),
{
    if s.len() > 0 && is_space(s[0]) {
        trim_start(s.skip(1))
    } else {
        s
    }
}

/// `s` without its trailing whitespace.
pub open spec fn trim_end(s: Seq<u8>) -> Seq<u8>
    decreases s.len(),
{
    if s.len() > 0 && is_space(s.last()) {
        trim_end(s.drop_last())
    } else {
        s
    }
}

/// `s` without leading and trailing whitespace.
pub open spec fn trim(s: Seq<u8>) -> Seq<u8> {
    trim_end(trim_start(s))
}

pub proof fn lemma_trim_start_index(s: Seq<u8>, j: int)
    requires
        0 <= j <= s.len(),
        forall|k: int| 0 <= k < j ==> is_space(s[k]),
        j == s.len() || !is_space(s[j]),
    ensures
        trim_start(s) == s.skip(j),
    decreases j,
{
    if j == 0 {
        assert(s.skip(0) =~= s);
    } else {
        assert(is_space(s[0]));
        lemma_trim_start_index(s.skip(1), j - 1);
        assert(s.skip(1).skip(j - 1) =~= s.skip(j));
    }
}

pub proof fn lemma_trim_end_index(s: Seq<u8>, j: int)
    requires
        0 <= j <= s.len(),
        forall|k: int| j <= k < s.len() ==> is_space(s[k]),
        j == 0 || !is_space(s[j - 1]),
    ensures
        trim_end(s) == s.take(j),
    decreases s.len(),
{
    if j == s.len() {
        if s.len() > 0 && is_space(s.last()) {
            assert(!is_space(s[j - 1]));
            assert(false);
        }
        assert(s.take(j) =~= s);
    } else {
        assert(is_space(s.last()));
        lemma_trim_end_index(s.drop_last(), j);
        assert(s.drop_last().take(j) =~= s.take(j));
    }
}

/// Trimming a sequence that already starts and ends with non-whitespace
/// leaves it unchanged.
pub proof fn lemma_trim_fixed(s: Seq<u8>)
    requires
        s.len() > 0,
        !is_space(s[0]),
        !is_space(s.last()),
    ensures
        trim(s) == s,
{
    lemma_trim_start_index(s, 0);
    assert(s.skip(0) =~= s);
    lemma_trim_end_index(s, s.len() as int);
}

/// `trim_start` drops a prefix of the input.
pub proof fn lemma_trim_start_shape(s: Seq<u8>)
    ensures
        trim_start(s).len() <= s.len(),
        trim_start(s) == s.skip(s.len() - trim_start(s).len()),
        trim_start(s).len() > 0 ==> !is_space(trim_start(s)[0]),
    decreases s.len(),
{
    if s.len() > 0 && is_space(s[0]) {
        lemma_trim_start_shape(s.skip(1));
        let t = trim_start(s);
        assert(s.skip(1).skip(s.skip(1).len() - t.len()) =~= s.skip(s.len() - t.len()));
    } else {
        assert(s.skip(0) =~= s);
    }
}

/// `trim_end` keeps a prefix of the input.
pub proof fn lemma_trim_end_shape(s: Seq<u8>)
    ensures
        trim_end(s).len() <= s.len(),
        trim_end(s) == s.take(trim_end(s).len() as int),
        trim_end(s).len() > 0 ==> !is_space(trim_end(s).last()),
    decreases s.len(),
{
    if s.len() > 0 && is_space(s.last()) {
        lemma_trim_end_shape(s.drop_last());
        let t = trim_end(s);
        assert(s.drop_last() =~= s.take(s.len() - 1));
        assert(s.drop_last().take(t.len() as int) =~= s.take(t.len() as int));
    } else {
        assert(s.take(s.len() as int) =~= s);
    }
}

/// A trimmed sequence is empty or bounded by non-whitespace, so trimming is
/// idempotent.
pub proof fn lemma_trim_idempotent(s: Seq<u8>)
    ensures
        trim(s).len() > 0 ==> !is_space(trim(s)[0]) && !is_space(trim(s).last()),
        trim(trim(s)) == trim(s),
{
    lemma_trim_start_shape(s);
    lemma_trim_end_shape(trim_start(s));
    if trim(s).len() > 0 {
        assert(trim(s)[0] == trim_start(s)[0]);
        lemma_trim_fixed(trim(s));
    }
}

/// The trimmed copy of a byte slice.
pub fn trim_bytes(s: &[u8]) -> (r: Vec<u8>)
    ensures
        r@ == trim(s@),
{
    let n = s.len();
    let mut lo: usize = 0;
    while lo < n && is_space_byte(s[lo])
        invariant
            0 <= lo <= n,
            n == s@.len(),
            forall|k: int| 0 <= k < lo ==> is_space(s@[k]),
        decreases n - lo,
    {
        lo = lo + 1;
    }
    proof {
        lemma_trim_start_index(s@, lo as int);
    }
    let mut hi: usize = n;
    while hi > lo && is_space_byte(s[hi - 1])
        invariant
            lo <= hi <= n,
            n == s@.len(),
            forall|k: int| hi <= k < n ==> is_space(s@[k]),
        decreases hi,
    {
        hi = hi - 1;
    }
    proof {
        lemma_trim_end_index(s@.skip(lo as int), (hi - lo) as int);
        assert(s@.skip(lo as int).take((hi - lo) as int) =~= s@.subrange(lo as int, hi as int));
    }
    let sub = vstd::slice::slice_subrange(s, lo, hi);
    vstd::slice::slice_to_vec(sub)
}

/// `r == (a == b)` for byte slices.
pub fn bytes_eq(a: &[u8], b: &[u8]) -> (r: bool)
    ensures
        r == (a@ == b@),
{
    if a.len() != b.len() {
        return false;
    }
    let n = a.len();
    let mut i: usize = 0;
    while i < n
        invariant
            0 <= i <= n,
            n == a@.len() == b@.len(),
            forall|k: int| 0 <= k < i ==> a@[k] == b@[k],
        decreases n - i,
    {
        if a[i] != b[i] {
            return false;
        }
        i = i + 1;
    }
    proof {
        assert(a@ =~= b@);
    }
    true
}

/// The lines of `s`, split at each newline byte. A trailing newline closes
/// the last line without opening an empty one, so `"a\n"` and `"a"` both
/// hold the single line `"a"`. `cur` is the part of the current line read so
/// far.
pub open spec fn split_lines_at(s: Seq<u8>, cur: Seq<u8>) -> Seq<Seq<u8>>
    decreases s.len(),
{
    if s.len() == 0 {
        if cur.len() == 0 {
            Seq::empty()
        } else {
            seq![cur]
        }
    } else if s[0] == NL {
        seq![cur] + split_lines_at(s.skip(1), Seq::empty())
    } else {
        split_lines_at(s.skip(1), cur.push(s[0]))
    }
}

/// The lines of `s`.
pub open spec fn split_lines(s: Seq<u8>) -> Seq<Seq<u8>> {
    split_lines_at(s, Seq::empty())
}

/// The lines joined back into file content, each line terminated by a
/// newline.
pub open spec fn join_nl(ls: Seq<Seq<u8>>) -> Seq<u8>
    decreases ls.len(),
{
    if ls.len() == 0 {
        Seq::empty()
    } else {
        ls[0] + seq![NL] + join_nl(ls.skip(1))
    }
}

/// The lines joined with newline separators and no trailing newline.
pub open spec fn join_sep(ls: Seq<Seq<u8>>) -> Seq<u8>
    decreases ls.len(),
{
    if ls.len() == 0 {
        Seq::empty()
    } else if ls.len() == 1 {
        ls[0]
    } else {
        ls[0] + seq![NL] + join_sep(ls.skip(1))
    }
}

/// A sequence is newline-free: it fits on one line.
pub open spec fn no_nl(s: Seq<u8>) -> bool {
    forall|k: int| 0 <= k < s.len() ==> s[k] != NL
}

proof fn lemma_split_lines_at_no_nl(s: Seq<u8>, cur: Seq<u8>)
    requires
        no_nl(cur),
    ensures
        forall|i: int|
            0 <= i < split_lines_at(s, cur).len() ==> no_nl(#[trigger] split_lines_at(s, cur)[i]),
    decreases s.len(),
{
    let r = split_lines_at(s, cur);
    if s.len() == 0 {
        assert forall|i: int| 0 <= i < r.len() implies no_nl(#[trigger] r[i]) by {
            assert(r[i] == cur);
        }
    } else if s[0] == NL {
        lemma_split_lines_at_no_nl(s.skip(1), Seq::empty());
        let rest = split_lines_at(s.skip(1), Seq::empty());
        assert forall|i: int| 0 <= i < r.len() implies no_nl(#[trigger] r[i]) by {
            if i == 0 {
                assert(r[0] == cur);
            } else {
                assert(r[i] == rest[i - 1]);
            }
        }
    } else {
        assert(no_nl(cur.push(s[0])));
        lemma_split_lines_at_no_nl(s.skip(1), cur.push(s[0]));
        let rest = split_lines_at(s.skip(1), cur.push(s[0]));
        assert forall|i: int| 0 <= i < r.len() implies no_nl(#[trigger] r[i]) by {
            assert(r[i] == rest[i]);
        }
    }
}

/// Every line produced by splitting is newline-free.
pub proof fn lemma_split_lines_no_nl(s: Seq<u8>)
    ensures
        forall|i: int| 0 <= i < split_lines(s).len() ==> no_nl(#[trigger] split_lines(s)[i]),
{
    lemma_split_lines_at_no_nl(s, Seq::empty());
}

/// Trimming keeps the line newline-free.
pub proof fn lemma_trim_no_nl(s: Seq<u8>)
    requires
        no_nl(s),
    ensures
        no_nl(trim(s)),
{
    lemma_trim_start_shape(s);
    lemma_trim_end_shape(trim_start(s));
    assert forall|k: int| 0 <= k < trim(s).len() implies trim(s)[k] != NL by {
        let ts = trim_start(s);
        assert(trim(s)[k] == ts[k]);
        assert(ts[k] == s[s.len() - ts.len() + k]);
    }
}

proof fn lemma_split_at_prepend(l: Seq<u8>, rest: Seq<u8>, cur: Seq<u8>)
    requires
        no_nl(l),
    ensures
        split_lines_at(l + rest, cur) == split_lines_at(rest, cur + l),
    decreases l.len(),
{
    if l.len() == 0 {
        assert(l + rest =~= rest);
        assert(cur + l =~= cur);
    } else {
        assert((l + rest)[0] == l[0]);
        assert(l[0] != NL);
        if l.len() + rest.len() == 0 {
        } else {
            assert((l + rest).skip(1) =~= l.skip(1) + rest);
            lemma_split_at_prepend(l.skip(1), rest, cur.push(l[0]));
            assert(cur.push(l[0]) + l.skip(1) =~= cur + l);
        }
    }
}

/// Splitting newline-terminated lines recovers exactly those lines, so long
/// as each is newline-free.
pub proof fn lemma_split_join(ls: Seq<Seq<u8>>)
    requires
        forall|i: int| 0 <= i < ls.len() ==> no_nl(#[trigger] ls[i]),
    ensures
        split_lines(join_nl(ls)) == ls,
    decreases ls.len(),
{
    if ls.len() == 0 {
        assert(split_lines(join_nl(ls)) =~= ls);
    } else {
        let head = ls[0];
        let tail = join_nl(ls.skip(1));
        lemma_split_at_prepend(head, seq![NL] + tail, Seq::empty());
        assert(head + (seq![NL] + tail) =~= join_nl(ls));
        assert(Seq::<u8>::empty() + head =~= head);
        assert((seq![NL] + tail)[0] == NL);
        assert((seq![NL] + tail).skip(1) =~= tail);
        lemma_split_join(ls.skip(1));
        assert(seq![head] + ls.skip(1) =~= ls);
    }
}

/// Joining the lines of newline-terminated content recovers it byte for
/// byte: splitting loses nothing but an unterminated last line's missing
/// newline.
pub proof fn lemma_join_split(s: Seq<u8>)
    requires
        s.len() > 0 ==> s.last() == NL,
    ensures
        join_nl(split_lines(s)) == s,
    decreases s.len(),
{
    if s.len() == 0 {
        assert(join_nl(split_lines(s)) =~= s);
    } else {
        assert(s.contains(NL)) by {
            assert(s[s.len() - 1] == NL);
        }
        s.index_of_first_ensures(NL);
        let e = s.index_of_first(NL).unwrap();
        let head = s.take(e);
        let rest = s.skip(e + 1);
        assert(no_nl(head)) by {
            assert(forall|k: int| 0 <= k < e ==> s[k] != NL);
        }
        lemma_split_at_prepend(head, seq![NL] + rest, Seq::empty());
        assert(head + (seq![NL] + rest) =~= s);
        assert(Seq::<u8>::empty() + head =~= head);
        assert((seq![NL] + rest)[0] == NL);
        assert((seq![NL] + rest).skip(1) =~= rest);
        if rest.len() > 0 {
            assert(rest.last() == s.last());
        }
        lemma_join_split(rest);
        assert(join_nl(seq![head] + split_lines(rest)) == head + seq![NL] + join_nl(
            split_lines(rest),
        )) by {
            assert((seq![head] + split_lines(rest))[0] == head);
            assert((seq![head] + split_lines(rest)).skip(1) =~= split_lines(rest));
        }
        assert(head + seq![NL] + rest =~= s);
    }
}

/// Splitting newline-separated lines recovers exactly those lines, so long
/// as each is newline-free and the last one is not empty (a trailing empty
/// line leaves no trace in the separated text).
pub proof fn lemma_split_join_sep(ls: Seq<Seq<u8>>)
    requires
        forall|i: int| 0 <= i < ls.len() ==> no_nl(#[trigger] ls[i]),
        ls.len() > 0 ==> ls.last().len() > 0,
    ensures
        split_lines(join_sep(ls)) == ls,
    decreases ls.len(),
{
    if ls.len() == 0 {
        assert(split_lines(join_sep(ls)) =~= ls);
    } else if ls.len() == 1 {
        let head = ls[0];
        lemma_split_at_prepend(head, Seq::empty(), Seq::empty());
        assert(head + Seq::<u8>::empty() =~= head);
        assert(Seq::<u8>::empty() + head =~= head);
        assert(split_lines(join_sep(ls)) =~= ls);
    } else {
        let head = ls[0];
        let tail = join_sep(ls.skip(1));
        lemma_split_at_prepend(head, seq![NL] + tail, Seq::empty());
        assert(head + (seq![NL] + tail) =~= join_sep(ls));
        assert(Seq::<u8>::empty() + head =~= head);
        assert((seq![NL] + tail)[0] == NL);
        assert((seq![NL] + tail).skip(1) =~= tail);
        assert(ls.skip(1).last() == ls.last());
        lemma_split_join_sep(ls.skip(1));
        assert(seq![head] + ls.skip(1) =~= ls);
    }
}

/// `needle` occurs in `hay` starting at position `i`.
pub open spec fn match_at(hay: Seq<u8>, needle: Seq<u8>, i: int) -> bool {
    0 <= i && i + needle.len() <= hay.len() && hay.subrange(i, i + needle.len()) == needle
}

/// `needle` occurs somewhere in `hay`.
pub open spec fn contains_sub(hay: Seq<u8>, needle: Seq<u8>) -> bool {
    exists|i: int| match_at(hay, needle, i)
}

/// Substring search by scanning every candidate position.
pub fn contains_bytes(hay: &[u8], needle: &[u8]) -> (r: bool)
    ensures
        r == contains_sub(hay@, needle@),
{
    if needle.len() > hay.len() {
        proof {
            assert(forall|i: int| !match_at(hay@, needle@, i));
        }
        return false;
    }
    if needle.len() == 0 {
        proof {
            assert(hay@.subrange(0, 0) =~= needle@);
            assert(match_at(hay@, needle@, 0));
        }
        return true;
    }
    let last = hay.len() - needle.len();
    let mut i: usize = 0;
    while i <= last
        invariant
            0 <= i <= last + 1,
            1 <= needle@.len(),
            hay@.len() <= usize::MAX,
            last == hay@.len() - needle@.len(),
            forall|k: int| 0 <= k < i ==> !match_at(hay@, needle@, k),
        decreases last - i + 1,
    {
        let mut j: usize = 0;
        let mut matched = true;
        while matched && j < needle.len()
            invariant
                0 <= j <= needle@.len(),
                0 <= i <= last,
                hay@.len() <= usize::MAX,
                last == hay@.len() - needle@.len(),
                matched ==> forall|k: int| 0 <= k < j ==> hay@[i + k] == needle@[k],
                !matched ==> !match_at(hay@, needle@, i as int),
            decreases needle@.len() - j + (if matched { 1int } else { 0int }),
        {
            if hay[i + j] != needle[j] {
                proof {
                    let sub = hay@.subrange(i as int, i + needle@.len());
                    assert(sub[j as int] == hay@[i + j]);
                }
                matched = false;
            } else {
                j = j + 1;
            }
        }
        if matched {
            proof {
                assert(hay@.subrange(i as int, i + needle@.len()) =~= needle@);
                assert(match_at(hay@, needle@, i as int));
            }
            return true;
        }
        i = i + 1;
    }
    proof {
        assert(forall|k: int| #[trigger] match_at(hay@, needle@, k) ==> 0 <= k <= last);
    }
    false
}

/// `s` ends with `suffix`.
pub open spec fn ends_with(s: Seq<u8>, suffix: Seq<u8>) -> bool {
    s.len() >= suffix.len() && s.skip(s.len() - suffix.len()) == suffix
}

/// Suffix test on byte slices.
pub fn ends_with_exec(s: &[u8], suffix: &[u8]) -> (r: bool)
    ensures
        r == ends_with(s@, suffix@),
{
    if s.len() < suffix.len() {
        return false;
    }
    let tail = vstd::slice::slice_subrange(s, s.len() - suffix.len(), s.len());
    proof {
        assert(s@.skip(s@.len() - suffix@.len()) =~= tail@);
    }
    bytes_eq(tail, suffix)
}

/// The deep view of a byte vector is its view.
pub proof fn lemma_bytes_deep_view(v: Vec<u8>)
    ensures
        v.deep_view() == v@,
{
    assert(v.deep_view() =~= v@);
}

/// Splits `content` into its lines.
pub fn split_lines_exec(content: &[u8]) -> (r: Vec<Vec<u8>>)
    ensures
        r.deep_view() == split_lines(content@),
{
    let n = content.len();
    let mut out: Vec<Vec<u8>> = Vec::new();
    let mut cur: Vec<u8> = Vec::new();
    let mut i: usize = 0;
    proof {
        assert(content@.skip(0) =~= content@);
        assert(out.deep_view() =~= Seq::<Seq<u8>>::empty());
        assert(out.deep_view() + split_lines_at(content@.skip(0), cur@) =~= split_lines(
            content@,
        ));
    }
    while i < n
        invariant
            0 <= i <= n,
            n == content@.len(),
            split_lines(content@) == out.deep_view() + split_lines_at(
                content@.skip(i as int),
                cur@,
            ),
        decreases n - i,
    {
        let ghost prev_dv = out.deep_view();
        let ghost prev_cur = cur@;
        proof {
            assert(content@.skip(i as int)[0] == content@[i as int]);
            assert(content@.skip(i as int).skip(1) =~= content@.skip(i + 1));
        }
        let c = content[i];
        if c == NL {
            proof {
                lemma_bytes_deep_view(cur);
            }
            out.push(cur);
            cur = Vec::new();
            proof {
                assert(out.deep_view() =~= prev_dv.push(prev_cur));
                assert(prev_dv + (seq![prev_cur] + split_lines_at(content@.skip(i + 1), cur@))
                    =~= out.deep_view() + split_lines_at(content@.skip(i + 1), cur@));
            }
        } else {
            cur.push(c);
        }
        i = i + 1;
    }
    proof {
        assert(content@.skip(n as int) =~= Seq::<u8>::empty());
    }
    if cur.len() > 0 {
        let ghost prev_dv = out.deep_view();
        let ghost prev_cur = cur@;
        proof {
            lemma_bytes_deep_view(cur);
        }
        out.push(cur);
        proof {
            assert(out.deep_view() =~= prev_dv.push(prev_cur));
            assert(prev_dv + seq![prev_cur] =~= out.deep_view());
        }
    } else {
        proof {
            assert(out.deep_view() + Seq::<Seq<u8>>::empty() =~= out.deep_view());
        }
    }
    out
}

/// Joins lines into file content, terminating every line with a newline.
pub fn join_nl_exec(ls: &Vec<Vec<u8>>) -> (r: Vec<u8>)
    ensures
        r@ == join_nl(ls.deep_view()),
{
    let n = ls.len();
    let mut out: Vec<u8> = Vec::new();
    let mut i: usize = 0;
    proof {
        assert(ls.deep_view().skip(0) =~= ls.deep_view());
    }
    while i < n
        invariant
            0 <= i <= n,
            n == ls@.len(),
            ls.deep_view().len() == n,
            join_nl(ls.deep_view()) == out@ + join_nl(ls.deep_view().skip(i as int)),
        decreases n - i,
    {
        proof {
            assert(ls.deep_view().skip(i as int)[0] == ls.deep_view()[i as int]);
            assert(ls.deep_view().skip(i as int).skip(1) =~= ls.deep_view().skip(i + 1));
            lemma_bytes_deep_view(ls@[i as int]);
        }
        let ghost prev = out@;
        push_all(&mut out, ls[i].as_slice());
        out.push(NL);
        proof {
            assert(prev + (ls.deep_view()[i as int] + seq![NL] + join_nl(
                ls.deep_view().skip(i + 1),
            )) =~= out@ + join_nl(ls.deep_view().skip(i + 1)));
        }
        i = i + 1;
    }
    proof {
        assert(ls.deep_view().skip(n as int) =~= Seq::<Seq<u8>>::empty());
        assert(out@ + Seq::<u8>::empty() =~= out@);
    }
    out
}

/// Joins lines with newline separators, adding no trailing newline.
pub fn join_sep_exec(ls: &Vec<Vec<u8>>) -> (r: Vec<u8>)
    ensures
        r@ == join_sep(ls.deep_view()),
{
    let n = ls.len();
    let mut out: Vec<u8> = Vec::new();
    let mut i: usize = 0;
    proof {
        assert(ls.deep_view().skip(0) =~= ls.deep_view());
    }
    while i < n
        invariant
            0 <= i <= n,
            n == ls@.len(),
            ls.deep_view().len() == n,
            join_sep(ls.deep_view()) == out@ + join_sep(ls.deep_view().skip(i as int)),
        decreases n - i,
    {
        proof {
            assert(ls.deep_view().skip(i as int)[0] == ls.deep_view()[i as int]);
            assert(ls.deep_view().skip(i as int).skip(1) =~= ls.deep_view().skip(i + 1));
            lemma_bytes_deep_view(ls@[i as int]);
        }
        let ghost prev = out@;
        push_all(&mut out, ls[i].as_slice());
        if i + 1 < n {
            out.push(NL);
            proof {
                assert(ls.deep_view().skip(i as int).len() > 1);
                assert(prev + (ls.deep_view()[i as int] + seq![NL] + join_sep(
                    ls.deep_view().skip(i + 1),
                )) =~= out@ + join_sep(ls.deep_view().skip(i + 1)));
            }
        } else {
            proof {
                assert(ls.deep_view().skip(i as int).len() == 1);
                assert(ls.deep_view().skip(i + 1) =~= Seq::<Seq<u8>>::empty());
                assert(prev + ls.deep_view()[i as int] =~= out@ + join_sep(
                    ls.deep_view().skip(i + 1),
                ));
            }
        }
        i = i + 1;
    }
    proof {
        assert(ls.deep_view().skip(n as int) =~= Seq::<Seq<u8>>::empty());
        assert(out@ + Seq::<u8>::empty() =~= out@);
    }
    out
}

/// Appends all of `s` to `out`.
pub fn push_all(out: &mut Vec<u8>, s: &[u8])
    ensures
        final(out)@ == old(out)@ + s@,
{
    let n = s.len();
    let mut i: usize = 0;
    while i < n
        invariant
            0 <= i <= n,
            n == s@.len(),
            out@ == old(out)@ + s@.take(i as int),
        decreases n - i,
    {
        out.push(s[i]);
        proof {
            assert(old(out)@ + s@.take(i as int) + seq![s@[i as int]] =~= old(out)@ + s@.take(
                i + 1,
            ));
        }
        i = i + 1;
    }
    proof {
        assert(s@.take(n as int) =~= s@);
    }
}

} // verus!
