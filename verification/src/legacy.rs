//! The legacy scope manager: a single anonymous block bounded by two fixed
//! sentinel lines, kept for backward compatibility with the protocol that
//! predates named groups. A payload line is inserted immediately before each
//! line carrying the end sentinel, so the block accumulates payloads rather
//! than replacing them; when the start sentinel is nowhere in the file, a
//! whole new block is appended at the end.
use vstd::prelude::*;

use crate::text::{
    contains_bytes, contains_sub, join_sep, join_sep_exec, lemma_bytes_deep_view, push_all,
    split_lines, split_lines_exec,
};

verus! {

/// `"# ADD BY HOSTS SWITCHER"`, the fixed start sentinel.
pub open spec fn legacy_start() -> Seq<u8> {
    seq![
        35u8, 32u8, 65u8, 68u8, 68u8, 32u8, 66u8, 89u8, 32u8, 72u8, 79u8, 83u8, 84u8, 83u8, 32u8,
        83u8, 87u8, 73u8, 84u8, 67u8, 72u8, 69u8, 82u8,
    ]
}

/// `"# END OF HOSTS SWITCHER"`, the fixed end sentinel.
pub open spec fn legacy_end() -> Seq<u8> {
    seq![
        35u8, 32u8, 69u8, 78u8, 68u8, 32u8, 79u8, 70u8, 32u8, 72u8, 79u8, 83u8, 84u8, 83u8, 32u8,
        83u8, 87u8, 73u8, 84u8, 67u8, 72u8, 69u8, 82u8,
    ]
}

/// Builds the start sentinel line.
pub fn legacy_start_vec() -> (r: Vec<u8>)
    ensures
        r@ == legacy_start(),
{
    let mut v: Vec<u8> = Vec::new();
    let mut tail: Vec<u8> = Vec::new();
    v.push(35);
    v.push(32);
    v.push(65);
    v.push(68);
    v.push(68);
    v.push(32);
    v.push(66);
    v.push(89);
    tail.push(32);
    tail.push(72);
    tail.push(79);
    tail.push(83);
    tail.push(84);
    tail.push(83);
    tail.push(32);
    tail.push(83);
    tail.push(87);
    tail.push(73);
    tail.push(84);
    tail.push(67);
    tail.push(72);
    tail.push(69);
    tail.push(82);
    push_all(&mut v, tail.as_slice());
    proof {
        assert(v@ =~= legacy_start());
    }
    v
}

/// Builds the end sentinel line.
pub fn legacy_end_vec() -> (r: Vec<u8>)
    ensures
        r@ == legacy_end(),
{
    let mut v: Vec<u8> = Vec::new();
    let mut tail: Vec<u8> = Vec::new();
    v.push(35);
    v.push(32);
    v.push(69);
    v.push(78);
    v.push(68);
    v.push(32);
    v.push(79);
    v.push(70);
    tail.push(32);
    tail.push(72);
    tail.push(79);
    tail.push(83);
    tail.push(84);
    tail.push(83);
    tail.push(32);
    tail.push(83);
    tail.push(87);
    tail.push(73);
    tail.push(84);
    tail.push(67);
    tail.push(72);
    tail.push(69);
    tail.push(82);
    push_all(&mut v, tail.as_slice());
    proof {
        assert(v@ =~= legacy_end());
    }
    v
}

/// Every line kept in order, with the payload inserted before each line that
/// carries the end sentinel.
pub open spec fn legacy_insert(ls: Seq<Seq<u8>>, payload: Seq<u8>) -> Seq<Seq<u8>>
    decreases ls.len(),
{
    if ls.len() == 0 {
        Seq::empty()
    } else {
        let head = if contains_sub(ls[0], legacy_end()) {
            seq![payload, ls[0]]
        } else {
            seq![ls[0]]
        };
        head + legacy_insert(ls.skip(1), payload)
    }
}

/// Some line of `ls` carries the start sentinel.
pub open spec fn has_legacy_start(ls: Seq<Seq<u8>>) -> bool {
    exists|i: int| 0 <= i < ls.len() && contains_sub(ls[i], legacy_start())
}

/// The lines of the file after a legacy scope write: payload inserted before
/// every end sentinel, and a whole fresh block appended when the start
/// sentinel is absent.
pub open spec fn legacy_lines(ls: Seq<Seq<u8>>, payload: Seq<u8>) -> Seq<Seq<u8>> {
    if has_legacy_start(ls) {
        legacy_insert(ls, payload)
    } else {
        legacy_insert(ls, payload) + seq![legacy_start(), payload, legacy_end()]
    }
}

/// Adds `payload` to the legacy scope block of `content` and returns the new
/// file content, the lines joined with newline separators.
pub fn append_legacy_scope(content: &[u8], payload: &[u8]) -> (r: Vec<u8>)
    ensures
        r@ == join_sep(legacy_lines(split_lines(content@), payload@)),
{
    let lines = split_lines_exec(content);
    let ghost gls = split_lines(content@);
    let start = legacy_start_vec();
    let end = legacy_end_vec();
    let n = lines.len();
    let mut out: Vec<Vec<u8>> = Vec::new();
    let mut seen_start = false;
    let mut i: usize = 0;
    proof {
        assert(gls.skip(0) =~= gls);
        assert(out.deep_view() + legacy_insert(gls, payload@) =~= legacy_insert(gls, payload@));
    }
    while i < n
        invariant
            0 <= i <= n,
            n == lines@.len(),
            lines.deep_view() == gls,
            start@ == legacy_start(),
            end@ == legacy_end(),
            legacy_insert(gls, payload@) == out.deep_view() + legacy_insert(
                gls.skip(i as int),
                payload@,
            ),
            seen_start == exists|k: int| 0 <= k < i && contains_sub(gls[k], legacy_start()),
        decreases n - i,
    {
        proof {
            assert(gls.skip(i as int)[0] == gls[i as int]);
            assert(gls.skip(i as int).skip(1) =~= gls.skip(i + 1));
            lemma_bytes_deep_view(lines@[i as int]);
        }
        if contains_bytes(lines[i].as_slice(), start.as_slice()) {
            seen_start = true;
        }
        let ghost prev = out.deep_view();
        if contains_bytes(lines[i].as_slice(), end.as_slice()) {
            let p = vstd::slice::slice_to_vec(payload);
            proof {
                lemma_bytes_deep_view(p);
            }
            out.push(p);
        }
        let kept = vstd::slice::slice_to_vec(lines[i].as_slice());
        proof {
            lemma_bytes_deep_view(kept);
        }
        out.push(kept);
        proof {
            if contains_sub(gls[i as int], legacy_end()) {
                assert(out.deep_view() =~= prev.push(payload@).push(gls[i as int]));
                assert(prev + (seq![payload@, gls[i as int]] + legacy_insert(
                    gls.skip(i + 1),
                    payload@,
                )) =~= out.deep_view() + legacy_insert(gls.skip(i + 1), payload@));
            } else {
                assert(out.deep_view() =~= prev.push(gls[i as int]));
                assert(prev + (seq![gls[i as int]] + legacy_insert(gls.skip(i + 1), payload@))
                    =~= out.deep_view() + legacy_insert(gls.skip(i + 1), payload@));
            }
        }
        i = i + 1;
    }
    proof {
        assert(gls.skip(n as int) =~= Seq::<Seq<u8>>::empty());
        assert(out.deep_view() + Seq::<Seq<u8>>::empty() =~= out.deep_view());
    }
    if !seen_start {
        let ghost prev = out.deep_view();
        let p = vstd::slice::slice_to_vec(payload);
        proof {
            lemma_bytes_deep_view(start);
            lemma_bytes_deep_view(p);
            lemma_bytes_deep_view(end);
        }
        out.push(start);
        out.push(p);
        out.push(end);
        proof {
            assert(out.deep_view() =~= prev + seq![legacy_start(), payload@, legacy_end()]);
        }
    }
    join_sep_exec(&out)
}

} // verus!
