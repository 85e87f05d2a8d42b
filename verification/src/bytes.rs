//! Byte-level text helpers: trimming, prefix tests, searching, literal
//! substring replacement and line splitting, each with an exact
//! specification. Template text is treated as bytes; whitespace means ASCII
//! whitespace.

use vstd::prelude::*;

verus! {

/// ASCII whitespace: space, tab, line feed, vertical tab, form feed,
/// carriage return. Text is handled byte-wise, so multi-byte whitespace
/// beyond ASCII is not recognized.
pub open spec fn is_ws(b: u8) -> bool {
    b == 32 || b == 9 || b == 10 || b == 11 || b == 12 || b == 13
}

/// First index at or after `from` holding a non-whitespace byte (or the
/// length if there is none).
pub open spec fn sp_skip_ws(s: Seq<u8>, from: int) -> int
    decreases s.len() - from,
{
    if from < s.len() && is_ws(s[from]) {
        sp_skip_ws(s, from + 1)
    } else {
        from
    }
}

/// Position just after the last non-whitespace byte strictly before `end`
/// (or 0 if all of them are whitespace).
pub open spec fn sp_trim_end(s: Seq<u8>, end: int) -> int
    decreases end,
{
    if end > 0 && is_ws(s[end - 1]) {
        sp_trim_end(s, end - 1)
    } else {
        end
    }
}

/// `s` with leading and trailing ASCII whitespace removed.
pub open spec fn sp_trim(s: Seq<u8>) -> Seq<u8> {
    let a = sp_skip_ws(s, 0);
    let b = sp_trim_end(s, s.len() as int);
    if a <= b {
        s.subrange(a, b)
    } else {
        Seq::empty()
    }
}

pub open spec fn sp_starts_with(s: Seq<u8>, p: Seq<u8>) -> bool {
    p.len() <= s.len() && s.subrange(0, p.len() as int) == p
}

/// The least index at or after `from` where `pat` occurs in `s`.
pub open spec fn sp_find(s: Seq<u8>, from: int, pat: Seq<u8>) -> Option<int>
    decreases s.len() + 1 - from,
{
    if from + pat.len() > s.len() {
        None
    } else if s.subrange(from, from + pat.len()) == pat {
        Some(from)
    } else {
        sp_find(s, from + 1, pat)
    }
}

/// A hit reported by `sp_find` lies at or after `from` and fits inside `s`.
pub proof fn lemma_sp_find_bounds(s: Seq<u8>, from: int, pat: Seq<u8>)
    requires
        0 <= from,
    ensures
        match sp_find(s, from, pat) {
            Option::Some(i) => from <= i && i + pat.len() <= s.len(),
            Option::None => true,
        },
    decreases s.len() + 1 - from,
{
    if from + pat.len() > s.len() {
    } else if s.subrange(from, from + pat.len()) == pat {
    } else {
        lemma_sp_find_bounds(s, from + 1, pat);
    }
}

/// `s` with every occurrence of the non-empty pattern `pat` replaced by
/// `val`, scanning left to right over non-overlapping occurrences.
pub open spec fn sp_replace_all(s: Seq<u8>, pat: Seq<u8>, val: Seq<u8>) -> Seq<u8>
    decreases s.len(),
    via sp_replace_all_decreases
{
    if pat.len() == 0 {
        s
    } else {
        match sp_find(s, 0, pat) {
            Option::None => s,
            Option::Some(i) => s.subrange(0, i) + val + sp_replace_all(
                s.subrange(i + pat.len(), s.len() as int),
                pat,
                val,
            ),
        }
    }
}

#[via_fn]
proof fn sp_replace_all_decreases(s: Seq<u8>, pat: Seq<u8>, val: Seq<u8>) {
    lemma_sp_find_bounds(s, 0, pat);
}

/// `s` split on the non-empty separator `sep`; empty segments are kept, and
/// splitting the empty sequence yields one empty segment.
pub open spec fn sp_split_on(s: Seq<u8>, sep: Seq<u8>) -> Seq<Seq<u8>>
    decreases s.len(),
    via sp_split_on_decreases
{
    if sep.len() == 0 {
        seq![s]
    } else {
        match sp_find(s, 0, sep) {
            Option::None => seq![s],
            Option::Some(i) => seq![s.subrange(0, i)] + sp_split_on(
                s.subrange(i + sep.len(), s.len() as int),
                sep,
            ),
        }
    }
}

#[via_fn]
proof fn sp_split_on_decreases(s: Seq<u8>, sep: Seq<u8>) {
    lemma_sp_find_bounds(s, 0, sep);
}

/// A line's single trailing carriage return removed, if present.
pub open spec fn sp_strip_cr(l: Seq<u8>) -> Seq<u8> {
    if l.len() > 0 && l[l.len() - 1] == 13 {
        l.subrange(0, l.len() - 1)
    } else {
        l
    }
}

/// `s` split into lines: segments terminated by a line feed or by the end of
/// the text, the terminator excluded, a single carriage return before each
/// line feed stripped, and no final empty line after a trailing line feed.
/// A carriage return ending an unterminated last line stays.
pub open spec fn sp_lines(s: Seq<u8>) -> Seq<Seq<u8>>
    decreases s.len(),
    via sp_lines_decreases
{
    if s.len() == 0 {
        Seq::empty()
    } else {
        match sp_find(s, 0, seq![10u8]) {
            Option::None => seq![s],
            Option::Some(i) => seq![sp_strip_cr(s.subrange(0, i))] + sp_lines(
                s.subrange(i + 1, s.len() as int),
            ),
        }
    }
}

#[via_fn]
proof fn sp_lines_decreases(s: Seq<u8>) {
    lemma_sp_find_bounds(s, 0, seq![10u8]);
}

/// The views of a list of byte vectors.
pub open spec fn views(l: Seq<Vec<u8>>) -> Seq<Seq<u8>> {
    l.map_values(|v: Vec<u8>| v@)
}

/// The views of a list of byte-vector pairs.
pub open spec fn pair_views(l: Seq<(Vec<u8>, Vec<u8>)>) -> Seq<(Seq<u8>, Seq<u8>)> {
    l.map_values(|p: (Vec<u8>, Vec<u8>)| (p.0@, p.1@))
}

pub fn bytes_eq(a: &[u8], b: &[u8]) -> (r: bool)
    ensures
        r == (a@ == b@),
{
    if a.len() != b.len() {
        assert(a@ != b@) by {
            assert(a@.len() != b@.len());
        }
        return false;
    }
    let n = a.len();
    let mut i: usize = 0;
    while i < n
        invariant
            n == a@.len() == b@.len(),
            0 <= i <= n,
            forall|k: int| 0 <= k < i ==> a@[k] == b@[k],
        decreases n - i,
    {
        if a[i] != b[i] {
            return false;
        }
        i = i + 1;
    }
    proof {
        assert(a@ =~= b@);
    }
    true
}

pub fn starts_with(s: &[u8], p: &[u8]) -> (r: bool)
    ensures
        r == sp_starts_with(s@, p@),
{
    if p.len() > s.len() {
        return false;
    }
    bytes_eq(vstd::slice::slice_subrange(s, 0, p.len()), p)
}

pub fn skip_ws(s: &[u8], from: usize) -> (r: usize)
    requires
        from <= s@.len(),
    ensures
        r == sp_skip_ws(s@, from as int),
        from <= r <= s@.len(),
        r < s@.len() ==> !is_ws(s@[r as int]),
    decreases s@.len() - from,
{
    if from < s.len() && byte_is_ws(s[from]) {
        skip_ws(s, from + 1)
    } else {
        from
    }
}

pub fn byte_is_ws(b: u8) -> (r: bool)
    ensures
        r == is_ws(b),
{
    b == 32 || b == 9 || b == 10 || b == 11 || b == 12 || b == 13
}

pub fn trim_end_pos(s: &[u8], end: usize) -> (r: usize)
    requires
        end <= s@.len(),
    ensures
        r == sp_trim_end(s@, end as int),
        r <= end,
    decreases end,
{
    if end > 0 && byte_is_ws(s[end - 1]) {
        trim_end_pos(s, end - 1)
    } else {
        end
    }
}

/// `s` with leading and trailing ASCII whitespace removed.
pub fn trim(s: &[u8]) -> (r: &[u8])
    ensures
        r@ == sp_trim(s@),
{
    let a = skip_ws(s, 0);
    let b = trim_end_pos(s, s.len());
    if a <= b {
        vstd::slice::slice_subrange(s, a, b)
    } else {
        vstd::slice::slice_subrange(s, 0, 0)
    }
}

/// The least occurrence of `pat` in `s` at or after `from`.
pub fn find_from(s: &[u8], from: usize, pat: &[u8]) -> (r: Option<usize>)
    requires
        from <= s@.len(),
        pat@.len() > 0,
    ensures
        match r {
            Option::Some(i) => sp_find(s@, from as int, pat@) == Option::Some(i as int) && from
                <= i && i + pat@.len() <= s@.len(),
            Option::None => sp_find(s@, from as int, pat@) is None,
        },
{
    let mut i = from;
    loop
        invariant
            from <= i <= s@.len(),
            pat@.len() > 0,
            sp_find(s@, from as int, pat@) == sp_find(s@, i as int, pat@),
        decreases s@.len() - i,
    {
        if pat.len() > s.len() - i {
            return Option::None;
        }
        if bytes_eq(vstd::slice::slice_subrange(s, i, i + pat.len()), pat) {
            return Option::Some(i);
        }
        i = i + 1;
    }
}

/// Appends all of `src` to `dest`.
pub fn push_all(dest: &mut Vec<u8>, src: &[u8])
    ensures
        final(dest)@ == old(dest)@ + src@,
{
    let mut i: usize = 0;
    while i < src.len()
        invariant
            0 <= i <= src@.len(),
            dest@ == old(dest)@ + src@.subrange(0, i as int),
        decreases src@.len() - i,
    {
        dest.push(src[i]);
        assert(old(dest)@ + src@.subrange(0, i as int) + seq![src@[i as int]] =~= old(dest)@
            + src@.subrange(0, i + 1));
        i = i + 1;
    }
    assert(src@.subrange(0, src@.len() as int) =~= src@);
}

/// `s` with every occurrence of the non-empty `pat` replaced by `val`.
pub fn replace_all(s: &[u8], pat: &[u8], val: &[u8]) -> (r: Vec<u8>)
    requires
        pat@.len() > 0,
    ensures
        r@ == sp_replace_all(s@, pat@, val@),
{
    let mut out: Vec<u8> = Vec::new();
    let mut pos: usize = 0;
    proof {
        assert(s@.subrange(0, s@.len() as int) =~= s@);
    }
    loop
        invariant
            pat@.len() > 0,
            0 <= pos <= s@.len(),
            sp_replace_all(s@, pat@, val@) == out@ + sp_replace_all(
                s@.subrange(pos as int, s@.len() as int),
                pat@,
                val@,
            ),
        decreases s@.len() - pos,
    {
        let rem = vstd::slice::slice_subrange(s, pos, s.len());
        match find_from(rem, 0, pat) {
            Option::None => {
                push_all(&mut out, rem);
                proof {
                    assert(out@ =~= sp_replace_all(s@, pat@, val@));
                }
                return out;
            },
            Option::Some(i) => {
                push_all(&mut out, vstd::slice::slice_subrange(rem, 0, i));
                push_all(&mut out, val);
                let newpos = pos + i + pat.len();
                proof {
                    let remv = s@.subrange(pos as int, s@.len() as int);
                    assert(remv.subrange(i + pat@.len(), remv.len() as int) =~= s@.subrange(
                        newpos as int,
                        s@.len() as int,
                    ));
                    assert(sp_replace_all(remv, pat@, val@) == remv.subrange(0, i as int) + val@
                        + sp_replace_all(
                        s@.subrange(newpos as int, s@.len() as int),
                        pat@,
                        val@,
                    ));
                }
                pos = newpos;
            },
        }
    }
}

/// `s` split into lines as a text file is read: terminators excluded, one
/// trailing carriage return stripped per line.
pub fn split_lines(s: &[u8]) -> (r: Vec<Vec<u8>>)
    ensures
        views(r@) == sp_lines(s@),
{
    let mut out: Vec<Vec<u8>> = Vec::new();
    let mut pos: usize = 0;
    let mut nl: Vec<u8> = Vec::new();
    nl.push(10u8);
    proof {
        assert(s@.subrange(0, s@.len() as int) =~= s@);
        assert(nl@ =~= seq![10u8]);
    }
    loop
        invariant
            0 <= pos <= s@.len(),
            nl@ =~= seq![10u8],
            sp_lines(s@) == views(out@) + sp_lines(s@.subrange(pos as int, s@.len() as int)),
        decreases s@.len() - pos + 1,
    {
        if pos == s.len() {
            proof {
                assert(s@.subrange(pos as int, s@.len() as int) =~= Seq::<u8>::empty());
                assert(sp_lines(Seq::<u8>::empty()) =~= Seq::<Seq<u8>>::empty());
                assert(views(out@) =~= sp_lines(s@));
            }
            return out;
        }
        let rem = vstd::slice::slice_subrange(s, pos, s.len());
        let line: Vec<u8>;
        let next_pos;
        match find_from(rem, 0, nl.as_slice()) {
            Option::None => {
                line = vstd::slice::slice_to_vec(rem);
                next_pos = s.len();
            },
            Option::Some(i) => {
                let raw = vstd::slice::slice_subrange(s, pos, pos + i);
                line = strip_cr_vec(raw);
                next_pos = pos + i + 1;
            },
        }
        let ghost line_v = line@;
        proof {
            let remv = s@.subrange(pos as int, s@.len() as int);
            assert(remv.len() > 0);
            match sp_find(remv, 0, nl@) {
                Option::Some(i) => {
                    assert(remv.subrange(0, i) =~= s@.subrange(pos as int, pos + i));
                    assert(remv.subrange(i + 1, remv.len() as int) =~= s@.subrange(
                        next_pos as int,
                        s@.len() as int,
                    ));
                    assert(sp_lines(remv) == seq![line_v] + sp_lines(
                        s@.subrange(next_pos as int, s@.len() as int),
                    ));
                },
                Option::None => {
                    assert(remv =~= line_v);
                    assert(sp_lines(remv) == seq![line_v] + sp_lines(
                        s@.subrange(next_pos as int, s@.len() as int),
                    )) by {
                        assert(s@.subrange(next_pos as int, s@.len() as int) =~= Seq::<
                            u8,
                        >::empty());
                        assert(sp_lines(Seq::<u8>::empty()) =~= Seq::<Seq<u8>>::empty());
                        assert(seq![line_v] + Seq::<Seq<u8>>::empty() =~= seq![line_v]);
                    }
                },
            }
        }
        let ghost prev = out@;
        out.push(line);
        pos = next_pos;
        proof {
            assert(views(out@) =~= views(prev).push(line_v));
            assert(views(prev) + seq![line_v] =~= views(out@));
            assert(views(prev) + (seq![line_v] + sp_lines(
                s@.subrange(pos as int, s@.len() as int),
            )) =~= views(out@) + sp_lines(s@.subrange(pos as int, s@.len() as int)));
        }
    }
}

/// A copy of `l` without its single trailing carriage return, if present.
pub fn strip_cr_vec(l: &[u8]) -> (r: Vec<u8>)
    ensures
        r@ == sp_strip_cr(l@),
{
    let n = l.len();
    if n > 0 && l[n - 1] == 13 {
        let mut v: Vec<u8> = Vec::new();
        push_all(&mut v, vstd::slice::slice_subrange(l, 0, n - 1));
        v
    } else {
        let mut v: Vec<u8> = Vec::new();
        push_all(&mut v, l);
        v
    }
}

/// Membership of a byte string in a list of byte vectors.
pub fn list_contains(list: &Vec<Vec<u8>>, x: &[u8]) -> (r: bool)
    ensures
        r == views(list@).contains(x@),
{
    let n = list.len();
    let mut i: usize = 0;
    while i < n
        invariant
            n == list@.len(),
            0 <= i <= n,
            forall|k: int| 0 <= k < i ==> views(list@)[k] != x@,
        decreases n - i,
    {
        if bytes_eq(list[i].as_slice(), x) {
            assert(views(list@)[i as int] == x@);
            return true;
        }
        i = i + 1;
    }
    assert(!views(list@).contains(x@)) by {
        assert(forall|k: int| 0 <= k < views(list@).len() ==> views(list@)[k] != x@);
    }
    false
}

} // verus!
