//! The directive preprocessor: per-file template expansion.
//!
//! A template is processed line by line. Until the first ordinary content
//! line, the file header is open: `INCLUDEFILE <expr>` decides whether the
//! file is kept at all — a false condition skips the file at once — and
//! `INCLUDE_AS <path>` overrides its output path; directive lines do not
//! close the header, only content does.
//! `IF`/`ELIF`/`ELSE`/`ENDIF` lines drive the conditional block stack,
//! `REPLACE <pattern> <var>[ && <pattern> <var>]*` arms a single-shot
//! substitution for the next emitted content line, a line holding only the
//! formatter skip marker is always dropped, an escape prefix (`#+` or `//+`)
//! is removed from emitted lines, and every other line is emitted when every
//! open conditional frame is live. Directive markers come in a hash spelling
//! and a line-comment spelling.

use crate::block::BlockKind;
use crate::bytes::{
    pair_views, sp_lines, sp_replace_all, sp_skip_ws, sp_split_on, sp_starts_with,
    sp_trim, views,
};
use crate::expr::sp_eval_expr;
use vstd::prelude::*;

verus! {

/// Why a template could not be expanded: a structural error in the template
/// itself, fatal for the whole run.
#[derive(Clone, Copy, PartialEq, Eq, Structural, Debug)]
pub enum TemplateErrorKind {
    /// `ENDIF` without a matching `IF`, or `ELIF`/`ELSE` outside any `IF`.
    UnbalancedDirective,
    /// A directive condition that the expression language cannot parse.
    InvalidExpression,
}

/// A template-integrity error, with the 1-based line it arose on.
#[derive(Clone, Copy, PartialEq, Eq, Structural, Debug)]
pub struct TemplateError {
    pub kind: TemplateErrorKind,
    pub line: usize,
}

/// The per-file expansion state between lines.
pub ghost struct FileState {
    /// Output assembled so far.
    pub out: Seq<u8>,
    /// The pending single-shot replacement pairs, if any.
    pub replace: Option<Seq<(Seq<u8>, Seq<u8>)>>,
    /// The conditional block stack; the root frame sits at the bottom.
    pub stack: Seq<BlockKind>,
    /// Whether file-level directives are still recognized: true until the
    /// first ordinary content line has been seen.
    pub file_directives: bool,
    /// The file's output path.
    pub path: Seq<u8>,
}

/// What processing one line does.
pub ghost enum LineOut {
    /// Processing goes on with the new state.
    Next(FileState),
    /// The whole file is excluded from output.
    Excluded,
    /// A template-integrity error.
    Failed(TemplateErrorKind),
}

/// The result of expanding one whole file.
pub ghost enum FileOut {
    /// Expanded text and the output path to write it to.
    Text(Seq<u8>, Seq<u8>),
    /// The file is skipped entirely; the path at that moment.
    Excluded(Seq<u8>),
    /// A fatal error, with its 1-based line and the path at that moment.
    Failed(TemplateErrorKind, int, Seq<u8>),
}

/// A trimmed line's payload after a directive marker: the directive word in
/// either the hash spelling or the line-comment spelling.
pub open spec fn sp_strip_directive(t: Seq<u8>, word: Seq<u8>) -> Option<Seq<u8>> {
    if sp_starts_with(t, seq![35u8] + word) {
        Some(t.subrange(1 + word.len() as int, t.len() as int))
    } else if sp_starts_with(t, seq![47u8, 47u8] + word) {
        Some(t.subrange(2 + word.len() as int, t.len() as int))
    } else {
        None
    }
}

/// First index at or after `i` holding whitespace (or the length).
pub open spec fn sp_tok_end(s: Seq<u8>, i: int) -> int
    decreases s.len() - i,
{
    if i < s.len() && !crate::bytes::is_ws(s[i]) {
        sp_tok_end(s, i + 1)
    } else {
        i
    }
}

/// The bounds of the first whitespace-separated token at or after `i`.
pub open spec fn sp_token_from(s: Seq<u8>, i: int) -> Option<(int, int)> {
    let a = sp_skip_ws(s, i);
    if a < s.len() {
        Some((a, sp_tok_end(s, a)))
    } else {
        None
    }
}

/// The first two whitespace-separated tokens of a `REPLACE` pair segment:
/// the literal pattern and the variable name. Further tokens are ignored.
pub open spec fn sp_parse_pair(seg: Seq<u8>) -> Option<(Seq<u8>, Seq<u8>)> {
    match sp_token_from(seg, 0) {
        None => None,
        Some((a, b)) => match sp_token_from(seg, b) {
            None => None,
            Some((c, d)) => Some((seg.subrange(a, b), seg.subrange(c, d))),
        },
    }
}

/// The value of the first variable named `key`, if any.
pub open spec fn sp_lookup(vars: Seq<(Seq<u8>, Seq<u8>)>, key: Seq<u8>) -> Option<Seq<u8>>
    decreases vars.len(),
{
    if vars.len() == 0 {
        None
    } else if vars[0].0 == key {
        Some(vars[0].1)
    } else {
        sp_lookup(vars.drop_first(), key)
    }
}

/// The resolved `(pattern, value)` pairs of the given segments: a segment
/// contributes iff it has two tokens and its variable is known.
pub open spec fn sp_collect_pairs(segs: Seq<Seq<u8>>, vars: Seq<(Seq<u8>, Seq<u8>)>) -> Seq<
    (Seq<u8>, Seq<u8>),
>
    decreases segs.len(),
{
    if segs.len() == 0 {
        Seq::empty()
    } else {
        let rest = sp_collect_pairs(segs.drop_first(), vars);
        match sp_parse_pair(segs[0]) {
            None => rest,
            Some((pat, var)) => match sp_lookup(vars, var) {
                None => rest,
                Some(val) => seq![(pat, val)] + rest,
            },
        }
    }
}

/// The replacement pairs of a `REPLACE` directive's payload.
pub open spec fn sp_parse_replacements(what: Seq<u8>, vars: Seq<(Seq<u8>, Seq<u8>)>) -> Seq<
    (Seq<u8>, Seq<u8>),
> {
    sp_collect_pairs(sp_split_on(what, sp_pair_sep()), vars)
}

/// `line` with each pair's pattern replaced by its value, in order.
pub open spec fn sp_apply_pairs(line: Seq<u8>, pairs: Seq<(Seq<u8>, Seq<u8>)>) -> Seq<u8>
    decreases pairs.len(),
{
    if pairs.len() == 0 {
        line
    } else {
        sp_apply_pairs(sp_replace_all(line, pairs[0].0, pairs[0].1), pairs.drop_first())
    }
}

/// Whether every open conditional frame lets lines through.
pub open spec fn stack_emits(stack: Seq<BlockKind>) -> bool {
    forall|k: int| 0 <= k < stack.len() ==> stack[k].spec_include_line()
}

/// What one line does to the expansion state. Mirrors the processing
/// order: the file-level directives while the header is open, then the
/// formatter skip marker, `REPLACE`, the conditional directives — none of
/// which closes the header (the skip marker counts as a directive-like
/// convention line) — and finally content emission under the full stack,
/// which is what ends file-level directive recognition for good.
pub open spec fn sp_line_step(
    st: FileState,
    line: Seq<u8>,
    opts: Seq<Seq<u8>>,
    vars: Seq<(Seq<u8>, Seq<u8>)>,
) -> LineOut {
    let t = sp_trim(line);
    if st.file_directives && sp_strip_directive(t, sp_w_file_include()) is Some {
        let cond = sp_strip_directive(t, sp_w_file_include()).unwrap();
        match sp_eval_expr(cond, opts) {
            Some(b) => if b {
                LineOut::Next(st)
            } else {
                LineOut::Excluded
            },
            None => LineOut::Failed(TemplateErrorKind::InvalidExpression),
        }
    } else if st.file_directives && sp_strip_directive(t, sp_w_file_rename()) is Some {
        let p = sp_strip_directive(t, sp_w_file_rename()).unwrap();
        LineOut::Next(FileState { path: sp_trim(p), ..st })
    } else if t == sp_skip_marker() {
        LineOut::Next(st)
    } else if sp_strip_directive(t, sp_w_replace()) is Some {
        let what = sp_strip_directive(t, sp_w_replace()).unwrap();
        let pairs = sp_parse_replacements(what, vars);
        if pairs.len() > 0 {
            LineOut::Next(FileState { replace: Some(pairs), ..st })
        } else {
            LineOut::Next(st)
        }
    } else if sp_strip_directive(t, sp_w_if()) is Some {
        let cond = sp_strip_directive(t, sp_w_if()).unwrap();
        let last = st.stack.last();
        if last.spec_include_line() {
            match sp_eval_expr(cond, opts) {
                Some(b) => LineOut::Next(
                    FileState { stack: st.stack.push(BlockKind::IfElse(b, false)), ..st },
                ),
                None => LineOut::Failed(TemplateErrorKind::InvalidExpression),
            }
        } else {
            LineOut::Next(
                FileState { stack: st.stack.push(BlockKind::IfElse(false, false)), ..st },
            )
        }
    } else if sp_strip_directive(t, sp_w_elif()) is Some {
        let cond = sp_strip_directive(t, sp_w_elif()).unwrap();
        let last = st.stack.last();
        if !(last is IfElse) {
            LineOut::Failed(TemplateErrorKind::UnbalancedDirective)
        } else if last == BlockKind::IfElse(false, false) {
            match sp_eval_expr(cond, opts) {
                Some(b) => LineOut::Next(
                    FileState {
                        stack: st.stack.drop_last().push(last.spec_into_else_if(b)),
                        ..st
                    },
                ),
                None => LineOut::Failed(TemplateErrorKind::InvalidExpression),
            }
        } else {
            LineOut::Next(
                FileState {
                    stack: st.stack.drop_last().push(last.spec_into_else_if(false)),
                    ..st
                },
            )
        }
    } else if sp_strip_directive(t, sp_w_else()) is Some {
        let last = st.stack.last();
        if !(last is IfElse) {
            LineOut::Failed(TemplateErrorKind::UnbalancedDirective)
        } else {
            LineOut::Next(
                FileState { stack: st.stack.drop_last().push(last.spec_into_else()), ..st },
            )
        }
    } else if sp_strip_directive(t, sp_w_endif()) is Some {
        let last = st.stack.last();
        if !(last is IfElse) {
            LineOut::Failed(TemplateErrorKind::UnbalancedDirective)
        } else {
            LineOut::Next(FileState { stack: st.stack.drop_last(), ..st })
        }
    } else {
        let st1 = FileState { file_directives: false, ..st };
        if stack_emits(st1.stack) {
            let l1 = if sp_starts_with(t, sp_esc_hash()) {
                sp_replace_all(line, sp_esc_hash(), Seq::empty())
            } else {
                line
            };
            let l2 = if sp_starts_with(t, sp_esc_slash()) {
                sp_replace_all(l1, sp_esc_slash(), Seq::empty())
            } else {
                l1
            };
            let l3 = match st1.replace {
                Some(pairs) => sp_apply_pairs(l2, pairs),
                None => l2,
            };
            LineOut::Next(
                FileState { out: st1.out + l3 + seq![10u8], replace: None, ..st1 },
            )
        } else {
            LineOut::Next(st1)
        }
    }
}

/// Expansion of the lines from index `k` on, starting from state `st`.
pub open spec fn sp_run(
    lines: Seq<Seq<u8>>,
    k: int,
    st: FileState,
    opts: Seq<Seq<u8>>,
    vars: Seq<(Seq<u8>, Seq<u8>)>,
) -> FileOut
    decreases lines.len() - k,
{
    if k >= lines.len() {
        FileOut::Text(st.out, st.path)
    } else {
        match sp_line_step(st, lines[k], opts, vars) {
            LineOut::Next(st2) => sp_run(lines, k + 1, st2, opts, vars),
            LineOut::Excluded => FileOut::Excluded(st.path),
            LineOut::Failed(kind) => FileOut::Failed(kind, k + 1, st.path),
        }
    }
}

/// The initial per-file state: empty output, no pending replacement, only
/// the root frame, file-level directives recognized, file kept, the given
/// output path.
pub open spec fn sp_initial_state(path0: Seq<u8>) -> FileState {
    FileState {
        out: Seq::empty(),
        replace: None,
        stack: seq![BlockKind::Root],
        file_directives: true,
        path: path0,
    }
}

/// The expansion of a whole template: its text split into lines and run
/// through the state machine from the initial state.
pub open spec fn sp_process_file(
    contents: Seq<u8>,
    opts: Seq<Seq<u8>>,
    vars: Seq<(Seq<u8>, Seq<u8>)>,
    path0: Seq<u8>,
) -> FileOut {
    sp_run(sp_lines(contents), 0, sp_initial_state(path0), opts, vars)
}

pub open spec fn sp_w_file_include() -> Seq<u8> {
    seq![73u8, 78u8, 67u8, 76u8, 85u8, 68u8, 69u8, 70u8, 73u8, 76u8, 69u8, 32u8]
}

pub fn w_file_include() -> (v: Vec<u8>)
    ensures
        v@ == sp_w_file_include(),
{
    let mut v: Vec<u8> = Vec::new();
    v.push(73u8);
    v.push(78u8);
    v.push(67u8);
    v.push(76u8);
    v.push(85u8);
    v.push(68u8);
    v.push(69u8);
    v.push(70u8);
    v.push(73u8);
    v.push(76u8);
    v.push(69u8);
    v.push(32u8);
    proof {
        assert(v@ =~= sp_w_file_include());
    }
    v
}

pub open spec fn sp_w_file_rename() -> Seq<u8> {
    seq![73u8, 78u8, 67u8, 76u8, 85u8, 68u8, 69u8, 95u8, 65u8, 83u8, 32u8]
}

pub fn w_file_rename() -> (v: Vec<u8>)
    ensures
        v@ == sp_w_file_rename(),
{
    let mut v: Vec<u8> = Vec::new();
    v.push(73u8);
    v.push(78u8);
    v.push(67u8);
    v.push(76u8);
    v.push(85u8);
    v.push(68u8);
    v.push(69u8);
    v.push(95u8);
    v.push(65u8);
    v.push(83u8);
    v.push(32u8);
    proof {
        assert(v@ =~= sp_w_file_rename());
    }
    v
}

pub open spec fn sp_w_replace() -> Seq<u8> {
    seq![82u8, 69u8, 80u8, 76u8, 65u8, 67u8, 69u8, 32u8]
}

pub fn w_replace() -> (v: Vec<u8>)
    ensures
        v@ == sp_w_replace(),
{
    let mut v: Vec<u8> = Vec::new();
    v.push(82u8);
    v.push(69u8);
    v.push(80u8);
    v.push(76u8);
    v.push(65u8);
    v.push(67u8);
    v.push(69u8);
    v.push(32u8);
    proof {
        assert(v@ =~= sp_w_replace());
    }
    v
}

pub open spec fn sp_w_if() -> Seq<u8> {
    seq![73u8, 70u8, 32u8]
}

pub fn w_if() -> (v: Vec<u8>)
    ensures
        v@ == sp_w_if(),
{
    let mut v: Vec<u8> = Vec::new();
    v.push(73u8);
    v.push(70u8);
    v.push(32u8);
    proof {
        assert(v@ =~= sp_w_if());
    }
    v
}

pub open spec fn sp_w_elif() -> Seq<u8> {
    seq![69u8, 76u8, 73u8, 70u8, 32u8]
}

pub fn w_elif() -> (v: Vec<u8>)
    ensures
        v@ == sp_w_elif(),
{
    let mut v: Vec<u8> = Vec::new();
    v.push(69u8);
    v.push(76u8);
    v.push(73u8);
    v.push(70u8);
    v.push(32u8);
    proof {
        assert(v@ =~= sp_w_elif());
    }
    v
}

pub open spec fn sp_w_else() -> Seq<u8> {
    seq![69u8, 76u8, 83u8, 69u8]
}

pub fn w_else() -> (v: Vec<u8>)
    ensures
        v@ == sp_w_else(),
{
    let mut v: Vec<u8> = Vec::new();
    v.push(69u8);
    v.push(76u8);
    v.push(83u8);
    v.push(69u8);
    proof {
        assert(v@ =~= sp_w_else());
    }
    v
}

pub open spec fn sp_w_endif() -> Seq<u8> {
    seq![69u8, 78u8, 68u8, 73u8, 70u8]
}

pub fn w_endif() -> (v: Vec<u8>)
    ensures
        v@ == sp_w_endif(),
{
    let mut v: Vec<u8> = Vec::new();
    v.push(69u8);
    v.push(78u8);
    v.push(68u8);
    v.push(73u8);
    v.push(70u8);
    proof {
        assert(v@ =~= sp_w_endif());
    }
    v
}

pub open spec fn sp_skip_marker() -> Seq<u8> {
    seq![35u8, 91u8, 114u8, 117u8, 115u8, 116u8, 102u8, 109u8, 116u8, 58u8, 58u8, 115u8, 107u8, 105u8, 112u8, 93u8]
}

pub fn skip_marker() -> (v: Vec<u8>)
    ensures
        v@ == sp_skip_marker(),
{
    let mut v: Vec<u8> = Vec::new();
    v.push(35u8);
    v.push(91u8);
    v.push(114u8);
    v.push(117u8);
    v.push(115u8);
    v.push(116u8);
    v.push(102u8);
    v.push(109u8);
    v.push(116u8);
    v.push(58u8);
    v.push(58u8);
    v.push(115u8);
    v.push(107u8);
    v.push(105u8);
    v.push(112u8);
    v.push(93u8);
    proof {
        assert(v@ =~= sp_skip_marker());
    }
    v
}

pub open spec fn sp_esc_hash() -> Seq<u8> {
    seq![35u8, 43u8]
}

pub fn esc_hash() -> (v: Vec<u8>)
    ensures
        v@ == sp_esc_hash(),
{
    let mut v: Vec<u8> = Vec::new();
    v.push(35u8);
    v.push(43u8);
    proof {
        assert(v@ =~= sp_esc_hash());
    }
    v
}

pub open spec fn sp_esc_slash() -> Seq<u8> {
    seq![47u8, 47u8, 43u8]
}

pub fn esc_slash() -> (v: Vec<u8>)
    ensures
        v@ == sp_esc_slash(),
{
    let mut v: Vec<u8> = Vec::new();
    v.push(47u8);
    v.push(47u8);
    v.push(43u8);
    proof {
        assert(v@ =~= sp_esc_slash());
    }
    v
}

pub open spec fn sp_pair_sep() -> Seq<u8> {
    seq![32u8, 38u8, 38u8, 32u8]
}

pub fn pair_sep() -> (v: Vec<u8>)
    ensures
        v@ == sp_pair_sep(),
{
    let mut v: Vec<u8> = Vec::new();
    v.push(32u8);
    v.push(38u8);
    v.push(38u8);
    v.push(32u8);
    proof {
        assert(v@ =~= sp_pair_sep());
    }
    v
}


fn strip_directive<'a>(t: &'a [u8], word: &[u8]) -> (r: Option<&'a [u8]>)
    ensures
        match r {
            Some(rest) => sp_strip_directive(t@, word@) == Some(rest@),
            None => sp_strip_directive(t@, word@) is None,
        },
{
    let mut hv: Vec<u8> = Vec::new();
    hv.push(35u8);
    crate::bytes::push_all(&mut hv, word);
    proof {
        assert(hv@ =~= seq![35u8] + word@);
    }
    if crate::bytes::starts_with(t, hv.as_slice()) {
        return Some(vstd::slice::slice_subrange(t, hv.len(), t.len()));
    }
    let mut sv: Vec<u8> = Vec::new();
    sv.push(47u8);
    sv.push(47u8);
    crate::bytes::push_all(&mut sv, word);
    proof {
        assert(sv@ =~= seq![47u8, 47u8] + word@);
    }
    if crate::bytes::starts_with(t, sv.as_slice()) {
        return Some(vstd::slice::slice_subrange(t, sv.len(), t.len()));
    }
    None
}

/// `s` split on the non-empty separator `sep`.
pub fn split_on(s: &[u8], sep: &[u8]) -> (r: Vec<Vec<u8>>)
    requires
        sep@.len() > 0,
    ensures
        views(r@) == sp_split_on(s@, sep@),
{
    let mut out: Vec<Vec<u8>> = Vec::new();
    let mut pos: usize = 0;
    proof {
        assert(s@.subrange(0, s@.len() as int) =~= s@);
    }
    loop
        invariant
            sep@.len() > 0,
            0 <= pos <= s@.len(),
            sp_split_on(s@, sep@) == views(out@) + sp_split_on(
                s@.subrange(pos as int, s@.len() as int),
                sep@,
            ),
        decreases s@.len() - pos,
    {
        let rem = vstd::slice::slice_subrange(s, pos, s.len());
        match crate::bytes::find_from(rem, 0, sep) {
            None => {
                let ghost prev = out@;
                out.push(vstd::slice::slice_to_vec(rem));
                proof {
                    assert(views(out@) =~= views(prev).push(rem@));
                    assert(views(prev) + seq![rem@] =~= views(out@));
                    assert(views(out@) =~= sp_split_on(s@, sep@));
                }
                return out;
            },
            Some(i) => {
                let seg = vstd::slice::slice_subrange(rem, 0, i);
                let ghost prev = out@;
                out.push(vstd::slice::slice_to_vec(seg));
                let newpos = pos + i + sep.len();
                proof {
                    let remv = s@.subrange(pos as int, s@.len() as int);
                    assert(remv.subrange(i + sep@.len(), remv.len() as int) =~= s@.subrange(
                        newpos as int,
                        s@.len() as int,
                    ));
                    assert(sp_split_on(remv, sep@) == seq![seg@] + sp_split_on(
                        s@.subrange(newpos as int, s@.len() as int),
                        sep@,
                    ));
                    assert(views(out@) =~= views(prev).push(seg@));
                    assert(views(prev) + (seq![seg@] + sp_split_on(
                        s@.subrange(newpos as int, s@.len() as int),
                        sep@,
                    )) =~= views(out@) + sp_split_on(
                        s@.subrange(newpos as int, s@.len() as int),
                        sep@,
                    ));
                }
                pos = newpos;
            },
        }
    }
}

fn tok_end(s: &[u8], i: usize) -> (r: usize)
    requires
        i <= s@.len(),
    ensures
        r == sp_tok_end(s@, i as int),
        i <= r <= s@.len(),
        i < s@.len() && !crate::bytes::is_ws(s@[i as int]) ==> r > i,
    decreases s@.len() - i,
{
    if i < s.len() && !crate::bytes::byte_is_ws(s[i]) {
        tok_end(s, i + 1)
    } else {
        i
    }
}

fn token_from(s: &[u8], i: usize) -> (r: Option<(usize, usize)>)
    requires
        i <= s@.len(),
    ensures
        match r {
            Some(ab) => sp_token_from(s@, i as int) == Some((ab.0 as int, ab.1 as int)) && i
                <= ab.0 < ab.1 <= s@.len(),
            None => sp_token_from(s@, i as int) is None,
        },
{
    let a = crate::bytes::skip_ws(s, i);
    if a < s.len() {
        let b = tok_end(s, a);
        Some((a, b))
    } else {
        None
    }
}

/// The value of the first variable named `key`, if any, as a fresh copy.
pub fn lookup_var(variables: &Vec<(Vec<u8>, Vec<u8>)>, key: &[u8]) -> (r: Option<Vec<u8>>)
    ensures
        match r {
            Some(v) => sp_lookup(pair_views(variables@), key@) == Some(v@),
            None => sp_lookup(pair_views(variables@), key@) is None,
        },
{
    let n = variables.len();
    let mut i: usize = 0;
    proof {
        assert(pair_views(variables@).skip(0) =~= pair_views(variables@));
    }
    while i < n
        invariant
            n == variables@.len(),
            0 <= i <= n,
            sp_lookup(pair_views(variables@), key@) == sp_lookup(
                pair_views(variables@).skip(i as int),
                key@,
            ),
        decreases n - i,
    {
        let ghost pv = pair_views(variables@);
        if crate::bytes::bytes_eq(variables[i].0.as_slice(), key) {
            proof {
                assert(pv.skip(i as int)[0] == pv[i as int]);
            }
            return Some(vstd::slice::slice_to_vec(variables[i].1.as_slice()));
        }
        proof {
            assert(pv.skip(i as int)[0] == pv[i as int]);
            assert(pv.skip(i as int).drop_first() =~= pv.skip(i as int + 1));
        }
        i = i + 1;
    }
    proof {
        assert(pair_views(variables@).skip(n as int).len() == 0);
    }
    None
}

/// The `(pattern, value)` pairs of a `REPLACE` payload: pairs whose variable
/// is unknown are dropped; every kept pattern is non-empty.
pub fn parse_replacements(what: &[u8], variables: &Vec<(Vec<u8>, Vec<u8>)>) -> (r: Vec<
    (Vec<u8>, Vec<u8>),
>)
    ensures
        pair_views(r@) == sp_parse_replacements(what@, pair_views(variables@)),
        forall|k: int| 0 <= k < r@.len() ==> r@[k].0@.len() > 0,
{
    let sep = pair_sep();
    let segs = split_on(what, sep.as_slice());
    let mut out: Vec<(Vec<u8>, Vec<u8>)> = Vec::new();
    let n = segs.len();
    let mut i: usize = 0;
    proof {
        assert(views(segs@).skip(0) =~= views(segs@));
        assert(pair_views(out@) + sp_collect_pairs(views(segs@), pair_views(variables@))
            =~= sp_collect_pairs(views(segs@), pair_views(variables@)));
    }
    while i < n
        invariant
            n == segs@.len(),
            0 <= i <= n,
            sp_collect_pairs(views(segs@), pair_views(variables@)) == pair_views(out@)
                + sp_collect_pairs(views(segs@).skip(i as int), pair_views(variables@)),
            forall|k: int| 0 <= k < out@.len() ==> out@[k].0@.len() > 0,
        decreases n - i,
    {
        let ghost sv = views(segs@);
        let ghost pvars = pair_views(variables@);
        let seg = segs[i].as_slice();
        proof {
            assert(sv.skip(i as int)[0] == sv[i as int]);
            assert(sv.skip(i as int).drop_first() =~= sv.skip(i as int + 1));
        }
        match token_from(seg, 0) {
            None => {},
            Some((a, b)) => {
                match token_from(seg, b) {
                    None => {},
                    Some((c, d)) => {
                        let var_name = vstd::slice::slice_subrange(seg, c, d);
                        match lookup_var(variables, var_name) {
                            None => {},
                            Some(val) => {
                                let pattern = vstd::slice::slice_to_vec(
                                    vstd::slice::slice_subrange(seg, a, b),
                                );
                                let ghost prev = out@;
                                out.push((pattern, val));
                                proof {
                                    assert(pair_views(out@) =~= pair_views(prev).push(
                                        (seg@.subrange(a as int, b as int), val@),
                                    ));
                                    assert(pair_views(prev) + (seq![
                                        (seg@.subrange(a as int, b as int), val@),
                                    ] + sp_collect_pairs(sv.skip(i as int + 1), pvars))
                                        =~= pair_views(out@) + sp_collect_pairs(
                                        sv.skip(i as int + 1),
                                        pvars,
                                    ));
                                }
                            },
                        }
                    },
                }
            },
        }
        i = i + 1;
    }
    proof {
        assert(views(segs@).skip(n as int).len() == 0);
        assert(pair_views(out@) + sp_collect_pairs(views(segs@).skip(n as int), pair_views(variables@))
            =~= pair_views(out@));
    }
    out
}

/// `line` with each pair's pattern replaced by its value, in order.
fn apply_pairs(line: Vec<u8>, pairs: &Vec<(Vec<u8>, Vec<u8>)>) -> (r: Vec<u8>)
    requires
        forall|k: int| 0 <= k < pairs@.len() ==> pairs@[k].0@.len() > 0,
    ensures
        r@ == sp_apply_pairs(line@, pair_views(pairs@)),
{
    let mut cur = line;
    let n = pairs.len();
    let mut i: usize = 0;
    proof {
        assert(pair_views(pairs@).skip(0) =~= pair_views(pairs@));
    }
    while i < n
        invariant
            n == pairs@.len(),
            0 <= i <= n,
            forall|k: int| 0 <= k < pairs@.len() ==> pairs@[k].0@.len() > 0,
            sp_apply_pairs(line@, pair_views(pairs@)) == sp_apply_pairs(
                cur@,
                pair_views(pairs@).skip(i as int),
            ),
        decreases n - i,
    {
        let ghost pv = pair_views(pairs@);
        proof {
            assert(pv.skip(i as int)[0] == pv[i as int]);
            assert(pv.skip(i as int).drop_first() =~= pv.skip(i as int + 1));
        }
        let next = crate::bytes::replace_all(
            cur.as_slice(),
            pairs[i].0.as_slice(),
            pairs[i].1.as_slice(),
        );
        cur = next;
        i = i + 1;
    }
    proof {
        assert(pair_views(pairs@).skip(n as int).len() == 0);
    }
    cur
}

fn stack_all_emit(stack: &Vec<BlockKind>) -> (r: bool)
    ensures
        r == stack_emits(stack@),
{
    let n = stack.len();
    let mut i: usize = 0;
    while i < n
        invariant
            n == stack@.len(),
            0 <= i <= n,
            forall|k: int| 0 <= k < i ==> stack@[k].spec_include_line(),
        decreases n - i,
    {
        if !stack[i].include_line() {
            return false;
        }
        i = i + 1;
    }
    true
}

/// The spec-level state corresponding to the expander's working variables.
pub open spec fn st_of(
    out: Seq<u8>,
    replace: Option<Vec<(Vec<u8>, Vec<u8>)>>,
    stack: Seq<BlockKind>,
    file_directives: bool,
    path: Seq<u8>,
) -> FileState {
    FileState {
        out,
        replace: match replace {
            Some(v) => Some(pair_views(v@)),
            None => None,
        },
        stack,
        file_directives,
        path,
    }
}

/// Expands one template file. Returns the expanded text, `None` when the
/// file is excluded by its `INCLUDEFILE` directive, or a fatal
/// template-integrity error; `file_path` is overridden in place by an
/// `INCLUDE_AS` directive.
#[verifier::loop_isolation(false)]
#[verifier::rlimit(100)]
pub fn process_file(
    contents: &[u8],
    options: &Vec<Vec<u8>>,
    variables: &Vec<(Vec<u8>, Vec<u8>)>,
    file_path: &mut Vec<u8>,
) -> (r: Result<Option<Vec<u8>>, TemplateError>)
    ensures
        match sp_process_file(contents@, views(options@), pair_views(variables@), old(
            file_path,
        )@) {
            FileOut::Text(out, path) => r matches Ok(o) && o matches Some(v) && v@ == out
                && final(file_path)@ == path,
            FileOut::Excluded(path) => r matches Ok(o) && o is None && final(file_path)@ == path,
            FileOut::Failed(kind, line, path) => r matches Err(e) && e.kind == kind && e.line
                as int == line && final(file_path)@ == path,
        },
{
    let ghost o = views(options@);
    let ghost v = pair_views(variables@);
    let ghost lines_s = sp_lines(contents@);
    let ghost init = sp_initial_state(old(file_path)@);

    let w_fi = w_file_include();
    let w_ra = w_file_rename();
    let w_rep = w_replace();
    let w_if_l = w_if();
    let w_elif_l = w_elif();
    let w_else_l = w_else();
    let w_endif_l = w_endif();
    let skipm = skip_marker();
    let eh = esc_hash();
    let es = esc_slash();

    let lines = crate::bytes::split_lines(contents);
    let mut res: Vec<u8> = Vec::new();
    let mut replace: Option<Vec<(Vec<u8>, Vec<u8>)>> = None;
    let mut stack: Vec<BlockKind> = Vec::new();
    stack.push(BlockKind::Root);
    let mut file_directives = true;
    let mut i: usize = 0;
    proof {
        assert(res@ =~= Seq::<u8>::empty());
        assert(stack@ =~= seq![BlockKind::Root]);
        assert(st_of(res@, replace, stack@, file_directives, file_path@) == init);
    }
    loop
        invariant
            0 <= i <= lines@.len(),
            stack@.len() >= 1,
            stack@[0] == BlockKind::Root,
            replace matches Some(pv) ==> forall|k: int|
                0 <= k < pv@.len() ==> pv@[k].0@.len() > 0,
            sp_run(lines_s, 0, init, o, v) == sp_run(
                lines_s,
                i as int,
                st_of(res@, replace, stack@, file_directives, file_path@),
                o,
                v,
            ),
        decreases lines@.len() - i,
    {
        if i == lines.len() {
            return Ok(Some(res));
        }
        let line = lines[i].as_slice();
        let t = crate::bytes::trim(line);
        let ghost lv = line@;
        let ghost stb = st_of(res@, replace, stack@, file_directives, file_path@);
        proof {
            assert(lv == lines_s[i as int]);
        }
        if file_directives {
            if let Some(cond) = strip_directive(t, w_fi.as_slice()) {
                match crate::expr::eval_expr(cond, options) {
                    Some(b) => {
                        if b {
                            proof {
                                assert(sp_line_step(stb, lv, o, v) == LineOut::Next(stb));
                                assert(sp_run(lines_s, i as int, stb, o, v) == sp_run(
                                    lines_s,
                                    i + 1,
                                    stb,
                                    o,
                                    v,
                                ));
                            }
                            i = i + 1;
                            continue;
                        }
                        proof {
                            assert(sp_line_step(stb, lv, o, v) == LineOut::Excluded);
                        }
                        return Ok(None);
                    },
                    None => {
                        proof {
                            assert(sp_line_step(stb, lv, o, v) == LineOut::Failed(
                                TemplateErrorKind::InvalidExpression,
                            ));
                        }
                        return Err(
                            TemplateError { kind: TemplateErrorKind::InvalidExpression, line: i + 1 },
                        );
                    },
                }
            }
            if let Some(rest) = strip_directive(t, w_ra.as_slice()) {
                *file_path = vstd::slice::slice_to_vec(crate::bytes::trim(rest));
                proof {
                    let sta = st_of(res@, replace, stack@, file_directives, file_path@);
                    assert(sp_line_step(stb, lv, o, v) == LineOut::Next(sta));
                    assert(sp_run(lines_s, i as int, stb, o, v) == sp_run(
                        lines_s,
                        i + 1,
                        sta,
                        o,
                        v,
                    ));
                }
                i = i + 1;
                continue;
            }
        }
        if crate::bytes::bytes_eq(t, skipm.as_slice()) {
            proof {
                let sta = st_of(res@, replace, stack@, file_directives, file_path@);
                assert(sp_line_step(stb, lv, o, v) == LineOut::Next(sta));
                assert(sp_run(lines_s, i as int, stb, o, v) == sp_run(lines_s, i + 1, sta, o, v));
            }
            i = i + 1;
            continue;
        }
        if let Some(what) = strip_directive(t, w_rep.as_slice()) {
            let pairs = parse_replacements(what, variables);
            if pairs.len() > 0 {
                replace = Some(pairs);
            }
            proof {
                let sta = st_of(res@, replace, stack@, file_directives, file_path@);
                assert(sp_line_step(stb, lv, o, v) == LineOut::Next(sta));
                assert(sp_run(lines_s, i as int, stb, o, v) == sp_run(lines_s, i + 1, sta, o, v));
            }
            i = i + 1;
            continue;
        }
        if let Some(cond) = strip_directive(t, w_if_l.as_slice()) {
            let last = stack[stack.len() - 1];
            let current: bool;
            if last.include_line() {
                match crate::expr::eval_expr(cond, options) {
                    Some(b) => {
                        current = b;
                    },
                    None => {
                        proof {
                            assert(sp_line_step(stb, lv, o, v) == LineOut::Failed(
                                TemplateErrorKind::InvalidExpression,
                            ));
                        }
                        return Err(
                            TemplateError { kind: TemplateErrorKind::InvalidExpression, line: i + 1 },
                        );
                    },
                }
            } else {
                current = false;
            }
            stack.push(BlockKind::new_if(current));
            proof {
                let sta = st_of(res@, replace, stack@, file_directives, file_path@);
                assert(sp_line_step(stb, lv, o, v) == LineOut::Next(sta));
                assert(sp_run(lines_s, i as int, stb, o, v) == sp_run(lines_s, i + 1, sta, o, v));
            }
            i = i + 1;
            continue;
        }
        if let Some(cond) = strip_directive(t, w_elif_l.as_slice()) {
            let last = stack[stack.len() - 1];
            match last {
                BlockKind::Root => {
                    proof {
                        assert(sp_line_step(stb, lv, o, v) == LineOut::Failed(
                            TemplateErrorKind::UnbalancedDirective,
                        ));
                    }
                    return Err(
                        TemplateError { kind: TemplateErrorKind::UnbalancedDirective, line: i + 1 },
                    );
                },
                BlockKind::IfElse(prev, any) => {
                    let current: bool;
                    if !prev && !any {
                        match crate::expr::eval_expr(cond, options) {
                            Some(b) => {
                                current = b;
                            },
                            None => {
                                proof {
                                    assert(sp_line_step(stb, lv, o, v) == LineOut::Failed(
                                        TemplateErrorKind::InvalidExpression,
                                    ));
                                }
                                return Err(
                                    TemplateError {
                                        kind: TemplateErrorKind::InvalidExpression,
                                        line: i + 1,
                                    },
                                );
                            },
                        }
                    } else {
                        current = false;
                    }
                    let _ = stack.pop();
                    stack.push(last.into_else_if(current));
                    proof {
                        let sta = st_of(
                            res@,
                            replace,
                            stack@,
                            file_directives,
                            file_path@,
                        );
                        assert(sp_line_step(stb, lv, o, v) == LineOut::Next(sta));
                        assert(sp_run(lines_s, i as int, stb, o, v) == sp_run(
                            lines_s,
                            i + 1,
                            sta,
                            o,
                            v,
                        ));
                    }
                    i = i + 1;
                    continue;
                },
            }
        }
        if let Some(_rest) = strip_directive(t, w_else_l.as_slice()) {
            let last = stack[stack.len() - 1];
            match last {
                BlockKind::Root => {
                    proof {
                        assert(sp_line_step(stb, lv, o, v) == LineOut::Failed(
                            TemplateErrorKind::UnbalancedDirective,
                        ));
                    }
                    return Err(
                        TemplateError { kind: TemplateErrorKind::UnbalancedDirective, line: i + 1 },
                    );
                },
                BlockKind::IfElse(_, _) => {
                    let _ = stack.pop();
                    stack.push(last.into_else());
                    proof {
                        let sta = st_of(
                            res@,
                            replace,
                            stack@,
                            file_directives,
                            file_path@,
                        );
                        assert(sp_line_step(stb, lv, o, v) == LineOut::Next(sta));
                        assert(sp_run(lines_s, i as int, stb, o, v) == sp_run(
                            lines_s,
                            i + 1,
                            sta,
                            o,
                            v,
                        ));
                    }
                    i = i + 1;
                    continue;
                },
            }
        }
        if let Some(_rest) = strip_directive(t, w_endif_l.as_slice()) {
            let last = stack[stack.len() - 1];
            match last {
                BlockKind::Root => {
                    proof {
                        assert(sp_line_step(stb, lv, o, v) == LineOut::Failed(
                            TemplateErrorKind::UnbalancedDirective,
                        ));
                    }
                    return Err(
                        TemplateError { kind: TemplateErrorKind::UnbalancedDirective, line: i + 1 },
                    );
                },
                BlockKind::IfElse(_, _) => {
                    let _ = stack.pop();
                    proof {
                        let sta = st_of(
                            res@,
                            replace,
                            stack@,
                            file_directives,
                            file_path@,
                        );
                        assert(sp_line_step(stb, lv, o, v) == LineOut::Next(sta));
                        assert(sp_run(lines_s, i as int, stb, o, v) == sp_run(
                            lines_s,
                            i + 1,
                            sta,
                            o,
                            v,
                        ));
                    }
                    i = i + 1;
                    continue;
                },
            }
        }
        file_directives = false;
        if stack_all_emit(&stack) {
            let mut cur: Vec<u8> = vstd::slice::slice_to_vec(line);
            let empty: Vec<u8> = Vec::new();
            proof {
                assert(empty@ =~= Seq::<u8>::empty());
            }
            if crate::bytes::starts_with(t, eh.as_slice()) {
                let next = crate::bytes::replace_all(cur.as_slice(), eh.as_slice(), empty.as_slice());
                cur = next;
            }
            if crate::bytes::starts_with(t, es.as_slice()) {
                let next = crate::bytes::replace_all(cur.as_slice(), es.as_slice(), empty.as_slice());
                cur = next;
            }
            match &replace {
                Some(pairs) => {
                    let next = apply_pairs(cur, pairs);
                    cur = next;
                },
                None => {},
            }
            crate::bytes::push_all(&mut res, cur.as_slice());
            res.push(10u8);
            replace = None;
            proof {
                let sta = st_of(res@, replace, stack@, file_directives, file_path@);
                assert(sta.out =~= stb.out + cur@ + seq![10u8]);
                assert(sp_line_step(stb, lv, o, v) == LineOut::Next(sta));
                assert(sp_run(lines_s, i as int, stb, o, v) == sp_run(lines_s, i + 1, sta, o, v));
            }
            i = i + 1;
            continue;
        }
        proof {
            let sta = st_of(res@, replace, stack@, file_directives, file_path@);
            assert(sp_line_step(stb, lv, o, v) == LineOut::Next(sta));
            assert(sp_run(lines_s, i as int, stb, o, v) == sp_run(lines_s, i + 1, sta, o, v));
        }
        i = i + 1;
    }
}

/// Two directive words that differ at some position cannot both be read off
/// one trimmed line.
proof fn lemma_directives_disjoint(t: Seq<u8>, w1: Seq<u8>, w2: Seq<u8>, k: int)
    requires
        sp_strip_directive(t, w1) is Some,
        0 <= k < w1.len(),
        k < w2.len(),
        w1[k] != w2[k],
    ensures
        sp_strip_directive(t, w2) is None,
{
    let p1h = seq![35u8] + w1;
    let p1s = seq![47u8, 47u8] + w1;
    let p2h = seq![35u8] + w2;
    let p2s = seq![47u8, 47u8] + w2;
    if sp_starts_with(t, p1h) {
        assert(t.subrange(0, p1h.len() as int)[0] == t[0]);
        assert(t.subrange(0, p1h.len() as int)[k + 1] == t[k + 1]);
        assert(t[0] == 35u8);
        assert(t[k + 1] == w1[k]);
        if sp_starts_with(t, p2h) {
            assert(t.subrange(0, p2h.len() as int)[k + 1] == t[k + 1]);
            assert(t[k + 1] == w2[k]);
        }
        if sp_starts_with(t, p2s) {
            assert(t.subrange(0, p2s.len() as int)[0] == t[0]);
        }
    } else {
        assert(sp_starts_with(t, p1s));
        assert(t.subrange(0, p1s.len() as int)[0] == t[0]);
        assert(t.subrange(0, p1s.len() as int)[k + 2] == t[k + 2]);
        assert(t[0] == 47u8);
        assert(t[k + 2] == w1[k]);
        if sp_starts_with(t, p2h) {
            assert(t.subrange(0, p2h.len() as int)[0] == t[0]);
        }
        if sp_starts_with(t, p2s) {
            assert(t.subrange(0, p2s.len() as int)[k + 2] == t[k + 2]);
            assert(t[k + 2] == w2[k]);
        }
    }
}

/// A line read as a directive is not the formatter skip marker.
proof fn lemma_directive_not_marker(t: Seq<u8>, w1: Seq<u8>)
    requires
        sp_strip_directive(t, w1) is Some,
        w1.len() > 0,
        w1[0] != 91u8,
    ensures
        t != sp_skip_marker(),
{
    let p1h = seq![35u8] + w1;
    let p1s = seq![47u8, 47u8] + w1;
    if sp_starts_with(t, p1h) {
        assert(t.subrange(0, p1h.len() as int)[1] == t[1]);
        assert(t[1] == w1[0]);
        assert(sp_skip_marker()[1] == 91u8);
    } else {
        assert(sp_starts_with(t, p1s));
        assert(t.subrange(0, p1s.len() as int)[0] == t[0]);
        assert(t[0] == 47u8);
        assert(sp_skip_marker()[0] == 35u8);
    }
}

/// A trimmed line recognized as `ELIF` matches no earlier directive form.
proof fn lemma_elif_excludes_others(t: Seq<u8>)
    requires
        sp_strip_directive(t, sp_w_elif()) is Some,
    ensures
        sp_strip_directive(t, sp_w_file_include()) is None,
        sp_strip_directive(t, sp_w_file_rename()) is None,
        t != sp_skip_marker(),
        sp_strip_directive(t, sp_w_replace()) is None,
        sp_strip_directive(t, sp_w_if()) is None,
{
    lemma_directives_disjoint(t, sp_w_elif(), sp_w_file_include(), 0);
    lemma_directives_disjoint(t, sp_w_elif(), sp_w_file_rename(), 0);
    lemma_directive_not_marker(t, sp_w_elif());
    lemma_directives_disjoint(t, sp_w_elif(), sp_w_replace(), 0);
    lemma_directives_disjoint(t, sp_w_elif(), sp_w_if(), 0);
}

/// A trimmed line recognized as `IF` matches no earlier directive form.
proof fn lemma_if_excludes_others(t: Seq<u8>)
    requires
        sp_strip_directive(t, sp_w_if()) is Some,
    ensures
        sp_strip_directive(t, sp_w_file_include()) is None,
        sp_strip_directive(t, sp_w_file_rename()) is None,
        t != sp_skip_marker(),
        sp_strip_directive(t, sp_w_replace()) is None,
{
    lemma_directives_disjoint(t, sp_w_if(), sp_w_file_include(), 1);
    lemma_directives_disjoint(t, sp_w_if(), sp_w_file_rename(), 1);
    lemma_directive_not_marker(t, sp_w_if());
    lemma_directives_disjoint(t, sp_w_if(), sp_w_replace(), 0);
}

/// A trimmed line recognized as `ELSE` matches no earlier directive form.
proof fn lemma_else_excludes_others(t: Seq<u8>)
    requires
        sp_strip_directive(t, sp_w_else()) is Some,
    ensures
        sp_strip_directive(t, sp_w_file_include()) is None,
        sp_strip_directive(t, sp_w_file_rename()) is None,
        t != sp_skip_marker(),
        sp_strip_directive(t, sp_w_replace()) is None,
        sp_strip_directive(t, sp_w_if()) is None,
        sp_strip_directive(t, sp_w_elif()) is None,
{
    lemma_directives_disjoint(t, sp_w_else(), sp_w_file_include(), 0);
    lemma_directives_disjoint(t, sp_w_else(), sp_w_file_rename(), 0);
    lemma_directive_not_marker(t, sp_w_else());
    lemma_directives_disjoint(t, sp_w_else(), sp_w_replace(), 0);
    lemma_directives_disjoint(t, sp_w_else(), sp_w_if(), 0);
    lemma_directives_disjoint(t, sp_w_else(), sp_w_elif(), 2);
}

/// A trimmed line recognized as `ENDIF` matches no earlier directive form.
proof fn lemma_endif_excludes_others(t: Seq<u8>)
    requires
        sp_strip_directive(t, sp_w_endif()) is Some,
    ensures
        sp_strip_directive(t, sp_w_file_include()) is None,
        sp_strip_directive(t, sp_w_file_rename()) is None,
        t != sp_skip_marker(),
        sp_strip_directive(t, sp_w_replace()) is None,
        sp_strip_directive(t, sp_w_if()) is None,
        sp_strip_directive(t, sp_w_elif()) is None,
        sp_strip_directive(t, sp_w_else()) is None,
{
    lemma_directives_disjoint(t, sp_w_endif(), sp_w_file_include(), 0);
    lemma_directives_disjoint(t, sp_w_endif(), sp_w_file_rename(), 0);
    lemma_directive_not_marker(t, sp_w_endif());
    lemma_directives_disjoint(t, sp_w_endif(), sp_w_replace(), 0);
    lemma_directives_disjoint(t, sp_w_endif(), sp_w_if(), 0);
    lemma_directives_disjoint(t, sp_w_endif(), sp_w_elif(), 1);
    lemma_directives_disjoint(t, sp_w_endif(), sp_w_else(), 1);
}

/// An `ELIF` line in a kept file whose chain has already fired steps
/// through the `ELIF` branch with its condition forced to false.
proof fn lemma_elif_shape(
    st: FileState,
    l: Seq<u8>,
    opts: Seq<Seq<u8>>,
    vars: Seq<(Seq<u8>, Seq<u8>)>,
)
    requires
        st.stack.len() > 0,
        st.stack.last() is IfElse,
        st.stack.last().spec_current() || st.stack.last().spec_any(),
        sp_strip_directive(sp_trim(l), sp_w_elif()) is Some,
    ensures
        sp_line_step(st, l, opts, vars) == LineOut::Next(
            FileState {
                stack: st.stack.drop_last().push(st.stack.last().spec_into_else_if(false)),
                ..st
            },
        ),
        !st.stack.last().spec_into_else_if(false).spec_include_line(),
{
    lemma_elif_excludes_others(sp_trim(l));
}

/// Once a branch of an `IF`/`ELIF` chain has fired, later `ELIF` conditions
/// are never consulted: with the chain's current frame showing a fired
/// branch, two `ELIF` lines with arbitrarily different condition texts (one
/// may even be malformed) step identically, to a frame that emits nothing,
/// and neither can raise an expression error.
pub proof fn lemma_elif_condition_not_evaluated(
    st: FileState,
    l1: Seq<u8>,
    l2: Seq<u8>,
    opts: Seq<Seq<u8>>,
    vars: Seq<(Seq<u8>, Seq<u8>)>,
)
    requires
        st.stack.len() > 0,
        st.stack.last() is IfElse,
        st.stack.last().spec_current() || st.stack.last().spec_any(),
        sp_strip_directive(sp_trim(l1), sp_w_elif()) is Some,
        sp_strip_directive(sp_trim(l2), sp_w_elif()) is Some,
    ensures
        sp_line_step(st, l1, opts, vars) == sp_line_step(st, l2, opts, vars),
        sp_line_step(st, l1, opts, vars) matches LineOut::Next(st2) && st2.stack
            == st.stack.drop_last().push(st.stack.last().spec_into_else_if(false))
            && !st2.stack.last().spec_include_line(),
{
    lemma_elif_shape(st, l1, opts, vars);
    lemma_elif_shape(st, l2, opts, vars);
}

/// An `IF` line under a dead enclosing frame steps through the `IF` branch
/// with its condition forced to false.
proof fn lemma_if_shape(st: FileState, l: Seq<u8>, opts: Seq<Seq<u8>>, vars: Seq<(Seq<u8>, Seq<u8>)>)
    requires
        st.stack.len() > 0,
        !st.stack.last().spec_include_line(),
        sp_strip_directive(sp_trim(l), sp_w_if()) is Some,
    ensures
        sp_line_step(st, l, opts, vars) == LineOut::Next(
            FileState { stack: st.stack.push(BlockKind::IfElse(false, false)), ..st },
        ),
{
    lemma_if_excludes_others(sp_trim(l));
}

/// An `IF` nested directly inside a non-live branch never evaluates its
/// condition and opens a region that emits nothing: two such `IF` lines
/// with arbitrarily different condition texts (one may even be malformed)
/// step identically, the pushed frame is dead, the output is unchanged, and
/// no expression error can arise.
pub proof fn lemma_nested_if_in_dead_branch(
    st: FileState,
    l1: Seq<u8>,
    l2: Seq<u8>,
    opts: Seq<Seq<u8>>,
    vars: Seq<(Seq<u8>, Seq<u8>)>,
)
    requires
        st.stack.len() > 0,
        !st.stack.last().spec_include_line(),
        sp_strip_directive(sp_trim(l1), sp_w_if()) is Some,
        sp_strip_directive(sp_trim(l2), sp_w_if()) is Some,
    ensures
        sp_line_step(st, l1, opts, vars) == sp_line_step(st, l2, opts, vars),
        sp_line_step(st, l1, opts, vars) matches LineOut::Next(st2) && st2.stack == st.stack.push(
            BlockKind::IfElse(false, false),
        ) && !stack_emits(st2.stack) && st2.out == st.out,
{
    lemma_if_shape(st, l1, opts, vars);
    lemma_if_shape(st, l2, opts, vars);
    let st2 = FileState { stack: st.stack.push(BlockKind::IfElse(false, false)), ..st };
    assert(st2.stack[st.stack.len() - 1] == st.stack.last());
    assert(!st2.stack[st.stack.len() - 1].spec_include_line());
    assert(!stack_emits(st2.stack));
}

/// `ENDIF` without a matching `IF`, and `ELIF` or `ELSE` outside any `IF`,
/// always fail with `UnbalancedDirective`: with only the root frame open,
/// any line recognized as one of the three steps to that error.
pub proof fn lemma_unbalanced_directive(
    st: FileState,
    l: Seq<u8>,
    opts: Seq<Seq<u8>>,
    vars: Seq<(Seq<u8>, Seq<u8>)>,
)
    requires
        st.stack.len() > 0,
        st.stack.last() is Root,
        sp_strip_directive(sp_trim(l), sp_w_elif()) is Some || sp_strip_directive(
            sp_trim(l),
            sp_w_else(),
        ) is Some || sp_strip_directive(sp_trim(l), sp_w_endif()) is Some,
    ensures
        sp_line_step(st, l, opts, vars) == LineOut::Failed(TemplateErrorKind::UnbalancedDirective),
{
    let t = sp_trim(l);
    if sp_strip_directive(t, sp_w_elif()) is Some {
        lemma_elif_excludes_others(t);
    } else if sp_strip_directive(t, sp_w_else()) is Some {
        lemma_else_excludes_others(t);
    } else {
        lemma_endif_excludes_others(t);
    }
}
/// The machine's state just before line `k`, when the run from line `i` in
/// state `st` gets that far (it does not when an earlier line excludes the
/// file or fails).
pub open spec fn sp_state_at(
    lines: Seq<Seq<u8>>,
    i: int,
    k: int,
    st: FileState,
    opts: Seq<Seq<u8>>,
    vars: Seq<(Seq<u8>, Seq<u8>)>,
) -> Option<FileState>
    decreases k - i,
{
    if i >= k {
        Some(st)
    } else {
        match sp_line_step(st, lines[i], opts, vars) {
            LineOut::Next(st2) => sp_state_at(lines, i + 1, k, st2, opts, vars),
            LineOut::Excluded => None,
            LineOut::Failed(_) => None,
        }
    }
}

/// A run that reaches line `k` equals the run continued from there.
proof fn lemma_run_from_state_at(
    lines: Seq<Seq<u8>>,
    i: int,
    k: int,
    st: FileState,
    stk: FileState,
    opts: Seq<Seq<u8>>,
    vars: Seq<(Seq<u8>, Seq<u8>)>,
)
    requires
        i <= k <= lines.len(),
        sp_state_at(lines, i, k, st, opts, vars) == Some(stk),
    ensures
        sp_run(lines, i, st, opts, vars) == sp_run(lines, k, stk, opts, vars),
    decreases k - i,
{
    if i < k {
        match sp_line_step(st, lines[i], opts, vars) {
            LineOut::Next(st2) => {
                lemma_run_from_state_at(lines, i + 1, k, st2, stk, opts, vars);
            },
            LineOut::Excluded => {},
            LineOut::Failed(_) => {},
        }
    }
}

/// Runs over line sequences that agree from `i` on are equal.
proof fn lemma_run_congruent(
    lines1: Seq<Seq<u8>>,
    lines2: Seq<Seq<u8>>,
    i: int,
    st: FileState,
    opts: Seq<Seq<u8>>,
    vars: Seq<(Seq<u8>, Seq<u8>)>,
)
    requires
        lines1.len() == lines2.len(),
        forall|j: int| i <= j < lines1.len() ==> lines1[j] == lines2[j],
    ensures
        sp_run(lines1, i, st, opts, vars) == sp_run(lines2, i, st, opts, vars),
    decreases lines1.len() - i,
{
    if i < lines1.len() {
        match sp_line_step(st, lines1[i], opts, vars) {
            LineOut::Next(st2) => {
                lemma_run_congruent(lines1, lines2, i + 1, st2, opts, vars);
            },
            LineOut::Excluded => {},
            LineOut::Failed(_) => {},
        }
    }
}

/// The state reached before line `k` depends only on the lines before `k`.
proof fn lemma_state_at_congruent(
    lines1: Seq<Seq<u8>>,
    lines2: Seq<Seq<u8>>,
    i: int,
    k: int,
    st: FileState,
    opts: Seq<Seq<u8>>,
    vars: Seq<(Seq<u8>, Seq<u8>)>,
)
    requires
        forall|j: int| i <= j < k ==> lines1[j] == lines2[j],
    ensures
        sp_state_at(lines1, i, k, st, opts, vars) == sp_state_at(lines2, i, k, st, opts, vars),
    decreases k - i,
{
    if i < k {
        match sp_line_step(st, lines1[i], opts, vars) {
            LineOut::Next(st2) => {
                lemma_state_at_congruent(lines1, lines2, i + 1, k, st2, opts, vars);
            },
            LineOut::Excluded => {},
            LineOut::Failed(_) => {},
        }
    }
}

/// Whole-run form of the dead-`IF` law: in two templates of equal shape that
/// differ only in the text of one `IF` line, reached with its enclosing
/// frame dead, the differing condition — well-formed or not — changes
/// nothing: both runs produce the same result.
pub proof fn lemma_run_if_in_dead_branch_immaterial(
    lines1: Seq<Seq<u8>>,
    lines2: Seq<Seq<u8>>,
    k: int,
    path0: Seq<u8>,
    stk: FileState,
    opts: Seq<Seq<u8>>,
    vars: Seq<(Seq<u8>, Seq<u8>)>,
)
    requires
        lines1.len() == lines2.len(),
        0 <= k < lines1.len(),
        forall|j: int| 0 <= j < lines1.len() && j != k ==> lines1[j] == lines2[j],
        sp_strip_directive(sp_trim(lines1[k]), sp_w_if()) is Some,
        sp_strip_directive(sp_trim(lines2[k]), sp_w_if()) is Some,
        sp_state_at(lines1, 0, k, sp_initial_state(path0), opts, vars) == Some(stk),
        stk.stack.len() > 0,
        !stk.stack.last().spec_include_line(),
    ensures
        sp_run(lines1, 0, sp_initial_state(path0), opts, vars) == sp_run(
            lines2,
            0,
            sp_initial_state(path0),
            opts,
            vars,
        ),
{
    let init = sp_initial_state(path0);
    lemma_state_at_congruent(lines1, lines2, 0, k, init, opts, vars);
    lemma_run_from_state_at(lines1, 0, k, init, stk, opts, vars);
    lemma_run_from_state_at(lines2, 0, k, init, stk, opts, vars);
    lemma_nested_if_in_dead_branch(stk, lines1[k], lines2[k], opts, vars);
    match sp_line_step(stk, lines1[k], opts, vars) {
        LineOut::Next(st2) => {
            lemma_run_congruent(lines1, lines2, k + 1, st2, opts, vars);
        },
        LineOut::Excluded => {},
        LineOut::Failed(_) => {},
    }
}

/// Whole-run form of the short-circuited-`ELIF` law: once the chain's
/// current frame shows a fired branch, the text of an `ELIF` condition —
/// well-formed or not — changes nothing: two templates differing only there
/// produce the same result.
pub proof fn lemma_run_elif_after_match_immaterial(
    lines1: Seq<Seq<u8>>,
    lines2: Seq<Seq<u8>>,
    k: int,
    path0: Seq<u8>,
    stk: FileState,
    opts: Seq<Seq<u8>>,
    vars: Seq<(Seq<u8>, Seq<u8>)>,
)
    requires
        lines1.len() == lines2.len(),
        0 <= k < lines1.len(),
        forall|j: int| 0 <= j < lines1.len() && j != k ==> lines1[j] == lines2[j],
        sp_strip_directive(sp_trim(lines1[k]), sp_w_elif()) is Some,
        sp_strip_directive(sp_trim(lines2[k]), sp_w_elif()) is Some,
        sp_state_at(lines1, 0, k, sp_initial_state(path0), opts, vars) == Some(stk),
        stk.stack.len() > 0,
        stk.stack.last() is IfElse,
        stk.stack.last().spec_current() || stk.stack.last().spec_any(),
    ensures
        sp_run(lines1, 0, sp_initial_state(path0), opts, vars) == sp_run(
            lines2,
            0,
            sp_initial_state(path0),
            opts,
            vars,
        ),
{
    let init = sp_initial_state(path0);
    lemma_state_at_congruent(lines1, lines2, 0, k, init, opts, vars);
    lemma_run_from_state_at(lines1, 0, k, init, stk, opts, vars);
    lemma_run_from_state_at(lines2, 0, k, init, stk, opts, vars);
    lemma_elif_condition_not_evaluated(stk, lines1[k], lines2[k], opts, vars);
    match sp_line_step(stk, lines1[k], opts, vars) {
        LineOut::Next(st2) => {
            lemma_run_congruent(lines1, lines2, k + 1, st2, opts, vars);
        },
        LineOut::Excluded => {},
        LineOut::Failed(_) => {},
    }
}

/// Whole-run form of the unbalanced-directive law: a template whose run
/// reaches an `ELIF`, `ELSE` or `ENDIF` line with no `IF` region open fails
/// right there with `UnbalancedDirective` and that line's 1-based number.
pub proof fn lemma_run_unbalanced_fails(
    lines: Seq<Seq<u8>>,
    k: int,
    path0: Seq<u8>,
    stk: FileState,
    opts: Seq<Seq<u8>>,
    vars: Seq<(Seq<u8>, Seq<u8>)>,
)
    requires
        0 <= k < lines.len(),
        sp_strip_directive(sp_trim(lines[k]), sp_w_elif()) is Some || sp_strip_directive(
            sp_trim(lines[k]),
            sp_w_else(),
        ) is Some || sp_strip_directive(sp_trim(lines[k]), sp_w_endif()) is Some,
        sp_state_at(lines, 0, k, sp_initial_state(path0), opts, vars) == Some(stk),
        stk.stack.len() > 0,
        stk.stack.last() is Root,
    ensures
        sp_run(lines, 0, sp_initial_state(path0), opts, vars) == FileOut::Failed(
            TemplateErrorKind::UnbalancedDirective,
            k + 1,
            stk.path,
        ),
{
    let init = sp_initial_state(path0);
    lemma_run_from_state_at(lines, 0, k, init, stk, opts, vars);
    lemma_unbalanced_directive(stk, lines[k], opts, vars);
}

} // verus!
