//! The boolean expression language of template directives.
//!
//! An expression is built from the single predicate `option("name")` — true
//! iff `name` is among the selected options — with negation `!`, conjunction
//! `&&`, disjunction `||` and parentheses. Evaluation is pure; a malformed
//! expression evaluates to nothing.

use crate::bytes::{list_contains, skip_ws, sp_find, sp_skip_ws, views};
use vstd::prelude::*;

verus! {

/// The keyword of the one predicate of the language.
pub open spec fn option_kw() -> Seq<u8> {
    seq![111u8, 112u8, 116u8, 105u8, 111u8, 110u8]
}

/// A disjunction: a conjunction, optionally followed by `||` and a further
/// disjunction. Returns the value and the position just after it, or `None`
/// for a malformed expression. The `f` parameter merely bounds the recursion
/// depth; every well-formed input is parsed long before it runs out.
pub open spec fn sp_eval_or(s: Seq<u8>, i: int, opts: Seq<Seq<u8>>, f: nat) -> Option<(bool, int)>
    decreases f,
{
    if f == 0 {
        None
    } else {
        match sp_eval_and(s, i, opts, (f - 1) as nat) {
            None => None,
            Some((v1, j)) => {
                let k = sp_skip_ws(s, j);
                if k + 2 <= s.len() && s[k] == 124 && s[k + 1] == 124 {
                    match sp_eval_or(s, k + 2, opts, (f - 1) as nat) {
                        None => None,
                        Some((v2, m)) => Some((v1 || v2, m)),
                    }
                } else {
                    Some((v1, j))
                }
            },
        }
    }
}

/// A conjunction: a unary term, optionally followed by `&&` and a further
/// conjunction.
pub open spec fn sp_eval_and(s: Seq<u8>, i: int, opts: Seq<Seq<u8>>, f: nat) -> Option<(bool, int)>
    decreases f,
{
    if f == 0 {
        None
    } else {
        match sp_eval_unary(s, i, opts, (f - 1) as nat) {
            None => None,
            Some((v1, j)) => {
                let k = sp_skip_ws(s, j);
                if k + 2 <= s.len() && s[k] == 38 && s[k + 1] == 38 {
                    match sp_eval_and(s, k + 2, opts, (f - 1) as nat) {
                        None => None,
                        Some((v2, m)) => Some((v1 && v2, m)),
                    }
                } else {
                    Some((v1, j))
                }
            },
        }
    }
}

/// A unary term: any number of `!` applied to a primary term.
pub open spec fn sp_eval_unary(s: Seq<u8>, i: int, opts: Seq<Seq<u8>>, f: nat) -> Option<
    (bool, int),
>
    decreases f,
{
    if f == 0 {
        None
    } else {
        let k = sp_skip_ws(s, i);
        if k < s.len() && s[k] == 33 {
            match sp_eval_unary(s, k + 1, opts, (f - 1) as nat) {
                None => None,
                Some((v, j)) => Some((!v, j)),
            }
        } else {
            sp_eval_primary(s, k, opts, (f - 1) as nat)
        }
    }
}

/// A primary term: a parenthesized expression, or `option("name")` where the
/// name is everything up to the closing quote.
pub open spec fn sp_eval_primary(s: Seq<u8>, i: int, opts: Seq<Seq<u8>>, f: nat) -> Option<
    (bool, int),
>
    decreases f,
{
    if f == 0 {
        None
    } else {
        let k = sp_skip_ws(s, i);
        if k < s.len() && s[k] == 40 {
            match sp_eval_or(s, k + 1, opts, (f - 1) as nat) {
                None => None,
                Some((v, j)) => {
                    let m = sp_skip_ws(s, j);
                    if m < s.len() && s[m] == 41 {
                        Some((v, m + 1))
                    } else {
                        None
                    }
                },
            }
        } else if k + 6 <= s.len() && s.subrange(k, k + 6) == option_kw() {
            let p = sp_skip_ws(s, k + 6);
            if p < s.len() && s[p] == 40 {
                let q = sp_skip_ws(s, p + 1);
                if q < s.len() && s[q] == 34 {
                    match sp_find(s, q + 1, seq![34u8]) {
                        None => None,
                        Some(r) => {
                            let name = s.subrange(q + 1, r);
                            let t = sp_skip_ws(s, r + 1);
                            if t < s.len() && s[t] == 41 {
                                Some((opts.contains(name), t + 1))
                            } else {
                                None
                            }
                        },
                    }
                } else {
                    None
                }
            } else {
                None
            }
        } else {
            None
        }
    }
}

/// The value of the whole expression `s` under the selected options `opts`,
/// or `None` if `s` is not a well-formed expression of the language.
pub open spec fn sp_eval_expr(s: Seq<u8>, opts: Seq<Seq<u8>>) -> Option<bool> {
    match sp_eval_or(s, 0, opts, (4 * s.len() + 8) as nat) {
        None => None,
        Some((v, j)) => if sp_skip_ws(s, j) == s.len() {
            Some(v)
        } else {
            None
        },
    }
}

fn option_kw_vec() -> (v: Vec<u8>)
    ensures
        v@ == option_kw(),
{
    let mut v: Vec<u8> = Vec::new();
    v.push(111u8);
    v.push(112u8);
    v.push(116u8);
    v.push(105u8);
    v.push(111u8);
    v.push(110u8);
    proof {
        assert(v@ =~= option_kw());
    }
    v
}

fn eval_or(s: &[u8], i: usize, opts: &Vec<Vec<u8>>, Ghost(f): Ghost<nat>) -> (r: Option<
    (bool, usize),
>)
    requires
        i <= s@.len(),
        f >= 4 * (s@.len() - i) + 4,
    ensures
        match r {
            Some(vj) => sp_eval_or(s@, i as int, views(opts@), f) == Some((vj.0, vj.1 as int))
                && i <= vj.1 <= s@.len(),
            None => sp_eval_or(s@, i as int, views(opts@), f) is None,
        },
    decreases s@.len() - i, 3int,
{
    match eval_and(s, i, opts, Ghost((f - 1) as nat)) {
        None => None,
        Some((v1, j)) => {
            let k = skip_ws(s, j);
            if s.len() - k >= 2 && s[k] == 124 && s[k + 1] == 124 {
                match eval_or(s, k + 2, opts, Ghost((f - 1) as nat)) {
                    None => None,
                    Some((v2, m)) => Some((v1 || v2, m)),
                }
            } else {
                Some((v1, j))
            }
        },
    }
}

fn eval_and(s: &[u8], i: usize, opts: &Vec<Vec<u8>>, Ghost(f): Ghost<nat>) -> (r: Option<
    (bool, usize),
>)
    requires
        i <= s@.len(),
        f >= 4 * (s@.len() - i) + 3,
    ensures
        match r {
            Some(vj) => sp_eval_and(s@, i as int, views(opts@), f) == Some((vj.0, vj.1 as int))
                && i <= vj.1 <= s@.len(),
            None => sp_eval_and(s@, i as int, views(opts@), f) is None,
        },
    decreases s@.len() - i, 2int,
{
    match eval_unary(s, i, opts, Ghost((f - 1) as nat)) {
        None => None,
        Some((v1, j)) => {
            let k = skip_ws(s, j);
            if s.len() - k >= 2 && s[k] == 38 && s[k + 1] == 38 {
                match eval_and(s, k + 2, opts, Ghost((f - 1) as nat)) {
                    None => None,
                    Some((v2, m)) => Some((v1 && v2, m)),
                }
            } else {
                Some((v1, j))
            }
        },
    }
}

fn eval_unary(s: &[u8], i: usize, opts: &Vec<Vec<u8>>, Ghost(f): Ghost<nat>) -> (r: Option<
    (bool, usize),
>)
    requires
        i <= s@.len(),
        f >= 4 * (s@.len() - i) + 2,
    ensures
        match r {
            Some(vj) => sp_eval_unary(s@, i as int, views(opts@), f) == Some((vj.0, vj.1 as int))
                && i <= vj.1 <= s@.len(),
            None => sp_eval_unary(s@, i as int, views(opts@), f) is None,
        },
    decreases s@.len() - i, 1int,
{
    let k = skip_ws(s, i);
    if k < s.len() && s[k] == 33 {
        match eval_unary(s, k + 1, opts, Ghost((f - 1) as nat)) {
            None => None,
            Some((v, j)) => Some((!v, j)),
        }
    } else {
        eval_primary(s, k, opts, Ghost((f - 1) as nat))
    }
}

fn eval_primary(s: &[u8], i: usize, opts: &Vec<Vec<u8>>, Ghost(f): Ghost<nat>) -> (r: Option<
    (bool, usize),
>)
    requires
        i <= s@.len(),
        f >= 4 * (s@.len() - i) + 1,
    ensures
        match r {
            Some(vj) => sp_eval_primary(s@, i as int, views(opts@), f) == Some((vj.0, vj.1 as int))
                && i <= vj.1 <= s@.len(),
            None => sp_eval_primary(s@, i as int, views(opts@), f) is None,
        },
    decreases s@.len() - i, 0int,
{
    let k = skip_ws(s, i);
    if k < s.len() && s[k] == 40 {
        match eval_or(s, k + 1, opts, Ghost((f - 1) as nat)) {
            None => None,
            Some((v, j)) => {
                let m = skip_ws(s, j);
                if m < s.len() && s[m] == 41 {
                    Some((v, m + 1))
                } else {
                    None
                }
            },
        }
    } else {
        let kw = option_kw_vec();
        if s.len() - k >= 6 && crate::bytes::bytes_eq(
            vstd::slice::slice_subrange(s, k, k + 6),
            kw.as_slice(),
        ) {
            let p = skip_ws(s, k + 6);
            if p < s.len() && s[p] == 40 {
                let q = skip_ws(s, p + 1);
                if q < s.len() && s[q] == 34 {
                    let mut quote: Vec<u8> = Vec::new();
                    quote.push(34u8);
                    proof {
                        assert(quote@ =~= seq![34u8]);
                    }
                    match crate::bytes::find_from(s, q + 1, quote.as_slice()) {
                        None => None,
                        Some(r) => {
                            let name = vstd::slice::slice_subrange(s, q + 1, r);
                            let t = skip_ws(s, r + 1);
                            if t < s.len() && s[t] == 41 {
                                Some((list_contains(opts, name), t + 1))
                            } else {
                                None
                            }
                        },
                    }
                } else {
                    None
                }
            } else {
                None
            }
        } else {
            None
        }
    }
}

/// Evaluates the boolean expression `cond` against the selected options:
/// `Some(value)` for a well-formed expression, `None` for a malformed one.
pub fn eval_expr(cond: &[u8], options: &Vec<Vec<u8>>) -> (r: Option<bool>)
    ensures
        r == sp_eval_expr(cond@, views(options@)),
{
    let ghost f = (4 * cond@.len() + 8) as nat;
    match eval_or(cond, 0, options, Ghost(f)) {
        None => None,
        Some((v, j)) => {
            if skip_ws(cond, j) == cond.len() {
                Some(v)
            } else {
                None
            }
        },
    }
}

} // verus!
