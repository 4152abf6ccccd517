//! The placeholder resolver and the expansion entry points.
//!
//! A placeholder's raw text is stripped of its `$` or `${...}` dressing and
//! split at the first `:-` into a variable name and an optional fallback.
//! A valid name is looked up; a set variable resolves to its value, one
//! that is set but not decodable fails, and an unset one falls back to
//! expanding the fallback text in full — which may hold further
//! placeholders — or fails with the name if there is none. The expansion
//! of a whole input is the concatenation of its resolved segments; the
//! first failure aborts the expansion.

use vstd::prelude::*;
use vstd::slice::{slice_subrange, slice_to_vec};

use crate::env::{Env, Lookup};
use crate::errors::{ErrSpec, ExpandError};
use crate::scan::{
    scan, scan_segments, seg_text, segs_bounded, segs_total_len, lemma_scan_seg_len,
    lemma_scan_total, views_of, SegView, Segment,
};
use crate::{ident_char, ident_start, is_ident_char, is_ident_start, is_valid_name};
use crate::{COLON, DASH, LBRACE, RBRACE, SLASH, TILDE};

verus! {

/// Position of the first `:-` operator in `inner`, at or after `i`.
pub open spec fn find_op_from(inner: Seq<u8>, i: int) -> Option<int>
    decreases inner.len() - i,
{
    if i < 0 || i + 1 >= inner.len() {
        None
    } else if inner[i] == COLON && inner[i + 1] == DASH {
        Some(i)
    } else {
        find_op_from(inner, i + 1)
    }
}

/// Position of the first `:-` operator in `inner`.
pub open spec fn find_op(inner: Seq<u8>) -> Option<int> {
    find_op_from(inner, 0)
}

/// What `find_op_from` finds is a first occurrence: it lies in range,
/// holds `:-`, and nothing before it does.
pub proof fn lemma_find_op_from_props(inner: Seq<u8>, i: int)
    requires
        0 <= i,
    ensures
        match find_op_from(inner, i) {
            Some(j) => {
                &&& i <= j
                &&& j + 1 < inner.len()
                &&& inner[j] == COLON
                &&& inner[j + 1] == DASH
                &&& forall|k: int|
                    i <= k < j ==> !(#[trigger] inner[k] == COLON && inner[k + 1] == DASH)
            },
            None => forall|k: int|
                i <= k && k + 1 < inner.len() ==> !(#[trigger] inner[k] == COLON && inner[k + 1]
                    == DASH),
        },
    decreases inner.len() - i,
{
    if i + 1 >= inner.len() {
    } else if inner[i] == COLON && inner[i + 1] == DASH {
    } else {
        lemma_find_op_from_props(inner, i + 1);
    }
}

/// A position holding `:-` with no earlier `:` is where `find_op_from`
/// lands.
pub proof fn lemma_find_op_found(inner: Seq<u8>, i: int, j: int)
    requires
        0 <= i <= j,
        j + 1 < inner.len(),
        inner[j] == COLON,
        inner[j + 1] == DASH,
        forall|k: int| i <= k < j ==> #[trigger] inner[k] != COLON,
    ensures
        find_op_from(inner, i) == Some(j),
    decreases j - i,
{
    if i < j {
        lemma_find_op_found(inner, i + 1, j);
    }
}

/// The text between a placeholder's `$` or `${...}` dressing: one outer
/// brace pair is stripped when present, the closing one only if the
/// placeholder was terminated.
pub open spec fn placeholder_inner(raw: Seq<u8>) -> Seq<u8> {
    if raw.len() >= 2 && raw[1] == LBRACE {
        if raw.len() >= 3 && raw[raw.len() - 1] == RBRACE {
            raw.subrange(2, raw.len() - 1)
        } else {
            raw.subrange(2, raw.len() as int)
        }
    } else if raw.len() >= 1 {
        raw.subrange(1, raw.len() as int)
    } else {
        Seq::empty()
    }
}

/// The variable name of a placeholder: the inner text up to the first
/// `:-`, or all of it.
pub open spec fn ph_name(raw: Seq<u8>) -> Seq<u8> {
    let inner = placeholder_inner(raw);
    match find_op(inner) {
        Some(j) => inner.subrange(0, j),
        None => inner,
    }
}

/// The raw fallback text of a placeholder: what follows the first `:-`,
/// if there is one.
pub open spec fn ph_fallback(raw: Seq<u8>) -> Option<Seq<u8>> {
    let inner = placeholder_inner(raw);
    match find_op(inner) {
        Some(j) => Some(inner.subrange(j + 2, inner.len() as int)),
        None => None,
    }
}

/// A fallback is strictly shorter than the placeholder it came from.
pub proof fn lemma_ph_fallback_shorter(raw: Seq<u8>)
    ensures
        match ph_fallback(raw) {
            Some(fb) => fb.len() < raw.len(),
            None => true,
        },
{
    let inner = placeholder_inner(raw);
    lemma_find_op_from_props(inner, 0);
}

/// What one placeholder resolves to: the variable's value when it is set
/// and decodable, the expansion of the fallback when it is unset, an
/// error otherwise.
pub open spec fn resolve_placeholder(
    env: Map<Seq<u8>, Option<Seq<u8>>>,
    raw: Seq<u8>,
) -> Result<Seq<u8>, ErrSpec>
    decreases raw.len(), 0int, 0int,
    via resolve_placeholder_decreases
{
    let name = ph_name(raw);
    if !is_valid_name(name) {
        Err(ErrSpec::EmptyCapture)
    } else if env.contains_key(name) {
        match env[name] {
            Some(v) => Ok(v),
            None => Err(ErrSpec::OsVar),
        }
    } else {
        match ph_fallback(raw) {
            Some(fb) => spec_expand(env, fb),
            None => Err(ErrSpec::ReadError(name)),
        }
    }
}

#[via_fn]
proof fn resolve_placeholder_decreases(env: Map<Seq<u8>, Option<Seq<u8>>>, raw: Seq<u8>) {
    lemma_ph_fallback_shorter(raw);
}

/// What one segment resolves to: a literal stands for itself, a
/// placeholder is resolved.
pub open spec fn resolve_seg(
    env: Map<Seq<u8>, Option<Seq<u8>>>,
    g: SegView,
) -> Result<Seq<u8>, ErrSpec>
    decreases seg_text(g).len(), 1int, 0int,
{
    match g {
        SegView::Literal(t) => Ok(t),
        SegView::Placeholder(raw) => resolve_placeholder(env, raw),
    }
}

/// What a sequence of segments resolves to: the concatenation of each
/// segment's resolution, or the first failure.
pub open spec fn resolve_segs(
    env: Map<Seq<u8>, Option<Seq<u8>>>,
    gs: Seq<SegView>,
) -> Result<Seq<u8>, ErrSpec>
    decreases segs_total_len(gs), 2int, gs.len(),
    via resolve_segs_decreases
{
    if gs.len() == 0 {
        Ok(Seq::empty())
    } else {
        match resolve_seg(env, gs[0]) {
            Err(e) => Err(e),
            Ok(t) => match resolve_segs(env, gs.drop_first()) {
                Err(e) => Err(e),
                Ok(rest) => Ok(t + rest),
            },
        }
    }
}

#[via_fn]
proof fn resolve_segs_decreases(env: Map<Seq<u8>, Option<Seq<u8>>>, gs: Seq<SegView>) {
    if gs.len() > 0 {
        assert(segs_total_len(gs) == seg_text(gs[0]).len() + segs_total_len(gs.drop_first()));
    }
}

/// The expansion of `s` against `env`: every placeholder resolved and the
/// segments concatenated, or the first failure.
pub open spec fn spec_expand(
    env: Map<Seq<u8>, Option<Seq<u8>>>,
    s: Seq<u8>,
) -> Result<Seq<u8>, ErrSpec>
    decreases s.len(), 3int, 0int,
    via spec_expand_decreases
{
    resolve_segs(env, scan(s))
}

#[via_fn]
proof fn spec_expand_decreases(env: Map<Seq<u8>, Option<Seq<u8>>>, s: Seq<u8>) {
    lemma_scan_total(s);
}

/// `r` with `prefix` put before its text, failures unchanged.
pub open spec fn prepend_result(
    prefix: Seq<u8>,
    r: Result<Seq<u8>, ErrSpec>,
) -> Result<Seq<u8>, ErrSpec> {
    match r {
        Ok(t) => Ok(prefix + t),
        Err(e) => Err(e),
    }
}

proof fn lemma_prepend_empty(r: Result<Seq<u8>, ErrSpec>)
    ensures
        prepend_result(Seq::empty(), r) == r,
{
    match r {
        Ok(t) => {
            assert(Seq::empty() + t =~= t);
        },
        Err(e) => {},
    }
}

proof fn lemma_prepend_concat(a: Seq<u8>, b: Seq<u8>, r: Result<Seq<u8>, ErrSpec>)
    ensures
        prepend_result(a, prepend_result(b, r)) == prepend_result(a + b, r),
{
    match r {
        Ok(t) => {
            assert(a + (b + t) =~= (a + b) + t);
        },
        Err(e) => {},
    }
}

/// Resolving the segments from position `k` on handles `gs[k]` first and
/// the rest after it.
proof fn lemma_resolve_segs_step(env: Map<Seq<u8>, Option<Seq<u8>>>, gs: Seq<SegView>, k: int)
    requires
        0 <= k < gs.len(),
    ensures
        resolve_segs(env, gs.skip(k)) == match resolve_seg(env, gs[k]) {
            Err(e) => Err(e),
            Ok(t) => prepend_result(t, resolve_segs(env, gs.skip(k + 1))),
        },
{
    let tail = gs.skip(k);
    assert(tail[0] == gs[k]);
    assert(tail.drop_first() =~= gs.skip(k + 1));
}

/// Whether `name` fits the identifier grammar `[A-Za-z_][A-Za-z0-9_]*`.
pub fn valid_name(name: &[u8]) -> (r: bool)
    ensures
        r == is_valid_name(name@),
{
    if name.len() == 0 {
        return false;
    }
    if !ident_start(name[0]) {
        return false;
    }
    let mut i: usize = 1;
    while i < name.len()
        invariant
            1 <= i <= name.len(),
            name@.len() > 0,
            is_ident_start(name@[0]),
            forall|k: int| 1 <= k < i ==> is_ident_char(#[trigger] name@[k]),
        decreases name.len() - i,
    {
        if !ident_char(name[i]) {
            return false;
        }
        i = i + 1;
    }
    true
}

/// Position of the first `:-` operator in `inner`, if any.
pub fn find_op_index(inner: &[u8]) -> (r: Option<usize>)
    ensures
        match r {
            Some(j) => find_op(inner@) == Some(j as int),
            None => find_op(inner@) is None,
        },
{
    if inner.len() == 0 {
        return None;
    }
    let mut i: usize = 0;
    while i + 1 < inner.len()
        invariant
            i < inner.len(),
            find_op(inner@) == find_op_from(inner@, i as int),
        decreases inner.len() - i,
    {
        if inner[i] == COLON && inner[i + 1] == DASH {
            return Some(i);
        }
        i = i + 1;
    }
    None
}

/// Appends `t` to `out`.
fn append_bytes(out: &mut Vec<u8>, t: &[u8])
    ensures
        final(out)@ == old(out)@ + t@,
{
    proof {
        assert(old(out)@ + t@.subrange(0, 0) =~= old(out)@);
    }
    let mut j: usize = 0;
    while j < t.len()
        invariant
            j <= t.len(),
            out@ == old(out)@ + t@.subrange(0, j as int),
        decreases t.len() - j,
    {
        out.push(t[j]);
        proof {
            assert(out@ =~= old(out)@ + t@.subrange(0, j + 1));
        }
        j = j + 1;
    }
    proof {
        assert(old(out)@ + t@.subrange(0, t@.len() as int) =~= old(out)@ + t@);
    }
}

/// Resolves one placeholder, given its raw text.
fn resolve_placeholder_bytes(env: &Env, raw: &Vec<u8>) -> (r: Result<Vec<u8>, ExpandError>)
    ensures
        match r {
            Ok(v) => resolve_placeholder(env@, raw@) == Ok::<Seq<u8>, ErrSpec>(v@),
            Err(e) => resolve_placeholder(env@, raw@) == Err::<Seq<u8>, ErrSpec>(e@),
        },
    decreases raw@.len(), 0int,
{
    let n = raw.len();
    let lo: usize;
    let hi: usize;
    if n >= 2 && raw[1] == LBRACE {
        lo = 2;
        if n >= 3 && raw[n - 1] == RBRACE {
            hi = n - 1;
        } else {
            hi = n;
        }
    } else if n >= 1 {
        lo = 1;
        hi = n;
    } else {
        lo = 0;
        hi = 0;
    }
    let inner = slice_subrange(raw.as_slice(), lo, hi);
    proof {
        assert(raw@.subrange(0, 0) =~= Seq::<u8>::empty());
        assert(inner@ == placeholder_inner(raw@));
    }
    let op = find_op_index(inner);
    let name_s: &[u8];
    let fallback: Option<&[u8]>;
    match op {
        Some(j) => {
            proof {
                lemma_find_op_from_props(inner@, 0);
            }
            name_s = slice_subrange(inner, 0, j);
            fallback = Some(slice_subrange(inner, j + 2, inner.len()));
        },
        None => {
            name_s = inner;
            fallback = None;
        },
    }
    proof {
        assert(name_s@ == ph_name(raw@));
    }
    if !valid_name(name_s) {
        return Err(ExpandError::EmptyEnvvarCapture);
    }
    match env.lookup(name_s) {
        Lookup::Text(v) => Ok(v),
        Lookup::Undecodable => Err(ExpandError::OsVarError),
        Lookup::Unset => {
            match fallback {
                Some(f) => {
                    proof {
                        lemma_ph_fallback_shorter(raw@);
                        assert(ph_fallback(raw@) == Some(f@));
                    }
                    expand_string(env, f)
                },
                None => Err(ExpandError::EnvvarReadError(slice_to_vec(name_s))),
            }
        },
    }
}

/// Expands every placeholder in `s` against `env` and concatenates the
/// result, exactly as `spec_expand` describes, or fails with the first
/// error.
pub fn expand_string(env: &Env, s: &[u8]) -> (r: Result<Vec<u8>, ExpandError>)
    ensures
        match r {
            Ok(v) => spec_expand(env@, s@) == Ok::<Seq<u8>, ErrSpec>(v@),
            Err(e) => spec_expand(env@, s@) == Err::<Seq<u8>, ErrSpec>(e@),
        },
    decreases s@.len(), 1int,
{
    let segs = scan_segments(s);
    proof {
        lemma_scan_seg_len(s@);
        lemma_prepend_empty(resolve_segs(env@, scan(s@)));
        assert(scan(s@).skip(0) =~= scan(s@));
    }
    let mut out: Vec<u8> = Vec::new();
    let mut k: usize = 0;
    while k < segs.len()
        invariant
            k <= segs.len(),
            views_of(segs@) == scan(s@),
            segs_bounded(scan(s@), s@.len() as int),
            resolve_segs(env@, scan(s@)) == prepend_result(
                out@,
                resolve_segs(env@, scan(s@).skip(k as int)),
            ),
        decreases segs.len() - k,
    {
        let ghost gs = scan(s@);
        let ghost out_before = out@;
        proof {
            assert(gs[k as int] == segs@[k as int]@);
            lemma_resolve_segs_step(env@, gs, k as int);
        }
        match &segs[k] {
            Segment::Literal(t) => {
                append_bytes(&mut out, t.as_slice());
                proof {
                    lemma_prepend_concat(out_before, t@, resolve_segs(env@, gs.skip(k + 1)));
                }
            },
            Segment::Placeholder(raw) => {
                proof {
                    assert(seg_text(gs[k as int]).len() <= s@.len());
                }
                match resolve_placeholder_bytes(env, raw) {
                    Ok(v) => {
                        append_bytes(&mut out, v.as_slice());
                        proof {
                            lemma_prepend_concat(
                                out_before,
                                v@,
                                resolve_segs(env@, gs.skip(k + 1)),
                            );
                        }
                    },
                    Err(e) => {
                        return Err(e);
                    },
                }
            },
        }
        k = k + 1;
    }
    proof {
        assert(scan(s@).skip(segs@.len() as int) =~= Seq::<SegView>::empty());
        assert(out@ + Seq::<u8>::empty() =~= out@);
    }
    Ok(out)
}

/// `v` with a leading `~` path component replaced by `home`. The tilde
/// counts only when it is the whole first component: the text is exactly
/// `~`, or starts with `~/`.
pub open spec fn spec_apply_tilde(home: Seq<u8>, v: Seq<u8>) -> Seq<u8> {
    if v.len() > 0 && v[0] == TILDE && (v.len() == 1 || v[1] == SLASH) {
        home + v.subrange(1, v.len() as int)
    } else {
        v
    }
}

/// The path expansion of `s`: the expansion of `spec_expand`, with a
/// leading `~` component of the result replaced by `home`.
pub open spec fn spec_expand_path(
    env: Map<Seq<u8>, Option<Seq<u8>>>,
    home: Seq<u8>,
    s: Seq<u8>,
) -> Result<Seq<u8>, ErrSpec> {
    match spec_expand(env, s) {
        Ok(v) => Ok(spec_apply_tilde(home, v)),
        Err(e) => Err(e),
    }
}

/// Replaces a leading `~` path component of `v` with `home`.
pub fn apply_tilde(home: &[u8], v: Vec<u8>) -> (r: Vec<u8>)
    ensures
        r@ == spec_apply_tilde(home@, v@),
{
    if v.len() > 0 && v[0] == TILDE && (v.len() == 1 || v[1] == SLASH) {
        let mut r: Vec<u8> = Vec::new();
        append_bytes(&mut r, home);
        append_bytes(&mut r, slice_subrange(v.as_slice(), 1, v.len()));
        proof {
            assert(Seq::<u8>::empty() + home@ =~= home@);
        }
        r
    } else {
        v
    }
}

/// Expands `s` as a path: placeholders are resolved as in
/// `expand_string`, and a leading `~` component of the result is
/// replaced by `home`.
pub fn expand_path(env: &Env, home: &[u8], s: &[u8]) -> (r: Result<Vec<u8>, ExpandError>)
    ensures
        match r {
            Ok(v) => spec_expand_path(env@, home@, s@) == Ok::<Seq<u8>, ErrSpec>(v@),
            Err(e) => spec_expand_path(env@, home@, s@) == Err::<Seq<u8>, ErrSpec>(e@),
        },
{
    match expand_string(env, s) {
        Ok(v) => Ok(apply_tilde(home, v)),
        Err(e) => Err(e),
    }
}

/// Expands envvars and a leading tilde in `s`: the crate's historical
/// entry point, the same operation as `expand_path`.
pub fn expand(env: &Env, home: &[u8], s: &[u8]) -> (r: Result<Vec<u8>, ExpandError>)
    ensures
        match r {
            Ok(v) => spec_expand_path(env@, home@, s@) == Ok::<Seq<u8>, ErrSpec>(v@),
            Err(e) => spec_expand_path(env@, home@, s@) == Err::<Seq<u8>, ErrSpec>(e@),
        },
{
    expand_path(env, home, s)
}

} // verus!
