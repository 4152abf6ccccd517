//! The general laws of the expansion, stated over the specification
//! functions that the entry points' contracts use, and proved once and
//! for all inputs they speak of.

use vstd::prelude::*;

use crate::errors::ErrSpec;
use crate::expand::{
    find_op, find_op_from, lemma_find_op_found, lemma_find_op_from_props, ph_fallback, ph_name,
    placeholder_inner, resolve_placeholder, resolve_seg, resolve_segs, spec_apply_tilde,
    spec_expand, spec_expand_path,
};
use crate::scan::{
    brace_run, lemma_brace_run_concat, lemma_brace_run_plain, lemma_brace_run_shift,
    lemma_scan_from_ident, lemma_scan_from_literal, lemma_scan_from_open, plain_byte, scan,
    scan_from, stays_open, SegView,
};
use crate::{is_ident_char, is_valid_name};
use crate::{BACKSLASH, COLON, DASH, DOLLAR, LBRACE, RBRACE, SLASH, TILDE};

verus! {

/// A bare placeholder: `$` followed by the name.
pub open spec fn bare_form(name: Seq<u8>) -> Seq<u8> {
    seq![DOLLAR] + name
}

/// A braced placeholder: `${`, the name, `}`.
pub open spec fn braced_form(name: Seq<u8>) -> Seq<u8> {
    seq![DOLLAR, LBRACE] + name + seq![RBRACE]
}

/// A placeholder with a fallback: `${`, the name, `:-`, the fallback
/// text, `}`.
pub open spec fn fallback_form(name: Seq<u8>, fb: Seq<u8>) -> Seq<u8> {
    seq![DOLLAR, LBRACE] + name + seq![COLON, DASH] + fb + seq![RBRACE]
}

/// What resolving a variable comes to: its value when it is set and
/// decodable, a decoding failure when it is set but not, and `on_unset`
/// when it is not set at all.
pub open spec fn variable_outcome(
    env: Map<Seq<u8>, Option<Seq<u8>>>,
    name: Seq<u8>,
    on_unset: Result<Seq<u8>, ErrSpec>,
) -> Result<Seq<u8>, ErrSpec> {
    if env.contains_key(name) {
        match env[name] {
            Some(v) => Ok(v),
            None => Err(ErrSpec::OsVar),
        }
    } else {
        on_unset
    }
}

/// Identifier bytes neither escape nor move the brace depth.
proof fn lemma_ident_plain(s: Seq<u8>)
    requires
        forall|k: int| 0 <= k < s.len() ==> is_ident_char(#[trigger] s[k]),
    ensures
        forall|k: int| 0 <= k < s.len() ==> plain_byte(#[trigger] s[k]),
{
}

/// Expanding text with no `$` and no `\` gives the text back unchanged.
pub proof fn lemma_expand_literal(env: Map<Seq<u8>, Option<Seq<u8>>>, s: Seq<u8>)
    requires
        forall|k: int| 0 <= k < s.len() ==> s[k] != DOLLAR && #[trigger] s[k] != BACKSLASH,
    ensures
        spec_expand(env, s) == Ok::<Seq<u8>, ErrSpec>(s),
{
    lemma_scan_from_literal(s, 0, 0, Seq::empty(), Seq::empty());
    if s.len() == 0 {
        assert(scan(s) =~= Seq::<SegView>::empty());
        assert(Seq::<u8>::empty() =~= s);
    } else {
        assert(Seq::<u8>::empty() + s.subrange(0, s.len() as int) =~= s);
        let gs = scan(s);
        assert(gs == Seq::<SegView>::empty().push(SegView::Literal(s)));
        assert(gs[0] == SegView::Literal(s));
        assert(gs.drop_first() =~= Seq::<SegView>::empty());
        assert(resolve_segs(env, gs.drop_first()) == Ok::<Seq<u8>, ErrSpec>(Seq::empty()));
        assert(s + Seq::<u8>::empty() =~= s);
    }
}

/// Re-running the expansion on an already-expanded output that holds no
/// `$` and no `\` returns it unchanged, whatever the environment was or
/// has become.
pub proof fn lemma_expand_idempotent(
    env_then: Map<Seq<u8>, Option<Seq<u8>>>,
    env_now: Map<Seq<u8>, Option<Seq<u8>>>,
    s: Seq<u8>,
    v: Seq<u8>,
)
    requires
        spec_expand(env_then, s) == Ok::<Seq<u8>, ErrSpec>(v),
        forall|k: int| 0 <= k < v.len() ==> v[k] != DOLLAR && #[trigger] v[k] != BACKSLASH,
    ensures
        spec_expand(env_now, v) == Ok::<Seq<u8>, ErrSpec>(v),
{
    lemma_expand_literal(env_now, v);
}

/// An escaped `$` never opens a placeholder: `\$` followed by plain text
/// expands to the literal `$` and that text.
pub proof fn lemma_expand_escape(env: Map<Seq<u8>, Option<Seq<u8>>>, t: Seq<u8>)
    requires
        forall|k: int| 0 <= k < t.len() ==> t[k] != DOLLAR && #[trigger] t[k] != BACKSLASH,
    ensures
        spec_expand(env, seq![BACKSLASH, DOLLAR] + t) == Ok::<Seq<u8>, ErrSpec>(
            seq![DOLLAR] + t,
        ),
{
    let s = seq![BACKSLASH, DOLLAR] + t;
    assert(s[0] == BACKSLASH);
    assert(s[1] == DOLLAR);
    assert(forall|k: int| 2 <= k < s.len() ==> s[k] == t[k - 2]);
    assert(scan(s) == scan_from(s, 2, false, 0, Seq::<u8>::empty().push(DOLLAR), Seq::empty()));
    lemma_scan_from_literal(s, 2, 0, Seq::<u8>::empty().push(DOLLAR), Seq::empty());
    let lit = seq![DOLLAR] + t;
    assert(Seq::<u8>::empty().push(DOLLAR) + s.subrange(2, s.len() as int) =~= lit);
    let gs = scan(s);
    assert(gs == Seq::<SegView>::empty().push(SegView::Literal(lit)));
    assert(gs[0] == SegView::Literal(lit));
    assert(gs.drop_first() =~= Seq::<SegView>::empty());
    assert(resolve_segs(env, gs.drop_first()) == Ok::<Seq<u8>, ErrSpec>(Seq::empty()));
    assert(lit + Seq::<u8>::empty() =~= lit);
}

/// A sequence holding one placeholder resolves to what the placeholder
/// resolves to.
proof fn lemma_resolve_single(env: Map<Seq<u8>, Option<Seq<u8>>>, raw: Seq<u8>)
    ensures
        resolve_segs(env, Seq::<SegView>::empty().push(SegView::Placeholder(raw)))
            == resolve_placeholder(env, raw),
{
    let gs = Seq::<SegView>::empty().push(SegView::Placeholder(raw));
    assert(gs[0] == SegView::Placeholder(raw));
    assert(resolve_seg(env, gs[0]) == resolve_placeholder(env, raw));
    assert(gs.drop_first() =~= Seq::<SegView>::empty());
    assert(resolve_segs(env, gs.drop_first()) == Ok::<Seq<u8>, ErrSpec>(Seq::empty()));
    match resolve_placeholder(env, raw) {
        Ok(v) => {
            assert(v + Seq::<u8>::empty() =~= v);
        },
        Err(e) => {},
    }
}

/// A valid name holds no colon, so no `:-` operator is found in it.
proof fn lemma_find_op_ident_none(name: Seq<u8>)
    requires
        forall|k: int| 0 <= k < name.len() ==> is_ident_char(#[trigger] name[k]),
    ensures
        find_op(name) is None,
{
    lemma_find_op_from_props(name, 0);
    match find_op_from(name, 0) {
        Some(j) => {
            assert(is_ident_char(name[j]));
            assert(false);
        },
        None => {},
    }
}

/// A set variable expands to its value and an unset one without a
/// fallback fails with its name: `$NAME` resolves to the variable's
/// outcome, with `EnvvarReadError` when it is unset.
pub proof fn lemma_expand_bare_var(env: Map<Seq<u8>, Option<Seq<u8>>>, name: Seq<u8>)
    requires
        is_valid_name(name),
    ensures
        spec_expand(env, bare_form(name)) == variable_outcome(
            env,
            name,
            Err(ErrSpec::ReadError(name)),
        ),
{
    let s = bare_form(name);
    assert(s[0] == DOLLAR);
    assert(s[1] == name[0]);
    assert(!is_ident_char(DOLLAR)) by {
        assert(DOLLAR == 36);
    }
    assert(s[1] != DOLLAR);
    assert(s[0] != BACKSLASH);
    assert(scan(s) == scan_from(s, 1, true, 0, seq![DOLLAR], Seq::empty()));
    assert(forall|k: int| 1 <= k < s.len() ==> s[k] == name[k - 1]);
    lemma_scan_from_ident(s, 1, seq![DOLLAR], Seq::empty());
    assert(seq![DOLLAR] + s.subrange(1, s.len() as int) =~= s);
    let gs = scan(s);
    assert(gs == Seq::<SegView>::empty().push(SegView::Placeholder(s)));
    lemma_resolve_single(env, s);
    assert(s[1] != LBRACE) by {
        assert(!is_ident_char(LBRACE));
    }
    assert(placeholder_inner(s) == s.subrange(1, s.len() as int));
    assert(placeholder_inner(s) =~= name);
    lemma_find_op_ident_none(name);
    assert(ph_name(s) == name);
    assert(ph_fallback(s) is None);
}

/// `${NAME}` resolves exactly as `$NAME` does.
pub proof fn lemma_expand_braced_var(env: Map<Seq<u8>, Option<Seq<u8>>>, name: Seq<u8>)
    requires
        is_valid_name(name),
    ensures
        spec_expand(env, braced_form(name)) == variable_outcome(
            env,
            name,
            Err(ErrSpec::ReadError(name)),
        ),
{
    let s = braced_form(name);
    let n = s.len() as int;
    assert(s[0] == DOLLAR);
    assert(s[1] == LBRACE);
    assert(s[n - 1] == RBRACE);
    assert(s[1] != DOLLAR);
    assert(scan(s) == scan_from(s, 1, true, 0, seq![DOLLAR], Seq::empty()));
    assert(scan_from(s, 1, true, 0, seq![DOLLAR], Seq::empty()) == scan_from(
        s,
        2,
        true,
        1,
        seq![DOLLAR].push(LBRACE),
        Seq::empty(),
    ));
    assert(s.subrange(2, n - 1) =~= name);
    lemma_ident_plain(name);
    lemma_brace_run_plain(name, 1);
    lemma_scan_from_open(s, 2, 1, seq![DOLLAR].push(LBRACE), Seq::empty());
    assert(seq![DOLLAR].push(LBRACE) + s.subrange(2, n) =~= s);
    let gs = scan(s);
    assert(gs == Seq::<SegView>::empty().push(SegView::Placeholder(s)));
    lemma_resolve_single(env, s);
    assert(placeholder_inner(s) == s.subrange(2, n - 1));
    lemma_find_op_ident_none(name);
    assert(ph_name(s) == name);
    assert(ph_fallback(s) is None);
}

/// A fallback placeholder `${NAME:-FB}` stays inside its braces when the
/// fallback text does.
pub proof fn lemma_fallback_form_stays_open(name: Seq<u8>, fb: Seq<u8>)
    requires
        forall|k: int| 0 <= k < name.len() ==> is_ident_char(#[trigger] name[k]),
        stays_open(fb),
    ensures
        stays_open(fallback_form(name, fb)),
{
    let a = seq![DOLLAR, LBRACE];
    assert(a.drop_first() =~= seq![LBRACE]);
    assert(seq![LBRACE].drop_first() =~= Seq::<u8>::empty());
    assert(brace_run(Seq::<u8>::empty(), 2, 2));
    assert(brace_run(seq![LBRACE], 1, 2));
    assert(brace_run(a, 1, 2));
    lemma_ident_plain(name);
    lemma_brace_run_plain(name, 2);
    lemma_brace_run_concat(a, name, 1, 2, 2);
    let op = seq![COLON, DASH];
    assert(plain_byte(op[0]) && plain_byte(op[1]));
    lemma_brace_run_plain(op, 2);
    lemma_brace_run_concat(a + name, op, 1, 2, 2);
    lemma_brace_run_shift(fb, 1, 1);
    lemma_brace_run_concat(a + name + op, fb, 1, 2, 2);
    let close = seq![RBRACE];
    assert(close.drop_first() =~= Seq::<u8>::empty());
    assert(brace_run(Seq::<u8>::empty(), 1, 1));
    assert(brace_run(close, 2, 1));
    lemma_brace_run_concat(a + name + op + fb, close, 1, 2, 1);
}

/// Fallback precedence: `${NAME:-FB}` resolves to the variable when it is
/// set, and to the full expansion of the fallback text when it is not.
/// The fallback text may itself hold placeholders, as long as it stays
/// inside the braces.
pub proof fn lemma_expand_fallback(env: Map<Seq<u8>, Option<Seq<u8>>>, name: Seq<u8>, fb: Seq<u8>)
    requires
        is_valid_name(name),
        stays_open(fb),
    ensures
        spec_expand(env, fallback_form(name, fb)) == variable_outcome(
            env,
            name,
            spec_expand(env, fb),
        ),
{
    let s = fallback_form(name, fb);
    let n = s.len() as int;
    let op = seq![COLON, DASH];
    let middle = name + op + fb;
    assert(s[0] == DOLLAR);
    assert(s[1] == LBRACE);
    assert(s[n - 1] == RBRACE);
    assert(s[1] != DOLLAR);
    assert(scan(s) == scan_from(s, 1, true, 0, seq![DOLLAR], Seq::empty()));
    assert(scan_from(s, 1, true, 0, seq![DOLLAR], Seq::empty()) == scan_from(
        s,
        2,
        true,
        1,
        seq![DOLLAR].push(LBRACE),
        Seq::empty(),
    ));
    assert(s.subrange(2, n - 1) =~= middle);
    lemma_ident_plain(name);
    lemma_brace_run_plain(name, 1);
    assert(plain_byte(op[0]) && plain_byte(op[1]));
    lemma_brace_run_plain(op, 1);
    lemma_brace_run_concat(name, op, 1, 1, 1);
    lemma_brace_run_concat(name + op, fb, 1, 1, 1);
    assert(name + op + fb =~= middle);
    lemma_scan_from_open(s, 2, 1, seq![DOLLAR].push(LBRACE), Seq::empty());
    assert(seq![DOLLAR].push(LBRACE) + s.subrange(2, n) =~= s);
    let gs = scan(s);
    assert(gs == Seq::<SegView>::empty().push(SegView::Placeholder(s)));
    lemma_resolve_single(env, s);
    assert(placeholder_inner(s) == s.subrange(2, n - 1));
    let inner = placeholder_inner(s);
    let j = name.len() as int;
    assert(inner[j] == COLON);
    assert(inner[j + 1] == DASH);
    assert(forall|k: int| 0 <= k < j ==> #[trigger] inner[k] == name[k]);
    assert(forall|k: int| 0 <= k < j ==> #[trigger] inner[k] != COLON) by {
        assert(forall|k: int| 0 <= k < j ==> is_ident_char(#[trigger] inner[k]));
    }
    lemma_find_op_found(inner, 0, j);
    assert(inner.subrange(0, j) =~= name);
    assert(ph_name(s) == name);
    assert(inner.subrange(j + 2, inner.len() as int) =~= fb);
    assert(ph_fallback(s) == Some(fb));
}

/// A nested fallback chain resolves to the innermost set variable, or to
/// the final literal when every variable on the way is unset: with
/// `OUTER` and `MIDDLE` unset, `${OUTER:-${MIDDLE:-${NAME:-TEXT}}}`
/// resolves to the value of `NAME` when it is set, else to `TEXT`.
pub proof fn lemma_expand_nested_fallback(
    env: Map<Seq<u8>, Option<Seq<u8>>>,
    outer: Seq<u8>,
    middle: Seq<u8>,
    name: Seq<u8>,
    text: Seq<u8>,
)
    requires
        is_valid_name(outer),
        is_valid_name(middle),
        is_valid_name(name),
        !env.contains_key(outer),
        !env.contains_key(middle),
        forall|k: int|
            0 <= k < text.len() ==> plain_byte(#[trigger] text[k]) && text[k] != DOLLAR,
    ensures
        spec_expand(env, fallback_form(outer, fallback_form(middle, fallback_form(name, text))))
            == variable_outcome(env, name, Ok(text)),
{
    lemma_brace_run_plain(text, 1);
    lemma_fallback_form_stays_open(name, text);
    lemma_fallback_form_stays_open(middle, fallback_form(name, text));
    lemma_expand_fallback(env, outer, fallback_form(middle, fallback_form(name, text)));
    lemma_expand_fallback(env, middle, fallback_form(name, text));
    lemma_expand_fallback(env, name, text);
    lemma_expand_literal(env, text);
}

/// Tilde expansion in path mode: when the expansion of `s` begins with a
/// `~` that is its whole first path component, the path result is the
/// home directory followed by the rest.
pub proof fn lemma_expand_path_tilde(
    env: Map<Seq<u8>, Option<Seq<u8>>>,
    home: Seq<u8>,
    s: Seq<u8>,
    rest: Seq<u8>,
)
    requires
        spec_expand(env, s) == Ok::<Seq<u8>, ErrSpec>(seq![TILDE] + rest),
        rest.len() == 0 || rest[0] == SLASH,
    ensures
        spec_expand_path(env, home, s) == Ok::<Seq<u8>, ErrSpec>(home + rest),
{
    let v = seq![TILDE] + rest;
    assert(v[0] == TILDE);
    if rest.len() > 0 {
        assert(v[1] == rest[0]);
    }
    assert(v.subrange(1, v.len() as int) =~= rest);
}

/// A `~` that is not the whole first component is left alone in path
/// mode.
pub proof fn lemma_expand_path_no_tilde(
    env: Map<Seq<u8>, Option<Seq<u8>>>,
    home: Seq<u8>,
    s: Seq<u8>,
    v: Seq<u8>,
)
    requires
        spec_expand(env, s) == Ok::<Seq<u8>, ErrSpec>(v),
        v.len() > 0 ==> v[0] != TILDE || (v.len() > 1 && v[1] != SLASH),
    ensures
        spec_expand_path(env, home, s) == Ok::<Seq<u8>, ErrSpec>(v),
{
}

} // verus!
