//! The segment scanner: a single left-to-right pass that splits an input
//! byte sequence into literal and placeholder segments.
//!
//! The scanner keeps a brace-depth counter and an inside-placeholder flag.
//! A backslash escapes the byte after it: that byte joins the current
//! segment and the backslash is dropped; a backslash that ends the input
//! stands for itself. A `$` outside a placeholder opens
//! one, unless it is doubled (`$$` stays literal). Inside a placeholder,
//! `{` raises the depth, a `}` at depth one closes the placeholder, and at
//! depth zero any byte outside the identifier grammar ends the bare
//! `$NAME` form without being consumed into it. Whatever segment is in
//! progress at the end of the input is kept, so an unterminated `${NAME`
//! still comes out as a placeholder.

use vstd::prelude::*;

use crate::env::clone_bytes;
use crate::{ident_char, is_ident_char, BACKSLASH, DOLLAR, LBRACE, RBRACE};

verus! {

/// One segment, as the contracts see it: a literal run of bytes, or the
/// raw text of a placeholder including its `$...` or `${...}` syntax.
pub enum SegView {
    Literal(Seq<u8>),
    Placeholder(Seq<u8>),
}

/// One segment of the input, in input order: a literal run of bytes, or
/// the raw text of a placeholder including its `$...` or `${...}` syntax.
#[derive(Debug, PartialEq, Eq)]
pub enum Segment {
    Literal(Vec<u8>),
    Placeholder(Vec<u8>),
}

impl View for Segment {
    type V = SegView;

    open spec fn view(&self) -> SegView {
        match self {
            Segment::Literal(t) => SegView::Literal(t@),
            Segment::Placeholder(t) => SegView::Placeholder(t@),
        }
    }
}

/// The bytes a segment holds.
pub open spec fn seg_text(g: SegView) -> Seq<u8> {
    match g {
        SegView::Literal(t) => t,
        SegView::Placeholder(t) => t,
    }
}

/// A segment tagged literal or placeholder by the scanner state.
pub open spec fn seg_of(placeholder: bool, text: Seq<u8>) -> SegView {
    if placeholder {
        SegView::Placeholder(text)
    } else {
        SegView::Literal(text)
    }
}

/// The views of a sequence of segments.
pub open spec fn views_of(segs: Seq<Segment>) -> Seq<SegView> {
    segs.map_values(|g: Segment| g@)
}

/// The bytes of each segment, in order.
pub open spec fn texts_of(segs: Seq<SegView>) -> Seq<Seq<u8>> {
    segs.map_values(|g: SegView| seg_text(g))
}

/// The views of a sequence of byte vectors.
pub open spec fn byte_views(vs: Seq<Vec<u8>>) -> Seq<Seq<u8>> {
    vs.map_values(|v: Vec<u8>| v@)
}

/// The scanner's state machine, from position `i` of `s` with the
/// inside-placeholder flag, the brace depth, the segment being
/// accumulated, and the segments already produced.
pub open spec fn scan_from(
    s: Seq<u8>,
    i: int,
    inside: bool,
    depth: nat,
    cur: Seq<u8>,
    acc: Seq<SegView>,
) -> Seq<SegView>
    decreases s.len() - i, (if inside { 1int } else { 0int }),
{
    if i >= s.len() {
        if cur.len() > 0 {
            acc.push(seg_of(inside, cur))
        } else {
            acc
        }
    } else {
        let c = s[i];
        if c == BACKSLASH {
            if i + 1 < s.len() {
                scan_from(s, i + 2, inside, depth, cur.push(s[i + 1]), acc)
            } else {
                scan_from(s, i + 1, inside, depth, cur.push(c), acc)
            }
        } else if !inside {
            if c == DOLLAR {
                if i + 1 < s.len() && s[i + 1] == DOLLAR {
                    scan_from(s, i + 2, false, depth, cur.push(DOLLAR).push(DOLLAR), acc)
                } else {
                    let flushed = if cur.len() > 0 {
                        acc.push(SegView::Literal(cur))
                    } else {
                        acc
                    };
                    scan_from(s, i + 1, true, 0, seq![DOLLAR], flushed)
                }
            } else {
                scan_from(s, i + 1, false, depth, cur.push(c), acc)
            }
        } else {
            if c == LBRACE {
                scan_from(s, i + 1, true, depth + 1, cur.push(c), acc)
            } else if c == RBRACE && depth == 1 {
                scan_from(s, i + 1, false, 0, Seq::empty(), acc.push(SegView::Placeholder(cur.push(c))))
            } else if c == RBRACE && depth > 1 {
                scan_from(s, i + 1, true, (depth - 1) as nat, cur.push(c), acc)
            } else if depth == 0 && !is_ident_char(c) {
                scan_from(s, i, false, 0, Seq::empty(), acc.push(SegView::Placeholder(cur)))
            } else {
                scan_from(s, i + 1, true, depth, cur.push(c), acc)
            }
        }
    }
}

/// The segments of `s`, in input order. Concatenating their resolved text
/// gives the expanded output.
pub open spec fn scan(s: Seq<u8>) -> Seq<SegView> {
    scan_from(s, 0, false, 0, Seq::empty(), Seq::empty())
}

/// Mapping the views over a push appends the pushed segment's view.
proof fn lemma_views_push(segs: Seq<Segment>, x: Segment)
    ensures
        views_of(segs.push(x)) == views_of(segs).push(x@),
{
    assert(views_of(segs.push(x)) =~= views_of(segs).push(x@));
}

/// True when every segment in the sequence holds at most `bound` bytes.
pub open spec fn segs_bounded(gs: Seq<SegView>, bound: int) -> bool {
    forall|k: int| 0 <= k < gs.len() ==> seg_text(#[trigger] gs[k]).len() <= bound
}

/// Pushing a segment that respects a length bound keeps the bound over
/// the whole sequence.
proof fn lemma_seg_len_push(acc: Seq<SegView>, g: SegView, bound: int)
    requires
        segs_bounded(acc, bound),
        seg_text(g).len() <= bound,
    ensures
        segs_bounded(acc.push(g), bound),
{
    assert forall|k: int|
        0 <= k < acc.push(g).len() implies seg_text(#[trigger] acc.push(g)[k]).len()
        <= bound by {
        if k < acc.len() {
            assert(acc.push(g)[k] == acc[k]);
        } else {
            assert(acc.push(g)[k] == g);
        }
    }
}

/// Every segment the scanner produces is at most as long as the input,
/// provided the accumulated state already respects that bound.
pub proof fn lemma_scan_from_seg_len(
    s: Seq<u8>,
    i: int,
    inside: bool,
    depth: nat,
    cur: Seq<u8>,
    acc: Seq<SegView>,
)
    requires
        0 <= i <= s.len(),
        cur.len() <= i,
        segs_bounded(acc, s.len() as int),
    ensures
        segs_bounded(scan_from(s, i, inside, depth, cur, acc), s.len() as int),
    decreases s.len() - i, (if inside { 1int } else { 0int }),
{
    if i >= s.len() {
        if cur.len() > 0 {
            assert(scan_from(s, i, inside, depth, cur, acc) == acc.push(seg_of(inside, cur)));
            lemma_seg_len_push(acc, seg_of(inside, cur), s.len() as int);
        } else {
            assert(scan_from(s, i, inside, depth, cur, acc) == acc);
        }
    } else {
        let c = s[i];
        if c == BACKSLASH {
            if i + 1 < s.len() {
                lemma_scan_from_seg_len(s, i + 2, inside, depth, cur.push(s[i + 1]), acc);
            } else {
                lemma_scan_from_seg_len(s, i + 1, inside, depth, cur.push(c), acc);
            }
        } else if !inside {
            if c == DOLLAR {
                if i + 1 < s.len() && s[i + 1] == DOLLAR {
                    lemma_scan_from_seg_len(s, i + 2, false, depth, cur.push(DOLLAR).push(DOLLAR), acc);
                } else {
                    let flushed = if cur.len() > 0 {
                        acc.push(SegView::Literal(cur))
                    } else {
                        acc
                    };
                    if cur.len() > 0 {
                        lemma_seg_len_push(acc, SegView::Literal(cur), s.len() as int);
                    }
                    lemma_scan_from_seg_len(s, i + 1, true, 0, seq![DOLLAR], flushed);
                }
            } else {
                lemma_scan_from_seg_len(s, i + 1, false, depth, cur.push(c), acc);
            }
        } else {
            if c == LBRACE {
                lemma_scan_from_seg_len(s, i + 1, true, depth + 1, cur.push(c), acc);
            } else if c == RBRACE && depth == 1 {
                lemma_seg_len_push(acc, SegView::Placeholder(cur.push(c)), s.len() as int);
                lemma_scan_from_seg_len(
                    s,
                    i + 1,
                    false,
                    0,
                    Seq::empty(),
                    acc.push(SegView::Placeholder(cur.push(c))),
                );
            } else if c == RBRACE && depth > 1 {
                lemma_scan_from_seg_len(s, i + 1, true, (depth - 1) as nat, cur.push(c), acc);
            } else if depth == 0 && !is_ident_char(c) {
                lemma_seg_len_push(acc, SegView::Placeholder(cur), s.len() as int);
                lemma_scan_from_seg_len(s, i, false, 0, Seq::empty(), acc.push(SegView::Placeholder(cur)));
            } else {
                lemma_scan_from_seg_len(s, i + 1, true, depth, cur.push(c), acc);
            }
        }
    }
}

/// Every segment of the scan of `s` is at most as long as `s`.
pub proof fn lemma_scan_seg_len(s: Seq<u8>)
    ensures
        segs_bounded(scan(s), s.len() as int),
{
    lemma_scan_from_seg_len(s, 0, false, 0, Seq::empty(), Seq::empty());
}

/// The combined length of a sequence of segments.
pub open spec fn segs_total_len(gs: Seq<SegView>) -> nat
    decreases gs.len(),
{
    if gs.len() == 0 {
        0
    } else {
        seg_text(gs[0]).len() + segs_total_len(gs.drop_first())
    }
}

/// Appending a segment adds its length to the total.
pub proof fn lemma_total_push(gs: Seq<SegView>, g: SegView)
    ensures
        segs_total_len(gs.push(g)) == segs_total_len(gs) + seg_text(g).len(),
    decreases gs.len(),
{
    if gs.len() == 0 {
        assert(gs.push(g)[0] == g);
        assert(gs.push(g).drop_first() =~= Seq::<SegView>::empty());
        assert(segs_total_len(Seq::<SegView>::empty()) == 0);
        assert(segs_total_len(gs) == 0);
        assert(segs_total_len(gs.push(g)) == seg_text(g).len() + segs_total_len(
            Seq::<SegView>::empty(),
        ));
    } else {
        assert(gs.push(g)[0] == gs[0]);
        assert(gs.push(g).drop_first() =~= gs.drop_first().push(g));
        lemma_total_push(gs.drop_first(), g);
        assert(segs_total_len(gs.push(g)) == seg_text(gs[0]).len() + segs_total_len(
            gs.drop_first().push(g),
        ));
    }
}

/// The scanner never produces more text than it has input and state left:
/// escapes drop a byte, everything else is carried over one for one.
pub proof fn lemma_scan_from_total(
    s: Seq<u8>,
    i: int,
    inside: bool,
    depth: nat,
    cur: Seq<u8>,
    acc: Seq<SegView>,
)
    requires
        0 <= i <= s.len(),
    ensures
        segs_total_len(scan_from(s, i, inside, depth, cur, acc)) <= segs_total_len(acc)
            + cur.len() + (s.len() - i),
    decreases s.len() - i, (if inside { 1int } else { 0int }),
{
    if i >= s.len() {
        if cur.len() > 0 {
            lemma_total_push(acc, seg_of(inside, cur));
        }
    } else {
        let c = s[i];
        if c == BACKSLASH {
            if i + 1 < s.len() {
                lemma_scan_from_total(s, i + 2, inside, depth, cur.push(s[i + 1]), acc);
            } else {
                lemma_scan_from_total(s, i + 1, inside, depth, cur.push(c), acc);
            }
        } else if !inside {
            if c == DOLLAR {
                if i + 1 < s.len() && s[i + 1] == DOLLAR {
                    lemma_scan_from_total(s, i + 2, false, depth, cur.push(DOLLAR).push(DOLLAR), acc);
                } else {
                    let flushed = if cur.len() > 0 {
                        acc.push(SegView::Literal(cur))
                    } else {
                        acc
                    };
                    if cur.len() > 0 {
                        lemma_total_push(acc, SegView::Literal(cur));
                    }
                    lemma_scan_from_total(s, i + 1, true, 0, seq![DOLLAR], flushed);
                }
            } else {
                lemma_scan_from_total(s, i + 1, false, depth, cur.push(c), acc);
            }
        } else {
            if c == LBRACE {
                lemma_scan_from_total(s, i + 1, true, depth + 1, cur.push(c), acc);
            } else if c == RBRACE && depth == 1 {
                lemma_total_push(acc, SegView::Placeholder(cur.push(c)));
                lemma_scan_from_total(
                    s,
                    i + 1,
                    false,
                    0,
                    Seq::empty(),
                    acc.push(SegView::Placeholder(cur.push(c))),
                );
            } else if c == RBRACE && depth > 1 {
                lemma_scan_from_total(s, i + 1, true, (depth - 1) as nat, cur.push(c), acc);
            } else if depth == 0 && !is_ident_char(c) {
                lemma_total_push(acc, SegView::Placeholder(cur));
                lemma_scan_from_total(s, i, false, 0, Seq::empty(), acc.push(SegView::Placeholder(cur)));
            } else {
                lemma_scan_from_total(s, i + 1, true, depth, cur.push(c), acc);
            }
        }
    }
}

/// The scan of `s` holds at most `s.len()` bytes of text in all.
pub proof fn lemma_scan_total(s: Seq<u8>)
    ensures
        segs_total_len(scan(s)) <= s.len(),
{
    lemma_scan_from_total(s, 0, false, 0, Seq::empty(), Seq::empty());
}

/// Text with no `$` and no `\` is scanned as one literal run.
pub proof fn lemma_scan_from_literal(
    s: Seq<u8>,
    i: int,
    depth: nat,
    cur: Seq<u8>,
    acc: Seq<SegView>,
)
    requires
        0 <= i <= s.len(),
        forall|k: int| i <= k < s.len() ==> s[k] != DOLLAR && #[trigger] s[k] != BACKSLASH,
    ensures
        scan_from(s, i, false, depth, cur, acc) == (if cur.len() + (s.len() - i) > 0 {
            acc.push(SegView::Literal(cur + s.subrange(i, s.len() as int)))
        } else {
            acc
        }),
    decreases s.len() - i,
{
    if i >= s.len() {
        if cur.len() > 0 {
            assert(cur + s.subrange(i, s.len() as int) =~= cur);
        }
    } else {
        let c = s[i];
        lemma_scan_from_literal(s, i + 1, depth, cur.push(c), acc);
        assert(cur.push(c) + s.subrange(i + 1, s.len() as int) =~= cur + s.subrange(
            i,
            s.len() as int,
        ));
    }
}

/// Inside a bare placeholder, a run of identifier bytes reaching the end
/// of the input is scanned into the placeholder.
pub proof fn lemma_scan_from_ident(s: Seq<u8>, i: int, cur: Seq<u8>, acc: Seq<SegView>)
    requires
        0 <= i <= s.len(),
        forall|k: int| i <= k < s.len() ==> is_ident_char(#[trigger] s[k]),
        cur.len() > 0,
    ensures
        scan_from(s, i, true, 0, cur, acc) == acc.push(
            SegView::Placeholder(cur + s.subrange(i, s.len() as int)),
        ),
    decreases s.len() - i,
{
    if i >= s.len() {
        assert(cur + s.subrange(i, s.len() as int) =~= cur);
    } else {
        let c = s[i];
        assert(is_ident_char(c));
        assert(c != BACKSLASH && c != LBRACE && c != RBRACE);
        lemma_scan_from_ident(s, i + 1, cur.push(c), acc);
        assert(cur.push(c) + s.subrange(i + 1, s.len() as int) =~= cur + s.subrange(
            i,
            s.len() as int,
        ));
    }
}

/// A byte that neither escapes nor moves the brace depth.
pub open spec fn plain_byte(b: u8) -> bool {
    b != BACKSLASH && b != LBRACE && b != RBRACE
}

/// Scanning `t` inside braces from depth `d` is a run that never closes
/// the outermost brace, meets no backslash, and ends at depth `e`.
pub open spec fn brace_run(t: Seq<u8>, d: int, e: int) -> bool
    decreases t.len(),
{
    if t.len() == 0 {
        d == e
    } else if t[0] == BACKSLASH {
        false
    } else if t[0] == LBRACE {
        brace_run(t.drop_first(), d + 1, e)
    } else if t[0] == RBRACE {
        d > 1 && brace_run(t.drop_first(), d - 1, e)
    } else {
        brace_run(t.drop_first(), d, e)
    }
}

/// Text whose raw fallback stays inside the braces of its placeholder:
/// depth-balanced, never closing the outermost brace, with no escape.
pub open spec fn stays_open(t: Seq<u8>) -> bool {
    brace_run(t, 1, 1)
}

/// A brace run holds one level deeper as well.
pub proof fn lemma_brace_run_shift(t: Seq<u8>, d: int, e: int)
    requires
        brace_run(t, d, e),
    ensures
        brace_run(t, d + 1, e + 1),
    decreases t.len(),
{
    if t.len() == 0 {
    } else if t[0] == LBRACE {
        lemma_brace_run_shift(t.drop_first(), d + 1, e);
    } else if t[0] == RBRACE {
        lemma_brace_run_shift(t.drop_first(), d - 1, e);
    } else {
        lemma_brace_run_shift(t.drop_first(), d, e);
    }
}

/// Brace runs compose over concatenation.
pub proof fn lemma_brace_run_concat(a: Seq<u8>, b: Seq<u8>, d: int, m: int, e: int)
    requires
        brace_run(a, d, m),
        brace_run(b, m, e),
    ensures
        brace_run(a + b, d, e),
    decreases a.len(),
{
    if a.len() == 0 {
        assert(a + b =~= b);
    } else {
        assert((a + b)[0] == a[0]);
        assert((a + b).drop_first() =~= a.drop_first() + b);
        if a[0] == LBRACE {
            lemma_brace_run_concat(a.drop_first(), b, d + 1, m, e);
        } else if a[0] == RBRACE {
            lemma_brace_run_concat(a.drop_first(), b, d - 1, m, e);
        } else {
            lemma_brace_run_concat(a.drop_first(), b, d, m, e);
        }
    }
}

/// Plain bytes leave the depth alone.
pub proof fn lemma_brace_run_plain(t: Seq<u8>, d: int)
    requires
        forall|k: int| 0 <= k < t.len() ==> plain_byte(#[trigger] t[k]),
    ensures
        brace_run(t, d, d),
    decreases t.len(),
{
    if t.len() > 0 {
        assert(plain_byte(t[0]));
        lemma_brace_run_plain(t.drop_first(), d);
    }
}

/// Inside a placeholder at depth `d`, a brace run followed by the final
/// closing brace is scanned to the end of that placeholder.
pub proof fn lemma_scan_from_open(s: Seq<u8>, i: int, d: int, cur: Seq<u8>, acc: Seq<SegView>)
    requires
        0 <= i < s.len(),
        s[s.len() - 1] == RBRACE,
        brace_run(s.subrange(i, s.len() - 1), d, 1),
        d >= 1,
    ensures
        scan_from(s, i, true, d as nat, cur, acc) == acc.push(
            SegView::Placeholder(cur + s.subrange(i, s.len() as int)),
        ),
    decreases s.len() - i,
{
    let t = s.subrange(i, s.len() - 1);
    if i == s.len() - 1 {
        assert(t.len() == 0);
        assert(d == 1);
        assert(scan_from(
            s,
            s.len() as int,
            false,
            0,
            Seq::empty(),
            acc.push(SegView::Placeholder(cur.push(RBRACE))),
        ) == acc.push(SegView::Placeholder(cur.push(RBRACE))));
        assert(cur.push(RBRACE) =~= cur + s.subrange(i, s.len() as int));
    } else {
        let c = s[i];
        assert(t[0] == c);
        assert(t.drop_first() =~= s.subrange(i + 1, s.len() - 1));
        assert(c != BACKSLASH);
        if c == LBRACE {
            lemma_scan_from_open(s, i + 1, d + 1, cur.push(c), acc);
        } else if c == RBRACE {
            assert(d > 1);
            lemma_scan_from_open(s, i + 1, d - 1, cur.push(c), acc);
        } else {
            lemma_scan_from_open(s, i + 1, d, cur.push(c), acc);
        }
        assert(cur.push(c) + s.subrange(i + 1, s.len() as int) =~= cur + s.subrange(
            i,
            s.len() as int,
        ));
    }
}

/// Splits `s` into literal and placeholder segments, in input order.
pub fn scan_segments(s: &[u8]) -> (segs: Vec<Segment>)
    ensures
        views_of(segs@) == scan(s@),
{
    let n = s.len();
    let mut i: usize = 0;
    let mut inside: bool = false;
    let mut depth: usize = 0;
    let mut cur: Vec<u8> = Vec::new();
    let mut segs: Vec<Segment> = Vec::new();
    proof {
        assert(cur@ =~= Seq::<u8>::empty());
        assert(views_of(segs@) =~= Seq::<SegView>::empty());
    }
    while i < n
        invariant
            n == s.len(),
            i <= n,
            depth <= i,
            scan(s@) == scan_from(s@, i as int, inside, depth as nat, cur@, views_of(segs@)),
        decreases n - i, (if inside { 1int } else { 0int }),
    {
        let ghost prev_segs = segs@;
        let c = s[i];
        if c == BACKSLASH {
            if i + 1 < n {
                cur.push(s[i + 1]);
                i = i + 2;
            } else {
                cur.push(c);
                i = i + 1;
            }
        } else if !inside {
            if c == DOLLAR {
                if i + 1 < n && s[i + 1] == DOLLAR {
                    cur.push(DOLLAR);
                    cur.push(DOLLAR);
                    i = i + 2;
                } else {
                    if cur.len() > 0 {
                        let done = cur;
                        cur = Vec::new();
                        proof {
                            lemma_views_push(prev_segs, Segment::Literal(done));
                        }
                        segs.push(Segment::Literal(done));
                    }
                    cur.push(DOLLAR);
                    inside = true;
                    depth = 0;
                    i = i + 1;
                    proof {
                        assert(cur@ =~= seq![DOLLAR]);
                    }
                }
            } else {
                cur.push(c);
                i = i + 1;
            }
        } else {
            if c == LBRACE {
                depth = depth + 1;
                cur.push(c);
                i = i + 1;
            } else if c == RBRACE && depth == 1 {
                cur.push(c);
                let done = cur;
                cur = Vec::new();
                proof {
                    lemma_views_push(prev_segs, Segment::Placeholder(done));
                }
                segs.push(Segment::Placeholder(done));
                inside = false;
                depth = 0;
                i = i + 1;
            } else if c == RBRACE && depth > 1 {
                depth = depth - 1;
                cur.push(c);
                i = i + 1;
            } else if depth == 0 && !ident_char(c) {
                let done = cur;
                cur = Vec::new();
                proof {
                    lemma_views_push(prev_segs, Segment::Placeholder(done));
                }
                segs.push(Segment::Placeholder(done));
                inside = false;
            } else {
                cur.push(c);
                i = i + 1;
            }
        }
    }
    if cur.len() > 0 {
        let ghost prev_segs = segs@;
        if inside {
            proof {
                lemma_views_push(prev_segs, Segment::Placeholder(cur));
            }
            segs.push(Segment::Placeholder(cur));
        } else {
            proof {
                lemma_views_push(prev_segs, Segment::Literal(cur));
            }
            segs.push(Segment::Literal(cur));
        }
    }
    segs
}

/// The segments of `s` as plain byte vectors, in input order: the raw
/// text of each literal and placeholder segment.
pub fn __parse_string_components(s: &[u8]) -> (components: Vec<Vec<u8>>)
    ensures
        byte_views(components@) == texts_of(scan(s@)),
{
    let segs = scan_segments(s);
    let mut components: Vec<Vec<u8>> = Vec::new();
    let mut k: usize = 0;
    while k < segs.len()
        invariant
            k <= segs.len(),
            views_of(segs@) == scan(s@),
            components@.len() == k,
            forall|j: int|
                0 <= j < k ==> #[trigger] components@[j]@ == seg_text(views_of(segs@)[j]),
        decreases segs.len() - k,
    {
        let text = match &segs[k] {
            Segment::Literal(t) => clone_bytes(t),
            Segment::Placeholder(t) => clone_bytes(t),
        };
        components.push(text);
        k = k + 1;
    }
    proof {
        assert(byte_views(components@) =~= texts_of(scan(s@)));
    }
    components
}

} // verus!
