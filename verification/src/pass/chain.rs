use vstd::prelude::*;

use crate::config::Config;
use crate::pass::edit::Edit;
use crate::pass::edit::apply_all;
use crate::pass::edit::apply_edits;
use crate::pass::edit::sort_desc;
use crate::pass::edit::sort_edits_desc;
use crate::pass::edit::view_edits;
use crate::pass::line_length::lemma_find_from_bound;
use crate::pass::line_length::lemma_rfind_before_bound;
use crate::pass::line_length::line_end_of;
use crate::pass::line_length::line_start_of;
use crate::syntax::indentation::compute_indent_level;
use crate::syntax::indentation::indent_level;
use crate::syntax::indentation::is_chain_kind;
use crate::syntax::indentation::lemma_end_bounded;
use crate::syntax::indentation::push_repeat;
use crate::syntax::indentation::repeat_seq;
use crate::syntax::kind::AWAIT_EXPR;
use crate::syntax::kind::DOT;
use crate::syntax::kind::FIELD_EXPR;
use crate::syntax::kind::METHOD_CALL_EXPR;
use crate::syntax::kind::TRY_EXPR;
use crate::syntax::nav::find_child;
use crate::syntax::nav::find_child_from;
use crate::syntax::nav::next_sib_index;
use crate::syntax::nav::find_child_kind;
use crate::syntax::nav::first_child_node;
use crate::syntax::nav::first_child_node_of;
use crate::syntax::nav::kind_at;
use crate::syntax::tree::Cst;
use crate::syntax::tree::TreeV;
use crate::syntax::tree::elem_ok;
use crate::syntax::tree::lemma_wf_shape;
use crate::syntax::tree::parse_cst;
use crate::syntax::tree::parsed_tree;
use crate::syntax::tree::shape_elem;
use crate::syntax::tree::shape_ok;
use crate::syntax::tree::wf;
use crate::text::byte_len;
use crate::text::byte_len_of;
use crate::text::contains_char;
use crate::text::contains_char_vec;
use crate::text::copy_vec;
use crate::text::find_char;
use crate::text::find_from;
use crate::text::push_all;
use crate::text::push_range;
use crate::text::rfind_char;
use crate::text::spaces;
use crate::text::sub_vec;
use crate::text::trim_end;
use crate::text::trim_end_vec;

verus! {

// =======================
// === reformat_chains ===
// =======================

/// A `.` of a chain: its offset, where the whitespace before it starts, whether it belongs
/// to a method call (or `.await`), and whether that whitespace holds a line break.
#[derive(Clone, Copy)]
pub struct BreakPoint {
    pub dot: usize,
    pub ws: usize,
    pub method: bool,
    pub newline: bool,
}

/// Walking up from `a` past `?` nodes: no chain link encloses the node.
pub open spec fn outside_chain_from(tv: TreeV, a: int) -> bool
    decreases a + 1,
{
    if a < 0 || a >= tv.elems.len() {
        true
    } else {
        let k = kind_at(tv, a);
        if k == TRY_EXPR {
            if a == 0 || tv.elems[a].parent >= a {
                true
            } else {
                outside_chain_from(tv, tv.elems[a].parent as int)
            }
        } else {
            !is_chain_kind(k)
        }
    }
}

/// A method call, field access or `.await` that is not itself part of a longer chain.
pub open spec fn is_chain_root(tv: TreeV, i: int) -> bool {
    &&& !tv.elems[i].is_token
    &&& is_chain_kind(kind_at(tv, i))
    &&& (i == 0 || outside_chain_from(tv, tv.elems[i].parent as int))
}

pub open spec fn is_ws4(c: char) -> bool {
    c == ' ' || c == '\t' || c == '\n' || c == '\r'
}

/// Where the spaces, tabs and line breaks just before `pos` start.
pub open spec fn ws_start_before(src: Seq<char>, pos: int) -> int
    decreases pos,
{
    if 0 < pos <= src.len() && is_ws4(src[pos - 1]) {
        ws_start_before(src, pos - 1)
    } else {
        pos
    }
}

/// The break point of a chain link's `.`, if it has one.
pub open spec fn link_point(tv: TreeV, src: Seq<char>, cur: int, method: bool) -> Seq<BreakPoint> {
    match find_child(tv, cur, DOT) {
        Some(d) => {
            let dot = tv.elems[d].lo;
            let ws = ws_start_before(src, dot as int);
            seq![
                BreakPoint {
                    dot,
                    ws: ws as usize,
                    method,
                    newline: contains_char(src.subrange(ws, dot as int), '\n'),
                },
            ]
        },
        None => Seq::empty(),
    }
}

/// The break points met walking down the receivers of a chain from `cur`, outermost first.
pub open spec fn chain_points_from(tv: TreeV, src: Seq<char>, cur: int) -> Seq<BreakPoint>
    decreases tv.elems.len() - cur,
{
    if cur < 0 || cur >= tv.elems.len() {
        Seq::empty()
    } else {
        let k = kind_at(tv, cur);
        let rest = match first_child_node(tv, cur) {
            Some(c) => if cur < c < tv.elems.len() {
                chain_points_from(tv, src, c)
            } else {
                Seq::empty()
            },
            None => Seq::empty(),
        };
        if k == METHOD_CALL_EXPR || k == AWAIT_EXPR {
            link_point(tv, src, cur, true) + rest
        } else if k == FIELD_EXPR {
            link_point(tv, src, cur, false) + rest
        } else if k == TRY_EXPR {
            rest
        } else {
            Seq::empty()
        }
    }
}

/// Where `x` goes among points sorted by offset: after those at an offset no greater.
pub open spec fn asc_slot(s: Seq<BreakPoint>, x: BreakPoint, k: int) -> int
    decreases s.len() - k,
{
    if k < 0 || k >= s.len() {
        s.len() as int
    } else if s[k].dot > x.dot {
        k
    } else {
        asc_slot(s, x, k + 1)
    }
}

/// The points stably sorted by offset (`sort_by_key`).
pub open spec fn sort_points(ps: Seq<BreakPoint>) -> Seq<BreakPoint>
    decreases ps.len(),
{
    if ps.len() == 0 {
        ps
    } else {
        let s = sort_points(ps.drop_last());
        s.insert(asc_slot(s, ps.last(), 0), ps.last())
    }
}

/// `s[a..b]`, or nothing when the range does not fit.
pub open spec fn slice(s: Seq<char>, a: int, b: int) -> Seq<char> {
    if 0 <= a <= b <= s.len() {
        s.subrange(a, b)
    } else {
        Seq::empty()
    }
}

/// The chain text with the line breaks before its `.`s removed (from `ps[k..]`, the text
/// consumed up to `pos`).
pub open spec fn flatten_from(text: Seq<char>, ps: Seq<BreakPoint>, base: int, k: int, pos: int) -> Seq<
    char,
>
    decreases ps.len() - k,
{
    if k < 0 || k >= ps.len() {
        slice(text, pos, text.len() as int)
    } else if !ps[k].newline {
        flatten_from(text, ps, base, k + 1, pos)
    } else {
        slice(text, pos, ps[k].ws - base) + flatten_from(text, ps, base, k + 1, ps[k].dot - base)
    }
}

/// The indentation level of the chain's own `.`.
pub open spec fn chain_indent(tv: TreeV, i: int) -> nat {
    match find_child(tv, i, DOT) {
        Some(d) => if tv.elems[d].is_token {
            indent_level(tv, d)
        } else {
            0
        },
        None => 0,
    }
}

/// Edits that remove the line breaks before the points of `ps[k..]` that have one.
pub open spec fn join_edits(ps: Seq<BreakPoint>, k: int) -> Seq<(int, int, Seq<char>)>
    decreases ps.len() - k,
{
    if k < 0 || k >= ps.len() {
        Seq::empty()
    } else if ps[k].newline {
        seq![(ps[k].ws as int, ps[k].dot as int, Seq::<char>::empty())] + join_edits(ps, k + 1)
    } else {
        join_edits(ps, k + 1)
    }
}

/// Edits that break the line before each method `.` of `ps[k..b]` that is not at a line
/// start yet.
pub open spec fn break_edits(ps: Seq<BreakPoint>, k: int, b: int, indent: Seq<char>) -> Seq<
    (int, int, Seq<char>),
>
    decreases b - k,
{
    if k < 0 || k >= b || k >= ps.len() {
        Seq::empty()
    } else if ps[k].method && !ps[k].newline {
        seq![(ps[k].ws as int, ps[k].dot as int, seq!['\n'] + indent)] + break_edits(
            ps,
            k + 1,
            b,
            indent,
        )
    } else {
        break_edits(ps, k + 1, b, indent)
    }
}

/// Edits that break the line before each method `.` of `ps[k..]` that sits on a line
/// longer than `max` bytes.
pub open spec fn long_line_edits(
    src: Seq<char>,
    ps: Seq<BreakPoint>,
    k: int,
    max: nat,
    indent: Seq<char>,
) -> Seq<(int, int, Seq<char>)>
    decreases ps.len() - k,
{
    if k < 0 || k >= ps.len() {
        Seq::empty()
    } else if ps[k].method && !ps[k].newline && byte_len(
        slice(src, line_start_of(src, ps[k].dot as int), line_end_of(src, ps[k].dot as int)),
    ) > max {
        seq![(ps[k].ws as int, ps[k].dot as int, seq!['\n'] + indent)] + long_line_edits(
            src,
            ps,
            k + 1,
            max,
            indent,
        )
    } else {
        long_line_edits(src, ps, k + 1, max, indent)
    }
}

/// The index of the first point with a line break before it (or `ps.len()`).
pub open spec fn first_newline(ps: Seq<BreakPoint>, k: int) -> int
    decreases ps.len() - k,
{
    if k < 0 || k >= ps.len() {
        ps.len() as int
    } else if ps[k].newline {
        k
    } else {
        first_newline(ps, k + 1)
    }
}

/// The bytes after a chain up to the end of its line, trailing whitespace dropped.
pub open spec fn suffix_len(src: Seq<char>, hi: int) -> nat {
    let after = slice(src, hi, src.len() as int);
    match find_from(after, '\n', 0) {
        Some(p) => byte_len(trim_end(after.take(p))),
        None => byte_len(trim_end(after)),
    }
}

/// The edits for a chain whose text has no line break once its `.` breaks are removed:
/// join it onto one line if it fits, else break before its method `.`s.
pub open spec fn single_line_chain_edits(
    src: Seq<char>,
    lo: int,
    hi: int,
    ps: Seq<BreakPoint>,
    flat: Seq<char>,
    max: nat,
    indent: Seq<char>,
) -> Seq<(int, int, Seq<char>)> {
    let ls = line_start_of(src, lo);
    let total = byte_len(slice(src, ls, lo)) + byte_len(flat) + suffix_len(src, hi);
    if total <= max {
        join_edits(ps, 0)
    } else {
        let f = first_newline(ps, 0);
        if f < ps.len() {
            let first_line_len = byte_len(slice(src, ls, ps[f].ws as int));
            (if first_line_len > max {
                break_edits(ps, 0, f, indent)
            } else {
                Seq::empty()
            }) + break_edits(ps, f, ps.len() as int, indent)
        } else {
            break_edits(ps, 0, ps.len() as int, indent)
        }
    }
}

/// A chain root that is nested in another chain and sits on a line that fits.
pub open spec fn nested_and_fits(
    src: Seq<char>,
    ranges: Seq<(usize, usize)>,
    lo: usize,
    hi: usize,
    max: nat,
) -> bool {
    &&& exists|k: int|
        0 <= k < ranges.len() && ranges[k] != (lo, hi) && ranges[k].0 <= lo && hi
            <= #[trigger] ranges[k].1
    &&& byte_len(slice(src, line_start_of(src, lo as int), line_end_of(src, hi as int))) <= max
}

/// The range `r` encloses the chain at `lo..hi` (and is not that chain's own).
pub open spec fn encloses(r: (usize, usize), lo: usize, hi: usize) -> bool {
    r != (lo, hi) && r.0 <= lo && hi <= r.1
}

/// How many of the chains `ranges[..k]` enclose the chain at `lo..hi`: its nesting depth.
pub open spec fn enclosing_count(ranges: Seq<(usize, usize)>, lo: usize, hi: usize, k: int) -> nat
    decreases k,
{
    if k <= 0 {
        0
    } else {
        enclosing_count(ranges, lo, hi, k - 1) + if encloses(ranges[k - 1], lo, hi) {
            1nat
        } else {
            0nat
        }
    }
}

/// The nesting depth of the chain rooted at element `i`.
pub open spec fn chain_depth(tv: TreeV, ranges: Seq<(usize, usize)>, i: int) -> nat {
    enclosing_count(ranges, tv.elems[i].lo, tv.elems[i].hi, ranges.len() as int)
}

/// Some chain root among the elements `< i` is nested at least `d` deep.
pub open spec fn has_root_at_depth(tv: TreeV, ranges: Seq<(usize, usize)>, i: int, d: nat) -> bool
    decreases i,
{
    if i <= 0 {
        false
    } else {
        has_root_at_depth(tv, ranges, i - 1, d) || (is_chain_root(tv, i - 1) && chain_depth(
            tv,
            ranges,
            i - 1,
        ) >= d)
    }
}

/// The edits for node `i` if it is the root of a chain nested `d` deep: collapse a chain
/// that fits on one line, else break it at its method `.`s (only on over-long lines when
/// the chain spans several lines anyway).
pub open spec fn chain_node_edits(
    tv: TreeV,
    src: Seq<char>,
    ranges: Seq<(usize, usize)>,
    i: int,
    max: nat,
    iw: nat,
    d: nat,
) -> Seq<(int, int, Seq<char>)> {
    let e = tv.elems[i];
    if !is_chain_root(tv, i) {
        Seq::empty()
    } else if chain_depth(tv, ranges, i) != d {
        Seq::empty()
    } else if nested_and_fits(src, ranges, e.lo, e.hi, max) {
        Seq::empty()
    } else {
        let ps = sort_points(chain_points_from(tv, src, i));
        if ps.len() == 0 {
            Seq::empty()
        } else {
            let text = slice(src, e.lo as int, e.hi as int);
            let flat = flatten_from(text, ps, e.lo as int, 0, 0);
            let indent = repeat_seq(spaces(iw), chain_indent(tv, i) + 1);
            if !contains_char(flat, '\n') {
                single_line_chain_edits(src, e.lo as int, e.hi as int, ps, flat, max, indent)
            } else {
                long_line_edits(src, ps, 0, max, indent)
            }
        }
    }
}

/// The ranges of the chain roots among the elements `< i`.
pub open spec fn chain_ranges(tv: TreeV, i: int) -> Seq<(usize, usize)>
    decreases i,
{
    if i <= 0 {
        Seq::empty()
    } else if is_chain_root(tv, i - 1) {
        chain_ranges(tv, i - 1).push((tv.elems[i - 1].lo, tv.elems[i - 1].hi))
    } else {
        chain_ranges(tv, i - 1)
    }
}

/// The edits of the chains nested `d` deep among the elements `< i`.
pub open spec fn chain_edits(
    tv: TreeV,
    src: Seq<char>,
    ranges: Seq<(usize, usize)>,
    i: int,
    max: nat,
    iw: nat,
    d: nat,
) -> Seq<(int, int, Seq<char>)>
    decreases i,
{
    if i <= 0 {
        Seq::empty()
    } else {
        chain_edits(tv, src, ranges, i - 1, max, iw, d) + chain_node_edits(
            tv,
            src,
            ranges,
            i - 1,
            max,
            iw,
            d,
        )
    }
}

/// One round: the chains nested exactly `d` deep in other chains, reformatted; `None` when
/// no chain is nested that deep (or the text does not parse).
pub open spec fn chain_round(src: Seq<char>, max: nat, iw: nat, d: nat) -> Option<Seq<char>> {
    match parsed_tree(src) {
        Some(tv) => {
            let n = tv.elems.len() as int;
            let ranges = chain_ranges(tv, n);
            if !has_root_at_depth(tv, ranges, n, d) {
                None
            } else {
                let es = chain_edits(tv, src, ranges, n, max, iw, d);
                Some(
                    if es.len() == 0 {
                        src
                    } else {
                        apply_edits(src, sort_desc(es))
                    },
                )
            }
        },
        None => None,
    }
}

/// The rounds from depth `d` on, at most `fuel` of them.
pub open spec fn chain_rounds(src: Seq<char>, max: nat, iw: nat, d: nat, fuel: nat) -> Seq<char>
    decreases fuel,
{
    if fuel == 0 {
        src
    } else {
        match chain_round(src, max, iw, d) {
            Some(next) => chain_rounds(next, max, iw, d + 1, (fuel - 1) as nat),
            None => src,
        }
    }
}

/// Reformats method chains, outermost first: a chain that fits on one line is joined onto
/// it, a longer one is broken before its method `.`s, each continuation indented one level
/// past the chain. A chain nested in another is judged on the line it sits on once the
/// chains around it are reformatted.
pub open spec fn chains_reformatted(src: Seq<char>, max: nat, iw: nat) -> Seq<char> {
    chain_rounds(src, max, iw, 0, usize::MAX as nat)
}

// ======================
// === Implementation ===
// ======================

fn is_chain_root_exec(t: &Cst, i: usize) -> (b: bool)
    requires
        shape_ok(t@),
        i < t.elems@.len(),
    ensures
        b == is_chain_root(t@, i as int),
{
    let e = t.elems[i];
    if e.is_token || !(e.kind == METHOD_CALL_EXPR || e.kind == FIELD_EXPR || e.kind == AWAIT_EXPR) {
        return false;
    }
    if i == 0 {
        return true;
    }
    assert(shape_elem(t@, i as int));
    let mut a = e.parent;
    loop
        invariant
            shape_ok(t@),
            a < t.elems@.len(),
            is_chain_root(t@, i as int) == outside_chain_from(t@, a as int),
        decreases a,
    {
        let k = t.elems[a].kind;
        if k == TRY_EXPR {
            if a == 0 {
                return true;
            }
            assert(shape_elem(t@, a as int));
            a = t.elems[a].parent;
        } else {
            return !(k == METHOD_CALL_EXPR || k == FIELD_EXPR || k == AWAIT_EXPR);
        }
    }
}

fn ws_start(src: &Vec<char>, pos: usize) -> (r: usize)
    requires
        pos <= src@.len(),
    ensures
        r == ws_start_before(src@, pos as int),
        r <= pos,
{
    let mut p = pos;
    while p > 0 && (src[p - 1] == ' ' || src[p - 1] == '\t' || src[p - 1] == '\n' || src[p - 1]
        == '\r')
        invariant
            p <= pos <= src@.len(),
            ws_start_before(src@, p as int) == ws_start_before(src@, pos as int),
        decreases p,
    {
        p = p - 1;
    }
    p
}

fn collect_points(t: &Cst, src: &Vec<char>, root: usize) -> (ps: Vec<BreakPoint>)
    requires
        wf(t@, src@),
        root < t.elems@.len(),
    ensures
        ps@ == chain_points_from(t@, src@, root as int),
        forall|k: int| 0 <= k < ps@.len() ==> #[trigger] ps@[k].ws <= ps@[k].dot <= src@.len(),
{
    let ghost tv = t@;
    proof {
        lemma_wf_shape(tv, src@);
    }
    let mut ps: Vec<BreakPoint> = Vec::new();
    let mut cur = root;
    loop
        invariant
            wf(tv, src@),
            shape_ok(tv),
            tv == t@,
            cur < t.elems@.len(),
            ps@ + chain_points_from(tv, src@, cur as int) == chain_points_from(
                tv,
                src@,
                root as int,
            ),
            forall|k: int| 0 <= k < ps@.len() ==> #[trigger] ps@[k].ws <= ps@[k].dot <= src@.len(),
        decreases t.elems@.len() - cur,
    {
        proof {
            lemma_end_bounded(tv, cur as int);
        }
        let k = t.elems[cur].kind;
        let ghost before = ps@;
        if k == METHOD_CALL_EXPR || k == FIELD_EXPR || k == AWAIT_EXPR {
            match find_child_kind(t, cur, DOT) {
                Some(d) => {
                    assert(elem_ok(tv, d as int, src@));
                    let dot = t.elems[d].lo;
                    let ws = ws_start(src, dot);
                    let seg = sub_vec(src, ws, dot);
                    let newline = contains_char_vec(&seg, '\n');
                    ps.push(BreakPoint { dot, ws, method: k != FIELD_EXPR, newline });
                    assert(ps@[ps@.len() - 1].ws <= ps@[ps@.len() - 1].dot <= src@.len());
                    assert(forall|q: int| 0 <= q < ps@.len() ==> #[trigger] ps@[q].ws <= ps@[q].dot <= src@.len());
                },
                None => {},
            }
        } else if k != TRY_EXPR {
            assert(chain_points_from(tv, src@, cur as int) =~= Seq::<BreakPoint>::empty());
            assert(ps@ =~= chain_points_from(tv, src@, root as int));
            return ps;
        }
        match first_child_node_of(t, cur) {
            Some(c) => {
                assert(ps@ + chain_points_from(tv, src@, c as int) =~= before
                    + chain_points_from(tv, src@, cur as int));
                cur = c;
            },
            None => {
                assert(ps@ =~= before + chain_points_from(tv, src@, cur as int));
                return ps;
            },
        }
    }
}

pub proof fn lemma_asc_slot(s: Seq<BreakPoint>, x: BreakPoint, k: int)
    requires
        0 <= k <= s.len(),
    ensures
        k <= asc_slot(s, x, k) <= s.len(),
    decreases s.len() - k,
{
    if k < s.len() && s[k].dot <= x.dot {
        lemma_asc_slot(s, x, k + 1);
    }
}

pub proof fn lemma_sort_points(ps: Seq<BreakPoint>)
    ensures
        sort_points(ps).len() == ps.len(),
        forall|k: int|
            0 <= k < sort_points(ps).len() ==> exists|j: int|
                0 <= j < ps.len() && ps[j] == #[trigger] sort_points(ps)[k],
    decreases ps.len(),
{
    if ps.len() > 0 {
        let s = sort_points(ps.drop_last());
        lemma_sort_points(ps.drop_last());
        lemma_asc_slot(s, ps.last(), 0);
        let p = asc_slot(s, ps.last(), 0);
        assert forall|k: int|
            0 <= k < sort_points(ps).len() implies exists|j: int|
                0 <= j < ps.len() && ps[j] == #[trigger] sort_points(ps)[k] by {
            if k < p {
                let j = choose|j: int| 0 <= j < ps.drop_last().len() && ps.drop_last()[j] == s[k];
                assert(ps[j] == sort_points(ps)[k]);
            } else if k == p {
                assert(ps[ps.len() - 1] == sort_points(ps)[k]);
            } else {
                let j = choose|j: int|
                    0 <= j < ps.drop_last().len() && ps.drop_last()[j] == s[k - 1];
                assert(ps[j] == sort_points(ps)[k]);
            }
        }
    }
}

fn sort_break_points(ps: &Vec<BreakPoint>) -> (r: Vec<BreakPoint>)
    ensures
        r@ == sort_points(ps@),
{
    let mut sorted: Vec<BreakPoint> = Vec::new();
    let mut k: usize = 0;
    assert(sorted@ =~= sort_points(ps@.take(0)));
    while k < ps.len()
        invariant
            k <= ps@.len(),
            sorted@ == sort_points(ps@.take(k as int)),
        decreases ps@.len() - k,
    {
        let x = ps[k];
        let ghost s = sort_points(ps@.take(k as int));
        proof {
            lemma_sort_points(ps@.take(k as int));
        }
        let mut p: usize = 0;
        while p < sorted.len() && sorted[p].dot <= x.dot
            invariant
                p <= sorted@.len(),
                sorted@ == s,
                asc_slot(s, x, p as int) == asc_slot(s, x, 0),
            decreases sorted@.len() - p,
        {
            p = p + 1;
        }
        proof {
            assert(ps@.take(k + 1).drop_last() =~= ps@.take(k as int));
            assert(ps@.take(k + 1).last() == x);
        }
        sorted.insert(p, x);
        k = k + 1;
    }
    assert(ps@.take(ps@.len() as int) =~= ps@);
    sorted
}

fn push_slice(out: &mut Vec<char>, s: &Vec<char>, a: i128, b: i128)
    ensures
        final(out)@ == old(out)@ + slice(s@, a as int, b as int),
{
    if 0 <= a && a <= b && b <= s.len() as i128 {
        push_range(out, s, a as usize, b as usize);
    } else {
        assert(old(out)@ + slice(s@, a as int, b as int) =~= old(out)@);
    }
}

fn flatten_chain_text(text: &Vec<char>, ps: &Vec<BreakPoint>, base: usize) -> (r: Vec<char>)
    ensures
        r@ == flatten_from(text@, ps@, base as int, 0, 0),
{
    let mut out: Vec<char> = Vec::new();
    let mut pos: i128 = 0;
    let mut k: usize = 0;
    assert(out@ + flatten_from(text@, ps@, base as int, 0, 0) =~= flatten_from(text@, ps@, base as int, 0, 0));
    while k < ps.len()
        invariant
            k <= ps@.len(),
            -(usize::MAX as int) <= pos <= usize::MAX,
            out@ + flatten_from(text@, ps@, base as int, k as int, pos as int) == flatten_from(
                text@,
                ps@,
                base as int,
                0,
                0,
            ),
        decreases ps@.len() - k,
    {
        let bp = ps[k];
        if bp.newline {
            let ws_local: i128 = bp.ws as i128 - base as i128;
            let dot_local: i128 = bp.dot as i128 - base as i128;
            let ghost before = out@;
            let ghost old_pos = pos;
            push_slice(&mut out, text, pos, ws_local);
            pos = dot_local;
            assert(out@ + flatten_from(text@, ps@, base as int, k + 1, pos as int) =~= before
                + flatten_from(text@, ps@, base as int, k as int, old_pos as int));
        }
        k = k + 1;
    }
    let ghost before = out@;
    push_slice(&mut out, text, pos, text.len() as i128);
    assert(out@ =~= before + flatten_from(text@, ps@, base as int, k as int, pos as int));
    out
}

fn slice_vec(s: &Vec<char>, a: usize, b: usize) -> (r: Vec<char>)
    ensures
        r@ == slice(s@, a as int, b as int),
{
    let mut r: Vec<char> = Vec::new();
    push_slice(&mut r, s, a as i128, b as i128);
    r
}

fn slice_bytes(s: &Vec<char>, a: usize, b: usize) -> (n: u128)
    ensures
        n == byte_len(slice(s@, a as int, b as int)),
        n <= 4 * (usize::MAX as int),
{
    let v = slice_vec(s, a, b);
    byte_len_of(&v)
}

fn line_start_at(src: &Vec<char>, pos: usize) -> (r: usize)
    requires
        pos <= src@.len(),
    ensures
        r == line_start_of(src@, pos as int),
        r <= pos,
{
    proof {
        lemma_rfind_before_bound(src@, '\n', pos as int);
    }
    match rfind_char(src, '\n', pos) {
        Some(p) => p + 1,
        None => 0,
    }
}

fn line_end_at(src: &Vec<char>, pos: usize) -> (r: usize)
    ensures
        r == line_end_of(src@, pos as int),
        r <= src@.len(),
{
    proof {
        lemma_find_from_bound(src@, '\n', pos as int);
    }
    match find_char(src, '\n', pos) {
        Some(p) => p,
        None => src.len(),
    }
}

fn push_edit(edits: &mut Vec<Edit>, start: usize, end: usize, text: Vec<char>)
    ensures
        view_edits(final(edits)@) == view_edits(old(edits)@).push((start as int, end as int, text@)),
{
    let ghost before = view_edits(edits@);
    edits.push(Edit { start, end, text });
    assert(view_edits(edits@) =~= before.push((start as int, end as int, text@)));
}

fn newline_then(indent: &Vec<char>) -> (r: Vec<char>)
    ensures
        r@ == seq!['\n'] + indent@,
{
    let mut r: Vec<char> = Vec::new();
    r.push('\n');
    push_all(&mut r, indent.as_slice());
    assert(r@ =~= seq!['\n'] + indent@);
    r
}

fn push_join_edits(edits: &mut Vec<Edit>, ps: &Vec<BreakPoint>)
    ensures
        view_edits(final(edits)@) == view_edits(old(edits)@) + join_edits(ps@, 0),
{
    let ghost start = view_edits(edits@);
    let mut k: usize = 0;
    assert(view_edits(edits@) + join_edits(ps@, 0) =~= start + join_edits(ps@, 0));
    while k < ps.len()
        invariant
            k <= ps@.len(),
            view_edits(edits@) + join_edits(ps@, k as int) == start + join_edits(ps@, 0),
        decreases ps@.len() - k,
    {
        let bp = ps[k];
        let ghost before = view_edits(edits@);
        if bp.newline {
            push_edit(edits, bp.ws, bp.dot, Vec::new());
            assert(view_edits(edits@) + join_edits(ps@, k + 1) =~= before + join_edits(ps@, k as int));
        }
        k = k + 1;
    }
    assert(join_edits(ps@, k as int) =~= Seq::<(int, int, Seq<char>)>::empty());
    assert(view_edits(edits@) =~= start + join_edits(ps@, 0));
}

fn push_break_edits(edits: &mut Vec<Edit>, ps: &Vec<BreakPoint>, a: usize, b: usize, indent: &Vec<char>)
    requires
        b <= ps@.len(),
    ensures
        view_edits(final(edits)@) == view_edits(old(edits)@) + break_edits(ps@, a as int, b as int, indent@),
{
    let ghost start = view_edits(edits@);
    let mut k: usize = a;
    assert(view_edits(edits@) + break_edits(ps@, a as int, b as int, indent@) =~= start + break_edits(ps@, a as int, b as int, indent@));
    while k < b
        invariant
            b <= ps@.len(),
            view_edits(edits@) + break_edits(ps@, k as int, b as int, indent@) == start
                + break_edits(ps@, a as int, b as int, indent@),
        decreases b - k,
    {
        let bp = ps[k];
        let ghost before = view_edits(edits@);
        if bp.method && !bp.newline {
            push_edit(edits, bp.ws, bp.dot, newline_then(indent));
            assert(view_edits(edits@) + break_edits(ps@, k + 1, b as int, indent@) =~= before
                + break_edits(ps@, k as int, b as int, indent@));
        }
        k = k + 1;
    }
    assert(break_edits(ps@, k as int, b as int, indent@) =~= Seq::<(int, int, Seq<char>)>::empty());
    assert(view_edits(edits@) =~= start + break_edits(ps@, a as int, b as int, indent@));
}

fn push_long_line_edits(
    edits: &mut Vec<Edit>,
    src: &Vec<char>,
    ps: &Vec<BreakPoint>,
    max: usize,
    indent: &Vec<char>,
)
    ensures
        view_edits(final(edits)@) == view_edits(old(edits)@) + long_line_edits(src@, ps@, 0, max as nat, indent@),
{
    let ghost start = view_edits(edits@);
    let mut k: usize = 0;
    assert(view_edits(edits@) + long_line_edits(src@, ps@, 0, max as nat, indent@) =~= start + long_line_edits(src@, ps@, 0, max as nat, indent@));
    while k < ps.len()
        invariant
            k <= ps@.len(),
            view_edits(edits@) + long_line_edits(src@, ps@, k as int, max as nat, indent@) == start
                + long_line_edits(src@, ps@, 0, max as nat, indent@),
        decreases ps@.len() - k,
    {
        let bp = ps[k];
        let ghost before = view_edits(edits@);
        if bp.method && !bp.newline {
            let ls = if bp.dot <= src.len() {
                line_start_at(src, bp.dot)
            } else {
                0
            };
            proof {
                if bp.dot > src@.len() {
                    assert(line_start_of(src@, bp.dot as int) == 0);
                }
            }
            let le = line_end_at(src, bp.dot);
            if slice_bytes(src, ls, le) > max as u128 {
                push_edit(edits, bp.ws, bp.dot, newline_then(indent));
            }
            assert(view_edits(edits@) + long_line_edits(src@, ps@, k + 1, max as nat, indent@) =~= before
                + long_line_edits(src@, ps@, k as int, max as nat, indent@));
        }
        k = k + 1;
    }
    assert(long_line_edits(src@, ps@, k as int, max as nat, indent@) =~= Seq::<(int, int, Seq<char>)>::empty());
    assert(view_edits(edits@) =~= start + long_line_edits(src@, ps@, 0, max as nat, indent@));
}

fn suffix_bytes(src: &Vec<char>, hi: usize) -> (n: u128)
    ensures
        n == suffix_len(src@, hi as int),
        n <= 4 * (usize::MAX as int),
{
    let after = slice_vec(src, hi, src.len());
    match find_char(&after, '\n', 0) {
        Some(p) => {
            let head = sub_vec(&after, 0, p);
            assert(head@ =~= after@.take(p as int));
            let te = trim_end_vec(&head);
            byte_len_of(&te)
        },
        None => {
            let te = trim_end_vec(&after);
            byte_len_of(&te)
        },
    }
}

fn first_newline_index(ps: &Vec<BreakPoint>) -> (f: usize)
    ensures
        f == first_newline(ps@, 0),
        f <= ps@.len(),
{
    let mut k: usize = 0;
    while k < ps.len() && !ps[k].newline
        invariant
            k <= ps@.len(),
            first_newline(ps@, k as int) == first_newline(ps@, 0),
        decreases ps@.len() - k,
    {
        k = k + 1;
    }
    k
}

/// Appends the edits that the chain rooted at node `i` of a parsed tree asks for in the
/// round for chains nested `d` deep.
pub fn chain_node(
    t: &Cst,
    src: &Vec<char>,
    ranges: &Vec<(usize, usize)>,
    i: usize,
    max: usize,
    unit: &Vec<char>,
    d: usize,
    edits: &mut Vec<Edit>,
)
    requires
        wf(t@, src@),
        i < t.elems@.len(),
        unit@ == spaces(unit@.len()),
    ensures
        view_edits(final(edits)@) == view_edits(old(edits)@) + chain_node_edits(
            t@,
            src@,
            ranges@,
            i as int,
            max as nat,
            unit@.len(),
            d as nat,
        ),
{
    let ghost tv = t@;
    proof {
        lemma_wf_shape(tv, src@);
        lemma_end_bounded(tv, i as int);
        if i > 0 {
            assert(elem_ok(tv, i as int, src@));
        }
    }
    if !is_chain_root_exec(t, i) {
        return ;
    }
    let e = t.elems[i];
    let mut nested = false;
    let mut count: usize = 0;
    let mut k: usize = 0;
    while k < ranges.len()
        invariant
            k <= ranges@.len(),
            count <= k,
            count == enclosing_count(ranges@, e.lo, e.hi, k as int),
            nested == exists|q: int|
                0 <= q < k && ranges@[q] != (e.lo, e.hi) && ranges@[q].0 <= e.lo && e.hi
                    <= #[trigger] ranges@[q].1,
        decreases ranges@.len() - k,
    {
        let r = ranges[k];
        if (r.0 != e.lo || r.1 != e.hi) && r.0 <= e.lo && e.hi <= r.1 {
            nested = true;
            count = count + 1;
        }
        k = k + 1;
    }
    if count != d {
        return ;
    }
    if nested {
        let ls = line_start_at(src, e.lo);
        let le = line_end_at(src, e.hi);
        if slice_bytes(src, ls, le) <= max as u128 {
            return ;
        }
    }
    assert(!nested_and_fits(src@, ranges@, e.lo, e.hi, max as nat));
    let raw = collect_points(t, src, i);
    let ps = sort_break_points(&raw);
    if ps.len() == 0 {
        return ;
    }
    let text = slice_vec(src, e.lo, e.hi);
    let flat = flatten_chain_text(&text, &ps, e.lo);
    let level: usize = match find_child_kind(t, i, DOT) {
        Some(d) => if t.elems[d].is_token {
            compute_indent_level(t, d)
        } else {
            0
        },
        None => 0,
    };
    assert(level == chain_indent(tv, i as int));
    let mut indent: Vec<char> = Vec::new();
    push_repeat(&mut indent, unit, level as u128 + 1);
    assert(indent@ =~= repeat_seq(spaces(unit@.len()), chain_indent(tv, i as int) + 1));
    if !contains_char_vec(&flat, '\n') {
        let ls = line_start_at(src, e.lo);
        let total: u128 = slice_bytes(src, ls, e.lo) + byte_len_of(&flat) + suffix_bytes(src, e.hi);
        if total <= max as u128 {
            push_join_edits(edits, &ps);
        } else {
            let f = first_newline_index(&ps);
            if f < ps.len() {
                let first_line_len = slice_bytes(src, ls, ps[f].ws);
                if first_line_len > max as u128 {
                    push_break_edits(edits, &ps, 0, f, &indent);
                } else {
                    assert(view_edits(edits@) =~= view_edits(edits@) + Seq::<(int, int, Seq<char>)>::empty());
                }
                push_break_edits(edits, &ps, f, ps.len(), &indent);
            } else {
                push_break_edits(edits, &ps, 0, ps.len(), &indent);
            }
        }
    } else {
        push_long_line_edits(edits, src, &ps, max, &indent);
    }
}

fn enclosing_count_exec(ranges: &Vec<(usize, usize)>, lo: usize, hi: usize) -> (c: usize)
    ensures
        c == enclosing_count(ranges@, lo, hi, ranges@.len() as int),
{
    let mut count: usize = 0;
    let mut k: usize = 0;
    while k < ranges.len()
        invariant
            k <= ranges@.len(),
            count <= k,
            count == enclosing_count(ranges@, lo, hi, k as int),
        decreases ranges@.len() - k,
    {
        let r = ranges[k];
        if (r.0 != lo || r.1 != hi) && r.0 <= lo && hi <= r.1 {
            count = count + 1;
        }
        k = k + 1;
    }
    count
}

fn chain_round_exec(source: &Vec<char>, config: &Config, d: usize) -> (r: Option<Vec<char>>)
    ensures
        match r {
            Some(v) => chain_round(source@, config.max_line_length as nat, config.indent_width as nat, d as nat)
                == Some(v@),
            None => chain_round(source@, config.max_line_length as nat, config.indent_width as nat, d as nat)
                is None,
        },
{
    let t = match parse_cst(source) {
        Some(t) => t,
        None => {
            return None;
        },
    };
    let ghost tv = t@;
    proof {
        lemma_wf_shape(tv, source@);
    }
    let max = config.max_line_length;
    let unit = crate::text::space_run(config.indent_width);
    let n = t.elems.len();
    let mut ranges: Vec<(usize, usize)> = Vec::new();
    let mut i: usize = 0;
    while i < n
        invariant
            n == t.elems@.len(),
            tv == t@,
            shape_ok(tv),
            i <= n,
            ranges@ == chain_ranges(tv, i as int),
        decreases n - i,
    {
        if is_chain_root_exec(&t, i) {
            ranges.push((t.elems[i].lo, t.elems[i].hi));
        }
        i = i + 1;
    }
    let mut deep = false;
    let mut i: usize = 0;
    while i < n
        invariant
            n == t.elems@.len(),
            tv == t@,
            shape_ok(tv),
            i <= n,
            ranges@ == chain_ranges(tv, n as int),
            deep == has_root_at_depth(tv, ranges@, i as int, d as nat),
        decreases n - i,
    {
        if is_chain_root_exec(&t, i) && enclosing_count_exec(&ranges, t.elems[i].lo, t.elems[i].hi)
            >= d {
            deep = true;
        }
        i = i + 1;
    }
    if !deep {
        return None;
    }
    let mut edits: Vec<Edit> = Vec::new();
    let mut i: usize = 0;
    assert(view_edits(edits@) =~= chain_edits(tv, source@, ranges@, 0, max as nat, config.indent_width as nat, d as nat));
    while i < n
        invariant
            n == t.elems@.len(),
            tv == t@,
            wf(tv, source@),
            i <= n,
            unit@ == spaces(config.indent_width as nat),
            unit@.len() == config.indent_width,
            ranges@ == chain_ranges(tv, n as int),
            view_edits(edits@) == chain_edits(tv, source@, ranges@, i as int, max as nat, config.indent_width as nat, d as nat),
        decreases n - i,
    {
        chain_node(&t, source, &ranges, i, max, &unit, d, &mut edits);
        i = i + 1;
    }
    if edits.len() == 0 {
        return Some(copy_vec(source));
    }
    let sorted = sort_edits_desc(edits);
    Some(apply_all(source, &sorted))
}

/// Joins method chains that fit on one line and breaks over-long ones before their method
/// `.`s, outermost chains first.
pub fn reformat_chains(source: &Vec<char>, config: &Config) -> (r: Vec<char>)
    ensures
        r@ == chains_reformatted(source@, config.max_line_length as nat, config.indent_width as nat),
{
    let ghost max = config.max_line_length as nat;
    let ghost iw = config.indent_width as nat;
    let mut s = copy_vec(source);
    let mut d: usize = 0;
    let mut fuel: usize = usize::MAX;
    loop
        invariant_except_break
            d + fuel == usize::MAX,
            max == config.max_line_length as nat,
            iw == config.indent_width as nat,
            chain_rounds(s@, max, iw, d as nat, fuel as nat) == chain_rounds(source@, max, iw, 0, usize::MAX as nat),
        ensures
            s@ == chain_rounds(source@, max, iw, 0, usize::MAX as nat),
        decreases fuel,
    {
        if fuel == 0 {
            break ;
        }
        match chain_round_exec(&s, config, d) {
            Some(next) => {
                assert(chain_rounds(s@, max, iw, d as nat, fuel as nat) == chain_rounds(
                    next@,
                    max,
                    iw,
                    (d + 1) as nat,
                    (fuel - 1) as nat,
                ));
                s = next;
                d = d + 1;
                fuel = fuel - 1;
            },
            None => {
                break ;
            },
        }
    }
    s
}

// ============
// === Laws ===
// ============

/// Node `c` is a method call or an `.await` whose `.` starts at `dot`.
pub open spec fn is_method_link(tv: TreeV, c: int, dot: int) -> bool {
    &&& kind_at(tv, c) == METHOD_CALL_EXPR || kind_at(tv, c) == AWAIT_EXPR
    &&& find_child(tv, c, DOT) matches Some(d) && tv.elems[d].lo == dot
}

/// The `.` at `dot` is that of a method call or of an `.await` (not of a field access).
pub open spec fn method_dot(tv: TreeV, dot: int) -> bool {
    exists|c: int| 0 <= c < tv.elems.len() && #[trigger] is_method_link(tv, c, dot)
}

/// All spaces.
pub open spec fn all_spaces(s: Seq<char>) -> bool {
    forall|k: int| 0 <= k < s.len() ==> #[trigger] s[k] == ' '
}

/// What a chain edit may do: replace exactly the spaces, tabs and line breaks before a `.`
/// by nothing, where they hold a line break, or by a line break and spaces, before the `.`
/// of a method call or `.await` only.
pub open spec fn chain_edit_ok(tv: TreeV, src: Seq<char>, e: (int, int, Seq<char>)) -> bool {
    &&& 0 <= e.0 <= e.1 <= src.len()
    &&& e.0 == ws_start_before(src, e.1)
    &&& {
        ||| e.2.len() == 0 && contains_char(src.subrange(e.0, e.1), '\n')
        ||| e.2.len() > 0 && e.2[0] == '\n' && all_spaces(e.2.drop_first()) && method_dot(tv, e.1)
    }
}

/// A break point as the tree and the text make it.
pub open spec fn point_ok(tv: TreeV, src: Seq<char>, q: BreakPoint) -> bool {
    &&& q.ws <= q.dot <= src.len()
    &&& q.ws as int == ws_start_before(src, q.dot as int)
    &&& q.newline == contains_char(src.subrange(q.ws as int, q.dot as int), '\n')
    &&& q.method ==> method_dot(tv, q.dot as int)
}

proof fn lemma_ws_start_before(src: Seq<char>, pos: int)
    requires
        0 <= pos <= src.len(),
    ensures
        0 <= ws_start_before(src, pos) <= pos,
    decreases pos,
{
    if 0 < pos && is_ws4(src[pos - 1]) {
        lemma_ws_start_before(src, pos - 1);
    }
}

proof fn lemma_find_child_from_bound(tv: TreeV, j: int, stop: int, k: u16)
    ensures
        find_child_from(tv, j, stop, k) matches Some(d) ==> j <= d < tv.elems.len() && d < stop,
    decreases stop - j,
{
    if !(j < 0 || j >= stop || j >= tv.elems.len() || tv.elems[j].end <= j) && tv.elems[j].kind
        != k {
        lemma_find_child_from_bound(tv, next_sib_index(tv, j, stop), stop, k);
    }
}

proof fn lemma_link_point_ok(tv: TreeV, src: Seq<char>, cur: int, method: bool)
    requires
        wf(tv, src),
        0 <= cur < tv.elems.len(),
        method ==> kind_at(tv, cur) == METHOD_CALL_EXPR || kind_at(tv, cur) == AWAIT_EXPR,
    ensures
        forall|k: int|
            0 <= k < link_point(tv, src, cur, method).len() ==> point_ok(
                tv,
                src,
                #[trigger] link_point(tv, src, cur, method)[k],
            ),
{
    lemma_find_child_from_bound(tv, cur + 1, tv.elems[cur].end as int, DOT);
    lemma_wf_shape(tv, src);
    match find_child(tv, cur, DOT) {
        Some(d) => {
            assert(tv.elems[d] == tv.elems[d]);
            assert(elem_ok(tv, d, src));
            let dot = tv.elems[d].lo;
            lemma_ws_start_before(src, dot as int);
            if method {
                assert(is_method_link(tv, cur, dot as int));
            }
            let q = link_point(tv, src, cur, method)[0];
            assert(point_ok(tv, src, q));
        },
        None => {},
    }
}

proof fn lemma_chain_points_ok(tv: TreeV, src: Seq<char>, cur: int)
    requires
        wf(tv, src),
    ensures
        forall|k: int|
            0 <= k < chain_points_from(tv, src, cur).len() ==> point_ok(
                tv,
                src,
                #[trigger] chain_points_from(tv, src, cur)[k],
            ),
    decreases tv.elems.len() - cur,
{
    if 0 <= cur < tv.elems.len() {
        let k = kind_at(tv, cur);
        let rest = match first_child_node(tv, cur) {
            Some(c) => if cur < c < tv.elems.len() {
                chain_points_from(tv, src, c)
            } else {
                Seq::empty()
            },
            None => Seq::empty(),
        };
        match first_child_node(tv, cur) {
            Some(c) => if cur < c < tv.elems.len() {
                lemma_chain_points_ok(tv, src, c);
            },
            None => {},
        }
        let ps = chain_points_from(tv, src, cur);
        if k == METHOD_CALL_EXPR || k == AWAIT_EXPR || k == FIELD_EXPR {
            let m = k == METHOD_CALL_EXPR || k == AWAIT_EXPR;
            let lp = link_point(tv, src, cur, m);
            lemma_link_point_ok(tv, src, cur, m);
            assert(ps == lp + rest);
            assert forall|j: int| 0 <= j < ps.len() implies point_ok(tv, src, #[trigger] ps[j]) by {
                if j < lp.len() {
                    assert(ps[j] == lp[j]);
                } else {
                    assert(ps[j] == rest[j - lp.len()]);
                }
            }
        }
    }
}

proof fn lemma_sorted_points_ok(tv: TreeV, src: Seq<char>, ps: Seq<BreakPoint>)
    requires
        forall|k: int| 0 <= k < ps.len() ==> point_ok(tv, src, #[trigger] ps[k]),
    ensures
        forall|k: int|
            0 <= k < sort_points(ps).len() ==> point_ok(tv, src, #[trigger] sort_points(ps)[k]),
{
    lemma_sort_points(ps);
    assert forall|k: int| 0 <= k < sort_points(ps).len() implies point_ok(
        tv,
        src,
        #[trigger] sort_points(ps)[k],
    ) by {
        let j = choose|j: int| 0 <= j < ps.len() && ps[j] == #[trigger] sort_points(ps)[k];
        assert(point_ok(tv, src, ps[j]));
    }
}

proof fn lemma_break_text_ok(indent: Seq<char>)
    requires
        all_spaces(indent),
    ensures
        (seq!['\n'] + indent).len() > 0,
        (seq!['\n'] + indent)[0] == '\n',
        all_spaces((seq!['\n'] + indent).drop_first()),
{
    assert((seq!['\n'] + indent).drop_first() =~= indent);
}

proof fn lemma_join_edits_ok(tv: TreeV, src: Seq<char>, ps: Seq<BreakPoint>, k: int)
    requires
        forall|j: int| 0 <= j < ps.len() ==> point_ok(tv, src, #[trigger] ps[j]),
    ensures
        forall|m: int| 0 <= m < join_edits(ps, k).len() ==> chain_edit_ok(tv, src, #[trigger] join_edits(ps, k)[m]),
    decreases ps.len() - k,
{
    if 0 <= k < ps.len() {
        lemma_join_edits_ok(tv, src, ps, k + 1);
        let es = join_edits(ps, k);
        let rest = join_edits(ps, k + 1);
        assert(point_ok(tv, src, ps[k]));
        if ps[k].newline {
            let head = seq![(ps[k].ws as int, ps[k].dot as int, Seq::<char>::empty())];
            assert forall|m: int| 0 <= m < es.len() implies chain_edit_ok(tv, src, #[trigger] es[m]) by {
                if m == 0 {
                    assert(es[m] == head[0]);
                } else {
                    assert(es[m] == rest[m - 1]);
                }
            }
        }
    }
}

proof fn lemma_break_edits_ok(tv: TreeV, src: Seq<char>, ps: Seq<BreakPoint>, k: int, b: int, indent: Seq<char>)
    requires
        forall|j: int| 0 <= j < ps.len() ==> point_ok(tv, src, #[trigger] ps[j]),
        all_spaces(indent),
    ensures
        forall|m: int|
            0 <= m < break_edits(ps, k, b, indent).len() ==> chain_edit_ok(
                tv,
                src,
                #[trigger] break_edits(ps, k, b, indent)[m],
            ),
    decreases b - k,
{
    if !(k < 0 || k >= b || k >= ps.len()) {
        lemma_break_edits_ok(tv, src, ps, k + 1, b, indent);
        let es = break_edits(ps, k, b, indent);
        let rest = break_edits(ps, k + 1, b, indent);
        assert(point_ok(tv, src, ps[k]));
        if ps[k].method && !ps[k].newline {
            lemma_break_text_ok(indent);
            assert forall|m: int| 0 <= m < es.len() implies chain_edit_ok(tv, src, #[trigger] es[m]) by {
                if m == 0 {
                    assert(es[m] == (ps[k].ws as int, ps[k].dot as int, seq!['\n'] + indent));
                } else {
                    assert(es[m] == rest[m - 1]);
                }
            }
        }
    }
}

proof fn lemma_long_line_edits_ok(
    tv: TreeV,
    src: Seq<char>,
    ps: Seq<BreakPoint>,
    k: int,
    max: nat,
    indent: Seq<char>,
)
    requires
        forall|j: int| 0 <= j < ps.len() ==> point_ok(tv, src, #[trigger] ps[j]),
        all_spaces(indent),
    ensures
        forall|m: int|
            0 <= m < long_line_edits(src, ps, k, max, indent).len() ==> chain_edit_ok(
                tv,
                src,
                #[trigger] long_line_edits(src, ps, k, max, indent)[m],
            ),
    decreases ps.len() - k,
{
    if 0 <= k < ps.len() {
        lemma_long_line_edits_ok(tv, src, ps, k + 1, max, indent);
        let es = long_line_edits(src, ps, k, max, indent);
        let rest = long_line_edits(src, ps, k + 1, max, indent);
        assert(point_ok(tv, src, ps[k]));
        if es.len() > rest.len() {
            lemma_break_text_ok(indent);
            assert forall|m: int| 0 <= m < es.len() implies chain_edit_ok(tv, src, #[trigger] es[m]) by {
                if m == 0 {
                    assert(es[m] == (ps[k].ws as int, ps[k].dot as int, seq!['\n'] + indent));
                } else {
                    assert(es[m] == rest[m - 1]);
                }
            }
        } else {
            assert(es == rest);
        }
    }
}

proof fn lemma_edits_concat_ok(tv: TreeV, src: Seq<char>, a: Seq<(int, int, Seq<char>)>, b: Seq<(int, int, Seq<char>)>)
    requires
        forall|m: int| 0 <= m < a.len() ==> chain_edit_ok(tv, src, #[trigger] a[m]),
        forall|m: int| 0 <= m < b.len() ==> chain_edit_ok(tv, src, #[trigger] b[m]),
    ensures
        forall|m: int| 0 <= m < (a + b).len() ==> chain_edit_ok(tv, src, #[trigger] (a + b)[m]),
{
    assert forall|m: int| 0 <= m < (a + b).len() implies chain_edit_ok(tv, src, #[trigger] (a + b)[m]) by {
        if m < a.len() {
            assert((a + b)[m] == a[m]);
        } else {
            assert((a + b)[m] == b[m - a.len()]);
        }
    }
}

proof fn lemma_repeat_spaces(iw: nat, n: nat)
    ensures
        all_spaces(repeat_seq(spaces(iw), n)),
    decreases n,
{
    if n > 0 {
        lemma_repeat_spaces(iw, (n - 1) as nat);
        let r = repeat_seq(spaces(iw), (n - 1) as nat);
        assert forall|k: int| 0 <= k < (r + spaces(iw)).len() implies #[trigger] (r + spaces(iw))[k] == ' ' by {
            if k < r.len() {
                assert((r + spaces(iw))[k] == r[k]);
            } else {
                assert((r + spaces(iw))[k] == spaces(iw)[k - r.len()]);
            }
        }
    }
}

proof fn lemma_chain_node_edits_ok(
    tv: TreeV,
    src: Seq<char>,
    ranges: Seq<(usize, usize)>,
    i: int,
    max: nat,
    iw: nat,
    d: nat,
)
    requires
        wf(tv, src),
        0 <= i < tv.elems.len(),
    ensures
        forall|m: int|
            0 <= m < chain_node_edits(tv, src, ranges, i, max, iw, d).len() ==> chain_edit_ok(
                tv,
                src,
                #[trigger] chain_node_edits(tv, src, ranges, i, max, iw, d)[m],
            ),
{
    let e = tv.elems[i];
    if is_chain_root(tv, i) && chain_depth(tv, ranges, i) == d && !nested_and_fits(
        src,
        ranges,
        e.lo,
        e.hi,
        max,
    ) {
        let ps = sort_points(chain_points_from(tv, src, i));
        lemma_chain_points_ok(tv, src, i);
        lemma_sorted_points_ok(tv, src, chain_points_from(tv, src, i));
        let indent = repeat_seq(spaces(iw), chain_indent(tv, i) + 1);
        lemma_repeat_spaces(iw, chain_indent(tv, i) + 1);
        lemma_join_edits_ok(tv, src, ps, 0);
        lemma_break_edits_ok(tv, src, ps, 0, ps.len() as int, indent);
        lemma_long_line_edits_ok(tv, src, ps, 0, max, indent);
        let f = first_newline(ps, 0);
        lemma_break_edits_ok(tv, src, ps, 0, f, indent);
        lemma_break_edits_ok(tv, src, ps, f, ps.len() as int, indent);
        lemma_edits_concat_ok(tv, src, break_edits(ps, 0, f, indent), break_edits(ps, f, ps.len() as int, indent));
        lemma_edits_concat_ok(tv, src, Seq::empty(), break_edits(ps, f, ps.len() as int, indent));
        assert(Seq::<(int, int, Seq<char>)>::empty() + break_edits(ps, f, ps.len() as int, indent)
            =~= break_edits(ps, f, ps.len() as int, indent));
    }
}

/// Every edit that chain reformatting makes replaces exactly the run of spaces, tabs and
/// line breaks before a chain's `.`: by nothing only where that run holds a line break (a
/// join), and by a line break and spaces only before the `.` of a method call or `.await`,
/// never before a field access.
pub proof fn law_chain_edits_only_at_dots(src: Seq<char>, max: nat, iw: nat, d: nat)
    ensures
        parsed_tree(src) matches Some(tv) ==> ({
            let n = tv.elems.len() as int;
            let es = chain_edits(tv, src, chain_ranges(tv, n), n, max, iw, d);
            forall|m: int| 0 <= m < es.len() ==> chain_edit_ok(tv, src, #[trigger] es[m])
        }),
{
    if let Some(tv) = parsed_tree(src) {
        let n = tv.elems.len() as int;
        lemma_chain_edits_ok(tv, src, chain_ranges(tv, n), n, max, iw, d);
    }
}

proof fn lemma_chain_edits_ok(
    tv: TreeV,
    src: Seq<char>,
    ranges: Seq<(usize, usize)>,
    i: int,
    max: nat,
    iw: nat,
    d: nat,
)
    requires
        wf(tv, src),
        i <= tv.elems.len(),
    ensures
        forall|m: int|
            0 <= m < chain_edits(tv, src, ranges, i, max, iw, d).len() ==> chain_edit_ok(
                tv,
                src,
                #[trigger] chain_edits(tv, src, ranges, i, max, iw, d)[m],
            ),
    decreases i,
{
    if i > 0 {
        lemma_chain_edits_ok(tv, src, ranges, i - 1, max, iw, d);
        lemma_chain_node_edits_ok(tv, src, ranges, i - 1, max, iw, d);
        lemma_edits_concat_ok(
            tv,
            src,
            chain_edits(tv, src, ranges, i - 1, max, iw, d),
            chain_node_edits(tv, src, ranges, i - 1, max, iw, d),
        );
    }
}

} // verus!
