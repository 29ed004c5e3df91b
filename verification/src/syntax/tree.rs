use vstd::prelude::*;

use ra_ap_syntax::AstNode;
use ra_ap_syntax::NodeOrToken;
use ra_ap_syntax::WalkEvent;

use crate::text::byte_len;
use crate::text::byte_len_of;
use crate::text::range_eq;
use crate::text::chars_of;
use crate::text::string_from_chars;

verus! {

// ===================
// === Parser walk ===
// ===================

/// One step of the preorder walk over rust-analyzer's concrete syntax tree: entering or
/// leaving an element, its raw kind, whether it is a token, and (for tokens) its text.
pub struct WalkStep {
    pub enter: bool,
    pub kind: u16,
    pub is_token: bool,
    pub text: String,
}

impl View for WalkStep {
    type V = (bool, u16, bool, Seq<char>);

    open spec fn view(&self) -> (bool, u16, bool, Seq<char>) {
        (self.enter, self.kind, self.is_token, self.text@)
    }
}

/// The preorder walk (with tokens) of the syntax tree that ra_ap_syntax builds for `source`.
pub uninterp spec fn cst_walk(source: Seq<char>) -> Seq<(bool, u16, bool, Seq<char>)>;

pub open spec fn view_steps(steps: Seq<WalkStep>) -> Seq<(bool, u16, bool, Seq<char>)> {
    steps.map_values(|w: WalkStep| w@)
}

/// Parses `source` with `ra_ap_syntax::SourceFile::parse` (edition `Edition::CURRENT`) and
/// lists the events of `SyntaxNode::preorder_with_tokens` over its root, one step per event.
/// The contract names the result only: nothing is claimed of the tree's shape, which the
/// library checks itself before using it. The source must fit the parser's 32-bit text
/// offsets (at most `u32::MAX` bytes of UTF-8); on longer text the lexer's lengths wrap and
/// the call panics or does not return. Left unsaid: the parser descends recursively, so
/// nesting deep enough to exhaust the thread's stack aborts the process; where that happens
/// depends on the stack size the program runs with, not on the text alone, so no bound on
/// the text is stated for it.
#[verifier::external_body]
fn parse_walk(source: &str) -> (steps: Vec<WalkStep>)
    requires
        byte_len(source@) <= u32::MAX,
    ensures
        view_steps(steps@) == cst_walk(source@),
{
    let file = ra_ap_syntax::SourceFile::parse(source, ra_ap_syntax::Edition::CURRENT).tree();
    let mut steps = Vec::new();
    for event in file.syntax().preorder_with_tokens() {
        let (enter, el) = match event {
            WalkEvent::Enter(el) => (true, el),
            WalkEvent::Leave(el) => (false, el),
        };
        let (is_token, text) = match &el {
            NodeOrToken::Node(_) => (false, String::new()),
            NodeOrToken::Token(t) => (true, t.text().to_string()),
        };
        steps.push(WalkStep { enter, kind: u16::from(el.kind()), is_token, text });
    }
    steps
}

// ============
// === Tree ===
// ============

/// An element of the tree, in preorder. `parent` is the index of the enclosing node (the root
/// is its own parent), `end` is the index just past the element's subtree, `prev_sib` the
/// index of the previous element with the same parent, and `lo..hi` the characters of the
/// source that the element covers.
#[derive(Clone, Copy)]
pub struct Elem {
    pub kind: u16,
    pub is_token: bool,
    pub parent: usize,
    pub end: usize,
    pub prev_sib: Option<usize>,
    pub lo: usize,
    pub hi: usize,
}

/// The concrete syntax tree as plain values: elements in preorder and each token's text.
pub struct Cst {
    pub elems: Vec<Elem>,
    pub texts: Vec<Vec<char>>,
}

/// The mathematical model of a `Cst`.
pub struct TreeV {
    pub elems: Seq<Elem>,
    pub texts: Seq<Seq<char>>,
}

impl View for Cst {
    type V = TreeV;

    open spec fn view(&self) -> TreeV {
        TreeV { elems: self.elems@, texts: self.texts@.map_values(|t: Vec<char>| t@) }
    }
}

// =======================
// === Building a tree ===
// =======================

/// The state of building a tree from walk steps: elements and texts so far, the stack of
/// open nodes (each with its last child so far), the current source offset, and whether the
/// steps made sense so far.
pub struct BuildV {
    pub elems: Seq<Elem>,
    pub texts: Seq<Seq<char>>,
    pub stack: Seq<(usize, Option<usize>)>,
    pub pos: usize,
    pub ok: bool,
}

pub open spec fn build_init() -> BuildV {
    BuildV { elems: Seq::empty(), texts: Seq::empty(), stack: Seq::empty(), pos: 0, ok: true }
}

pub open spec fn build_fail(st: BuildV) -> BuildV {
    BuildV { ok: false, ..st }
}

/// One walk step applied to the build state.
pub open spec fn build_step(st: BuildV, step: (bool, u16, bool, Seq<char>)) -> BuildV {
    if !st.ok {
        st
    } else if step.0 {
        let idx = st.elems.len();
        let len: int = if step.2 {
            step.3.len() as int
        } else {
            0
        };
        if idx >= usize::MAX || st.pos + len > usize::MAX {
            build_fail(st)
        } else {
            let parent: usize = if st.stack.len() > 0 {
                st.stack.last().0
            } else {
                idx as usize
            };
            let prev: Option<usize> = if st.stack.len() > 0 {
                st.stack.last().1
            } else {
                None
            };
            let e = Elem {
                kind: step.1,
                is_token: step.2,
                parent,
                end: 0,
                prev_sib: prev,
                lo: st.pos,
                hi: (st.pos + len) as usize,
            };
            let text = if step.2 {
                step.3
            } else {
                Seq::<char>::empty()
            };
            let stack1 = if st.stack.len() > 0 {
                st.stack.update(st.stack.len() - 1, (st.stack.last().0, Some(idx as usize)))
            } else {
                st.stack
            };
            BuildV {
                elems: st.elems.push(e),
                texts: st.texts.push(text),
                stack: stack1.push((idx as usize, None)),
                pos: (st.pos + len) as usize,
                ok: true,
            }
        }
    } else if st.stack.len() == 0 {
        build_fail(st)
    } else {
        let idx = st.stack.last().0;
        if idx >= st.elems.len() || st.elems.len() > usize::MAX {
            build_fail(st)
        } else {
            let e = Elem { end: st.elems.len() as usize, hi: st.pos, ..st.elems[idx as int] };
            BuildV { elems: st.elems.update(idx as int, e), stack: st.stack.drop_last(), ..st }
        }
    }
}

pub open spec fn build_upto(steps: Seq<(bool, u16, bool, Seq<char>)>, k: int) -> BuildV
    decreases k,
{
    if k <= 0 {
        build_init()
    } else {
        build_step(build_upto(steps, k - 1), steps[k - 1])
    }
}

pub open spec fn build(steps: Seq<(bool, u16, bool, Seq<char>)>) -> BuildV {
    build_upto(steps, steps.len() as int)
}

// =======================
// === Well-formedness ===
// =======================

/// The nesting conditions on element `i`.
pub open spec fn shape_elem(tv: TreeV, i: int) -> bool {
    let e = tv.elems[i];
    &&& e.parent < i
    &&& !tv.elems[e.parent as int].is_token
    &&& i < e.end <= tv.elems[e.parent as int].end
    &&& e.is_token ==> e.end == i + 1
    &&& match e.prev_sib {
        Some(s) => s < i && tv.elems[s as int].parent == e.parent && tv.elems[s as int].end == i,
        None => i == e.parent + 1,
    }
}

/// Element `i` covers characters of `src`, and a token covers exactly its text.
pub open spec fn span_elem(tv: TreeV, i: int, src: Seq<char>) -> bool {
    let e = tv.elems[i];
    &&& e.lo <= e.hi <= src.len()
    &&& e.is_token ==> src.subrange(e.lo as int, e.hi as int) == tv.texts[i]
}

pub open spec fn elem_ok(tv: TreeV, i: int, src: Seq<char>) -> bool {
    shape_elem(tv, i) && span_elem(tv, i, src)
}

pub open spec fn root_ok(tv: TreeV) -> bool {
    let n = tv.elems.len();
    &&& 1 <= n < usize::MAX
    &&& tv.texts.len() == n
    &&& !tv.elems[0].is_token
    &&& tv.elems[0].parent == 0
    &&& tv.elems[0].end == n
    &&& tv.elems[0].prev_sib is None
}

/// A tree whose elements nest properly.
pub open spec fn shape_ok(tv: TreeV) -> bool {
    &&& root_ok(tv)
    &&& forall|i: int| 1 <= i < tv.elems.len() ==> #[trigger] shape_elem(tv, i)
}

/// A tree whose elements nest properly and whose tokens spell out `src`.
pub open spec fn wf(tv: TreeV, src: Seq<char>) -> bool {
    &&& root_ok(tv)
    &&& tv.elems[0].lo == 0
    &&& tv.elems[0].hi == src.len()
    &&& forall|i: int| 1 <= i < tv.elems.len() ==> #[trigger] elem_ok(tv, i, src)
}

pub proof fn lemma_wf_shape(tv: TreeV, src: Seq<char>)
    requires
        wf(tv, src),
    ensures
        shape_ok(tv),
        forall|i: int| 1 <= i < tv.elems.len() ==> #[trigger] span_elem(tv, i, src),
{
    assert forall|i: int| 1 <= i < tv.elems.len() implies #[trigger] shape_elem(tv, i) by {
        assert(elem_ok(tv, i, src));
    }
    assert forall|i: int| 1 <= i < tv.elems.len() implies #[trigger] span_elem(tv, i, src) by {
        assert(elem_ok(tv, i, src));
    }
}

/// The tree that the walk `steps` describes for `src`, when it describes a well-formed tree
/// that spells out `src`.
pub open spec fn tree_of_walk(steps: Seq<(bool, u16, bool, Seq<char>)>, src: Seq<char>) -> Option<
    TreeV,
> {
    let st = build(steps);
    let tv = TreeV { elems: st.elems, texts: st.texts };
    if st.ok && st.stack.len() == 0 && wf(tv, src) {
        Some(tv)
    } else {
        None
    }
}

/// The tree that ra_ap_syntax gives for `src`, when the text fits the parser's 32-bit
/// offsets and its walk builds a well-formed tree.
pub open spec fn parsed_tree(src: Seq<char>) -> Option<TreeV> {
    if byte_len(src) > u32::MAX {
        None
    } else {
        tree_of_walk(cst_walk(src), src)
    }
}

fn build_from_steps(steps: &Vec<WalkStep>) -> (r: (Cst, bool, usize))
    ensures
        ({
            let st = build(view_steps(steps@));
            &&& r.1 == st.ok
            &&& st.ok ==> r.0@.elems == st.elems && r.0@.texts == st.texts && r.2 == st.stack.len()
        }),
{
    let ghost vs = view_steps(steps@);
    let mut elems: Vec<Elem> = Vec::new();
    let mut texts: Vec<Vec<char>> = Vec::new();
    let mut stack: Vec<(usize, Option<usize>)> = Vec::new();
    let mut pos: usize = 0;
    let mut k: usize = 0;
    assert(texts@.map_values(|t: Vec<char>| t@) =~= Seq::<Seq<char>>::empty());
    while k < steps.len()
        invariant
            k <= steps@.len(),
            vs == view_steps(steps@),
            ({
                let st = build_upto(vs, k as int);
                &&& st.ok
                &&& elems@ == st.elems
                &&& texts@.map_values(|t: Vec<char>| t@) == st.texts
                &&& stack@ == st.stack
                &&& pos == st.pos
            }),
        decreases steps@.len() - k,
    {
        let ghost st = build_upto(vs, k as int);
        let step = &steps[k];
        assert(vs[k as int] == step@);
        let ghost texts_before = texts@.map_values(|t: Vec<char>| t@);
        if step.enter {
            let idx = elems.len();
            let text = chars_of(step.text.as_str());
            let len: usize = if step.is_token {
                text.len()
            } else {
                0
            };
            if idx == usize::MAX || pos > usize::MAX - len {
                let t = Cst { elems, texts };
                proof {
                    lemma_build_stays_failed(vs, k as int + 1, vs.len() as int);
                }
                return (t, false, 0);
            }
            let (parent, prev) = if stack.len() > 0 {
                let top = stack[stack.len() - 1];
                (top.0, top.1)
            } else {
                (idx, None)
            };
            let e = Elem {
                kind: step.kind,
                is_token: step.is_token,
                parent,
                end: 0,
                prev_sib: prev,
                lo: pos,
                hi: pos + len,
            };
            elems.push(e);
            if step.is_token {
                texts.push(text);
            } else {
                texts.push(Vec::new());
            }
            if stack.len() > 0 {
                let last = stack.len() - 1;
                let top = stack[last];
                stack.set(last, (top.0, Some(idx)));
            }
            stack.push((idx, None));
            pos = pos + len;
            assert(texts@.map_values(|t: Vec<char>| t@) =~= build_upto(vs, k + 1).texts);
        } else {
            if stack.len() == 0 {
                let t = Cst { elems, texts };
                proof {
                    lemma_build_stays_failed(vs, k as int + 1, vs.len() as int);
                }
                return (t, false, 0);
            }
            let top = stack[stack.len() - 1];
            let idx = top.0;
            if idx >= elems.len() {
                let t = Cst { elems, texts };
                proof {
                    lemma_build_stays_failed(vs, k as int + 1, vs.len() as int);
                }
                return (t, false, 0);
            }
            let old_e = elems[idx];
            let e = Elem { end: elems.len(), hi: pos, ..old_e };
            elems.set(idx, e);
            stack.pop();
            assert(texts@.map_values(|t: Vec<char>| t@) =~= build_upto(vs, k + 1).texts);
        }
        assert(elems@ =~= build_upto(vs, k + 1).elems);
        assert(stack@ =~= build_upto(vs, k + 1).stack);
        k = k + 1;
    }
    assert(vs.len() == steps@.len());
    let n = stack.len();
    (Cst { elems, texts }, true, n)
}

fn check_elem(t: &Cst, i: usize, src: &Vec<char>) -> (b: bool)
    requires
        t.elems@.len() == t.texts@.len(),
        1 <= i < t.elems@.len(),
    ensures
        b == elem_ok(t@, i as int, src@),
{
    let e = t.elems[i];
    if e.parent >= i {
        return false;
    }
    let pe = t.elems[e.parent];
    if pe.is_token || !(i < e.end && e.end <= pe.end) {
        return false;
    }
    if e.is_token && e.end != i + 1 {
        return false;
    }
    if !(e.lo <= e.hi && e.hi <= src.len()) {
        return false;
    }
    if e.is_token && !range_eq(src, e.lo, e.hi, &t.texts[i]) {
        return false;
    }
    match e.prev_sib {
        Some(s) => s < i && t.elems[s].parent == e.parent && t.elems[s].end == i,
        None => i == e.parent + 1,
    }
}

fn check_wf(t: &Cst, src: &Vec<char>) -> (b: bool)
    ensures
        b == wf(t@, src@),
{
    let n = t.elems.len();
    if n < 1 || n == usize::MAX || t.texts.len() != n {
        return false;
    }
    let r = t.elems[0];
    if r.is_token || r.parent != 0 || r.end != n || r.prev_sib.is_some() || r.lo != 0 || r.hi
        != src.len() {
        return false;
    }
    let mut i: usize = 1;
    while i < n
        invariant
            n == t.elems@.len(),
            n == t.texts@.len(),
            1 <= i <= n,
            forall|j: int| 1 <= j < i ==> #[trigger] elem_ok(t@, j, src@),
        decreases n - i,
    {
        if !check_elem(t, i, src) {
            return false;
        }
        i = i + 1;
    }
    true
}

/// Builds the tree that a parser walk describes for `src`, or `None` when the walk does not
/// describe a well-formed tree that spells out `src`.
pub fn tree_from_walk(steps: &Vec<WalkStep>, src: &Vec<char>) -> (r: Option<Cst>)
    ensures
        match r {
            Some(t) => tree_of_walk(view_steps(steps@), src@) == Some(t@),
            None => tree_of_walk(view_steps(steps@), src@) is None,
        },
{
    let (t, ok, depth) = build_from_steps(steps);
    if ok && depth == 0 && check_wf(&t, src) {
        Some(t)
    } else {
        None
    }
}

/// Parses `src` into a `Cst`, or `None` when the text is longer than the parser's 32-bit
/// offsets allow or the parser's walk does not describe a well-formed tree that spells out
/// `src`.
pub fn parse_cst(src: &Vec<char>) -> (r: Option<Cst>)
    ensures
        match r {
            Some(t) => parsed_tree(src@) == Some(t@),
            None => parsed_tree(src@) is None,
        },
{
    if byte_len_of(src) > u32::MAX as u128 {
        return None;
    }
    let s = string_from_chars(src.as_slice());
    let steps = parse_walk(s.as_str());
    tree_from_walk(&steps, src)
}

pub proof fn lemma_build_stays_failed(steps: Seq<(bool, u16, bool, Seq<char>)>, k: int, m: int)
    requires
        0 < k <= m,
        !build_upto(steps, k).ok,
    ensures
        !build_upto(steps, m).ok,
    decreases m - k,
{
    if k < m {
        lemma_build_stays_failed(steps, k + 1, m);
    }
}

// ==============
// === Tiling ===
// ==============

/// The texts `texts[..k]`, end to end.
pub open spec fn texts_upto(texts: Seq<Seq<char>>, k: int) -> Seq<char>
    decreases k,
{
    if k <= 0 {
        Seq::empty()
    } else {
        texts_upto(texts, k - 1) + texts[k - 1]
    }
}

/// Some element after the first is its own parent: a second root.
pub open spec fn has_extra_root(elems: Seq<Elem>) -> bool {
    exists|i: int| 1 <= i < elems.len() && (#[trigger] elems[i]).parent == i
}

/// What building keeps true: each element starts where the texts before it end, nodes
/// have no text, and once the stack empties the first root ends at the current offset
/// (unless a second root was opened).
pub open spec fn build_inv(st: BuildV) -> bool {
    &&& st.texts.len() == st.elems.len()
    &&& st.pos == texts_upto(st.texts, st.texts.len() as int).len()
    &&& forall|i: int|
        0 <= i < st.elems.len() ==> (#[trigger] st.elems[i]).lo == texts_upto(st.texts, i).len()
    &&& forall|i: int|
        0 <= i < st.elems.len() && !(#[trigger] st.elems[i]).is_token ==> st.texts[i].len() == 0
    &&& st.stack.len() > 0 ==> (st.stack[0].0 == 0 || has_extra_root(st.elems))
    &&& (st.stack.len() == 0 && st.elems.len() > 0) ==> (st.elems[0].hi == st.pos
        || has_extra_root(st.elems))
}

proof fn lemma_texts_upto_prefix(texts: Seq<Seq<char>>, t: Seq<char>, k: int)
    requires
        0 <= k <= texts.len(),
    ensures
        texts_upto(texts.push(t), k) == texts_upto(texts, k),
    decreases k,
{
    if k > 0 {
        lemma_texts_upto_prefix(texts, t, k - 1);
        assert(texts.push(t)[k - 1] == texts[k - 1]);
    }
}

proof fn lemma_build_step_inv(st: BuildV, step: (bool, u16, bool, Seq<char>))
    requires
        st.ok,
        build_inv(st),
        build_step(st, step).ok,
    ensures
        build_inv(build_step(st, step)),
{
    let st2 = build_step(st, step);
    let n = st.elems.len() as int;
    if step.0 {
        let text = if step.2 {
            step.3
        } else {
            Seq::<char>::empty()
        };
        assert(st2.texts == st.texts.push(text));
        assert(st2.elems.len() == n + 1);
        lemma_texts_upto_prefix(st.texts, text, n);
        assert(texts_upto(st2.texts, n + 1) == texts_upto(st.texts, n) + text);
        assert forall|i: int| 0 <= i < st2.elems.len() implies (#[trigger] st2.elems[i]).lo
            == texts_upto(st2.texts, i).len() by {
            if i < n {
                assert(st2.elems[i] == st.elems[i]);
                lemma_texts_upto_prefix(st.texts, text, i);
            }
        }
        assert forall|i: int| 0 <= i < st2.elems.len() && !(#[trigger] st2.elems[i]).is_token implies st2.texts[i].len()
            == 0 by {
            if i < n {
                assert(st2.elems[i] == st.elems[i]);
                assert(st2.texts[i] == st.texts[i]);
            }
        }
        if has_extra_root(st.elems) {
            let w = choose|w: int| 1 <= w < st.elems.len() && (#[trigger] st.elems[w]).parent == w;
            assert(st2.elems[w] == st.elems[w]);
            assert(has_extra_root(st2.elems));
        }
        if st.stack.len() == 0 && n > 0 {
            assert(st2.elems[n].parent == n);
            assert(has_extra_root(st2.elems));
        }
        if st.stack.len() > 0 {
            assert(st2.stack[0].0 == st.stack[0].0);
        }
    } else {
        let idx = st.stack.last().0;
        assert(st2.texts == st.texts);
        assert(st2.pos == st.pos);
        assert forall|i: int| 0 <= i < st2.elems.len() implies (#[trigger] st2.elems[i]).lo
            == texts_upto(st2.texts, i).len() by {
            assert(st2.elems[i].lo == st.elems[i].lo);
        }
        assert forall|i: int| 0 <= i < st2.elems.len() && !(#[trigger] st2.elems[i]).is_token implies st2.texts[i].len()
            == 0 by {
            assert(st2.elems[i].is_token == st.elems[i].is_token);
        }
        if has_extra_root(st.elems) {
            let w = choose|w: int| 1 <= w < st.elems.len() && (#[trigger] st.elems[w]).parent == w;
            assert(st2.elems[w].parent == st.elems[w].parent);
            assert(has_extra_root(st2.elems));
        }
        if st2.stack.len() > 0 {
            assert(st2.stack[0] == st.stack[0]);
        } else if !has_extra_root(st.elems) {
            assert(idx == st.stack[0].0);
            assert(idx == 0);
            assert(st2.elems[0].hi == st.pos);
        }
    }
}

proof fn lemma_build_inv(steps: Seq<(bool, u16, bool, Seq<char>)>, m: int)
    requires
        0 <= m <= steps.len(),
        build_upto(steps, m).ok,
    ensures
        build_inv(build_upto(steps, m)),
    decreases m,
{
    if m > 0 {
        let prev = build_upto(steps, m - 1);
        if !prev.ok {
            assert(build_upto(steps, m) == prev);
        }
        lemma_build_inv(steps, m - 1);
        lemma_build_step_inv(prev, steps[m - 1]);
    } else {
        assert(texts_upto(Seq::<Seq<char>>::empty(), 0) =~= Seq::<char>::empty());
    }
}

proof fn lemma_tiling_prefix(tv: TreeV, src: Seq<char>, k: int)
    requires
        wf(tv, src),
        0 <= k <= tv.elems.len(),
        forall|i: int|
            0 <= i < tv.elems.len() ==> (#[trigger] tv.elems[i]).lo == texts_upto(tv.texts, i).len(),
        forall|i: int| 0 <= i < tv.elems.len() && !(#[trigger] tv.elems[i]).is_token ==> tv.texts[i].len() == 0,
    ensures
        texts_upto(tv.texts, k).len() <= src.len(),
        texts_upto(tv.texts, k) == src.take(texts_upto(tv.texts, k).len() as int),
    decreases k,
{
    if k > 0 {
        lemma_tiling_prefix(tv, src, k - 1);
        let prev = texts_upto(tv.texts, k - 1);
        let e = tv.elems[k - 1];
        if e.is_token {
            assert(k - 1 >= 1);
            assert(elem_ok(tv, k - 1, src));
            assert(e.lo == prev.len());
            assert(src.subrange(e.lo as int, e.hi as int) == tv.texts[k - 1]);
            assert(src.take(e.hi as int) =~= src.take(e.lo as int) + src.subrange(e.lo as int, e.hi as int));
        } else {
            assert(tv.texts[k - 1] =~= Seq::<char>::empty());
            assert(prev + tv.texts[k - 1] =~= prev);
        }
    } else {
        assert(src.take(0) =~= Seq::<char>::empty());
    }
}

/// The tokens of a parsed tree spell out the source, end to end (nodes carry no text).
pub proof fn lemma_parsed_tiling(src: Seq<char>)
    requires
        parsed_tree(src) is Some,
    ensures
        ({
            let tv = parsed_tree(src)->0;
            &&& texts_upto(tv.texts, tv.elems.len() as int) == src
            &&& forall|i: int|
                0 <= i < tv.elems.len() && !(#[trigger] tv.elems[i]).is_token ==> tv.texts[i].len()
                    == 0
        }),
{
    let steps = cst_walk(src);
    let st = build(steps);
    let tv = parsed_tree(src)->0;
    lemma_build_inv(steps, steps.len() as int);
    assert(tv.elems == st.elems && tv.texts == st.texts);
    assert(!has_extra_root(st.elems)) by {
        if has_extra_root(st.elems) {
            let w = choose|w: int| 1 <= w < st.elems.len() && (#[trigger] st.elems[w]).parent == w;
            assert(elem_ok(tv, w, src));
        }
    }
    assert(st.elems[0].hi == st.pos);
    lemma_tiling_prefix(tv, src, tv.elems.len() as int);
    assert(src.take(src.len() as int) =~= src);
}

} // verus!
