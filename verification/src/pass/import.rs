use vstd::prelude::*;

use crate::syntax::indentation::lemma_end_bounded;
use crate::syntax::kind::ATTR;
use crate::syntax::kind::IDENT;
use crate::syntax::kind::ITEM_LIST;
use crate::syntax::kind::MODULE;
use crate::syntax::kind::NAME;
use crate::syntax::kind::PATH;
use crate::syntax::kind::RENAME;
use crate::syntax::kind::STAR;
use crate::syntax::kind::UNDERSCORE;
use crate::syntax::kind::USE;
use crate::syntax::kind::USE_TREE;
use crate::syntax::kind::USE_TREE_LIST;
use crate::syntax::kind::VISIBILITY;
use crate::syntax::nav::child_list;
use crate::syntax::nav::children_of;
use crate::syntax::nav::find_child;
use crate::syntax::nav::find_child_kind;
use crate::syntax::nav::next_sib_index;
use crate::syntax::tree::Cst;
use crate::syntax::tree::TreeV;
use crate::syntax::tree::elem_ok;
use crate::syntax::tree::lemma_wf_shape;
use crate::syntax::tree::parse_cst;
use crate::syntax::tree::parsed_tree;
use crate::syntax::tree::shape_ok;
use crate::syntax::tree::wf;
use crate::text::copy_vec;
use crate::text::ends_with;
use crate::text::ends_with_vec;
use crate::text::join_with;
use crate::text::join_with_vec;
use crate::text::lemma_lex_irreflexive;
use crate::text::lemma_lex_transitive;
use crate::text::lex_lt;
use crate::text::lex_lt_vec;
use crate::text::push_all;
use crate::text::starts_with;
use crate::text::starts_with_vec;
use crate::text::sub_vec;
use crate::text::view_lines;

verus! {

// ========================
// === Text of the tree ===
// ========================

/// The source text of element `i`.
pub open spec fn node_text(tv: TreeV, src: Seq<char>, i: int) -> Seq<char> {
    src.subrange(tv.elems[i].lo as int, tv.elems[i].hi as int)
}

pub open spec fn valid_index(tv: TreeV, src: Seq<char>, i: int) -> bool {
    wf(tv, src) && 0 <= i < tv.elems.len()
}

pub proof fn lemma_valid_index(tv: TreeV, src: Seq<char>, i: int)
    requires
        valid_index(tv, src, i),
    ensures
        tv.elems[i].lo <= tv.elems[i].hi <= src.len(),
        i < tv.elems[i].end <= tv.elems.len(),
        shape_ok(tv),
{
    lemma_wf_shape(tv, src);
    lemma_end_bounded(tv, i);
    if i > 0 {
        assert(elem_ok(tv, i, src));
    }
}

fn node_text_vec(t: &Cst, src: &Vec<char>, i: usize) -> (r: Vec<char>)
    requires
        valid_index(t@, src@, i as int),
    ensures
        r@ == node_text(t@, src@, i as int),
{
    proof {
        lemma_valid_index(t@, src@, i as int);
    }
    sub_vec(src, t.elems[i].lo, t.elems[i].hi)
}

/// The first token at an index in `j..stop` (`first_token` of a subtree).
pub open spec fn first_token_in(tv: TreeV, j: int, stop: int) -> Option<int>
    decreases stop - j,
{
    if j < 0 || j >= stop || j >= tv.elems.len() {
        None
    } else if tv.elems[j].is_token {
        Some(j)
    } else {
        first_token_in(tv, j + 1, stop)
    }
}

/// The first identifier or `_` token at an index in `j..stop`.
pub open spec fn first_name_token_in(tv: TreeV, j: int, stop: int) -> Option<int>
    decreases stop - j,
{
    if j < 0 || j >= stop || j >= tv.elems.len() {
        None
    } else if tv.elems[j].is_token && (tv.elems[j].kind == IDENT || tv.elems[j].kind
        == UNDERSCORE) {
        Some(j)
    } else {
        first_name_token_in(tv, j + 1, stop)
    }
}

fn first_token_scan(t: &Cst, j: usize, stop: usize, names_only: bool) -> (r: Option<usize>)
    ensures
        match r {
            Some(x) => x < t.elems@.len() && Some(x as int) == if names_only {
                first_name_token_in(t@, j as int, stop as int)
            } else {
                first_token_in(t@, j as int, stop as int)
            },
            None => (if names_only {
                first_name_token_in(t@, j as int, stop as int)
            } else {
                first_token_in(t@, j as int, stop as int)
            }) is None,
        },
{
    let mut k = j;
    while k < stop && k < t.elems.len() && !(t.elems[k].is_token && (!names_only || t.elems[k].kind
        == IDENT || t.elems[k].kind == UNDERSCORE))
        invariant
            j <= k,
            names_only ==> first_name_token_in(t@, k as int, stop as int) == first_name_token_in(
                t@,
                j as int,
                stop as int,
            ),
            !names_only ==> first_token_in(t@, k as int, stop as int) == first_token_in(
                t@,
                j as int,
                stop as int,
            ),
        decreases stop - k,
    {
        k = k + 1;
    }
    if k < stop && k < t.elems.len() {
        Some(k)
    } else {
        None
    }
}

// ========================
// === flatten_use_tree ===
// ========================

pub open spec fn colon2() -> Seq<char> {
    seq![':', ':']
}

/// `prefix::segment`, leaving out an empty part.
pub open spec fn join_path(prefix: Seq<char>, segment: Seq<char>) -> Seq<char> {
    if prefix.len() == 0 {
        segment
    } else if segment.len() == 0 {
        prefix
    } else {
        prefix + colon2() + segment
    }
}

pub open spec fn self_kw() -> Seq<char> {
    seq!['s', 'e', 'l', 'f']
}

/// The paths that the use tree `node` brings in under `prefix`, one per imported name:
/// `{..}` lists are expanded, `self` stands for the prefix, and renames are kept.
pub open spec fn flatten_tree(tv: TreeV, src: Seq<char>, prefix: Seq<char>, node: int) -> Seq<
    Seq<char>,
>
    decreases tv.elems.len() - node, 0int,
{
    if node < 0 || node >= tv.elems.len() {
        Seq::empty()
    } else {
        let segment = match find_child(tv, node, PATH) {
            Some(p) => node_text(tv, src, p),
            None => Seq::empty(),
        };
        let full = join_path(prefix, segment);
        match find_child(tv, node, USE_TREE_LIST) {
            Some(list) => if node < list < tv.elems.len() {
                flatten_list(tv, src, full, list + 1, tv.elems[list].end as int)
            } else {
                Seq::empty()
            },
            None => if find_child(tv, node, STAR) is Some {
                if full.len() == 0 {
                    seq![seq!['*']]
                } else {
                    seq![full + colon2() + seq!['*']]
                }
            } else if segment == self_kw() {
                seq![prefix]
            } else {
                match find_child(tv, node, RENAME) {
                    Some(r) => {
                        let name = match first_name_token_in(tv, r + 1, tv.elems[r].end as int) {
                            Some(x) => tv.texts[x],
                            None => Seq::empty(),
                        };
                        seq![full + seq![' ', 'a', 's', ' '] + name]
                    },
                    None => seq![full],
                }
            },
        }
    }
}

/// The paths of the use trees among the siblings from `j` to `stop`.
pub open spec fn flatten_list(
    tv: TreeV,
    src: Seq<char>,
    prefix: Seq<char>,
    j: int,
    stop: int,
) -> Seq<Seq<char>>
    decreases tv.elems.len() - j, 1int,
{
    if j < 0 || j >= stop || j >= tv.elems.len() || tv.elems[j].end <= j {
        Seq::empty()
    } else {
        let here = if !tv.elems[j].is_token && tv.elems[j].kind == USE_TREE {
            flatten_tree(tv, src, prefix, j)
        } else {
            Seq::empty()
        };
        let next = next_sib_index(tv, j, stop);
        if j < next <= tv.elems.len() {
            here + flatten_list(tv, src, prefix, next, stop)
        } else {
            here
        }
    }
}

fn join_path_vec(prefix: &Vec<char>, segment: &Vec<char>) -> (r: Vec<char>)
    ensures
        r@ == join_path(prefix@, segment@),
{
    if prefix.len() == 0 {
        copy_vec(segment)
    } else if segment.len() == 0 {
        copy_vec(prefix)
    } else {
        let mut r = copy_vec(prefix);
        r.push(':');
        r.push(':');
        push_all(&mut r, segment.as_slice());
        assert(r@ =~= prefix@ + colon2() + segment@);
        r
    }
}

/// The paths that a use tree of a parsed tree brings in under `prefix`, one per name.
pub fn flatten_use_tree(t: &Cst, src: &Vec<char>, prefix: &Vec<char>, node: usize) -> (r: Vec<
    Vec<char>,
>)
    requires
        wf(t@, src@),
    ensures
        view_lines(r@) == flatten_tree(t@, src@, prefix@, node as int),
    decreases t.elems@.len() - node, 0int,
{
    if node >= t.elems.len() {
        let r: Vec<Vec<char>> = Vec::new();
        assert(view_lines(r@) =~= Seq::<Seq<char>>::empty());
        return r;
    }
    proof {
        lemma_valid_index(t@, src@, node as int);
    }
    let segment = match find_child_kind(t, node, PATH) {
        Some(p) => node_text_vec(t, src, p),
        None => Vec::new(),
    };
    let full = join_path_vec(prefix, &segment);
    match find_child_kind(t, node, USE_TREE_LIST) {
        Some(list) => {
            proof {
                lemma_valid_index(t@, src@, list as int);
            }
            flatten_use_list(t, src, &full, list + 1, t.elems[list].end)
        },
        None => {
            let mut r: Vec<Vec<char>> = Vec::new();
            if find_child_kind(t, node, STAR).is_some() {
                if full.len() == 0 {
                    let mut s: Vec<char> = Vec::new();
                    s.push('*');
                    r.push(s);
                } else {
                    let mut s = copy_vec(&full);
                    s.push(':');
                    s.push(':');
                    s.push('*');
                    assert(s@ =~= full@ + colon2() + seq!['*']);
                    r.push(s);
                }
            } else if segment.len() == 4 && segment[0] == 's' && segment[1] == 'e' && segment[2]
                == 'l' && segment[3] == 'f' {
                assert(segment@ =~= self_kw());
                r.push(copy_vec(prefix));
            } else {
                proof {
                    if segment@ == self_kw() {
                        assert(segment@[0] == 's');
                    }
                }
                match find_child_kind(t, node, RENAME) {
                    Some(rn) => {
                        proof {
                            lemma_valid_index(t@, src@, rn as int);
                        }
                        let name = match first_token_scan(t, rn + 1, t.elems[rn].end, true) {
                            Some(x) => copy_vec(&t.texts[x]),
                            None => Vec::new(),
                        };
                        let mut s = copy_vec(&full);
                        s.push(' ');
                        s.push('a');
                        s.push('s');
                        s.push(' ');
                        push_all(&mut s, name.as_slice());
                        assert(s@ =~= full@ + seq![' ', 'a', 's', ' '] + name@);
                        r.push(s);
                    },
                    None => {
                        r.push(full);
                    },
                }
            }
            assert(view_lines(r@) =~= flatten_tree(t@, src@, prefix@, node as int));
            r
        },
    }
}

fn flatten_use_list(t: &Cst, src: &Vec<char>, prefix: &Vec<char>, j: usize, stop: usize) -> (r: Vec<
    Vec<char>,
>)
    requires
        wf(t@, src@),
    ensures
        view_lines(r@) == flatten_list(t@, src@, prefix@, j as int, stop as int),
    decreases t.elems@.len() - j, 1int,
{
    if j >= stop || j >= t.elems.len() || t.elems[j].end <= j {
        let r: Vec<Vec<char>> = Vec::new();
        assert(view_lines(r@) =~= Seq::<Seq<char>>::empty());
        return r;
    }
    let mut here = if !t.elems[j].is_token && t.elems[j].kind == USE_TREE {
        flatten_use_tree(t, src, prefix, j)
    } else {
        let r: Vec<Vec<char>> = Vec::new();
        assert(view_lines(r@) =~= Seq::<Seq<char>>::empty());
        r
    };
    let e = t.elems[j].end;
    let next = if e >= stop {
        stop
    } else {
        e
    };
    if j < next && next <= t.elems.len() {
        let mut rest = flatten_use_list(t, src, prefix, next, stop);
        let ghost h = view_lines(here@);
        let ghost rv = view_lines(rest@);
        here.append(&mut rest);
        assert(view_lines(here@) =~= h + rv);
    }
    here
}

// ==========================
// === hoist_late_imports ===
// ==========================

pub open spec fn is_ws4(c: char) -> bool {
    c == '\n' || c == '\r' || c == ' ' || c == '\t'
}

/// The index after the spaces, tabs and line breaks that start at `k`.
pub open spec fn skip_ws4(s: Seq<char>, k: int) -> int
    decreases s.len() - k,
{
    if 0 <= k < s.len() && is_ws4(s[k]) {
        skip_ws4(s, k + 1)
    } else {
        k
    }
}

/// What the scan for stray imports has found: whether it is past the leading imports,
/// whether it has seen one, where the leading imports end, and the stray `use` items.
pub struct HoistV {
    pub past: bool,
    pub seen: bool,
    pub insert_after: int,
    pub late: Seq<(int, int)>,
    pub texts: Seq<Seq<char>>,
}

pub open spec fn hoist_step(tv: TreeV, src: Seq<char>, st: HoistV, c: int) -> HoistV {
    let e = tv.elems[c];
    if e.is_token {
        st
    } else if e.kind == USE {
        if st.past {
            HoistV {
                late: st.late.push((e.lo as int, e.hi as int)),
                texts: st.texts.push(node_text(tv, src, c)),
                ..st
            }
        } else {
            HoistV { seen: true, insert_after: e.hi as int, ..st }
        }
    } else if e.kind == MODULE {
        if find_child(tv, c, ITEM_LIST) is Some {
            if st.seen {
                HoistV { past: true, ..st }
            } else {
                st
            }
        } else if !st.past {
            HoistV { seen: true, insert_after: e.hi as int, ..st }
        } else {
            st
        }
    } else if st.seen {
        HoistV { past: true, ..st }
    } else {
        st
    }
}

pub open spec fn hoist_scan(tv: TreeV, src: Seq<char>, cs: Seq<int>, k: int) -> HoistV
    decreases k,
{
    if k <= 0 {
        HoistV {
            past: false,
            seen: false,
            insert_after: 0,
            late: Seq::empty(),
            texts: Seq::empty(),
        }
    } else {
        hoist_step(tv, src, hoist_scan(tv, src, cs, k - 1), cs[k - 1])
    }
}

/// `s` with `s[lo..hi]` and the whitespace after it removed.
pub open spec fn remove_span(s: Seq<char>, lo: int, hi: int) -> Seq<char> {
    let ae = skip_ws4(s, hi);
    if 0 <= lo <= ae <= s.len() {
        s.take(lo) + s.skip(ae)
    } else {
        s
    }
}

/// The spans `late[..k]` removed, the last one first.
pub open spec fn remove_spans(s: Seq<char>, late: Seq<(int, int)>, k: int) -> Seq<char>
    decreases k,
{
    if k <= 0 || k > late.len() {
        s
    } else {
        remove_spans(remove_span(s, late[k - 1].0, late[k - 1].1), late, k - 1)
    }
}

/// `String::insert_str` at a valid index.
pub open spec fn insert_at(s: Seq<char>, at: int, t: Seq<char>) -> Seq<char> {
    if 0 <= at <= s.len() {
        s.take(at) + t + s.skip(at)
    } else {
        s
    }
}

/// Moves the `use` items that come after other items up to the end of the leading imports.
pub open spec fn late_imports_hoisted(src: Seq<char>) -> Seq<char> {
    match parsed_tree(src) {
        Some(tv) => {
            let cs = child_list(tv, 0);
            let st = hoist_scan(tv, src, cs, cs.len() as int);
            if st.late.len() == 0 {
                src
            } else {
                let removed = remove_spans(src, st.late, st.late.len() as int);
                insert_at(removed, st.insert_after, seq!['\n'] + join_with(st.texts, seq!['\n']))
            }
        },
        None => src,
    }
}

fn skip_ws4_at(s: &Vec<char>, k: usize) -> (r: usize)
    ensures
        r == skip_ws4(s@, k as int),
{
    let mut j = k;
    while j < s.len() && (s[j] == '\n' || s[j] == '\r' || s[j] == ' ' || s[j] == '\t')
        invariant
            k <= j,
            skip_ws4(s@, j as int) == skip_ws4(s@, k as int),
        decreases s@.len() - j,
    {
        j = j + 1;
    }
    j
}

fn remove_span_vec(s: &Vec<char>, lo: usize, hi: usize) -> (r: Vec<char>)
    ensures
        r@ == remove_span(s@, lo as int, hi as int),
{
    let ae = skip_ws4_at(s, hi);
    if lo <= ae && ae <= s.len() {
        let mut r: Vec<char> = Vec::new();
        crate::text::push_range(&mut r, s, 0, lo);
        crate::text::push_range(&mut r, s, ae, s.len());
        assert(r@ =~= s@.take(lo as int) + s@.skip(ae as int));
        r
    } else {
        copy_vec(s)
    }
}

fn insert_at_vec(s: &Vec<char>, at: usize, t: &Vec<char>) -> (r: Vec<char>)
    ensures
        r@ == insert_at(s@, at as int, t@),
{
    if at <= s.len() {
        let mut r: Vec<char> = Vec::new();
        crate::text::push_range(&mut r, s, 0, at);
        push_all(&mut r, t.as_slice());
        crate::text::push_range(&mut r, s, at, s.len());
        assert(r@ =~= s@.take(at as int) + t@ + s@.skip(at as int));
        r
    } else {
        copy_vec(s)
    }
}

/// Moves the `use` items that follow other items up to the end of the leading import section.
pub fn hoist_late_imports(source: &Vec<char>) -> (r: Vec<char>)
    ensures
        r@ == late_imports_hoisted(source@),
{
    let t = match parse_cst(source) {
        Some(t) => t,
        None => {
            return copy_vec(source);
        },
    };
    let ghost tv = t@;
    proof {
        lemma_valid_index(tv, source@, 0);
    }
    let cs = children_of(&t, 0);
    let ghost cv = cs@.map_values(|x: usize| x as int);
    let mut past = false;
    let mut seen = false;
    let mut insert_after: usize = 0;
    let mut late: Vec<(usize, usize)> = Vec::new();
    let mut texts: Vec<Vec<char>> = Vec::new();
    let mut k: usize = 0;
    assert(view_lines(texts@) =~= Seq::<Seq<char>>::empty());
    assert(late@.map_values(|p: (usize, usize)| (p.0 as int, p.1 as int)) =~= Seq::<(int, int)>::empty());
    while k < cs.len()
        invariant
            k <= cs@.len(),
            tv == t@,
            wf(tv, source@),
            cv == cs@.map_values(|x: usize| x as int),
            forall|q: int| 0 <= q < cs@.len() ==> 0 < #[trigger] cs@[q] < t.elems@.len(),
            ({
                let st = hoist_scan(tv, source@, cv, k as int);
                &&& st.past == past
                &&& st.seen == seen
                &&& st.insert_after == insert_after
                &&& st.late == late@.map_values(|p: (usize, usize)| (p.0 as int, p.1 as int))
                &&& st.texts == view_lines(texts@)
            }),
        decreases cs@.len() - k,
    {
        let c = cs[k];
        let e = t.elems[c];
        let ghost late_before = late@.map_values(|p: (usize, usize)| (p.0 as int, p.1 as int));
        let ghost texts_before = view_lines(texts@);
        if e.is_token {
        } else if e.kind == USE {
            if past {
                late.push((e.lo, e.hi));
                let txt = node_text_vec(&t, source, c);
                texts.push(txt);
                assert(late@.map_values(|p: (usize, usize)| (p.0 as int, p.1 as int)) =~= late_before.push((e.lo as int, e.hi as int)));
                assert(view_lines(texts@) =~= texts_before.push(node_text(tv, source@, c as int)));
            } else {
                seen = true;
                insert_after = e.hi;
            }
        } else if e.kind == MODULE {
            proof {
                lemma_valid_index(tv, source@, c as int);
            }
            if find_child_kind(&t, c, ITEM_LIST).is_some() {
                if seen {
                    past = true;
                }
            } else if !past {
                seen = true;
                insert_after = e.hi;
            }
        } else if seen {
            past = true;
        }
        k = k + 1;
    }
    assert(cv.len() == cs@.len());
    if late.len() == 0 {
        return copy_vec(source);
    }
    let ghost lv = late@.map_values(|p: (usize, usize)| (p.0 as int, p.1 as int));
    let mut result = copy_vec(source);
    let mut j = late.len();
    while j > 0
        invariant
            j <= late@.len(),
            lv == late@.map_values(|p: (usize, usize)| (p.0 as int, p.1 as int)),
            remove_spans(result@, lv, j as int) == remove_spans(source@, lv, lv.len() as int),
        decreases j,
    {
        let (lo, hi) = late[j - 1];
        result = remove_span_vec(&result, lo, hi);
        j = j - 1;
    }
    let mut ins: Vec<char> = Vec::new();
    ins.push('\n');
    let nl: [char; 1] = ['\n'];
    assert(nl@ =~= seq!['\n']);
    let joined = join_with_vec(&texts, &nl);
    push_all(&mut ins, joined.as_slice());
    assert(ins@ =~= seq!['\n'] + join_with(view_lines(texts@), seq!['\n']));
    insert_at_vec(&result, insert_after, &ins)
}

// ==============================
// === sort_and_group_imports ===
// ==============================

/// A `use` or `mod` item of the leading imports: its attributes, its visibility (with a
/// trailing space), the paths it imports, whether it is a `mod` declaration, and its name.
pub struct RawImport {
    pub attrs: Seq<Seq<char>>,
    pub vis: Seq<char>,
    pub paths: Seq<Seq<char>>,
    pub is_mod: bool,
    pub name: Seq<char>,
}

/// The import section found so far: its items, where it starts and ends, and whether the
/// scan is past it.
pub struct ImportScan {
    pub items: Seq<RawImport>,
    pub start: Option<int>,
    pub end: int,
    pub past: bool,
}

/// The visibility of item `c` followed by a space, or nothing.
pub open spec fn vis_of(tv: TreeV, src: Seq<char>, c: int) -> Seq<char> {
    match find_child(tv, c, VISIBILITY) {
        Some(v) => node_text(tv, src, v) + seq![' '],
        None => Seq::empty(),
    }
}

/// The texts of the attributes among the children `cs[..k]`.
pub open spec fn attrs_among(tv: TreeV, src: Seq<char>, cs: Seq<int>, k: int) -> Seq<Seq<char>>
    decreases k,
{
    if k <= 0 {
        Seq::empty()
    } else if !tv.elems[cs[k - 1]].is_token && tv.elems[cs[k - 1]].kind == ATTR {
        attrs_among(tv, src, cs, k - 1).push(node_text(tv, src, cs[k - 1]))
    } else {
        attrs_among(tv, src, cs, k - 1)
    }
}

pub open spec fn attrs_of(tv: TreeV, src: Seq<char>, c: int) -> Seq<Seq<char>> {
    let cs = child_list(tv, c);
    attrs_among(tv, src, cs, cs.len() as int)
}

/// The name of a `mod` item (the text of its name's first token).
pub open spec fn mod_name(tv: TreeV, c: int) -> Seq<char> {
    match find_child(tv, c, NAME) {
        Some(nm) => match first_token_in(tv, nm + 1, tv.elems[nm].end as int) {
            Some(x) => tv.texts[x],
            None => Seq::empty(),
        },
        None => Seq::empty(),
    }
}

pub open spec fn import_step(tv: TreeV, src: Seq<char>, st: ImportScan, c: int) -> ImportScan {
    let e = tv.elems[c];
    let start = match st.start {
        Some(s) => Some(s),
        None => Some(e.lo as int),
    };
    if st.past || e.is_token {
        st
    } else if e.kind == USE {
        let paths = match find_child(tv, c, USE_TREE) {
            Some(u) => flatten_tree(tv, src, Seq::empty(), u),
            None => Seq::empty(),
        };
        let item = RawImport {
            attrs: attrs_of(tv, src, c),
            vis: vis_of(tv, src, c),
            paths,
            is_mod: false,
            name: Seq::empty(),
        };
        ImportScan { items: st.items.push(item), start, end: e.hi as int, past: false }
    } else if e.kind == MODULE {
        if find_child(tv, c, ITEM_LIST) is Some {
            ImportScan { past: true, ..st }
        } else {
            let item = RawImport {
                attrs: Seq::empty(),
                vis: vis_of(tv, src, c),
                paths: Seq::empty(),
                is_mod: true,
                name: mod_name(tv, c),
            };
            ImportScan { items: st.items.push(item), start, end: e.hi as int, past: false }
        }
    } else if st.start is Some {
        ImportScan { past: true, ..st }
    } else {
        st
    }
}

pub open spec fn import_scan(tv: TreeV, src: Seq<char>, cs: Seq<int>, k: int) -> ImportScan
    decreases k,
{
    if k <= 0 {
        ImportScan { items: Seq::empty(), start: None, end: 0, past: false }
    } else {
        import_step(tv, src, import_scan(tv, src, cs, k - 1), cs[k - 1])
    }
}

/// One import line: its attributes, visibility and path, and its group (`mod` declarations,
/// star imports, foreign crates, crate-local, `pub` re-exports).
pub struct FlatImport {
    pub attrs: Seq<Seq<char>>,
    pub vis: Seq<char>,
    pub path: Seq<char>,
    pub group: u8,
}

pub open spec fn star_suffix() -> Seq<char> {
    seq![':', ':', '*']
}

pub open spec fn is_crate_local(path: Seq<char>) -> bool {
    ||| starts_with(path, seq!['c', 'r', 'a', 't', 'e', ':', ':'])
    ||| starts_with(path, seq!['s', 'e', 'l', 'f', ':', ':'])
    ||| starts_with(path, seq!['s', 'u', 'p', 'e', 'r', ':', ':'])
}

/// The group of a `use` path.
pub open spec fn group_of(path: Seq<char>, vis: Seq<char>) -> u8 {
    if ends_with(path, star_suffix()) || path == seq!['*'] {
        1
    } else if vis.len() > 0 {
        4
    } else if is_crate_local(path) {
        3
    } else {
        2
    }
}

/// The import lines of `paths[..k]` of one `use` item.
pub open spec fn flat_paths(item: RawImport, k: int) -> Seq<FlatImport>
    decreases k,
{
    if k <= 0 {
        Seq::empty()
    } else {
        let path = item.paths[k - 1];
        flat_paths(item, k - 1).push(
            FlatImport { attrs: item.attrs, vis: item.vis, path, group: group_of(path, item.vis) },
        )
    }
}

pub open spec fn flat_item(item: RawImport) -> Seq<FlatImport> {
    if item.is_mod {
        seq![FlatImport { attrs: Seq::empty(), vis: item.vis, path: item.name, group: 0 }]
    } else {
        flat_paths(item, item.paths.len() as int)
    }
}

pub open spec fn flat_items(items: Seq<RawImport>, k: int) -> Seq<FlatImport>
    decreases k,
{
    if k <= 0 {
        Seq::empty()
    } else {
        flat_items(items, k - 1) + flat_item(items[k - 1])
    }
}

/// `a` orders after `b` by group, then path.
pub open spec fn import_gt(a: FlatImport, b: FlatImport) -> bool {
    a.group > b.group || (a.group == b.group && lex_lt(b.path, a.path))
}

pub open spec fn import_slot(s: Seq<FlatImport>, x: FlatImport, k: int) -> int
    decreases s.len() - k,
{
    if k < 0 || k >= s.len() {
        s.len() as int
    } else if import_gt(s[k], x) {
        k
    } else {
        import_slot(s, x, k + 1)
    }
}

/// The imports stably sorted by group, then path.
pub open spec fn sort_imports(fs: Seq<FlatImport>) -> Seq<FlatImport>
    decreases fs.len(),
{
    if fs.len() == 0 {
        fs
    } else {
        let s = sort_imports(fs.drop_last());
        s.insert(import_slot(s, fs.last(), 0), fs.last())
    }
}

pub open spec fn same_import(a: FlatImport, b: FlatImport) -> bool {
    a.group == b.group && a.path == b.path && a.vis == b.vis
}

/// `fs[..k]` without the entries that repeat the one kept before them.
pub open spec fn dedup_imports(fs: Seq<FlatImport>, k: int) -> Seq<FlatImport>
    decreases k,
{
    if k <= 0 {
        Seq::empty()
    } else {
        let kept = dedup_imports(fs, k - 1);
        if kept.len() > 0 && same_import(fs[k - 1], kept.last()) {
            kept
        } else {
            kept.push(fs[k - 1])
        }
    }
}

/// The text of an import line.
pub open spec fn import_line(f: FlatImport) -> Seq<char> {
    if f.group == 0 {
        f.vis + seq!['m', 'o', 'd', ' '] + f.path + seq![';']
    } else {
        attr_lines(f.attrs, f.attrs.len() as int) + f.vis + seq!['u', 's', 'e', ' '] + f.path
            + seq![';']
    }
}

pub open spec fn attr_lines(attrs: Seq<Seq<char>>, k: int) -> Seq<char>
    decreases k,
{
    if k <= 0 {
        Seq::empty()
    } else {
        attr_lines(attrs, k - 1) + attrs[k - 1] + seq!['\n']
    }
}

/// The lines of the imports of group `g` among `fs[..k]`.
pub open spec fn group_lines(fs: Seq<FlatImport>, g: u8, k: int) -> Seq<Seq<char>>
    decreases k,
{
    if k <= 0 {
        Seq::empty()
    } else if fs[k - 1].group == g {
        group_lines(fs, g, k - 1).push(import_line(fs[k - 1]))
    } else {
        group_lines(fs, g, k - 1)
    }
}

/// The blocks of the non-empty groups among `0..g`, each its lines joined.
pub open spec fn group_blocks(fs: Seq<FlatImport>, g: int) -> Seq<Seq<char>>
    decreases g,
{
    if g <= 0 {
        Seq::empty()
    } else {
        let lines = group_lines(fs, (g - 1) as u8, fs.len() as int);
        if lines.len() == 0 {
            group_blocks(fs, g - 1)
        } else {
            group_blocks(fs, g - 1).push(join_with(lines, seq!['\n']))
        }
    }
}

/// The import section rewritten: one import per line, sorted, duplicates dropped, and the
/// groups separated by a blank line.
pub open spec fn import_section(items: Seq<RawImport>) -> Seq<char> {
    let flat = dedup_imports(
        sort_imports(flat_items(items, items.len() as int)),
        flat_items(items, items.len() as int).len() as int,
    );
    join_with(group_blocks(flat, 5), seq!['\n', '\n'])
}

/// Flattens, sorts and groups the leading `use` and `mod` items.
pub open spec fn imports_sorted(src: Seq<char>) -> Seq<char> {
    match parsed_tree(src) {
        Some(tv) => {
            let cs = child_list(tv, 0);
            let st = import_scan(tv, src, cs, cs.len() as int);
            if st.items.len() == 0 {
                src
            } else {
                let start = match st.start {
                    Some(s) => s,
                    None => 0,
                };
                let end = skip_ws4(src, st.end);
                let before = slice_of(src, 0, start);
                let after = slice_of(src, end, src.len() as int);
                if after.len() == 0 {
                    before + import_section(st.items) + seq!['\n']
                } else {
                    before + import_section(st.items) + seq!['\n', '\n'] + after
                }
            }
        },
        None => src,
    }
}

/// `s[a..b]` when the range fits, else nothing.
pub open spec fn slice_of(s: Seq<char>, a: int, b: int) -> Seq<char> {
    if 0 <= a <= b <= s.len() {
        s.subrange(a, b)
    } else {
        Seq::empty()
    }
}

/// A leading `use` or `mod` item as read from the tree.
pub struct RawImportX {
    pub attrs: Vec<Vec<char>>,
    pub vis: Vec<char>,
    pub paths: Vec<Vec<char>>,
    pub is_mod: bool,
    pub name: Vec<char>,
}

pub open spec fn raw_view(r: RawImportX) -> RawImport {
    RawImport {
        attrs: view_lines(r.attrs@),
        vis: r.vis@,
        paths: view_lines(r.paths@),
        is_mod: r.is_mod,
        name: r.name@,
    }
}

/// One import line to write.
pub struct FlatImportX {
    pub attrs: Vec<Vec<char>>,
    pub vis: Vec<char>,
    pub path: Vec<char>,
    pub group: u8,
}

pub open spec fn flat_view(f: FlatImportX) -> FlatImport {
    FlatImport { attrs: view_lines(f.attrs@), vis: f.vis@, path: f.path@, group: f.group }
}

pub open spec fn flats_view(fs: Seq<FlatImportX>) -> Seq<FlatImport> {
    fs.map_values(|f: FlatImportX| flat_view(f))
}

fn copy_lines(ls: &Vec<Vec<char>>) -> (r: Vec<Vec<char>>)
    ensures
        view_lines(r@) == view_lines(ls@),
{
    let mut r: Vec<Vec<char>> = Vec::new();
    let mut k: usize = 0;
    while k < ls.len()
        invariant
            k <= ls@.len(),
            view_lines(r@) == view_lines(ls@).take(k as int),
        decreases ls@.len() - k,
    {
        let ghost before = view_lines(r@);
        let x = copy_vec(&ls[k]);
        assert(x@ == view_lines(ls@)[k as int]);
        r.push(x);
        assert(view_lines(r@) =~= before.push(x@));
        assert(view_lines(ls@).take(k + 1) =~= view_lines(ls@).take(k as int).push(x@));
        k = k + 1;
    }
    assert(view_lines(ls@).take(ls@.len() as int) =~= view_lines(ls@));
    r
}

fn vis_of_vec(t: &Cst, src: &Vec<char>, c: usize) -> (r: Vec<char>)
    requires
        valid_index(t@, src@, c as int),
    ensures
        r@ == vis_of(t@, src@, c as int),
{
    proof {
        lemma_valid_index(t@, src@, c as int);
    }
    match find_child_kind(t, c, VISIBILITY) {
        Some(v) => {
            let mut r = node_text_vec(t, src, v);
            r.push(' ');
            r
        },
        None => Vec::new(),
    }
}

fn attrs_of_vec(t: &Cst, src: &Vec<char>, c: usize) -> (r: Vec<Vec<char>>)
    requires
        valid_index(t@, src@, c as int),
    ensures
        view_lines(r@) == attrs_of(t@, src@, c as int),
{
    proof {
        lemma_valid_index(t@, src@, c as int);
    }
    let cs = children_of(t, c);
    let ghost cv = cs@.map_values(|x: usize| x as int);
    let mut r: Vec<Vec<char>> = Vec::new();
    let mut k: usize = 0;
    assert(view_lines(r@) =~= attrs_among(t@, src@, cv, 0));
    while k < cs.len()
        invariant
            k <= cs@.len(),
            wf(t@, src@),
            cv == cs@.map_values(|x: usize| x as int),
            cv == child_list(t@, c as int),
            forall|q: int| 0 <= q < cs@.len() ==> c < #[trigger] cs@[q] < t.elems@.len(),
            view_lines(r@) == attrs_among(t@, src@, cv, k as int),
        decreases cs@.len() - k,
    {
        let x = cs[k];
        if !t.elems[x].is_token && t.elems[x].kind == ATTR {
            let ghost before = view_lines(r@);
            r.push(node_text_vec(t, src, x));
            assert(view_lines(r@) =~= before.push(node_text(t@, src@, x as int)));
        }
        k = k + 1;
    }
    r
}

fn mod_name_vec(t: &Cst, c: usize) -> (r: Vec<char>)
    requires
        shape_ok(t@),
        c < t.elems@.len(),
        t.elems@[c as int].end <= t.elems@.len(),
    ensures
        r@ == mod_name(t@, c as int),
{
    match find_child_kind(t, c, NAME) {
        Some(nm) => {
            match first_token_scan(t, nm + 1, t.elems[nm].end, false) {
                Some(x) => copy_vec(&t.texts[x]),
                None => Vec::new(),
            }
        },
        None => Vec::new(),
    }
}

fn flat_of_item(item: &RawImportX, out: &mut Vec<FlatImportX>)
    ensures
        flats_view(final(out)@) == flats_view(old(out)@) + flat_item(raw_view(*item)),
{
    let ghost start = flats_view(out@);
    if item.is_mod {
        let no_attrs: Vec<Vec<char>> = Vec::new();
        assert(view_lines(no_attrs@) =~= Seq::<Seq<char>>::empty());
        out.push(
            FlatImportX {
                attrs: no_attrs,
                vis: copy_vec(&item.vis),
                path: copy_vec(&item.name),
                group: 0,
            },
        );
        assert(flats_view(out@) =~= start + flat_item(raw_view(*item)));
        return ;
    }
    let star: [char; 3] = [':', ':', '*'];
    assert(star@ =~= star_suffix());
    let krate: [char; 7] = ['c', 'r', 'a', 't', 'e', ':', ':'];
    let slf: [char; 6] = ['s', 'e', 'l', 'f', ':', ':'];
    let sup: [char; 7] = ['s', 'u', 'p', 'e', 'r', ':', ':'];
    assert(krate@ =~= seq!['c', 'r', 'a', 't', 'e', ':', ':']);
    assert(slf@ =~= seq!['s', 'e', 'l', 'f', ':', ':']);
    assert(sup@ =~= seq!['s', 'u', 'p', 'e', 'r', ':', ':']);
    let mut k: usize = 0;
    assert(flats_view(out@) =~= start + flat_paths(raw_view(*item), 0));
    while k < item.paths.len()
        invariant
            k <= item.paths@.len(),
            !item.is_mod,
            star@ == star_suffix(),
            krate@ == seq!['c', 'r', 'a', 't', 'e', ':', ':'],
            slf@ == seq!['s', 'e', 'l', 'f', ':', ':'],
            sup@ == seq!['s', 'u', 'p', 'e', 'r', ':', ':'],
            flats_view(out@) == start + flat_paths(raw_view(*item), k as int),
        decreases item.paths@.len() - k,
    {
        let path = &item.paths[k];
        let is_star = ends_with_vec(path, &star) || (path.len() == 1 && path[0] == '*');
        assert(is_star == (ends_with(path@, star_suffix()) || path@ == seq!['*'])) by {
            if path@.len() == 1 && path@[0] == '*' {
                assert(path@ =~= seq!['*']);
            }
        }
        let group: u8 = if is_star {
            1
        } else if item.vis.len() > 0 {
            4
        } else if starts_with_vec(path, &krate) || starts_with_vec(path, &slf) || starts_with_vec(
            path,
            &sup,
        ) {
            3
        } else {
            2
        };
        let ghost before = flats_view(out@);
        out.push(
            FlatImportX {
                attrs: copy_lines(&item.attrs),
                vis: copy_vec(&item.vis),
                path: copy_vec(path),
                group,
            },
        );
        assert(flats_view(out@) =~= before.push(
            FlatImport {
                attrs: view_lines(item.attrs@),
                vis: item.vis@,
                path: path@,
                group: group_of(path@, item.vis@),
            },
        ));
        k = k + 1;
    }
    assert(flats_view(out@) =~= start + flat_item(raw_view(*item)));
}

fn import_gt_exec(a: &FlatImportX, b: &FlatImportX) -> (r: bool)
    ensures
        r == import_gt(flat_view(*a), flat_view(*b)),
{
    a.group > b.group || (a.group == b.group && lex_lt_vec(&b.path, &a.path))
}

fn sort_flat(fs: Vec<FlatImportX>) -> (r: Vec<FlatImportX>)
    ensures
        flats_view(r@) == sort_imports(flats_view(fs@)),
{
    let ghost vs = flats_view(fs@);
    let n = fs.len();
    let mut rest: Vec<FlatImportX> = Vec::new();
    let mut fs = fs;
    while fs.len() > 0
        invariant
            vs.len() == n,
            fs@.len() + rest@.len() == n,
            forall|k: int| 0 <= k < fs@.len() ==> flat_view(#[trigger] fs@[k]) == vs[k],
            forall|k: int| 0 <= k < rest@.len() ==> flat_view(#[trigger] rest@[k]) == vs[n - 1 - k],
        decreases fs@.len(),
    {
        let e = fs.pop().unwrap();
        rest.push(e);
    }
    let mut sorted: Vec<FlatImportX> = Vec::new();
    let mut k: usize = 0;
    assert(flats_view(sorted@) =~= sort_imports(vs.take(0)));
    while rest.len() > 0
        invariant
            vs.len() == n,
            k + rest@.len() == n,
            forall|j: int| 0 <= j < rest@.len() ==> flat_view(#[trigger] rest@[j]) == vs[n - 1 - j],
            flats_view(sorted@) == sort_imports(vs.take(k as int)),
        decreases rest@.len(),
    {
        let x = rest.pop().unwrap();
        assert(flat_view(x) == vs[k as int]);
        let ghost s = sort_imports(vs.take(k as int));
        let mut p: usize = 0;
        while p < sorted.len() && !import_gt_exec(&sorted[p], &x)
            invariant
                p <= sorted@.len(),
                flats_view(sorted@) == s,
                import_slot(s, flat_view(x), p as int) == import_slot(s, flat_view(x), 0),
            decreases sorted@.len() - p,
        {
            p = p + 1;
        }
        proof {
            assert(vs.take(k + 1).drop_last() =~= vs.take(k as int));
            assert(vs.take(k + 1).last() == flat_view(x));
        }
        let ghost before = flats_view(sorted@);
        sorted.insert(p, x);
        assert(flats_view(sorted@) =~= before.insert(p as int, flat_view(x)));
        k = k + 1;
    }
    assert(vs.take(n as int) =~= vs);
    sorted
}

fn same_import_exec(a: &FlatImportX, b: &FlatImportX) -> (r: bool)
    ensures
        r == same_import(flat_view(*a), flat_view(*b)),
{
    a.group == b.group && crate::text::chars_eq(a.path.as_slice(), b.path.as_slice())
        && crate::text::chars_eq(a.vis.as_slice(), b.vis.as_slice())
}

fn dedup_flat(fs: Vec<FlatImportX>) -> (r: Vec<FlatImportX>)
    ensures
        flats_view(r@) == dedup_imports(flats_view(fs@), fs@.len() as int),
{
    let ghost vs = flats_view(fs@);
    let n = fs.len();
    let mut rest: Vec<FlatImportX> = Vec::new();
    let mut fs = fs;
    while fs.len() > 0
        invariant
            vs.len() == n,
            fs@.len() + rest@.len() == n,
            forall|k: int| 0 <= k < fs@.len() ==> flat_view(#[trigger] fs@[k]) == vs[k],
            forall|k: int| 0 <= k < rest@.len() ==> flat_view(#[trigger] rest@[k]) == vs[n - 1 - k],
        decreases fs@.len(),
    {
        let e = fs.pop().unwrap();
        rest.push(e);
    }
    let mut kept: Vec<FlatImportX> = Vec::new();
    let mut k: usize = 0;
    assert(flats_view(kept@) =~= dedup_imports(vs, 0));
    while rest.len() > 0
        invariant
            vs.len() == n,
            k + rest@.len() == n,
            forall|j: int| 0 <= j < rest@.len() ==> flat_view(#[trigger] rest@[j]) == vs[n - 1 - j],
            flats_view(kept@) == dedup_imports(vs, k as int),
        decreases rest@.len(),
    {
        let x = rest.pop().unwrap();
        assert(flat_view(x) == vs[k as int]);
        let ghost before = flats_view(kept@);
        if kept.len() > 0 && same_import_exec(&x, &kept[kept.len() - 1]) {
        } else {
            kept.push(x);
            assert(flats_view(kept@) =~= before.push(vs[k as int]));
        }
        k = k + 1;
    }
    kept
}

fn import_line_vec(f: &FlatImportX) -> (r: Vec<char>)
    ensures
        r@ == import_line(flat_view(*f)),
{
    let mut r: Vec<char> = Vec::new();
    if f.group == 0 {
        push_all(&mut r, f.vis.as_slice());
        r.push('m');
        r.push('o');
        r.push('d');
        r.push(' ');
        push_all(&mut r, f.path.as_slice());
        r.push(';');
        assert(r@ =~= import_line(flat_view(*f)));
        return r;
    }
    let mut k: usize = 0;
    while k < f.attrs.len()
        invariant
            k <= f.attrs@.len(),
            r@ == attr_lines(view_lines(f.attrs@), k as int),
        decreases f.attrs@.len() - k,
    {
        push_all(&mut r, f.attrs[k].as_slice());
        r.push('\n');
        assert(r@ =~= attr_lines(view_lines(f.attrs@), k + 1));
        k = k + 1;
    }
    let ghost head = r@;
    push_all(&mut r, f.vis.as_slice());
    r.push('u');
    r.push('s');
    r.push('e');
    r.push(' ');
    push_all(&mut r, f.path.as_slice());
    r.push(';');
    assert(r@ =~= head + f.vis@ + seq!['u', 's', 'e', ' '] + f.path@ + seq![';']);
    r
}

fn group_blocks_vec(fs: &Vec<FlatImportX>) -> (r: Vec<Vec<char>>)
    ensures
        view_lines(r@) == group_blocks(flats_view(fs@), 5),
{
    let ghost vs = flats_view(fs@);
    let mut blocks: Vec<Vec<char>> = Vec::new();
    let mut g: u8 = 0;
    assert(view_lines(blocks@) =~= group_blocks(vs, 0));
    while g < 5
        invariant
            g <= 5,
            vs == flats_view(fs@),
            view_lines(blocks@) == group_blocks(vs, g as int),
        decreases 5 - g,
    {
        let mut lines: Vec<Vec<char>> = Vec::new();
        let mut k: usize = 0;
        assert(view_lines(lines@) =~= group_lines(vs, g, 0));
        while k < fs.len()
            invariant
                k <= fs@.len(),
                vs == flats_view(fs@),
                view_lines(lines@) == group_lines(vs, g, k as int),
            decreases fs@.len() - k,
        {
            if fs[k].group == g {
                let ghost before = view_lines(lines@);
                lines.push(import_line_vec(&fs[k]));
                assert(view_lines(lines@) =~= before.push(import_line(vs[k as int])));
            }
            k = k + 1;
        }
        assert(vs.len() == fs@.len());
        if lines.len() > 0 {
            let nl: [char; 1] = ['\n'];
            assert(nl@ =~= seq!['\n']);
            let ghost before = view_lines(blocks@);
            blocks.push(join_with_vec(&lines, &nl));
            assert(view_lines(blocks@) =~= before.push(join_with(view_lines(lines@), seq!['\n'])));
        }
        assert((g + 1 - 1) as u8 == g);
        g = g + 1;
    }
    blocks
}

/// Flattens the leading `use` and `mod` items to one per line, sorts them, drops repeats and
/// separates the groups with a blank line.
pub fn sort_and_group_imports(source: &Vec<char>) -> (r: Vec<char>)
    ensures
        r@ == imports_sorted(source@),
{
    let t = match parse_cst(source) {
        Some(t) => t,
        None => {
            return copy_vec(source);
        },
    };
    let ghost tv = t@;
    proof {
        lemma_valid_index(tv, source@, 0);
    }
    let cs = children_of(&t, 0);
    let ghost cv = cs@.map_values(|x: usize| x as int);
    let mut items: Vec<RawImportX> = Vec::new();
    let mut start: Option<usize> = None;
    let mut end: usize = 0;
    let mut past = false;
    let mut k: usize = 0;
    while k < cs.len()
        invariant
            k <= cs@.len(),
            tv == t@,
            wf(tv, source@),
            cv == cs@.map_values(|x: usize| x as int),
            forall|q: int| 0 <= q < cs@.len() ==> 0 < #[trigger] cs@[q] < t.elems@.len(),
            ({
                let st = import_scan(tv, source@, cv, k as int);
                &&& st.items == items@.map_values(|r: RawImportX| raw_view(r))
                &&& st.start == match start {
                    Some(s) => Some(s as int),
                    None => None::<int>,
                }
                &&& st.end == end
                &&& st.past == past
            }),
            end <= source@.len(),
            start matches Some(s) ==> s <= source@.len(),
        decreases cs@.len() - k,
    {
        let c = cs[k];
        let e = t.elems[c];
        proof {
            lemma_valid_index(tv, source@, c as int);
        }
        let ghost before = items@.map_values(|r: RawImportX| raw_view(r));
        if past || e.is_token {
        } else if e.kind == USE {
            let no_prefix: Vec<char> = Vec::new();
            let paths = match find_child_kind(&t, c, USE_TREE) {
                Some(u) => flatten_use_tree(&t, source, &no_prefix, u),
                None => {
                    let none: Vec<Vec<char>> = Vec::new();
                    assert(view_lines(none@) =~= Seq::<Seq<char>>::empty());
                    none
                },
            };
            let item = RawImportX {
                attrs: attrs_of_vec(&t, source, c),
                vis: vis_of_vec(&t, source, c),
                paths,
                is_mod: false,
                name: Vec::new(),
            };
            items.push(item);
            assert(items@.map_values(|r: RawImportX| raw_view(r)) =~= before.push(raw_view(item)));
            if start.is_none() {
                start = Some(e.lo);
            }
            end = e.hi;
        } else if e.kind == MODULE {
            if find_child_kind(&t, c, ITEM_LIST).is_some() {
                past = true;
            } else {
                let no_attrs: Vec<Vec<char>> = Vec::new();
                let no_paths: Vec<Vec<char>> = Vec::new();
                assert(view_lines(no_attrs@) =~= Seq::<Seq<char>>::empty());
                assert(view_lines(no_paths@) =~= Seq::<Seq<char>>::empty());
                let item = RawImportX {
                    attrs: no_attrs,
                    vis: vis_of_vec(&t, source, c),
                    paths: no_paths,
                    is_mod: true,
                    name: mod_name_vec(&t, c),
                };
                items.push(item);
                assert(items@.map_values(|r: RawImportX| raw_view(r)) =~= before.push(raw_view(item)));
                if start.is_none() {
                    start = Some(e.lo);
                }
                end = e.hi;
            }
        } else if start.is_some() {
            past = true;
        }
        k = k + 1;
    }
    assert(cv.len() == cs@.len());
    if items.len() == 0 {
        return copy_vec(source);
    }
    let section_start: usize = match start {
        Some(s) => s,
        None => 0,
    };
    let section_end = skip_ws4_at(source, end);
    let ghost iv = items@.map_values(|r: RawImportX| raw_view(r));
    let mut flat: Vec<FlatImportX> = Vec::new();
    let mut q: usize = 0;
    assert(flats_view(flat@) =~= flat_items(iv, 0));
    while q < items.len()
        invariant
            q <= items@.len(),
            iv == items@.map_values(|r: RawImportX| raw_view(r)),
            flats_view(flat@) == flat_items(iv, q as int),
        decreases items@.len() - q,
    {
        flat_of_item(&items[q], &mut flat);
        q = q + 1;
    }
    assert(iv.len() == items@.len());
    let ghost fv = flats_view(flat@);
    let nflat = flat.len();
    let sorted = sort_flat(flat);
    proof {
        lemma_sort_imports_len(fv);
    }
    let deduped = dedup_flat(sorted);
    let blocks = group_blocks_vec(&deduped);
    let sep: [char; 2] = ['\n', '\n'];
    assert(sep@ =~= seq!['\n', '\n']);
    let replacement = join_with_vec(&blocks, &sep);
    assert(replacement@ == import_section(iv));
    let mut out: Vec<char> = Vec::new();
    let before = slice_of_vec(source, 0, section_start);
    let after = slice_of_vec(source, section_end, source.len());
    push_all(&mut out, before.as_slice());
    push_all(&mut out, replacement.as_slice());
    if after.len() == 0 {
        out.push('\n');
        assert(out@ =~= before@ + replacement@ + seq!['\n']);
    } else {
        out.push('\n');
        out.push('\n');
        push_all(&mut out, after.as_slice());
        assert(out@ =~= before@ + replacement@ + seq!['\n', '\n'] + after@);
    }
    out
}

pub proof fn lemma_import_slot(s: Seq<FlatImport>, x: FlatImport, k: int)
    requires
        0 <= k <= s.len(),
    ensures
        k <= import_slot(s, x, k) <= s.len(),
    decreases s.len() - k,
{
    if k < s.len() && !import_gt(s[k], x) {
        lemma_import_slot(s, x, k + 1);
    }
}

pub proof fn lemma_sort_imports_len(fs: Seq<FlatImport>)
    ensures
        sort_imports(fs).len() == fs.len(),
    decreases fs.len(),
{
    if fs.len() > 0 {
        lemma_sort_imports_len(fs.drop_last());
        lemma_import_slot(sort_imports(fs.drop_last()), fs.last(), 0);
    }
}

fn slice_of_vec(s: &Vec<char>, a: usize, b: usize) -> (r: Vec<char>)
    ensures
        r@ == slice_of(s@, a as int, b as int),
{
    if a <= b && b <= s.len() {
        sub_vec(s, a, b)
    } else {
        Vec::new()
    }
}

// ============
// === Laws ===
// ============

/// Each import orders at or before the next ones: by group, then by path.
pub open spec fn imports_ordered(s: Seq<FlatImport>) -> bool {
    forall|i: int, j: int| 0 <= i < j < s.len() ==> !import_gt(#[trigger] s[i], #[trigger] s[j])
}

proof fn lemma_import_gt_transitive(a: FlatImport, b: FlatImport, c: FlatImport)
    requires
        import_gt(a, b),
        import_gt(b, c),
    ensures
        import_gt(a, c),
{
    if a.group == b.group && b.group == c.group {
        lemma_lex_transitive(c.path, b.path, a.path);
    }
}

proof fn lemma_import_gt_irreflexive(a: FlatImport)
    ensures
        !import_gt(a, a),
{
    lemma_lex_irreflexive(a.path);
}

proof fn lemma_import_slot_spec(s: Seq<FlatImport>, x: FlatImport, k: int)
    requires
        0 <= k <= s.len(),
    ensures
        forall|j: int| k <= j < import_slot(s, x, k) ==> !import_gt(#[trigger] s[j], x),
        import_slot(s, x, k) < s.len() ==> import_gt(s[import_slot(s, x, k)], x),
    decreases s.len() - k,
{
    if k < s.len() && !import_gt(s[k], x) {
        lemma_import_slot_spec(s, x, k + 1);
    }
}

proof fn lemma_sort_imports_step(s: Seq<FlatImport>, x: FlatImport)
    requires
        imports_ordered(s),
    ensures
        imports_ordered(s.insert(import_slot(s, x, 0), x)),
{
    let k = import_slot(s, x, 0);
    lemma_import_slot(s, x, 0);
    lemma_import_slot_spec(s, x, 0);
    let r = s.insert(k, x);
    assert forall|i: int, j: int| 0 <= i < j < r.len() implies !import_gt(#[trigger] r[i], #[trigger] r[j]) by {
        if j < k {
            assert(r[i] == s[i] && r[j] == s[j]);
        } else if j == k {
            assert(r[i] == s[i] && r[j] == x);
        } else if i == k {
            assert(r[i] == x && r[j] == s[j - 1]);
            if import_gt(x, s[j - 1]) {
                lemma_import_gt_transitive(s[k], x, s[j - 1]);
                if k == j - 1 {
                    lemma_import_gt_irreflexive(s[k]);
                } else {
                    assert(!import_gt(s[k], s[j - 1]));
                }
            }
        } else if i < k {
            assert(r[i] == s[i] && r[j] == s[j - 1]);
        } else {
            assert(r[i] == s[i - 1] && r[j] == s[j - 1]);
        }
    }
}

/// Sorting imports orders them by group, then path, keeps equal ones in their original
/// order of arrival, and keeps every import as often as it occurs.
pub proof fn law_sort_imports_ordered_permutation(fs: Seq<FlatImport>)
    ensures
        imports_ordered(sort_imports(fs)),
        sort_imports(fs).to_multiset() == fs.to_multiset(),
    decreases fs.len(),
{
    broadcast use vstd::seq_lib::to_multiset_build, vstd::seq_lib::to_multiset_insert;

    if fs.len() > 0 {
        let d = fs.drop_last();
        law_sort_imports_ordered_permutation(d);
        lemma_sort_imports_step(sort_imports(d), fs.last());
        lemma_sort_imports_len(d);
        lemma_import_slot(sort_imports(d), fs.last(), 0);
        assert(d.push(fs.last()) =~= fs);
    } else {
        assert(sort_imports(fs) == fs);
    }
}

/// After dropping repeats, no import repeats the one before it, and every import kept is one
/// of the given imports.
pub proof fn law_dedup_imports(fs: Seq<FlatImport>, k: int)
    requires
        0 <= k <= fs.len(),
    ensures
        forall|i: int, j: int|
            0 <= i && j == i + 1 && j < dedup_imports(fs, k).len() ==> !same_import(
                #[trigger] dedup_imports(fs, k)[i],
                #[trigger] dedup_imports(fs, k)[j],
            ),
        forall|i: int|
            0 <= i < dedup_imports(fs, k).len() ==> fs.take(k).contains(
                #[trigger] dedup_imports(fs, k)[i],
            ),
    decreases k,
{
    if k > 0 {
        law_dedup_imports(fs, k - 1);
        let kept = dedup_imports(fs, k - 1);
        let r = dedup_imports(fs, k);
        assert forall|i: int| 0 <= i < r.len() implies fs.take(k).contains(#[trigger] r[i]) by {
            if i < kept.len() {
                assert(r[i] == kept[i]);
                assert(fs.take(k - 1).contains(kept[i]));
                let w = choose|w: int| 0 <= w < k - 1 && #[trigger] fs.take(k - 1)[w] == kept[i];
                assert(fs.take(k)[w] == kept[i]);
            } else {
                assert(r[i] == fs[k - 1]);
                assert(fs.take(k)[k - 1] == fs[k - 1]);
            }
        }
        assert forall|i: int, j: int|
            0 <= i && j == i + 1 && j < r.len() implies !same_import(#[trigger] r[i], #[trigger] r[j]) by {
            if j < kept.len() {
                assert(r[i] == kept[i] && r[j] == kept[j]);
            } else {
                assert(i == kept.len() - 1);
                assert(r[i] == kept.last());
                assert(r[j] == fs[k - 1]);
                assert(!same_import(fs[k - 1], kept.last()));
            }
        }
    }
}

/// The number of leaves of the use tree `node`: a tree with a `{..}` list has the leaves of
/// the trees in the list, any other tree is one leaf (a path, a `self`, a `*`, a rename).
pub open spec fn leaf_count(tv: TreeV, node: int) -> nat
    decreases tv.elems.len() - node, 0int,
{
    if node < 0 || node >= tv.elems.len() {
        0
    } else {
        match find_child(tv, node, USE_TREE_LIST) {
            Some(list) => if node < list < tv.elems.len() {
                leaf_count_list(tv, list + 1, tv.elems[list].end as int)
            } else {
                0
            },
            None => 1,
        }
    }
}

/// The number of leaves of the use trees among the siblings from `j` to `stop`.
pub open spec fn leaf_count_list(tv: TreeV, j: int, stop: int) -> nat
    decreases tv.elems.len() - j, 1int,
{
    if j < 0 || j >= stop || j >= tv.elems.len() || tv.elems[j].end <= j {
        0
    } else {
        let here = if !tv.elems[j].is_token && tv.elems[j].kind == USE_TREE {
            leaf_count(tv, j)
        } else {
            0
        };
        let next = next_sib_index(tv, j, stop);
        if j < next <= tv.elems.len() {
            here + leaf_count_list(tv, next, stop)
        } else {
            here
        }
    }
}

/// Flattening a use tree gives one path for every leaf of the tree.
pub proof fn law_flatten_one_path_per_leaf(tv: TreeV, src: Seq<char>, prefix: Seq<char>, node: int)
    ensures
        flatten_tree(tv, src, prefix, node).len() == leaf_count(tv, node),
    decreases tv.elems.len() - node, 0int,
{
    if 0 <= node < tv.elems.len() {
        let segment = match find_child(tv, node, PATH) {
            Some(p) => node_text(tv, src, p),
            None => Seq::empty(),
        };
        let full = join_path(prefix, segment);
        match find_child(tv, node, USE_TREE_LIST) {
            Some(list) => if node < list < tv.elems.len() {
                lemma_flatten_list_count(tv, src, full, list + 1, tv.elems[list].end as int);
            },
            None => {},
        }
    }
}

proof fn lemma_flatten_list_count(tv: TreeV, src: Seq<char>, prefix: Seq<char>, j: int, stop: int)
    ensures
        flatten_list(tv, src, prefix, j, stop).len() == leaf_count_list(tv, j, stop),
    decreases tv.elems.len() - j, 1int,
{
    if !(j < 0 || j >= stop || j >= tv.elems.len() || tv.elems[j].end <= j) {
        if !tv.elems[j].is_token && tv.elems[j].kind == USE_TREE {
            law_flatten_one_path_per_leaf(tv, src, prefix, j);
        }
        let next = next_sib_index(tv, j, stop);
        if j < next <= tv.elems.len() {
            lemma_flatten_list_count(tv, src, prefix, next, stop);
        }
    }
}

/// A `self` leaf under the prefix `prefix` imports exactly `prefix`.
pub proof fn law_flatten_self_is_prefix(tv: TreeV, src: Seq<char>, prefix: Seq<char>, node: int)
    requires
        0 <= node < tv.elems.len(),
        find_child(tv, node, USE_TREE_LIST) is None,
        find_child(tv, node, STAR) is None,
        find_child(tv, node, PATH) matches Some(p) && node_text(tv, src, p) == seq![
            's',
            'e',
            'l',
            'f',
        ],
    ensures
        flatten_tree(tv, src, prefix, node) == seq![prefix],
{
}

/// A top-level child that belongs to an import section: a `use` item or a `mod` without a body.
pub open spec fn import_child(tv: TreeV, c: int) -> bool {
    &&& !tv.elems[c].is_token
    &&& (tv.elems[c].kind == USE || (tv.elems[c].kind == MODULE && find_child(tv, c, ITEM_LIST)
        is None))
}

/// A top-level child that is an item but no import.
pub open spec fn other_item(tv: TreeV, c: int) -> bool {
    &&& !tv.elems[c].is_token
    &&& tv.elems[c].kind != USE
    &&& !(tv.elems[c].kind == MODULE && find_child(tv, c, ITEM_LIST) is None)
}

/// Some import stands among `cs[..k]`.
pub open spec fn import_before(tv: TreeV, cs: Seq<int>, k: int) -> bool {
    exists|a: int| 0 <= a < k && #[trigger] import_child(tv, cs[a])
}

/// Among `cs[..k]`, an item that is no import follows an import: the leading imports are over.
pub open spec fn imports_over_before(tv: TreeV, cs: Seq<int>, k: int) -> bool {
    exists|a: int, b: int|
        0 <= a < b < k && #[trigger] import_child(tv, cs[a]) && #[trigger] other_item(tv, cs[b])
}

/// The spans of the `use` items among `cs[..k]` that stand after the leading imports are
/// over, in order: the stray imports.
pub open spec fn stray_uses(tv: TreeV, cs: Seq<int>, k: int) -> Seq<(int, int)>
    decreases k,
{
    if k <= 0 {
        Seq::empty()
    } else {
        let c = cs[k - 1];
        if !tv.elems[c].is_token && tv.elems[c].kind == USE && imports_over_before(tv, cs, k - 1) {
            stray_uses(tv, cs, k - 1).push((tv.elems[c].lo as int, tv.elems[c].hi as int))
        } else {
            stray_uses(tv, cs, k - 1)
        }
    }
}

/// The texts of the stray `use` items among `cs[..k]`, in order.
pub open spec fn stray_texts(tv: TreeV, src: Seq<char>, cs: Seq<int>, k: int) -> Seq<Seq<char>>
    decreases k,
{
    if k <= 0 {
        Seq::empty()
    } else {
        let c = cs[k - 1];
        if !tv.elems[c].is_token && tv.elems[c].kind == USE && imports_over_before(tv, cs, k - 1) {
            stray_texts(tv, src, cs, k - 1).push(node_text(tv, src, c))
        } else {
            stray_texts(tv, src, cs, k - 1)
        }
    }
}

/// Where the last import among `cs[..k]` that comes before the leading imports are over
/// ends (0 when there is none): where stray imports are put back.
pub open spec fn leading_imports_end(tv: TreeV, cs: Seq<int>, k: int) -> int
    decreases k,
{
    if k <= 0 {
        0
    } else {
        let c = cs[k - 1];
        if import_child(tv, c) && !imports_over_before(tv, cs, k - 1) {
            tv.elems[c].hi as int
        } else {
            leading_imports_end(tv, cs, k - 1)
        }
    }
}

proof fn lemma_hoist_scan_tracks(tv: TreeV, src: Seq<char>, cs: Seq<int>, k: int)
    requires
        0 <= k <= cs.len(),
    ensures
        hoist_scan(tv, src, cs, k).seen <==> import_before(tv, cs, k),
        hoist_scan(tv, src, cs, k).past <==> imports_over_before(tv, cs, k),
        hoist_scan(tv, src, cs, k).late == stray_uses(tv, cs, k),
        hoist_scan(tv, src, cs, k).texts == stray_texts(tv, src, cs, k),
        hoist_scan(tv, src, cs, k).insert_after == leading_imports_end(tv, cs, k),
    decreases k,
{
    if k > 0 {
        lemma_hoist_scan_tracks(tv, src, cs, k - 1);
        let c = cs[k - 1];
        let st = hoist_scan(tv, src, cs, k - 1);
        if imports_over_before(tv, cs, k - 1) {
            let (a, b) = choose|a: int, b: int|
                0 <= a < b < k - 1 && #[trigger] import_child(tv, cs[a]) && #[trigger] other_item(
                    tv,
                    cs[b],
                );
            assert(import_before(tv, cs, k - 1));
        }
        // import_before at k
        if import_before(tv, cs, k - 1) {
            let a = choose|a: int| 0 <= a < k - 1 && #[trigger] import_child(tv, cs[a]);
            assert(import_before(tv, cs, k));
        }
        if import_child(tv, c) {
            assert(import_before(tv, cs, k));
        }
        if import_before(tv, cs, k) {
            let a = choose|a: int| 0 <= a < k && #[trigger] import_child(tv, cs[a]);
            if a < k - 1 {
                assert(import_before(tv, cs, k - 1));
            }
        }
        // imports_over_before at k
        if imports_over_before(tv, cs, k - 1) {
            let (a, b) = choose|a: int, b: int|
                0 <= a < b < k - 1 && #[trigger] import_child(tv, cs[a]) && #[trigger] other_item(
                    tv,
                    cs[b],
                );
            assert(imports_over_before(tv, cs, k));
        }
        if other_item(tv, c) && import_before(tv, cs, k - 1) {
            let a = choose|a: int| 0 <= a < k - 1 && #[trigger] import_child(tv, cs[a]);
            assert(imports_over_before(tv, cs, k));
        }
        if imports_over_before(tv, cs, k) {
            let (a, b) = choose|a: int, b: int|
                0 <= a < b < k && #[trigger] import_child(tv, cs[a]) && #[trigger] other_item(
                    tv,
                    cs[b],
                );
            if b < k - 1 {
                assert(imports_over_before(tv, cs, k - 1));
            } else {
                assert(import_before(tv, cs, k - 1));
            }
        }
    }
}

/// Hoisting takes exactly the `use` items that stand after the leading imports are over
/// (after an import, some item that is no import), all of them, in their order, with their
/// texts, and puts them back where the last leading import ends.
pub proof fn law_hoist_takes_every_stray_use(src: Seq<char>)
    ensures
        parsed_tree(src) matches Some(tv) ==> ({
            let cs = child_list(tv, 0);
            let st = hoist_scan(tv, src, cs, cs.len() as int);
            &&& st.late == stray_uses(tv, cs, cs.len() as int)
            &&& st.texts == stray_texts(tv, src, cs, cs.len() as int)
            &&& st.insert_after == leading_imports_end(tv, cs, cs.len() as int)
        }),
{
    if let Some(tv) = parsed_tree(src) {
        let cs = child_list(tv, 0);
        lemma_hoist_scan_tracks(tv, src, cs, cs.len() as int);
    }
}

/// A plain leaf (a path with no `{..}` list, `*`, rename or `self`) under a non-empty prefix
/// imports `prefix::path`.
pub proof fn law_flatten_plain_leaf(tv: TreeV, src: Seq<char>, prefix: Seq<char>, node: int)
    requires
        0 <= node < tv.elems.len(),
        find_child(tv, node, USE_TREE_LIST) is None,
        find_child(tv, node, STAR) is None,
        find_child(tv, node, RENAME) is None,
        prefix.len() > 0,
        find_child(tv, node, PATH) matches Some(p) && node_text(tv, src, p).len() > 0
            && node_text(tv, src, p) != seq!['s', 'e', 'l', 'f'],
    ensures
        find_child(tv, node, PATH) matches Some(p) && flatten_tree(tv, src, prefix, node) == seq![
            prefix + seq![':', ':'] + node_text(tv, src, p),
        ],
{
}

} // verus!
