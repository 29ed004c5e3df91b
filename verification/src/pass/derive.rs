use vstd::prelude::*;

use crate::pass::edit::Edit;
use crate::pass::edit::apply_all;
use crate::pass::edit::apply_edits;
use crate::pass::edit::view_edits;
use crate::syntax::kind::ATTR;
use crate::syntax::tree::TreeV;
use crate::syntax::tree::parse_cst;
use crate::syntax::tree::parsed_tree;
use crate::syntax::tree::wf;
use crate::text::copy_vec;
use crate::text::find_char;
use crate::text::find_from;
use crate::text::join_with;
use crate::text::join_with_vec;
use crate::text::push_all;
use crate::text::rfind_before;
use crate::text::rfind_char;
use crate::text::law_sort_strs_sorted_permutation;
use crate::text::lemma_sort_strs_sorted_identity;
use crate::text::sort_strs;
use crate::text::strs_sorted;
use crate::text::sort_strs_vec;
use crate::text::split_on;
use crate::text::split_on_vec;
use crate::text::starts_with;
use crate::text::starts_with_vec;
use crate::text::sub_vec;
use crate::text::is_ws;
use crate::text::lemma_skip_ws;
use crate::text::lemma_skip_ws_back;
use crate::text::skip_ws;
use crate::text::skip_ws_back;
use crate::text::trim;
use crate::text::trim_vec;
use crate::text::vecs_eq;
use crate::text::view_lines;

verus! {

// ========================
// === sort_derive_args ===
// ========================

pub open spec fn derive_open() -> Seq<char> {
    seq!['#', '[', 'd', 'e', 'r', 'i', 'v', 'e', '(']
}

/// The trimmed, non-empty pieces of `pieces[..k]`.
pub open spec fn nonempty_trimmed(pieces: Seq<Seq<char>>, k: int) -> Seq<Seq<char>>
    decreases k,
{
    if k <= 0 {
        Seq::empty()
    } else if trim(pieces[k - 1]).len() == 0 {
        nonempty_trimmed(pieces, k - 1)
    } else {
        nonempty_trimmed(pieces, k - 1).push(trim(pieces[k - 1]))
    }
}

/// The arguments of a derive list: its comma-separated items, trimmed, empty ones dropped.
pub open spec fn derive_args(inner: Seq<char>) -> Seq<Seq<char>> {
    let pieces = split_on(inner, ',');
    nonempty_trimmed(pieces, pieces.len() as int)
}

/// The attribute text rewritten with its derive arguments sorted, if it is a
/// `#[derive(..)]` whose arguments are not sorted yet.
pub open spec fn sorted_derive_text(text: Seq<char>) -> Option<Seq<char>> {
    if !starts_with(text, derive_open()) {
        None
    } else {
        match find_from(text, '(', 0) {
            None => None,
            Some(sp) => match rfind_before(text, ')', text.len() as int) {
                None => None,
                Some(ep) => if sp + 1 > ep {
                    None
                } else {
                    let args = derive_args(text.subrange(sp + 1, ep));
                    let sorted = sort_strs(args);
                    if args == sorted {
                        None
                    } else {
                        Some(derive_open() + join_with(sorted, seq![',', ' ']) + seq![')', ']'])
                    }
                },
            },
        }
    }
}

/// The edit that element `i` asks for: the sorted form of a `#[derive(..)]` attribute.
pub open spec fn derive_edit(tv: TreeV, src: Seq<char>, i: int) -> Seq<(int, int, Seq<char>)> {
    let e = tv.elems[i];
    if e.is_token || e.kind != ATTR {
        Seq::empty()
    } else {
        match sorted_derive_text(src.subrange(e.lo as int, e.hi as int)) {
            Some(t) => seq![(e.lo as int, e.hi as int, t)],
            None => Seq::empty(),
        }
    }
}

/// The edits of the elements `< i`, in source order.
pub open spec fn derive_edits(tv: TreeV, src: Seq<char>, i: int) -> Seq<(int, int, Seq<char>)>
    decreases i,
{
    if i <= 0 {
        Seq::empty()
    } else {
        derive_edits(tv, src, i - 1) + derive_edit(tv, src, i - 1)
    }
}

/// Sorts the arguments of every `#[derive(..)]` attribute alphabetically.
pub open spec fn derives_sorted(src: Seq<char>) -> Seq<char> {
    match parsed_tree(src) {
        Some(tv) => {
            let es = derive_edits(tv, src, tv.elems.len() as int);
            if es.len() == 0 {
                src
            } else {
                apply_edits(src, es.reverse())
            }
        },
        None => src,
    }
}

fn derive_args_vec(inner: &Vec<char>) -> (r: Vec<Vec<char>>)
    ensures
        view_lines(r@) == derive_args(inner@),
{
    let pieces = split_on_vec(inner, ',');
    let ghost ps = view_lines(pieces@);
    let mut r: Vec<Vec<char>> = Vec::new();
    let mut k: usize = 0;
    assert(view_lines(r@) =~= nonempty_trimmed(ps, 0));
    while k < pieces.len()
        invariant
            k <= pieces@.len(),
            ps == view_lines(pieces@),
            view_lines(r@) == nonempty_trimmed(ps, k as int),
        decreases pieces@.len() - k,
    {
        let t = trim_vec(&pieces[k]);
        if t.len() > 0 {
            let ghost before = view_lines(r@);
            r.push(t);
            assert(view_lines(r@) =~= before.push(t@));
        }
        k = k + 1;
    }
    r
}

/// The `#[derive(..)]` attribute text with its arguments sorted, or `None` when the text is
/// no derive list or its arguments are sorted already.
pub fn sorted_derive(text: &Vec<char>) -> (r: Option<Vec<char>>)
    ensures
        match r {
            Some(v) => sorted_derive_text(text@) == Some(v@),
            None => sorted_derive_text(text@) is None,
        },
{
    let open_v: [char; 9] = ['#', '[', 'd', 'e', 'r', 'i', 'v', 'e', '('];
    assert(open_v@ =~= derive_open());
    if !starts_with_vec(text, &open_v) {
        return None;
    }
    let sp = match find_char(text, '(', 0) {
        Some(x) => x,
        None => {
            return None;
        },
    };
    let ep = match rfind_char(text, ')', text.len()) {
        Some(x) => x,
        None => {
            return None;
        },
    };
    if sp + 1 > ep {
        return None;
    }
    let inner = sub_vec(text, sp + 1, ep);
    let args = derive_args_vec(&inner);
    let sorted = sort_strs_vec(&args);
    if vecs_eq(&args, &sorted) {
        return None;
    }
    let mut out: Vec<char> = Vec::new();
    push_all(&mut out, &open_v);
    let sep: [char; 2] = [',', ' '];
    assert(sep@ =~= seq![',', ' ']);
    let joined = join_with_vec(&sorted, &sep);
    push_all(&mut out, joined.as_slice());
    out.push(')');
    out.push(']');
    assert(out@ =~= derive_open() + join_with(view_lines(sorted@), seq![',', ' ']) + seq![')', ']']);
    Some(out)
}

/// Sorts the arguments of every `#[derive(..)]` attribute alphabetically.
pub fn sort_derive_args(source: &Vec<char>) -> (r: Vec<char>)
    ensures
        r@ == derives_sorted(source@),
{
    let t = match parse_cst(source) {
        Some(t) => t,
        None => {
            return copy_vec(source);
        },
    };
    let ghost tv = t@;
    let mut edits: Vec<Edit> = Vec::new();
    let n = t.elems.len();
    let mut i: usize = 0;
    assert(view_edits(edits@) =~= derive_edits(tv, source@, 0));
    while i < n
        invariant
            n == t.elems@.len(),
            tv == t@,
            wf(tv, source@),
            i <= n,
            view_edits(edits@) == derive_edits(tv, source@, i as int),
        decreases n - i,
    {
        let e = t.elems[i];
        let ghost before = view_edits(edits@);
        if !e.is_token && e.kind == ATTR {
            proof {
                if i > 0 {
                    assert(crate::syntax::tree::elem_ok(tv, i as int, source@));
                }
            }
            let text = sub_vec(source, e.lo, e.hi);
            match sorted_derive(&text) {
                Some(new_text) => {
                    edits.push(Edit { start: e.lo, end: e.hi, text: new_text });
                },
                None => {},
            }
        }
        assert(view_edits(edits@) =~= before + derive_edit(tv, source@, i as int));
        i = i + 1;
    }
    if edits.len() == 0 {
        return copy_vec(source);
    }
    // apply the edits from the last to the first
    let mut rev: Vec<Edit> = Vec::new();
    let ghost es = view_edits(edits@);
    let mut k = edits.len();
    assert(es.take(k as int) =~= es);
    assert(view_edits(rev@) =~= es.reverse().take(0));
    while k > 0
        invariant
            k == edits@.len(),
            k <= es.len(),
            view_edits(edits@) == es.take(k as int),
            view_edits(rev@) == es.reverse().take((es.len() - k) as int),
        decreases k,
    {
        let ghost before_e = view_edits(edits@);
        let ghost old_edits = edits@;
        let e = edits.pop().unwrap();
        assert(e == old_edits[k - 1]);
        assert(before_e[k - 1] == crate::pass::edit::edit_view(old_edits[k - 1]));
        assert(before_e[k - 1] == es[k - 1]);
        assert(crate::pass::edit::edit_view(e) == es[k - 1]);
        assert(view_edits(edits@) =~= es.take(k - 1));
        let ghost before = view_edits(rev@);
        rev.push(e);
        assert(view_edits(rev@) =~= before.push(es[k - 1]));
        k = k - 1;
        assert(view_edits(rev@) =~= es.reverse().take((es.len() - k) as int));
    }
    assert(es.reverse().take(es.len() as int) =~= es.reverse());
    apply_all(source, &rev)
}

// ============
// === Laws ===
// ============

/// The arguments of a `#[derive(..)]` attribute text, when the text is one: the
/// comma-separated items between its first `(` and its last `)`.
pub open spec fn derive_list_args(text: Seq<char>) -> Option<Seq<Seq<char>>> {
    if !starts_with(text, derive_open()) {
        None
    } else {
        match find_from(text, '(', 0) {
            None => None,
            Some(sp) => match rfind_before(text, ')', text.len() as int) {
                None => None,
                Some(ep) => if sp + 1 > ep {
                    None
                } else {
                    Some(derive_args(text.subrange(sp + 1, ep)))
                },
            },
        }
    }
}

/// A derive list is left alone exactly when its arguments are in order already; otherwise
/// it is rewritten with its arguments in order (each kept as often as it occurs), joined
/// with `, `. Text that is no derive list is left alone.
pub proof fn law_derive_args_sorted(text: Seq<char>)
    ensures
        derive_list_args(text) is None ==> sorted_derive_text(text) is None,
        derive_list_args(text) matches Some(args) ==> (sorted_derive_text(text) is None
            <==> strs_sorted(args)),
        derive_list_args(text) matches Some(args) ==> (sorted_derive_text(text) matches Some(t)
            ==> exists|s: Seq<Seq<char>>|
            #[trigger] strs_sorted(s) && s.to_multiset() == args.to_multiset() && t == derive_open()
                + join_with(s, seq![',', ' ']) + seq![')', ']']),
{
    if let Some(args) = derive_list_args(text) {
        law_sort_strs_sorted_permutation(args);
        if strs_sorted(args) {
            lemma_sort_strs_sorted_identity(args);
        }
        if let Some(t) = sorted_derive_text(text) {
            let s = sort_strs(args);
            assert(strs_sorted(s) && s.to_multiset() == args.to_multiset() && t == derive_open()
                + join_with(s, seq![',', ' ']) + seq![')', ']']);
        }
    }
}

proof fn lemma_trim_ends(x: Seq<char>)
    ensures
        trim(x).len() > 0 ==> !is_ws(trim(x)[0]) && !is_ws(trim(x).last()),
{
    let n = x.len() as int;
    let a = skip_ws(x, 0, n);
    lemma_skip_ws(x, 0, n);
    lemma_skip_ws_back(x, a, n);
    let b = skip_ws_back(x, a, n);
    if b > a {
        assert(trim(x)[0] == x[a]);
        assert(trim(x).last() == x[b - 1]);
    }
}

proof fn lemma_nonempty_trimmed(pieces: Seq<Seq<char>>, k: int)
    requires
        0 <= k <= pieces.len(),
    ensures
        forall|i: int|
            0 <= i < nonempty_trimmed(pieces, k).len() ==> {
                let a = #[trigger] nonempty_trimmed(pieces, k)[i];
                a.len() > 0 && !is_ws(a[0]) && !is_ws(a.last())
            },
    decreases k,
{
    if k > 0 {
        lemma_nonempty_trimmed(pieces, k - 1);
        lemma_trim_ends(pieces[k - 1]);
        let prev = nonempty_trimmed(pieces, k - 1);
        let cur = nonempty_trimmed(pieces, k);
        assert forall|i: int| 0 <= i < cur.len() implies {
            let a = #[trigger] cur[i];
            a.len() > 0 && !is_ws(a[0]) && !is_ws(a.last())
        } by {
            if i < prev.len() {
                assert(cur[i] == prev[i]);
            }
        }
    }
}

/// Every argument of a derive list is non-empty and has no whitespace at either end.
pub proof fn law_derive_args_trimmed(inner: Seq<char>)
    ensures
        forall|i: int|
            0 <= i < derive_args(inner).len() ==> {
                let a = #[trigger] derive_args(inner)[i];
                a.len() > 0 && !is_ws(a[0]) && !is_ws(a.last())
            },
{
    let pieces = split_on(inner, ',');
    lemma_nonempty_trimmed(pieces, pieces.len() as int);
}

} // verus!
