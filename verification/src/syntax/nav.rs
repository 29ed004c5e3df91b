use vstd::prelude::*;

use crate::syntax::kind::WHITESPACE;
use crate::syntax::tree::Cst;
use crate::syntax::tree::TreeV;

verus! {

// ==================
// === Navigation ===
// ==================

pub open spec fn opt_int(o: Option<usize>) -> Option<int> {
    match o {
        Some(x) => Some(x as int),
        None => None,
    }
}

pub open spec fn kind_at(tv: TreeV, i: int) -> u16 {
    tv.elems[i].kind
}

pub open spec fn parent_of(tv: TreeV, i: int) -> int {
    tv.elems[i].parent as int
}

/// The kind of the node that encloses element `i`.
pub open spec fn parent_kind(tv: TreeV, i: int) -> u16 {
    kind_at(tv, parent_of(tv, i))
}

/// The last token at an index `<= j` that is not whitespace.
pub open spec fn prev_nonws_from(tv: TreeV, j: int) -> Option<int>
    decreases j + 1,
{
    if j < 0 || j >= tv.elems.len() {
        None
    } else if tv.elems[j].is_token && tv.elems[j].kind != WHITESPACE {
        Some(j)
    } else {
        prev_nonws_from(tv, j - 1)
    }
}

/// The first token at an index `>= j`.
pub open spec fn next_token_from(tv: TreeV, j: int) -> Option<int>
    decreases tv.elems.len() - j,
{
    if j < 0 || j >= tv.elems.len() {
        None
    } else if tv.elems[j].is_token {
        Some(j)
    } else {
        next_token_from(tv, j + 1)
    }
}

/// `prev_non_whitespace_token` of element `i`.
pub open spec fn prev_nonws(tv: TreeV, i: int) -> Option<int> {
    prev_nonws_from(tv, i - 1)
}

/// Whether the previous non-whitespace token of `i` exists and has kind `k`.
pub open spec fn prev_nonws_is(tv: TreeV, i: int, k: u16) -> bool {
    match prev_nonws(tv, i) {
        Some(p) => kind_at(tv, p) == k,
        None => false,
    }
}

/// Where the next sibling of `j` would start, capped at `stop`.
pub open spec fn next_sib_index(tv: TreeV, j: int, stop: int) -> int {
    if tv.elems[j].end >= stop {
        stop
    } else {
        tv.elems[j].end as int
    }
}

/// The first child element of kind `k` among the siblings starting at `j` and ending
/// before `stop` (`children_with_tokens().find(..)`).
pub open spec fn find_child_from(tv: TreeV, j: int, stop: int, k: u16) -> Option<int>
    decreases stop - j,
{
    if j < 0 || j >= stop || j >= tv.elems.len() || tv.elems[j].end <= j {
        None
    } else if tv.elems[j].kind == k {
        Some(j)
    } else {
        find_child_from(tv, next_sib_index(tv, j, stop), stop, k)
    }
}

pub open spec fn find_child(tv: TreeV, i: int, k: u16) -> Option<int> {
    find_child_from(tv, i + 1, tv.elems[i].end as int, k)
}

/// The first child node (not token) among the siblings starting at `j`.
pub open spec fn first_node_from(tv: TreeV, j: int, stop: int) -> Option<int>
    decreases stop - j,
{
    if j < 0 || j >= stop || j >= tv.elems.len() || tv.elems[j].end <= j {
        None
    } else if !tv.elems[j].is_token {
        Some(j)
    } else {
        first_node_from(tv, next_sib_index(tv, j, stop), stop)
    }
}

/// `children().next()` of node `i`.
pub open spec fn first_child_node(tv: TreeV, i: int) -> Option<int> {
    first_node_from(tv, i + 1, tv.elems[i].end as int)
}

/// The siblings from `j` on that end before `stop`.
pub open spec fn siblings_from(tv: TreeV, j: int, stop: int) -> Seq<int>
    decreases stop - j,
{
    if j < 0 || j >= stop || j >= tv.elems.len() || tv.elems[j].end <= j {
        Seq::empty()
    } else {
        seq![j] + siblings_from(tv, next_sib_index(tv, j, stop), stop)
    }
}

/// `children_with_tokens()` of node `i`.
pub open spec fn child_list(tv: TreeV, i: int) -> Seq<int> {
    siblings_from(tv, i + 1, tv.elems[i].end as int)
}

/// The indices of all tokens at indices `< i`, in order.
pub open spec fn tokens_upto(tv: TreeV, i: int) -> Seq<int>
    decreases i,
{
    if i <= 0 {
        Seq::empty()
    } else if tv.elems[i - 1].is_token {
        tokens_upto(tv, i - 1).push(i - 1)
    } else {
        tokens_upto(tv, i - 1)
    }
}

/// The tokens of the tree, in source order.
pub open spec fn token_list(tv: TreeV) -> Seq<int> {
    tokens_upto(tv, tv.elems.len() as int)
}

pub fn prev_nonws_at(t: &Cst, j: usize) -> (r: Option<usize>)
    requires
        j <= t.elems@.len(),
    ensures
        opt_int(r) == prev_nonws_from(t@, j - 1),
        r matches Some(p) ==> p < j && t.elems@[p as int].is_token,
{
    let mut k = j;
    while k > 0 && !(t.elems[k - 1].is_token && t.elems[k - 1].kind != WHITESPACE)
        invariant
            k <= j <= t.elems@.len(),
            prev_nonws_from(t@, k - 1) == prev_nonws_from(t@, j - 1),
        decreases k,
    {
        k = k - 1;
    }
    if k == 0 {
        None
    } else {
        Some(k - 1)
    }
}

pub fn next_token_at(t: &Cst, j: usize) -> (r: Option<usize>)
    requires
        j <= t.elems@.len(),
    ensures
        opt_int(r) == next_token_from(t@, j as int),
        r matches Some(x) ==> x < t.elems@.len(),
{
    let n = t.elems.len();
    let mut k = j;
    while k < n && !t.elems[k].is_token
        invariant
            n == t.elems@.len(),
            j <= k <= n,
            next_token_from(t@, k as int) == next_token_from(t@, j as int),
        decreases n - k,
    {
        k = k + 1;
    }
    if k == n {
        None
    } else {
        Some(k)
    }
}

/// Whether the previous non-whitespace token of `i` has kind `k`.
pub fn prev_nonws_kind_is(t: &Cst, i: usize, k: u16) -> (b: bool)
    requires
        i <= t.elems@.len(),
    ensures
        b == prev_nonws_is(t@, i as int, k),
{
    match prev_nonws_at(t, i) {
        Some(p) => t.elems[p].kind == k,
        None => false,
    }
}

pub fn find_child_kind(t: &Cst, i: usize, k: u16) -> (r: Option<usize>)
    requires
        i < t.elems@.len(),
        t.elems@[i as int].end <= t.elems@.len(),
    ensures
        opt_int(r) == find_child(t@, i as int, k),
        r matches Some(x) ==> i < x < t.elems@.len(),
{
    let stop = t.elems[i].end;
    if i == usize::MAX {
        return None;
    }
    let mut j = i + 1;
    if j > stop {
        return None;
    }
    while j < stop && j < t.elems.len() && t.elems[j].end > j && t.elems[j].kind != k
        invariant
            i < j,
            stop == t.elems@[i as int].end,
            stop <= t.elems@.len(),
            j <= stop,
            find_child_from(t@, j as int, stop as int, k) == find_child(t@, i as int, k),
        decreases stop - j,
    {
        let e = t.elems[j].end;
        j = if e >= stop {
            stop
        } else {
            e
        };
    }
    if j < stop && j < t.elems.len() && t.elems[j].end > j {
        Some(j)
    } else {
        None
    }
}

pub fn first_child_node_of(t: &Cst, i: usize) -> (r: Option<usize>)
    requires
        i < t.elems@.len(),
        t.elems@[i as int].end <= t.elems@.len(),
    ensures
        opt_int(r) == first_child_node(t@, i as int),
        r matches Some(x) ==> i < x < t.elems@.len(),
{
    let stop = t.elems[i].end;
    if i == usize::MAX {
        return None;
    }
    let mut j = i + 1;
    if j > stop {
        return None;
    }
    while j < stop && j < t.elems.len() && t.elems[j].end > j && t.elems[j].is_token
        invariant
            i < j,
            stop == t.elems@[i as int].end,
            stop <= t.elems@.len(),
            j <= stop,
            first_node_from(t@, j as int, stop as int) == first_child_node(t@, i as int),
        decreases stop - j,
    {
        let e = t.elems[j].end;
        j = if e >= stop {
            stop
        } else {
            e
        };
    }
    if j < stop && j < t.elems.len() && t.elems[j].end > j {
        Some(j)
    } else {
        None
    }
}

/// The children of node `i`, tokens included, in order.
pub fn children_of(t: &Cst, i: usize) -> (r: Vec<usize>)
    requires
        i < t.elems@.len(),
        t.elems@[i as int].end <= t.elems@.len(),
    ensures
        r@.map_values(|x: usize| x as int) == child_list(t@, i as int),
        forall|k: int| 0 <= k < r@.len() ==> i < #[trigger] r@[k] < t.elems@.len(),
{
    let stop = t.elems[i].end;
    let mut r: Vec<usize> = Vec::new();
    if i == usize::MAX || i + 1 > stop {
        assert(r@.map_values(|x: usize| x as int) =~= child_list(t@, i as int));
        return r;
    }
    let mut j = i + 1;
    assert(r@.map_values(|x: usize| x as int) + siblings_from(t@, j as int, stop as int) =~= child_list(t@, i as int));
    while j < stop && j < t.elems.len() && t.elems[j].end > j
        invariant
            i < j <= stop,
            stop == t.elems@[i as int].end,
            stop <= t.elems@.len(),
            r@.map_values(|x: usize| x as int) + siblings_from(t@, j as int, stop as int)
                == child_list(t@, i as int),
            forall|k: int| 0 <= k < r@.len() ==> i < #[trigger] r@[k] < t.elems@.len(),
        decreases stop - j,
    {
        let ghost before = r@.map_values(|x: usize| x as int);
        r.push(j);
        let e = t.elems[j].end;
        let nj = if e >= stop {
            stop
        } else {
            e
        };
        assert(r@.map_values(|x: usize| x as int) + siblings_from(t@, nj as int, stop as int) =~= before + siblings_from(t@, j as int, stop as int));
        j = nj;
    }
    assert(siblings_from(t@, j as int, stop as int) =~= Seq::<int>::empty());
    assert(r@.map_values(|x: usize| x as int) =~= child_list(t@, i as int));
    r
}

/// The indices of the tree's tokens, in source order.
pub fn token_indices(t: &Cst) -> (r: Vec<usize>)
    ensures
        r@.map_values(|x: usize| x as int) == token_list(t@),
        forall|k: int| 0 <= k < r@.len() ==> #[trigger] r@[k] < t.elems@.len() && t.elems@[r@[k] as int].is_token,
{
    let mut r: Vec<usize> = Vec::new();
    let mut i: usize = 0;
    while i < t.elems.len()
        invariant
            i <= t.elems@.len(),
            r@.map_values(|x: usize| x as int) == tokens_upto(t@, i as int),
            forall|k: int| 0 <= k < r@.len() ==> #[trigger] r@[k] < t.elems@.len() && t.elems@[r@[k] as int].is_token,
        decreases t.elems@.len() - i,
    {
        let ghost before = r@.map_values(|x: usize| x as int);
        if t.elems[i].is_token {
            r.push(i);
            assert(r@.map_values(|x: usize| x as int) =~= before.push(i as int));
        }
        i = i + 1;
    }
    r
}

} // verus!
