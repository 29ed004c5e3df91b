use vstd::prelude::*;

use crate::text::push_all;
use crate::text::push_range;

verus! {

// =============
// === Edits ===
// =============

/// A replacement of the characters `start..end` of a text by `text`.
pub struct Edit {
    pub start: usize,
    pub end: usize,
    pub text: Vec<char>,
}

pub open spec fn edit_view(e: Edit) -> (int, int, Seq<char>) {
    (e.start as int, e.end as int, e.text@)
}

pub open spec fn view_edits(es: Seq<Edit>) -> Seq<(int, int, Seq<char>)> {
    es.map_values(|e: Edit| edit_view(e))
}

/// `String::replace_range`, where the range is valid (the text is left alone otherwise).
pub open spec fn apply_edit(s: Seq<char>, e: (int, int, Seq<char>)) -> Seq<char> {
    if 0 <= e.0 <= e.1 <= s.len() {
        s.take(e.0) + e.2 + s.skip(e.1)
    } else {
        s
    }
}

/// The edits applied one after the other, in order.
pub open spec fn apply_edits(s: Seq<char>, es: Seq<(int, int, Seq<char>)>) -> Seq<char>
    decreases es.len(),
{
    if es.len() == 0 {
        s
    } else {
        apply_edits(apply_edit(s, es[0]), es.drop_first())
    }
}

/// Applies one edit (`String::replace_range`), leaving the text alone when the range is invalid.
pub fn apply_one(s: &Vec<char>, e: &Edit) -> (r: Vec<char>)
    ensures
        r@ == apply_edit(s@, edit_view(*e)),
{
    if e.start <= e.end && e.end <= s.len() {
        let mut r: Vec<char> = Vec::new();
        push_range(&mut r, s, 0, e.start);
        push_all(&mut r, e.text.as_slice());
        push_range(&mut r, s, e.end, s.len());
        assert(r@ =~= s@.take(e.start as int) + e.text@ + s@.skip(e.end as int));
        r
    } else {
        crate::text::copy_vec(s)
    }
}

/// Applies the edits in order.
pub fn apply_all(s: &Vec<char>, es: &Vec<Edit>) -> (r: Vec<char>)
    ensures
        r@ == apply_edits(s@, view_edits(es@)),
{
    let mut cur = crate::text::copy_vec(s);
    let mut k: usize = 0;
    assert(view_edits(es@).skip(0) =~= view_edits(es@));
    while k < es.len()
        invariant
            k <= es@.len(),
            apply_edits(cur@, view_edits(es@).skip(k as int)) == apply_edits(
                s@,
                view_edits(es@),
            ),
        decreases es@.len() - k,
    {
        let ghost rest = view_edits(es@).skip(k as int);
        assert(rest[0] == edit_view(es@[k as int]));
        assert(rest.drop_first() =~= view_edits(es@).skip(k + 1));
        cur = apply_one(&cur, &es[k]);
        k = k + 1;
    }
    assert(view_edits(es@).skip(es@.len() as int) =~= Seq::<(int, int, Seq<char>)>::empty());
    assert(view_edits(es@).skip(0) =~= view_edits(es@));
    cur
}

// =======================================
// === Stable sort by descending start ===
// =======================================

/// Where `x` goes among edits sorted by descending start, after those with a start
/// no smaller than its own (so that equal starts keep their order).
pub open spec fn desc_slot(s: Seq<(int, int, Seq<char>)>, x: (int, int, Seq<char>), k: int) -> int
    decreases s.len() - k,
{
    if k < 0 || k >= s.len() {
        s.len() as int
    } else if s[k].0 < x.0 {
        k
    } else {
        desc_slot(s, x, k + 1)
    }
}

/// The edits stably sorted by descending start (`sort_by(|a, b| b.0.cmp(&a.0))`).
pub open spec fn sort_desc(es: Seq<(int, int, Seq<char>)>) -> Seq<(int, int, Seq<char>)>
    decreases es.len(),
{
    if es.len() == 0 {
        es
    } else {
        let s = sort_desc(es.drop_last());
        s.insert(desc_slot(s, es.last(), 0), es.last())
    }
}

pub proof fn lemma_desc_slot(s: Seq<(int, int, Seq<char>)>, x: (int, int, Seq<char>), k: int)
    requires
        0 <= k <= s.len(),
    ensures
        k <= desc_slot(s, x, k) <= s.len(),
    decreases s.len() - k,
{
    if k < s.len() && s[k].0 >= x.0 {
        lemma_desc_slot(s, x, k + 1);
    }
}

pub proof fn lemma_sort_desc_len(es: Seq<(int, int, Seq<char>)>)
    ensures
        sort_desc(es).len() == es.len(),
    decreases es.len(),
{
    if es.len() > 0 {
        lemma_sort_desc_len(es.drop_last());
        lemma_desc_slot(sort_desc(es.drop_last()), es.last(), 0);
    }
}

fn insert_at(v: &mut Vec<Edit>, p: usize, e: Edit)
    requires
        p <= old(v)@.len(),
    ensures
        view_edits(final(v)@) == view_edits(old(v)@).insert(p as int, edit_view(e)),
{
    let ghost before = view_edits(v@);
    v.insert(p, e);
    assert(view_edits(v@) =~= before.insert(p as int, edit_view(e)));
}

/// Sorts the edits stably by descending start.
pub fn sort_edits_desc(es: Vec<Edit>) -> (r: Vec<Edit>)
    ensures
        view_edits(r@) == sort_desc(view_edits(es@)),
{
    let ghost ves = view_edits(es@);
    let mut sorted: Vec<Edit> = Vec::new();
    let mut es = es;
    let mut rest: Vec<Edit> = Vec::new();
    // reverse `es` into `rest` so that popping yields the edits in order
    while es.len() > 0
        invariant
            ves.len() == es@.len() + rest@.len(),
            forall|k: int| 0 <= k < es@.len() ==> edit_view(#[trigger] es@[k]) == ves[k],
            forall|k: int|
                0 <= k < rest@.len() ==> edit_view(#[trigger] rest@[k]) == ves[ves.len() - 1 - k],
        decreases es@.len(),
    {
        let e = es.pop().unwrap();
        rest.push(e);
    }
    let mut k: usize = 0;
    let n = rest.len();
    assert(view_edits(sorted@) =~= sort_desc(ves.take(0)));
    while rest.len() > 0
        invariant
            n == ves.len(),
            k + rest@.len() == n,
            forall|j: int|
                0 <= j < rest@.len() ==> edit_view(#[trigger] rest@[j]) == ves[n - 1 - j],
            view_edits(sorted@) == sort_desc(ves.take(k as int)),
        decreases rest@.len(),
    {
        let e = rest.pop().unwrap();
        assert(edit_view(e) == ves[k as int]);
        let ghost s = sort_desc(ves.take(k as int));
        proof {
            lemma_sort_desc_len(ves.take(k as int));
        }
        let mut p: usize = 0;
        while p < sorted.len() && sorted[p].start >= e.start
            invariant
                p <= sorted@.len(),
                view_edits(sorted@) == s,
                desc_slot(s, edit_view(e), p as int) == desc_slot(s, edit_view(e), 0),
            decreases sorted@.len() - p,
        {
            p = p + 1;
        }
        proof {
            assert(ves.take(k + 1).drop_last() =~= ves.take(k as int));
            assert(ves.take(k + 1).last() == edit_view(e));
        }
        insert_at(&mut sorted, p, e);
        k = k + 1;
    }
    assert(ves.take(n as int) =~= ves);
    sorted
}

// ============
// === Laws ===
// ============

/// The edits go from the end of the text to its start: no edit starts after the one before it.
pub open spec fn starts_descending(es: Seq<(int, int, Seq<char>)>) -> bool {
    forall|i: int, j: int| 0 <= i < j < es.len() ==> (#[trigger] es[i]).0 >= (#[trigger] es[j]).0
}

proof fn lemma_desc_slot_spec(s: Seq<(int, int, Seq<char>)>, x: (int, int, Seq<char>), k: int)
    requires
        0 <= k <= s.len(),
    ensures
        forall|j: int| k <= j < desc_slot(s, x, k) ==> (#[trigger] s[j]).0 >= x.0,
        desc_slot(s, x, k) < s.len() ==> s[desc_slot(s, x, k)].0 < x.0,
    decreases s.len() - k,
{
    if k < s.len() && s[k].0 >= x.0 {
        lemma_desc_slot_spec(s, x, k + 1);
    }
}

/// Sorting the edits puts them in descending order of start and keeps every edit as often
/// as it occurs.
pub proof fn law_sort_desc_ordered_permutation(es: Seq<(int, int, Seq<char>)>)
    ensures
        starts_descending(sort_desc(es)),
        sort_desc(es).to_multiset() == es.to_multiset(),
    decreases es.len(),
{
    broadcast use vstd::seq_lib::to_multiset_build, vstd::seq_lib::to_multiset_insert;

    if es.len() > 0 {
        let d = es.drop_last();
        let x = es.last();
        law_sort_desc_ordered_permutation(d);
        let s = sort_desc(d);
        lemma_sort_desc_len(d);
        lemma_desc_slot(s, x, 0);
        lemma_desc_slot_spec(s, x, 0);
        let k = desc_slot(s, x, 0);
        let r = s.insert(k, x);
        assert forall|i: int, j: int| 0 <= i < j < r.len() implies (#[trigger] r[i]).0 >= (
        #[trigger] r[j]).0 by {
            if j < k {
                assert(r[i] == s[i] && r[j] == s[j]);
            } else if j == k {
                assert(r[i] == s[i] && r[j] == x);
            } else if i == k {
                assert(r[i] == x && r[j] == s[j - 1]);
                if k < j - 1 {
                    assert(s[k].0 >= s[j - 1].0);
                }
            } else if i < k {
                assert(r[i] == s[i] && r[j] == s[j - 1]);
            } else {
                assert(r[i] == s[i - 1] && r[j] == s[j - 1]);
            }
        }
        assert(d.push(x) =~= es);
    } else {
        assert(sort_desc(es) == es);
    }
}

} // verus!
