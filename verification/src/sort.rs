//! Stable sorting of notes, specified as repeated ordered insertion.

use vstd::prelude::*;
use vstd::seq_lib::*;
use crate::note::{views, Note, NoteView};
use crate::order::{key_eq, key_le, key_le_exec, lemma_key_le_total, lemma_key_le_trans, SortMethod};

verus! {

/// Where a stable insertion places `x` in the sorted sequence `s`: directly
/// before the first element whose key is strictly greater, and so after
/// every element with an equal key.
pub open spec fn insert_pos(s: Seq<NoteView>, x: NoteView, m: SortMethod) -> int
    decreases s.len(),
{
    if s.len() == 0 {
        0
    } else if !key_le(s[0], x, m) {
        0
    } else {
        1 + insert_pos(s.drop_first(), x, m)
    }
}

/// `s` with `x` inserted at its stable insertion position.
pub open spec fn insert_sorted(s: Seq<NoteView>, x: NoteView, m: SortMethod) -> Seq<NoteView> {
    s.insert(insert_pos(s, x, m), x)
}

/// The stable sort of `s` under method `m`: each element, in input order,
/// inserted into the sorted result of what came before it.
pub open spec fn sort_spec(s: Seq<NoteView>, m: SortMethod) -> Seq<NoteView>
    decreases s.len(),
{
    if s.len() == 0 {
        s
    } else {
        insert_sorted(sort_spec(s.drop_last(), m), s.last(), m)
    }
}

/// Whether `s` is ordered by the keys of method `m`.
pub open spec fn sorted_by(s: Seq<NoteView>, m: SortMethod) -> bool {
    forall|i: int, j: int| 0 <= i < j < s.len() ==> key_le(s[i], s[j], m)
}

/// The class of notes sharing the sort key of `v` under `m`.
pub open spec fn key_class(v: NoteView, m: SortMethod) -> spec_fn(NoteView) -> bool {
    |n: NoteView| key_eq(n, v, m)
}

pub proof fn lemma_insert_pos_bounds(s: Seq<NoteView>, x: NoteView, m: SortMethod)
    ensures
        0 <= insert_pos(s, x, m) <= s.len(),
    decreases s.len(),
{
    if s.len() > 0 && key_le(s[0], x, m) {
        lemma_insert_pos_bounds(s.drop_first(), x, m);
    }
}

/// Every element before the insertion position sorts no later than `x`,
/// and the element at the position, if any, sorts strictly later.
pub proof fn lemma_insert_pos_split(s: Seq<NoteView>, x: NoteView, m: SortMethod)
    ensures
        forall|q: int| 0 <= q < insert_pos(s, x, m) ==> key_le(#[trigger] s[q], x, m),
        insert_pos(s, x, m) < s.len() ==> !key_le(s[insert_pos(s, x, m)], x, m),
        0 <= insert_pos(s, x, m) <= s.len(),
    decreases s.len(),
{
    lemma_insert_pos_bounds(s, x, m);
    if s.len() > 0 && key_le(s[0], x, m) {
        lemma_insert_pos_split(s.drop_first(), x, m);
        let rest = s.drop_first();
        assert forall|q: int| 0 <= q < insert_pos(s, x, m) implies key_le(#[trigger] s[q], x, m) by {
            if q > 0 {
                assert(rest[q - 1] == s[q]);
            }
        }
        if insert_pos(s, x, m) < s.len() {
            assert(rest[insert_pos(s, x, m) - 1] == s[insert_pos(s, x, m)]);
        }
    }
}

/// The insertion position is the unique split of this shape.
pub proof fn lemma_insert_pos_unique(s: Seq<NoteView>, x: NoteView, m: SortMethod, p: int)
    requires
        0 <= p <= s.len(),
        forall|q: int| 0 <= q < p ==> key_le(#[trigger] s[q], x, m),
        p < s.len() ==> !key_le(s[p], x, m),
    ensures
        insert_pos(s, x, m) == p,
    decreases s.len(),
{
    if s.len() > 0 && p > 0 {
        let rest = s.drop_first();
        assert(key_le(s[0], x, m));
        assert forall|q: int| 0 <= q < p - 1 implies key_le(#[trigger] rest[q], x, m) by {
            assert(rest[q] == s[q + 1]);
        }
        if p - 1 < rest.len() {
            assert(rest[p - 1] == s[p]);
        }
        lemma_insert_pos_unique(rest, x, m, p - 1);
    }
}

/// Inserting at the stable position keeps the sequence sorted.
pub proof fn lemma_insert_sorted_sorted(s: Seq<NoteView>, x: NoteView, m: SortMethod)
    requires
        sorted_by(s, m),
    ensures
        sorted_by(insert_sorted(s, x, m), m),
{
    let p = insert_pos(s, x, m);
    lemma_insert_pos_split(s, x, m);
    let r = s.insert(p, x);
    assert forall|i: int, j: int| 0 <= i < j < r.len() implies key_le(r[i], r[j], m) by {
        lemma_key_le_total(x, x, m);
        if i < p && j == p {
            assert(r[i] == s[i]);
        } else if i == p && j > p {
            assert(r[j] == s[j - 1]);
            assert(!key_le(s[p], x, m));
            lemma_key_le_total(x, s[j - 1], m);
            if j - 1 > p {
                if key_le(s[j - 1], x, m) {
                    lemma_key_le_trans(s[p], s[j - 1], x, m);
                }
            }
        } else if i < p && j > p {
            assert(r[i] == s[i]);
            assert(r[j] == s[j - 1]);
        } else if j < p {
            assert(r[i] == s[i]);
            assert(r[j] == s[j]);
        } else if i > p {
            assert(r[i] == s[i - 1]);
            assert(r[j] == s[j - 1]);
        }
    }
}

/// The stable sort of a sequence is sorted.
pub proof fn lemma_sort_spec_sorted(s: Seq<NoteView>, m: SortMethod)
    ensures
        sorted_by(sort_spec(s, m), m),
    decreases s.len(),
{
    if s.len() > 0 {
        lemma_sort_spec_sorted(s.drop_last(), m);
        lemma_insert_sorted_sorted(sort_spec(s.drop_last(), m), s.last(), m);
    }
}

/// Sorting permutes: the sorted sequence holds exactly the notes of the
/// input, with multiplicity.
pub proof fn lemma_sort_spec_permutes(s: Seq<NoteView>, m: SortMethod)
    ensures
        sort_spec(s, m).to_multiset() == s.to_multiset(),
    decreases s.len(),
{
    broadcast use vstd::seq_lib::lemma_multiset_commutative;
    broadcast use vstd::multiset::group_multiset_axioms;

    if s.len() > 0 {
        lemma_sort_spec_permutes(s.drop_last(), m);
        let t = sort_spec(s.drop_last(), m);
        let x = s.last();
        let p = insert_pos(t, x, m);
        lemma_insert_pos_bounds(t, x, m);
        let front = t.subrange(0, p);
        let back = t.subrange(p, t.len() as int);
        assert(insert_sorted(t, x, m) == front.push(x) + back);
        assert(front.push(x) =~= front + seq![x]);
        assert(t =~= front + back);
        assert(s =~= s.drop_last() + seq![x]);
        assert(insert_sorted(t, x, m).to_multiset() =~= s.to_multiset());
    }
}

proof fn lemma_filter_singleton(x: NoteView, pred: spec_fn(NoteView) -> bool)
    ensures
        seq![x].filter(pred) == if pred(x) { seq![x] } else { Seq::<NoteView>::empty() },
{
    let e = Seq::<NoteView>::empty();
    assert(e.filter(pred) =~= e);
    assert(seq![x] =~= e.push(x));
    broadcast use Seq::lemma_filter_push;

    if pred(x) {
        assert(e.push(x).filter(pred) =~= e.filter(pred).push(x));
        assert(e.filter(pred).push(x) =~= seq![x]);
    }
}

/// A stable insertion appends `x` to its own key class and leaves every
/// other key class unchanged.
proof fn lemma_insert_sorted_filter(s: Seq<NoteView>, x: NoteView, m: SortMethod, v: NoteView)
    requires
        sorted_by(s, m),
    ensures
        insert_sorted(s, x, m).filter(key_class(v, m)) == if key_eq(x, v, m) {
            s.filter(key_class(v, m)).push(x)
        } else {
            s.filter(key_class(v, m))
        },
{
    let pred = key_class(v, m);
    let p = insert_pos(s, x, m);
    lemma_insert_pos_split(s, x, m);
    let front = s.subrange(0, p);
    let back = s.subrange(p, s.len() as int);
    assert(insert_sorted(s, x, m) == front.push(x) + back);
    assert(front.push(x) =~= front + seq![x]);
    assert(s =~= front + back);
    broadcast use Seq::filter_distributes_over_add;

    assert((front + seq![x] + back).filter(pred) == front.filter(pred) + seq![x].filter(pred)
        + back.filter(pred));
    lemma_filter_singleton(x, pred);
    if key_eq(x, v, m) {
        assert forall|q: int| 0 <= q < back.len() implies !pred(back[q]) by {
            assert(back[q] == s[p + q]);
            if key_eq(s[p + q], v, m) {
                lemma_key_le_trans(s[p + q], v, x, m);
                if q > 0 {
                    lemma_key_le_trans(s[p], s[p + q], x, m);
                }
            }
        }
        back.lemma_all_neg_filter_empty(pred);
        assert(pred(x));
        assert(front.filter(pred) + seq![x] + Seq::<NoteView>::empty() =~= front.filter(pred).push(
            x,
        ));
        assert(s.filter(pred) == front.filter(pred) + back.filter(pred));
        assert(front.filter(pred) + Seq::<NoteView>::empty() =~= front.filter(pred));
        assert(insert_sorted(s, x, m).filter(pred) =~= s.filter(pred).push(x));
    } else {
        assert(!pred(x));
        assert(front.filter(pred) + Seq::<NoteView>::empty() + back.filter(pred) =~= front.filter(
            pred,
        ) + back.filter(pred));
        assert(insert_sorted(s, x, m).filter(pred) =~= s.filter(pred));
    }
}

/// Stability: sorting preserves the relative order of notes with equal
/// keys; the notes of any one key class come out exactly as they went in.
pub proof fn lemma_sort_spec_stable(s: Seq<NoteView>, m: SortMethod, v: NoteView)
    ensures
        sort_spec(s, m).filter(key_class(v, m)) == s.filter(key_class(v, m)),
    decreases s.len(),
{
    let pred = key_class(v, m);
    if s.len() > 0 {
        let prefix = s.drop_last();
        let x = s.last();
        lemma_sort_spec_stable(prefix, m, v);
        lemma_sort_spec_sorted(prefix, m);
        lemma_insert_sorted_filter(sort_spec(prefix, m), x, m, v);
        assert(s =~= prefix.push(x));
        broadcast use Seq::lemma_filter_push;

        if pred(x) {
            assert(prefix.push(x).filter(pred) == prefix.filter(pred).push(x));
        }
    }
}

proof fn lemma_views_insert(s: Seq<Note>, i: int, x: Note)
    requires
        0 <= i <= s.len(),
    ensures
        views(s.insert(i, x)) == views(s).insert(i, x@),
{
    assert(views(s.insert(i, x)) =~= views(s).insert(i, x@));
}

/// The index where a stable insertion of `x` into the already sorted
/// `notes` belongs.
fn find_insert_pos(notes: &Vec<Note>, x: &Note, m: SortMethod) -> (pos: usize)
    ensures
        pos == insert_pos(views(notes@), x@, m),
{
    let ghost vs = views(notes@);
    let mut j: usize = 0;
    loop
        invariant
            j <= notes.len(),
            vs == views(notes@),
            vs.len() == notes@.len(),
            forall|q: int| 0 <= q < j ==> key_le(#[trigger] vs[q], x@, m),
        decreases notes.len() - j,
    {
        if j == notes.len() {
            proof {
                lemma_insert_pos_unique(vs, x@, m, j as int);
            }
            return j;
        }
        if !key_le_exec(&notes[j], x, m) {
            proof {
                assert(vs[j as int] == notes@[j as int]@);
                lemma_insert_pos_unique(vs, x@, m, j as int);
            }
            return j;
        }
        proof {
            assert(vs[j as int] == notes@[j as int]@);
        }
        j += 1;
    }
}

/// A copy of the given notes, stably sorted under method `m`.
pub fn sort_notes(notes: &Vec<Note>, m: SortMethod) -> (r: Vec<Note>)
    ensures
        views(r@) == sort_spec(views(notes@), m),
{
    let ghost vs = views(notes@);
    let mut r: Vec<Note> = Vec::new();
    let mut i: usize = 0;
    proof {
        assert(views(r@) =~= Seq::<NoteView>::empty());
        assert(vs.take(0) =~= Seq::<NoteView>::empty());
        assert(views(r@) == sort_spec(vs.take(0), m));
    }
    while i < notes.len()
        invariant
            i <= notes.len(),
            vs == views(notes@),
            vs.len() == notes@.len(),
            views(r@) == sort_spec(vs.take(i as int), m),
        decreases notes.len() - i,
    {
        let x = notes[i].clone();
        let ghost rv = r@;
        let ghost before = views(r@);
        proof {
            assert(vs[i as int] == notes@[i as int]@);
            lemma_insert_pos_bounds(before, x@, m);
        }
        let pos = find_insert_pos(&r, &x, m);
        r.insert(pos, x);
        proof {
            lemma_views_insert(rv, pos as int, x);
            assert(views(r@) == insert_sorted(before, x@, m));
            assert(vs.take(i + 1).drop_last() =~= vs.take(i as int));
            assert(vs.take(i + 1).last() == vs[i as int]);
            assert(views(r@) == sort_spec(vs.take(i + 1), m));
        }
        i += 1;
    }
    proof {
        assert(vs.take(notes@.len() as int) =~= vs);
    }
    r
}

} // verus!
