//! A single note record, its mathematical model, and the tag-merge
//! operation with its laws.

use vstd::prelude::*;

verus! {

/// One user note: a stable identifier, text content, an ordered list of
/// tags, and creation / last-update timestamps in milliseconds since the
/// Unix epoch.
pub struct Note {
    pub id: u32,
    pub content: String,
    pub tags: Vec<String>,
    pub created_at: i64,
    pub updated_at: i64,
}

/// The mathematical model of a note: every field as a plain value.
#[verifier::ext_equal]
pub ghost struct NoteView {
    pub id: u32,
    pub content: Seq<char>,
    pub tags: Seq<Seq<char>>,
    pub created_at: i64,
    pub updated_at: i64,
}

impl NoteView {
    /// A note is well formed when it was never updated before it was created.
    pub open spec fn wf(self) -> bool {
        self.created_at <= self.updated_at
    }
}

impl View for Note {
    type V = NoteView;

    open spec fn view(&self) -> NoteView {
        NoteView {
            id: self.id,
            content: self.content@,
            tags: self.tags.deep_view(),
            created_at: self.created_at,
            updated_at: self.updated_at,
        }
    }
}

/// The models of a sequence of notes.
pub open spec fn views(s: Seq<Note>) -> Seq<NoteView> {
    s.map_values(|n: Note| n@)
}

impl Clone for Note {
    fn clone(&self) -> (res: Self)
        ensures
            res@ == self@,
    {
        let res = Note {
            id: self.id,
            content: self.content.clone(),
            tags: self.tags.clone(),
            created_at: self.created_at,
            updated_at: self.updated_at,
        };
        proof {
            assert(res.tags@ =~= self.tags@);
            assert(res@ =~= self@);
        }
        res
    }
}

/// How many times tag `t` occurs in the tag list `s`.
pub open spec fn tag_count(s: Seq<Seq<char>>, t: Seq<char>) -> nat
    decreases s.len(),
{
    if s.len() == 0 {
        0
    } else {
        tag_count(s.drop_first(), t) + if s[0] == t { 1nat } else { 0nat }
    }
}

/// Whether tag `t` occurs in the tag list `s`.
pub open spec fn tag_in(s: Seq<Seq<char>>, t: Seq<char>) -> bool {
    tag_count(s, t) > 0
}

/// Appends to `base` each element of `new`, in order, skipping any element
/// already present; duplicates inside `new` are suppressed as well.
pub open spec fn append_distinct(base: Seq<Seq<char>>, new: Seq<Seq<char>>) -> Seq<Seq<char>>
    decreases new.len(),
{
    if new.len() == 0 {
        base
    } else if tag_in(base, new[0]) {
        append_distinct(base, new.drop_first())
    } else {
        append_distinct(base.push(new[0]), new.drop_first())
    }
}

/// A tag list has no occurrence of `t` exactly when no position holds `t`.
pub proof fn lemma_tag_count_zero(s: Seq<Seq<char>>, t: Seq<char>)
    ensures
        tag_count(s, t) == 0 <==> forall|j: int| 0 <= j < s.len() ==> s[j] != t,
    decreases s.len(),
{
    if s.len() > 0 {
        lemma_tag_count_zero(s.drop_first(), t);
        assert(forall|j: int| 0 <= j < s.drop_first().len() ==> s.drop_first()[j] == s[j + 1]);
        if s[0] != t && forall|j: int| 0 <= j < s.drop_first().len() ==> s.drop_first()[j] != t {
            assert forall|j: int| 0 <= j < s.len() implies s[j] != t by {
                if j > 0 {
                    assert(s.drop_first()[j - 1] == s[j]);
                }
            }
        }
    }
}

proof fn lemma_tag_count_push(s: Seq<Seq<char>>, x: Seq<char>, t: Seq<char>)
    ensures
        tag_count(s.push(x), t) == tag_count(s, t) + if x == t { 1nat } else { 0nat },
    decreases s.len(),
{
    assert(s.push(x)[0] == if s.len() == 0 { x } else { s[0] });
    if s.len() == 0 {
        assert(s.push(x).drop_first() =~= Seq::<Seq<char>>::empty());
        assert(tag_count(Seq::<Seq<char>>::empty(), t) == 0);
    } else {
        assert(s.push(x).drop_first() =~= s.drop_first().push(x));
        lemma_tag_count_push(s.drop_first(), x, t);
    }
}

/// The occurrence count of any tag after a merge: a tag already present
/// keeps its count, a fresh tag named in `new` ends with exactly one
/// occurrence, and a tag named nowhere stays absent.
pub proof fn lemma_append_distinct_count(base: Seq<Seq<char>>, new: Seq<Seq<char>>, t: Seq<char>)
    ensures
        tag_count(append_distinct(base, new), t) == if tag_in(base, t) {
            tag_count(base, t)
        } else if tag_in(new, t) {
            1nat
        } else {
            0nat
        },
    decreases new.len(),
{
    if new.len() > 0 {
        let rest = new.drop_first();
        if tag_in(base, new[0]) {
            lemma_append_distinct_count(base, rest, t);
        } else {
            lemma_append_distinct_count(base.push(new[0]), rest, t);
            lemma_tag_count_push(base, new[0], t);
        }
    }
}

/// Merging the same tags twice gives the same list as merging them once.
pub proof fn lemma_append_distinct_idempotent(base: Seq<Seq<char>>, new: Seq<Seq<char>>)
    ensures
        append_distinct(append_distinct(base, new), new) == append_distinct(base, new),
{
    let merged = append_distinct(base, new);
    assert forall|t: Seq<char>| tag_in(new, t) implies tag_in(merged, t) by {
        lemma_append_distinct_count(base, new, t);
    }
    lemma_append_distinct_absorbed(merged, new);
}

/// Merging tags that are all already present changes nothing.
proof fn lemma_append_distinct_absorbed(base: Seq<Seq<char>>, new: Seq<Seq<char>>)
    requires
        forall|t: Seq<char>| #[trigger] tag_in(new, t) ==> tag_in(base, t),
    ensures
        append_distinct(base, new) == base,
    decreases new.len(),
{
    if new.len() > 0 {
        let rest = new.drop_first();
        assert(tag_in(new, new[0]));
        assert forall|t: Seq<char>| #[trigger] tag_in(rest, t) implies tag_in(base, t) by {
            assert(tag_count(new, t) >= tag_count(rest, t));
            assert(tag_in(new, t));
        }
        lemma_append_distinct_absorbed(base, rest);
    }
}

/// Merging one more tag after a list merges the list and then that tag.
proof fn lemma_append_distinct_snoc(base: Seq<Seq<char>>, new: Seq<Seq<char>>, x: Seq<char>)
    ensures
        append_distinct(base, new.push(x)) == if tag_in(append_distinct(base, new), x) {
            append_distinct(base, new)
        } else {
            append_distinct(base, new).push(x)
        },
    decreases new.len(),
{
    lemma_append_distinct_count(base, new, x);
    assert(new.push(x)[0] == if new.len() == 0 { x } else { new[0] });
    if new.len() == 0 {
        assert(new.push(x).drop_first() =~= Seq::<Seq<char>>::empty());
        assert(append_distinct(base, Seq::<Seq<char>>::empty()) == base);
        assert(append_distinct(base.push(x), Seq::<Seq<char>>::empty()) == base.push(x));
    } else {
        assert(new.push(x).drop_first() =~= new.drop_first().push(x));
        if tag_in(base, new[0]) {
            lemma_append_distinct_snoc(base, new.drop_first(), x);
        } else {
            lemma_append_distinct_snoc(base.push(new[0]), new.drop_first(), x);
        }
    }
}

/// Whether tag `t` is already in the list, by exact string match.
fn has_tag(tags: &Vec<String>, t: &String) -> (r: bool)
    ensures
        r == tag_in(tags.deep_view(), t@),
{
    let ghost dv = tags.deep_view();
    let mut i: usize = 0;
    while i < tags.len()
        invariant
            i <= tags.len(),
            dv == tags.deep_view(),
            forall|j: int| 0 <= j < i ==> dv[j] != t@,
        decreases tags.len() - i,
    {
        proof {
            assert(dv[i as int] == tags@[i as int]@);
        }
        if tags[i].eq(t) {
            proof {
                lemma_tag_count_zero(dv, t@);
            }
            return true;
        }
        i += 1;
    }
    proof {
        lemma_tag_count_zero(dv, t@);
    }
    false
}

impl Note {
    /// Appends each given tag that the note does not already carry,
    /// preserving first-seen order and suppressing duplicates, both against
    /// the existing tags and inside the given list.
    pub fn merge_tags(&mut self, tags: &Vec<String>)
        ensures
            final(self)@ == (NoteView {
                tags: append_distinct(old(self)@.tags, tags.deep_view()),
                ..old(self)@
            }),
    {
        let ghost orig = self@;
        let ghost dv = tags.deep_view();
        let mut i: usize = 0;
        while i < tags.len()
            invariant
                i <= tags.len(),
                dv == tags.deep_view(),
                self@ == (NoteView { tags: append_distinct(orig.tags, dv.take(i as int)), ..orig }),
            decreases tags.len() - i,
        {
            let ghost done = dv.take(i as int);
            let ghost cur = self@.tags;
            proof {
                assert(dv[i as int] == tags@[i as int]@);
            }
            if !has_tag(&self.tags, &tags[i]) {
                let fresh = tags[i].clone();
                self.tags.push(fresh);
                proof {
                    assert(self@.tags =~= cur.push(dv[i as int]));
                }
            }
            proof {
                assert(dv.take(i + 1) =~= done.push(dv[i as int]));
                lemma_append_distinct_snoc(orig.tags, done, dv[i as int]);
            }
            i += 1;
        }
        proof {
            assert(dv.take(tags.len() as int) =~= dv);
        }
    }
}

} // verus!
