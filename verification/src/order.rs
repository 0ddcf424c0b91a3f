//! Sort methods and the order each one puts on notes.

use vstd::prelude::*;
use vstd::utf8::encode_utf8;
use crate::note::{Note, NoteView};

verus! {

/// The key a listing is ordered by: the note's id, its creation time, its
/// last update time, or its content as a raw string.
#[derive(Clone, Copy)]
pub enum SortMethod {
    Id,
    Date,
    Update,
    Content,
}

/// Lexicographic order on byte strings: a proper prefix comes first, and
/// otherwise the first differing byte decides.
pub open spec fn bytes_le(a: Seq<u8>, b: Seq<u8>) -> bool
    decreases a.len(),
{
    if a.len() == 0 {
        true
    } else if b.len() == 0 {
        false
    } else if a[0] < b[0] {
        true
    } else if a[0] > b[0] {
        false
    } else {
        bytes_le(a.drop_first(), b.drop_first())
    }
}

/// Whether `a` sorts no later than `b` under method `m`. Content is
/// compared by its UTF-8 bytes, which is the raw string order.
pub open spec fn key_le(a: NoteView, b: NoteView, m: SortMethod) -> bool {
    match m {
        SortMethod::Id => a.id <= b.id,
        SortMethod::Date => a.created_at <= b.created_at,
        SortMethod::Update => a.updated_at <= b.updated_at,
        SortMethod::Content => bytes_le(encode_utf8(a.content), encode_utf8(b.content)),
    }
}

/// Whether `a` and `b` carry equal sort keys under method `m`.
pub open spec fn key_eq(a: NoteView, b: NoteView, m: SortMethod) -> bool {
    key_le(a, b, m) && key_le(b, a, m)
}

pub proof fn lemma_bytes_le_total(a: Seq<u8>, b: Seq<u8>)
    ensures
        bytes_le(a, b) || bytes_le(b, a),
    decreases a.len(),
{
    if a.len() > 0 && b.len() > 0 && a[0] == b[0] {
        lemma_bytes_le_total(a.drop_first(), b.drop_first());
    }
}

pub proof fn lemma_bytes_le_trans(a: Seq<u8>, b: Seq<u8>, c: Seq<u8>)
    requires
        bytes_le(a, b),
        bytes_le(b, c),
    ensures
        bytes_le(a, c),
    decreases a.len(),
{
    if a.len() > 0 && b.len() > 0 && c.len() > 0 && a[0] == b[0] && b[0] == c[0] {
        lemma_bytes_le_trans(a.drop_first(), b.drop_first(), c.drop_first());
    }
}

/// Any two notes are comparable under every sort method.
pub proof fn lemma_key_le_total(a: NoteView, b: NoteView, m: SortMethod)
    ensures
        key_le(a, b, m) || key_le(b, a, m),
{
    if m is Content {
        lemma_bytes_le_total(encode_utf8(a.content), encode_utf8(b.content));
    }
}

/// The sort order is transitive under every sort method.
pub proof fn lemma_key_le_trans(a: NoteView, b: NoteView, c: NoteView, m: SortMethod)
    requires
        key_le(a, b, m),
        key_le(b, c, m),
    ensures
        key_le(a, c, m),
{
    if m is Content {
        lemma_bytes_le_trans(
            encode_utf8(a.content),
            encode_utf8(b.content),
            encode_utf8(c.content),
        );
    }
}

/// Byte-string comparison, deciding `bytes_le` on the two slices.
fn bytes_le_exec(a: &[u8], b: &[u8]) -> (r: bool)
    ensures
        r == bytes_le(a@, b@),
{
    let mut i: usize = 0;
    proof {
        assert(a@.skip(0) =~= a@);
        assert(b@.skip(0) =~= b@);
    }
    while i < a.len() && i < b.len() && a[i] == b[i]
        invariant
            i <= a.len(),
            i <= b.len(),
            bytes_le(a@, b@) == bytes_le(a@.skip(i as int), b@.skip(i as int)),
            bytes_le(b@, a@) == bytes_le(b@.skip(i as int), a@.skip(i as int)),
        decreases a.len() - i,
    {
        proof {
            assert(a@.skip(i as int).drop_first() =~= a@.skip(i + 1));
            assert(b@.skip(i as int).drop_first() =~= b@.skip(i + 1));
            assert(a@.skip(i as int)[0] == a@[i as int]);
            assert(b@.skip(i as int)[0] == b@[i as int]);
        }
        i += 1;
    }
    proof {
        if i < a.len() && i < b.len() {
            assert(a@.skip(i as int)[0] == a@[i as int]);
            assert(b@.skip(i as int)[0] == b@[i as int]);
        } else if i < b.len() {
            assert(a@.skip(i as int).len() == 0);
        } else if i < a.len() {
            assert(b@.skip(i as int).len() == 0);
            assert(a@.skip(i as int).len() > 0);
        } else {
            assert(a@.skip(i as int).len() == 0);
        }
    }
    if i < a.len() && i < b.len() {
        a[i] < b[i]
    } else {
        i >= a.len()
    }
}

/// Whether `a` sorts no later than `b` under method `m`.
pub fn key_le_exec(a: &Note, b: &Note, m: SortMethod) -> (r: bool)
    ensures
        r == key_le(a@, b@, m),
{
    match m {
        SortMethod::Id => a.id <= b.id,
        SortMethod::Date => a.created_at <= b.created_at,
        SortMethod::Update => a.updated_at <= b.updated_at,
        SortMethod::Content => bytes_le_exec(a.content.as_str().as_bytes(), b.content.as_str().as_bytes()),
    }
}

} // verus!
