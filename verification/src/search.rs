//! Case-insensitive keyword matching over note content.

use vstd::prelude::*;
use vstd::utf8::encode_utf8;
use crate::note::NoteView;

verus! {

/// The lowercase form of a string, as `str::to_lowercase` computes it: a
/// pure function of the characters alone.
pub uninterp spec fn lower_of(s: Seq<char>) -> Seq<char>;

/// Relies on `str::to_lowercase`: its result depends on the characters of
/// `s` alone, and an empty string stays empty.
#[verifier::external_body]
pub(crate) fn to_lower(s: &str) -> (r: String)
    ensures
        r@ == lower_of(s@),
        s@.len() == 0 ==> r@.len() == 0,
{
    s.to_lowercase()
}

/// Whether the byte string `n` occurs contiguously inside `h`.
pub open spec fn contains_sub(h: Seq<u8>, n: Seq<u8>) -> bool {
    exists|k: int| 0 <= k <= h.len() - n.len() && #[trigger] h.subrange(k, k + n.len()) == n
}

/// Whether a note's content matches a search keyword: the lowercase form
/// of the keyword occurs inside the lowercase form of the content.
pub open spec fn note_matches(n: NoteView, keyword: Seq<char>) -> bool {
    contains_sub(encode_utf8(lower_of(n.content)), encode_utf8(lower_of(keyword)))
}

/// The match predicate of a fixed keyword: which notes it selects.
pub open spec fn matches_pred(keyword: Seq<char>) -> spec_fn(NoteView) -> bool {
    |n: NoteView| note_matches(n, keyword)
}

/// Whether the bytes of `n` occur contiguously at offset `k` of `h`.
fn match_at(h: &[u8], n: &[u8], k: usize) -> (r: bool)
    requires
        k + n@.len() <= h@.len(),
    ensures
        r == (h@.subrange(k as int, k + n@.len()) == n@),
{
    let n_len = n.len();
    let h_len = h.len();
    let mut j: usize = 0;
    while j < n_len
        invariant
            j <= n_len,
            n_len == n@.len(),
            h_len == h@.len(),
            k + n_len <= h_len,
            forall|q: int| 0 <= q < j ==> h@[k + q] == n@[q],
        decreases n_len - j,
    {
        if h[k + j] != n[j] {
            proof {
                assert(h@.subrange(k as int, k + n@.len())[j as int] == h@[k + j]);
            }
            return false;
        }
        j += 1;
    }
    proof {
        assert(h@.subrange(k as int, k + n@.len()) =~= n@);
    }
    true
}

fn contains_bytes(h: &[u8], n: &[u8]) -> (r: bool)
    ensures
        r == contains_sub(h@, n@),
{
    let h_len = h.len();
    let n_len = n.len();
    if n_len > h_len {
        proof {
            assert(!contains_sub(h@, n@));
        }
        return false;
    }
    if n_len == 0 {
        proof {
            assert(h@.subrange(0, 0 + n@.len() as int) =~= n@);
        }
        return true;
    }
    let mut k: usize = 0;
    while k <= h_len - n_len
        invariant
            1 <= n_len <= h_len,
            h_len == h@.len(),
            n_len == n@.len(),
            forall|q: int|
                0 <= q < k ==> #[trigger] h@.subrange(q, q + n@.len()) != n@,
        decreases h_len - k,
    {
        if match_at(h, n, k) {
            proof {
                assert(0 <= k <= h@.len() - n@.len() && h@.subrange(k as int, k + n@.len()) == n@);
            }
            return true;
        }
        k += 1;
    }
    proof {
        assert forall|q: int| 0 <= q <= h@.len() - n@.len() implies #[trigger] h@.subrange(
            q,
            q + n@.len(),
        ) != n@ by {
            assert(q < k);
        }
    }
    false
}

/// Whether `keyword` occurs contiguously inside `haystack`, by exact
/// byte-for-byte comparison of their UTF-8 forms.
pub fn contains_keyword(haystack: &str, keyword: &str) -> (r: bool)
    ensures
        r == contains_sub(encode_utf8(haystack@), encode_utf8(keyword@)),
{
    contains_bytes(haystack.as_bytes(), keyword.as_bytes())
}

} // verus!
