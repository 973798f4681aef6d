//! Text primitives the checklist logic needs: case folding, substring
//! search, and a lexicographic order on strings used to sort the region
//! index.

use vstd::prelude::*;

verus! {

/// What `str::to_lowercase` returns for a given sequence of characters.
/// The full Unicode case-folding table is not restated here; the library
/// only relies on the result being a function of the input characters.
pub uninterp spec fn lower_of(s: Seq<char>) -> Seq<char>;

/// `needle` occurs as a contiguous subsequence of `hay`.
pub open spec fn seq_contains(hay: Seq<char>, needle: Seq<char>) -> bool {
    exists|i: int|
        0 <= i && i + needle.len() <= hay.len() && #[trigger] hay.subrange(i, i + needle.len())
            == needle
}

/// Relies on `str::to_lowercase` for Unicode case folding: its output is
/// determined by the input characters alone, and lowercasing the empty
/// string yields the empty string.
#[verifier::external_body]
pub(crate) fn to_lower(s: &String) -> (r: String)
    ensures
        r@ == lower_of(s@),
        s@.len() == 0 ==> r@.len() == 0,
{
    s.to_lowercase()
}

/// Whether `needle` occurs in `hay` starting at position `i`.
fn match_at(hay: &String, needle: &String, i: usize) -> (r: bool)
    requires
        i + needle@.len() <= hay@.len(),
    ensures
        r == (hay@.subrange(i as int, i + needle@.len()) == needle@),
{
    let hlen = hay.as_str().unicode_len();
    let nlen = needle.as_str().unicode_len();
    let mut j: usize = 0;
    while j < nlen
        invariant
            j <= nlen,
            nlen == needle@.len(),
            hlen == hay@.len(),
            i + nlen <= hlen,
            forall|m: int| 0 <= m < j ==> hay@[i + m] == needle@[m],
        decreases nlen - j,
    {
        if hay.as_str().get_char(i + j) != needle.as_str().get_char(j) {
            proof {
                assert(hay@.subrange(i as int, i + needle@.len())[j as int] == hay@[i + j]);
            }
            return false;
        }
        j = j + 1;
    }
    proof {
        assert(hay@.subrange(i as int, i + needle@.len()) =~= needle@);
    }
    true
}

/// Decides whether `needle` occurs as a contiguous substring of `hay`.
pub(crate) fn contains_str(hay: &String, needle: &String) -> (r: bool)
    ensures
        r == seq_contains(hay@, needle@),
{
    let hlen = hay.as_str().unicode_len();
    let nlen = needle.as_str().unicode_len();
    if nlen == 0 {
        proof {
            assert(hay@.subrange(0, 0 + needle@.len() as int) =~= needle@);
            assert(seq_contains(hay@, needle@));
        }
        return true;
    }
    if nlen > hlen {
        proof {
            if seq_contains(hay@, needle@) {
                let m = choose|m: int|
                    0 <= m && m + needle@.len() <= hay@.len() && #[trigger] hay@.subrange(
                        m,
                        m + needle@.len(),
                    ) == needle@;
                assert(false);
            }
        }
        return false;
    }
    let mut i: usize = 0;
    while i <= hlen - nlen
        invariant
            hlen == hay@.len(),
            nlen == needle@.len(),
            0 < nlen <= hlen,
            i <= hlen - nlen + 1,
            forall|m: int| 0 <= m < i ==> #[trigger] hay@.subrange(m, m + needle@.len())
                != needle@,
        decreases hlen - nlen + 1 - i,
    {
        if match_at(hay, needle, i) {
            proof {
                assert(hay@.subrange(i as int, i + needle@.len()) == needle@);
                assert(seq_contains(hay@, needle@));
            }
            return true;
        }
        i = i + 1;
    }
    proof {
        if seq_contains(hay@, needle@) {
            let m = choose|m: int|
                0 <= m && m + needle@.len() <= hay@.len() && #[trigger] hay@.subrange(
                    m,
                    m + needle@.len(),
                ) == needle@;
            assert(m < i);
            assert(false);
        }
    }
    false
}

/// Strict lexicographic order on character sequences, by code point.
pub open spec fn lex_lt(a: Seq<char>, b: Seq<char>) -> bool
    decreases a.len(),
{
    if b.len() == 0 {
        false
    } else if a.len() == 0 {
        true
    } else if (a[0] as int) < (b[0] as int) {
        true
    } else if a[0] == b[0] {
        lex_lt(a.drop_first(), b.drop_first())
    } else {
        false
    }
}

/// Non-strict lexicographic order.
pub open spec fn lex_le(a: Seq<char>, b: Seq<char>) -> bool {
    a == b || lex_lt(a, b)
}

/// Any two character sequences are ordered or equal.
pub proof fn lemma_lex_trichotomy(a: Seq<char>, b: Seq<char>)
    ensures
        lex_lt(a, b) || lex_lt(b, a) || a == b,
    decreases a.len(),
{
    if a.len() == 0 || b.len() == 0 {
        if a.len() == 0 && b.len() == 0 {
            assert(a =~= b);
        }
    } else if a[0] == b[0] {
        lemma_lex_trichotomy(a.drop_first(), b.drop_first());
        if a.drop_first() == b.drop_first() {
            assert(a.drop_first().len() == b.drop_first().len());
            assert(a.len() == b.len());
            assert forall|i: int| 0 <= i < a.len() implies a[i] == b[i] by {
                if i >= 1 {
                    assert(a[i] == a.drop_first()[i - 1]);
                    assert(b[i] == b.drop_first()[i - 1]);
                }
            }
            assert(a =~= b);
        }
    }
}

/// The strict order is irreflexive.
pub proof fn lemma_lex_irrefl(a: Seq<char>)
    ensures
        !lex_lt(a, a),
    decreases a.len(),
{
    if a.len() > 0 {
        lemma_lex_irrefl(a.drop_first());
    }
}

/// The strict order is transitive.
pub proof fn lemma_lex_trans(a: Seq<char>, b: Seq<char>, c: Seq<char>)
    requires
        lex_lt(a, b),
        lex_lt(b, c),
    ensures
        lex_lt(a, c),
    decreases a.len(),
{
    if a.len() == 0 || b.len() == 0 || c.len() == 0 {
    } else if a[0] == b[0] && b[0] == c[0] {
        lemma_lex_trans(a.drop_first(), b.drop_first(), c.drop_first());
    }
}

/// Decides the strict lexicographic order on two strings.
pub fn lex_lt_str(a: &String, b: &String) -> (r: bool)
    ensures
        r == lex_lt(a@, b@),
{
    let alen = a.as_str().unicode_len();
    let blen = b.as_str().unicode_len();
    let mut i: usize = 0;
    proof {
        assert(a@.skip(0) =~= a@);
        assert(b@.skip(0) =~= b@);
    }
    while i < alen && i < blen
        invariant
            i <= alen,
            i <= blen,
            alen == a@.len(),
            blen == b@.len(),
            lex_lt(a@, b@) == lex_lt(a@.skip(i as int), b@.skip(i as int)),
        decreases alen - i,
    {
        let ca = a.as_str().get_char(i);
        let cb = b.as_str().get_char(i);
        proof {
            assert(a@.skip(i as int)[0] == a@[i as int]);
            assert(b@.skip(i as int)[0] == b@[i as int]);
        }
        if (ca as u32) < (cb as u32) {
            return true;
        }
        if ca != cb {
            return false;
        }
        proof {
            assert(a@.skip(i as int).drop_first() =~= a@.skip(i + 1));
            assert(b@.skip(i as int).drop_first() =~= b@.skip(i + 1));
        }
        i = i + 1;
    }
    if alen < blen {
        proof {
            assert(a@.skip(i as int).len() == 0);
            assert(b@.skip(i as int).len() > 0);
        }
        true
    } else {
        proof {
            assert(b@.skip(i as int).len() == 0);
        }
        false
    }
}

} // verus!
