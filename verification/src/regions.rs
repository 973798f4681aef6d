//! The region index: the distinct regions occurring in the table rows plus
//! the sentinel "All", kept in ascending lexicographic order with no
//! duplicates.

use vstd::prelude::*;

use crate::model::TableEntry;
use crate::text::lex_le;
use crate::text::lex_lt;
use crate::text::lex_lt_str;
use crate::text::lemma_lex_irrefl;
use crate::text::lemma_lex_trans;
use crate::text::lemma_lex_trichotomy;

verus! {

/// Ascending lexicographic order over the whole vector.
pub open spec fn sorted_strs(s: Seq<String>) -> bool {
    forall|p: int, q: int| 0 <= p < q < s.len() ==> lex_le((#[trigger] s[p])@, (#[trigger] s[q])@)
}

/// No two entries hold the same character sequence.
pub open spec fn distinct_strs(s: Seq<String>) -> bool {
    forall|p: int, q: int| 0 <= p < q < s.len() ==> (#[trigger] s[p])@ != (#[trigger] s[q])@
}

/// Some entry holds exactly the character sequence `t`.
pub open spec fn has_view(s: Seq<String>, t: Seq<char>) -> bool {
    exists|k: int| 0 <= k < s.len() && (#[trigger] s[k])@ == t
}

/// Inserts `x` at its ordered position in a sorted, duplicate-free vector;
/// a value whose characters are already present is not inserted again.
fn insert_sorted(v: &mut Vec<String>, x: String)
    requires
        sorted_strs(old(v)@),
        distinct_strs(old(v)@),
    ensures
        sorted_strs(final(v)@),
        distinct_strs(final(v)@),
        forall|t: Seq<char>|
            #[trigger] has_view(final(v)@, t) <==> (has_view(old(v)@, t) || t == x@),
{
    let n = v.len();
    let mut k: usize = 0;
    while k < n && lex_lt_str(&v[k], &x)
        invariant
            k <= n,
            n == v@.len(),
            v@ == old(v)@,
            forall|m: int| 0 <= m < k ==> lex_lt((#[trigger] v@[m])@, x@),
        decreases n - k,
    {
        k = k + 1;
    }
    if k < n && v[k] == x {
        proof {
            assert(v@[k as int]@ == x@);
            assert(has_view(v@, x@));
        }
        return ;
    }
    proof {
        lemma_lex_irrefl(x@);
        if k < n {
            lemma_lex_trichotomy(x@, old(v)@[k as int]@);
            assert(lex_lt(x@, old(v)@[k as int]@));
        }
        assert forall|j: int| k <= j < n implies lex_lt(x@, (#[trigger] old(v)@[j])@) by {
            if j > k {
                assert(lex_le(old(v)@[k as int]@, old(v)@[j]@));
                if old(v)@[k as int]@ != old(v)@[j]@ {
                    lemma_lex_trans(x@, old(v)@[k as int]@, old(v)@[j]@);
                }
            }
        }
    }
    let ghost before = v@;
    v.insert(k, x);
    proof {
        before.insert_ensures(k as int, x);
        lemma_lex_irrefl(x@);
        assert forall|p: int, q: int| 0 <= p < q < v@.len() implies lex_le(
            (#[trigger] v@[p])@,
            (#[trigger] v@[q])@,
        ) by {
            if q < k {
                assert(v@[p] == before[p] && v@[q] == before[q]);
            } else if p < k && q == k {
                assert(v@[p] == before[p]);
                assert(lex_lt(before[p]@, x@));
            } else if p < k && q > k {
                assert(v@[p] == before[p] && v@[q] == before[q - 1]);
                assert(lex_le(before[p]@, before[q - 1]@));
            } else if p == k && q > k {
                assert(v@[q] == before[q - 1]);
                assert(lex_lt(x@, before[q - 1]@));
            } else {
                assert(v@[p] == before[p - 1] && v@[q] == before[q - 1]);
            }
        }
        assert forall|p: int, q: int| 0 <= p < q < v@.len() implies (#[trigger] v@[p])@ != (
        #[trigger] v@[q])@ by {
            if q < k {
                assert(v@[p] == before[p] && v@[q] == before[q]);
            } else if p < k && q == k {
                assert(lex_lt(before[p]@, x@));
                if before[p]@ == x@ {
                    lemma_lex_irrefl(x@);
                }
            } else if p < k && q > k {
                assert(v@[p] == before[p] && v@[q] == before[q - 1]);
            } else if p == k && q > k {
                assert(lex_lt(x@, before[q - 1]@));
                if before[q - 1]@ == x@ {
                    lemma_lex_irrefl(x@);
                }
            } else {
                assert(v@[p] == before[p - 1] && v@[q] == before[q - 1]);
            }
        }
        assert forall|t: Seq<char>|
            #[trigger] has_view(v@, t) <==> (has_view(before, t) || t == x@) by {
            if has_view(v@, t) {
                let j = choose|j: int| 0 <= j < v@.len() && (#[trigger] v@[j])@ == t;
                if j == k {
                    assert(t == x@);
                } else if j < k {
                    assert(before[j]@ == t);
                    assert(has_view(before, t));
                } else {
                    assert(before[j - 1]@ == t);
                    assert(has_view(before, t));
                }
            }
            if has_view(before, t) {
                let j = choose|j: int| 0 <= j < before.len() && (#[trigger] before[j])@ == t;
                if j < k {
                    assert(v@[j]@ == t);
                } else {
                    assert(v@[j + 1]@ == t);
                }
                assert(has_view(v@, t));
            }
            if t == x@ {
                assert(v@[k as int]@ == t);
                assert(has_view(v@, t));
            }
        }
    }
}

/// Collects the distinct regions of the rows and the sentinel "All" into a
/// sorted, duplicate-free index. "All" occurs exactly once, and every
/// other entry is a region of some row.
pub fn extract_regions(entries: &Vec<TableEntry>) -> (regions: Vec<String>)
    ensures
        sorted_strs(regions@),
        distinct_strs(regions@),
        forall|t: Seq<char>|
            #[trigger] has_view(regions@, t) <==> (t == "All"@ || exists|m: int|
                0 <= m < entries@.len() && (#[trigger] entries@[m]).region@ == t),
        exists|k: int|
            0 <= k < regions@.len() && (#[trigger] regions@[k])@ == "All"@ && forall|m: int|
                0 <= m < regions@.len() && m != k ==> (#[trigger] regions@[m])@ != "All"@,
{
    let mut v: Vec<String> = Vec::new();
    let all: String = "All".to_owned();
    insert_sorted(&mut v, all);
    let n = entries.len();
    let mut j: usize = 0;
    while j < n
        invariant
            j <= n,
            n == entries@.len(),
            sorted_strs(v@),
            distinct_strs(v@),
            forall|t: Seq<char>|
                #[trigger] has_view(v@, t) <==> (t == "All"@ || exists|m: int|
                    0 <= m < j && (#[trigger] entries@[m]).region@ == t),
        decreases n - j,
    {
        let ghost prev = v@;
        let r = entries[j].region.clone();
        insert_sorted(&mut v, r);
        j = j + 1;
        proof {
            assert forall|t: Seq<char>|
                #[trigger] has_view(v@, t) <==> (t == "All"@ || exists|m: int|
                    0 <= m < j && (#[trigger] entries@[m]).region@ == t) by {
                if has_view(v@, t) {
                    if has_view(prev, t) {
                    } else {
                        assert(entries@[j - 1].region@ == t);
                    }
                }
                if exists|m: int| 0 <= m < j && (#[trigger] entries@[m]).region@ == t {
                    let m = choose|m: int| 0 <= m < j && (#[trigger] entries@[m]).region@ == t;
                    if m < j - 1 {
                        assert(has_view(prev, t));
                    } else {
                        assert(t == entries@[j - 1].region@);
                    }
                }
            }
        }
    }
    proof {
        assert(has_view(v@, "All"@));
        let k = choose|k: int| 0 <= k < v@.len() && (#[trigger] v@[k])@ == "All"@;
        assert forall|m: int| 0 <= m < v@.len() && m != k implies (#[trigger] v@[m])@ != "All"@ by {
            if m < k {
                assert(v@[m]@ != v@[k]@);
            } else {
                assert(v@[k]@ != v@[m]@);
            }
        }
    }
    v
}

} // verus!
