//! The filter engine: visibility of every row is recomputed as the
//! conjunction of an exact region match and a case-insensitive substring
//! match of the search term against the row's name or region.

use vstd::prelude::*;

use crate::model::TableEntry;
use crate::text::contains_str;
use crate::text::lower_of;
use crate::text::seq_contains;
use crate::text::to_lower;

verus! {

/// The row's region passes the selector: either the selector is the
/// sentinel "All" or it equals the region exactly (case-sensitive).
pub open spec fn region_matches(row_region: Seq<char>, selector: Seq<char>) -> bool {
    selector == "All"@ || row_region == selector
}

/// The lowercased search term occurs in the lowercased name or region.
pub open spec fn text_matches(row_region: Seq<char>, row_name: Seq<char>, term: Seq<char>) -> bool {
    seq_contains(lower_of(row_name), lower_of(term)) || seq_contains(
        lower_of(row_region),
        lower_of(term),
    )
}

/// The visibility a row gets under the given selector and search term.
pub open spec fn visible_spec(
    row_region: Seq<char>,
    row_name: Seq<char>,
    selector: Seq<char>,
    term: Seq<char>,
) -> bool {
    region_matches(row_region, selector) && text_matches(row_region, row_name, term)
}

/// How one filter pass relates the rows before it to the rows after it:
/// every field but `visible` is kept, and `visible` is recomputed.
pub open spec fn filtered(
    before: Seq<TableEntry>,
    after: Seq<TableEntry>,
    selector: Seq<char>,
    term: Seq<char>,
) -> bool {
    &&& after.len() == before.len()
    &&& forall|i: int|
        0 <= i < before.len() ==> {
            &&& (#[trigger] after[i]).region == before[i].region
            &&& after[i].name == before[i].name
            &&& after[i].checked == before[i].checked
            &&& after[i].visible == visible_spec(before[i].region@, before[i].name@, selector, term)
        }
}

/// Recomputes every row's visibility from the region selector and the
/// search term. With the selector "All" and an empty term every row ends
/// up visible; with a selector other than "All", only rows of exactly
/// that region can end up visible.
pub fn filter_entries(entries: &mut Vec<TableEntry>, search_region: &String, search_boss: &String)
    ensures
        filtered(old(entries)@, final(entries)@, search_region@, search_boss@),
        (search_region@ == "All"@ && search_boss@.len() == 0) ==> forall|i: int|
            0 <= i < final(entries)@.len() ==> (#[trigger] final(entries)@[i]).visible,
        forall|i: int|
            0 <= i < final(entries)@.len() && search_region@ != "All"@
                && (#[trigger] final(entries)@[i]).visible ==> final(entries)@[i].region@
                == search_region@,
{
    let all: String = "All".to_owned();
    let term = to_lower(search_boss);
    let n = entries.len();
    let mut k: usize = 0;
    while k < n
        invariant
            k <= n,
            n == entries@.len(),
            entries@.len() == old(entries)@.len(),
            all@ == "All"@,
            term@ == lower_of(search_boss@),
            search_boss@.len() == 0 ==> term@.len() == 0,
            (search_region@ == "All"@ && search_boss@.len() == 0) ==> forall|i: int|
                0 <= i < k ==> (#[trigger] entries@[i]).visible,
            forall|i: int| k <= i < n ==> entries@[i] == old(entries)@[i],
            forall|i: int|
                0 <= i < k ==> {
                    &&& (#[trigger] entries@[i]).region == old(entries)@[i].region
                    &&& entries@[i].name == old(entries)@[i].name
                    &&& entries@[i].checked == old(entries)@[i].checked
                    &&& entries@[i].visible == visible_spec(
                        old(entries)@[i].region@,
                        old(entries)@[i].name@,
                        search_region@,
                        search_boss@,
                    )
                },
        decreases n - k,
    {
        let region_ok = *search_region == all || entries[k].region == *search_region;
        let low_name = to_lower(&entries[k].name);
        let low_region = to_lower(&entries[k].region);
        let text_ok = contains_str(&low_name, &term) || contains_str(&low_region, &term);
        entries[k].visible = region_ok && text_ok;
        proof {
            if search_boss@.len() == 0 {
                let hay = lower_of(entries@[k as int].name@);
                let needle = lower_of(search_boss@);
                assert(needle.len() == 0);
                assert(hay.subrange(0, 0 + needle.len() as int) =~= needle);
                assert(seq_contains(hay, needle));
            }
        }
        k = k + 1;
    }
}

/// Filtering is idempotent: a second pass with the same selector and term
/// leaves every row exactly as the first pass left it.
pub proof fn lemma_filter_idempotent(
    first: Seq<TableEntry>,
    second: Seq<TableEntry>,
    third: Seq<TableEntry>,
    selector: Seq<char>,
    term: Seq<char>,
)
    requires
        filtered(first, second, selector, term),
        filtered(second, third, selector, term),
    ensures
        third == second,
{
    assert forall|i: int| 0 <= i < second.len() implies third[i] == second[i] by {
        assert(second[i].region == first[i].region);
        assert(second[i].name == first[i].name);
        assert(third[i].visible == visible_spec(second[i].region@, second[i].name@, selector, term));
        assert(second[i].visible == visible_spec(first[i].region@, first[i].name@, selector, term));
    }
    assert(third =~= second);
}

} // verus!
