//! The table model: catalog entries, table rows, and the completion set,
//! together with the functions that build rows from a catalog and derive
//! the completion set back from the rows.

use vstd::prelude::*;

verus! {

/// One catalog entry: a region and the bosses it contains, in catalog order.
pub struct RegionEntry {
    pub region: String,
    pub bosses: Vec<String>,
}

/// One table row: a (region, boss) pair from the catalog together with its
/// completion flag and its current visibility under the active filter.
pub struct TableEntry {
    pub region: String,
    pub name: String,
    pub checked: bool,
    pub visible: bool,
}

/// The persisted state: the set of completed (region, name) pairs, held as
/// a duplicate-free vector.
pub struct State {
    pub completed: Vec<(String, String)>,
}

/// The (region, name) character sequences of a stored pair.
pub open spec fn pair_view(p: (String, String)) -> (Seq<char>, Seq<char>) {
    (p.0@, p.1@)
}

impl State {
    /// The completion set as a mathematical set of character-sequence pairs.
    pub open spec fn set_view(self) -> Set<(Seq<char>, Seq<char>)> {
        Set::new(
            |q: (Seq<char>, Seq<char>)|
                exists|k: int|
                    0 <= k < self.completed@.len() && pair_view(#[trigger] self.completed@[k])
                        == q,
        )
    }

    /// No pair is stored twice.
    pub open spec fn wf(self) -> bool {
        forall|i: int, j: int|
            0 <= i < j < self.completed@.len() ==> pair_view(#[trigger] self.completed@[i])
                != pair_view(#[trigger] self.completed@[j])
    }

    /// Whether the given (region, name) pair has been marked completed.
    pub fn contains_pair(&self, region: &String, name: &String) -> (r: bool)
        ensures
            r == self.set_view().contains((region@, name@)),
    {
        let n = self.completed.len();
        let mut k: usize = 0;
        while k < n
            invariant
                k <= n,
                n == self.completed@.len(),
                forall|m: int|
                    0 <= m < k ==> pair_view(#[trigger] self.completed@[m]) != (region@, name@),
            decreases n - k,
        {
            let p = &self.completed[k];
            if p.0 == *region && p.1 == *name {
                return true;
            }
            k = k + 1;
        }
        false
    }
}

impl Default for State {
    /// A fresh state with nothing completed.
    fn default() -> (s: State)
        ensures
            s.wf(),
            s.completed@.len() == 0,
            s.set_view() == Set::<(Seq<char>, Seq<char>)>::empty(),
    {
        let s = State { completed: Vec::new() };
        proof {
            assert(s.set_view() =~= Set::<(Seq<char>, Seq<char>)>::empty());
        }
        s
    }
}

/// The (region, name) pairs contributed by one catalog entry, in order.
pub open spec fn entry_pairs(e: RegionEntry) -> Seq<(Seq<char>, Seq<char>)> {
    Seq::new(e.bosses@.len(), |i: int| (e.region@, e.bosses@[i]@))
}

/// The flattened (region, name) pairs of a whole catalog, in catalog order.
pub open spec fn catalog_pairs(catalog: Seq<RegionEntry>) -> Seq<(Seq<char>, Seq<char>)>
    decreases catalog.len(),
{
    if catalog.len() == 0 {
        Seq::empty()
    } else {
        entry_pairs(catalog[0]) + catalog_pairs(catalog.drop_first())
    }
}

/// Appending a catalog entry appends its pairs to the flattening.
pub proof fn lemma_catalog_pairs_push(catalog: Seq<RegionEntry>, e: RegionEntry)
    ensures
        catalog_pairs(catalog.push(e)) == catalog_pairs(catalog) + entry_pairs(e),
    decreases catalog.len(),
{
    if catalog.len() == 0 {
        assert(catalog.push(e).drop_first() =~= Seq::<RegionEntry>::empty());
        assert(catalog.push(e)[0] == e);
        assert(catalog_pairs(Seq::<RegionEntry>::empty()) =~= Seq::<(Seq<char>, Seq<char>)>::empty());
        assert(catalog_pairs(catalog.push(e)) =~= entry_pairs(e));
        assert(catalog_pairs(catalog.push(e)) =~= catalog_pairs(catalog) + entry_pairs(e));
    } else {
        assert(catalog.push(e).drop_first() =~= catalog.drop_first().push(e));
        lemma_catalog_pairs_push(catalog.drop_first(), e);
        assert(catalog.push(e)[0] == catalog[0]);
        assert(catalog_pairs(catalog.push(e)) =~= catalog_pairs(catalog) + entry_pairs(e));
    }
}

/// The (region, name) pairs of a sequence of rows, in row order.
pub open spec fn row_pairs(rows: Seq<TableEntry>) -> Seq<(Seq<char>, Seq<char>)> {
    Seq::new(rows.len(), |i: int| (rows[i].region@, rows[i].name@))
}

/// The set of (region, name) pairs of the rows currently marked completed.
pub open spec fn checked_pairs(rows: Seq<TableEntry>) -> Set<(Seq<char>, Seq<char>)> {
    Set::new(
        |q: (Seq<char>, Seq<char>)|
            exists|i: int|
                0 <= i < rows.len() && (#[trigger] rows[i]).checked && (rows[i].region@,
                rows[i].name@) == q,
    )
}

/// Flattens the catalog into one row per (region, boss) pair, preserving
/// catalog order; `checked` is initialized from membership in the
/// completion set, `visible` starts true.
pub fn build_rows(catalog: &Vec<RegionEntry>, state: &State) -> (rows: Vec<TableEntry>)
    ensures
        row_pairs(rows@) == catalog_pairs(catalog@),
        forall|i: int| 0 <= i < rows@.len() ==> (#[trigger] rows@[i]).visible,
        forall|i: int|
            0 <= i < rows@.len() ==> (#[trigger] rows@[i]).checked == state.set_view().contains(
                (rows@[i].region@, rows@[i].name@),
            ),
{
    let mut rows: Vec<TableEntry> = Vec::new();
    proof {
        assert(catalog@.subrange(0, 0) =~= Seq::<RegionEntry>::empty());
        assert(row_pairs(rows@) =~= catalog_pairs(catalog@.subrange(0, 0)));
    }
    let mut d: usize = 0;
    while d < catalog.len()
        invariant
            d <= catalog@.len(),
            row_pairs(rows@) == catalog_pairs(catalog@.subrange(0, d as int)),
            forall|i: int| 0 <= i < rows@.len() ==> (#[trigger] rows@[i]).visible,
            forall|i: int|
                0 <= i < rows@.len() ==> (#[trigger] rows@[i]).checked == state.set_view().contains(
                    (rows@[i].region@, rows@[i].name@),
                ),
        decreases catalog@.len() - d,
    {
        let ghost prev = rows@;
        let boss_count = catalog[d].bosses.len();
        let mut j: usize = 0;
        proof {
            assert(entry_pairs(catalog@[d as int]).subrange(0, 0) =~= Seq::<(
                Seq<char>,
                Seq<char>,
            )>::empty());
            assert(row_pairs(rows@) =~= catalog_pairs(catalog@.subrange(0, d as int)) + entry_pairs(
                catalog@[d as int],
            ).subrange(0, 0));
        }
        while j < boss_count
            invariant
                d < catalog@.len(),
                j <= boss_count,
                boss_count == catalog@[d as int].bosses@.len(),
                row_pairs(rows@) == catalog_pairs(catalog@.subrange(0, d as int)) + entry_pairs(
                    catalog@[d as int],
                ).subrange(0, j as int),
                forall|i: int| 0 <= i < rows@.len() ==> (#[trigger] rows@[i]).visible,
                forall|i: int|
                    0 <= i < rows@.len() ==> (#[trigger] rows@[i]).checked
                        == state.set_view().contains((rows@[i].region@, rows@[i].name@)),
            decreases boss_count - j,
        {
            let ghost before = rows@;
            let region = catalog[d].region.clone();
            let name = catalog[d].bosses[j].clone();
            let checked = state.contains_pair(&region, &name);
            rows.push(TableEntry { region, name, checked, visible: true });
            j = j + 1;
            proof {
                assert(entry_pairs(catalog@[d as int]).subrange(0, j as int) =~= entry_pairs(
                    catalog@[d as int],
                ).subrange(0, j - 1).push(
                    (catalog@[d as int].region@, catalog@[d as int].bosses@[j - 1]@),
                ));
                assert(row_pairs(rows@) =~= row_pairs(before).push(
                    (catalog@[d as int].region@, catalog@[d as int].bosses@[j - 1]@),
                ));
                assert(row_pairs(rows@) =~= catalog_pairs(catalog@.subrange(0, d as int))
                    + entry_pairs(catalog@[d as int]).subrange(0, j as int));
            }
        }
        d = d + 1;
        proof {
            assert(entry_pairs(catalog@[d - 1]).subrange(0, boss_count as int) =~= entry_pairs(
                catalog@[d - 1],
            ));
            assert(catalog@.subrange(0, d as int) =~= catalog@.subrange(0, d - 1).push(
                catalog@[d - 1],
            ));
            lemma_catalog_pairs_push(catalog@.subrange(0, d - 1), catalog@[d - 1]);
            assert(row_pairs(rows@) =~= catalog_pairs(catalog@.subrange(0, d as int)));
        }
    }
    proof {
        assert(catalog@.subrange(0, catalog@.len() as int) =~= catalog@);
    }
    rows
}

/// Rebuilds the completion set from the rows: exactly the (region, name)
/// pairs of the rows marked completed, each stored once.
pub fn derive_completion_set(rows: &Vec<TableEntry>) -> (s: State)
    ensures
        s.wf(),
        s.set_view() == checked_pairs(rows@),
{
    let mut out = State { completed: Vec::new() };
    let n = rows.len();
    let mut i: usize = 0;
    while i < n
        invariant
            i <= n,
            n == rows@.len(),
            out.wf(),
            forall|q: (Seq<char>, Seq<char>)|
                #[trigger] out.set_view().contains(q) <==> exists|k: int|
                    0 <= k < i && (#[trigger] rows@[k]).checked && (rows@[k].region@, rows@[k].name@)
                        == q,
        decreases n - i,
    {
        let row = &rows[i];
        if row.checked {
            if !out.contains_pair(&row.region, &row.name) {
                let ghost prev = out;
                out.completed.push((row.region.clone(), row.name.clone()));
                proof {
                    assert forall|q: (Seq<char>, Seq<char>)| #[trigger]
                        out.set_view().contains(q) <==> (prev.set_view().contains(q) || q == (
                        rows@[i as int].region@,
                        rows@[i as int].name@,
                    )) by {
                        let last = out.completed@.len() - 1;
                        if out.set_view().contains(q) {
                            let k = choose|k: int|
                                0 <= k < out.completed@.len() && pair_view(
                                    #[trigger] out.completed@[k],
                                ) == q;
                            if k < last {
                                assert(prev.set_view().contains(q));
                            }
                        } else {
                            assert(pair_view(out.completed@[last]) == (
                                rows@[i as int].region@,
                                rows@[i as int].name@,
                            ));
                            if prev.set_view().contains(q) {
                                let k = choose|k: int|
                                    0 <= k < prev.completed@.len() && pair_view(
                                        #[trigger] prev.completed@[k],
                                    ) == q;
                                assert(pair_view(out.completed@[k]) == q);
                            }
                        }
                    }
                }
            }
        }
        i = i + 1;
    }
    proof {
        assert(out.set_view() =~= checked_pairs(rows@));
    }
    out
}

/// Round trip: rows built from a catalog and a completion set take their
/// completion flags from membership in the set, and deriving the
/// completion set back from those rows reproduces the set exactly —
/// provided every pair of the set occurs in the catalog at all (a pair the
/// catalog does not mention yields no row and cannot survive the trip).
pub proof fn lemma_completion_round_trip(
    catalog: Seq<RegionEntry>,
    state: State,
    rows: Seq<TableEntry>,
)
    requires
        row_pairs(rows) == catalog_pairs(catalog),
        forall|i: int|
            0 <= i < rows.len() ==> (#[trigger] rows[i]).checked == state.set_view().contains(
                (rows[i].region@, rows[i].name@),
            ),
        forall|q: (Seq<char>, Seq<char>)|
            state.set_view().contains(q) ==> catalog_pairs(catalog).contains(q),
    ensures
        checked_pairs(rows) == state.set_view(),
{
    assert forall|q: (Seq<char>, Seq<char>)|
        checked_pairs(rows).contains(q) <==> state.set_view().contains(q) by {
        if checked_pairs(rows).contains(q) {
            let i = choose|i: int|
                0 <= i < rows.len() && (#[trigger] rows[i]).checked && (rows[i].region@,
                rows[i].name@) == q;
            assert(state.set_view().contains(q));
        }
        if state.set_view().contains(q) {
            assert(catalog_pairs(catalog).contains(q));
            let i = choose|i: int|
                0 <= i < catalog_pairs(catalog).len() && catalog_pairs(catalog)[i] == q;
            assert(row_pairs(rows)[i] == q);
            assert((rows[i].region@, rows[i].name@) == q);
            assert(rows[i].checked);
            assert(checked_pairs(rows).contains(q));
        }
    }
    assert(checked_pairs(rows) =~= state.set_view());
}

/// Sets the completion flag of one row, leaving every other field and row
/// unchanged, and reports whether the flag actually changed.
pub fn set_checked(rows: &mut Vec<TableEntry>, i: usize, value: bool) -> (changed: bool)
    requires
        i < old(rows)@.len(),
    ensures
        final(rows)@.len() == old(rows)@.len(),
        forall|k: int|
            0 <= k < final(rows)@.len() && k != i ==> final(rows)@[k] == old(rows)@[k],
        final(rows)@[i as int].region == old(rows)@[i as int].region,
        final(rows)@[i as int].name == old(rows)@[i as int].name,
        final(rows)@[i as int].visible == old(rows)@[i as int].visible,
        final(rows)@[i as int].checked == value,
        changed == (old(rows)@[i as int].checked != value),
{
    let was = rows[i].checked;
    rows[i].checked = value;
    was != value
}

} // verus!
