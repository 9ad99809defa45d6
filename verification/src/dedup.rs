//! The ordering of rows by a key and the dropping of duplicates.
use crate::order::{self, stable_order, SortKey};
use crate::records::{self, Cells};
use csv::StringRecord;
use hashbrown::HashSet;
use vstd::prelude::*;

verus! {

/// What two rows must share to be duplicates: all cells but the one in the column
/// `ignored`, in order. A row that is too short to have that cell is taken whole.
pub open spec fn dedup_key(row: Cells, ignored: Option<usize>) -> Cells {
    match ignored {
        Some(i) if i < row.len() => row.remove(i as int),
        _ => row,
    }
}

/// The dedup keys of several rows.
pub open spec fn dedup_keys(rows: Seq<Cells>, ignored: Option<usize>) -> Seq<Cells> {
    Seq::new(rows.len(), |i: int| dedup_key(rows[i], ignored))
}

/// A `hashbrown::HashSet` of dedup keys.
#[verifier::external_body]
pub struct SeenRows<'a> {
    set: HashSet<Vec<&'a str>>,
}

/// The dedup keys that a `SeenRows` holds, by their texts.
pub uninterp spec fn seen_keys(seen: SeenRows) -> Set<Seq<Seq<char>>>;

impl<'a> SeenRows<'a> {
    /// `hashbrown::HashSet::new`: the empty set.
    #[verifier::external_body]
    fn new() -> (seen: SeenRows<'a>)
        ensures
            seen_keys(seen) == Set::<Seq<Seq<char>>>::empty(),
    {
        SeenRows { set: HashSet::new() }
    }

    /// `hashbrown::HashSet::clear`: removes all values.
    #[verifier::external_body]
    fn clear(&mut self)
        ensures
            seen_keys(*final(self)) == Set::<Seq<Seq<char>>>::empty(),
    {
        self.set.clear();
    }

    /// `hashbrown::HashSet::insert`: adds the value, and says whether it was missing before.
    #[verifier::external_body]
    fn insert(&mut self, key: Vec<&'a str>) -> (fresh: bool)
        ensures
            fresh == !seen_keys(*old(self)).contains(records::slice_texts(key@)),
            seen_keys(*final(self)) == seen_keys(*old(self)).insert(records::slice_texts(key@)),
    {
        self.set.insert(key)
    }
}

/// The dedup key of a row.
fn dedup_key_of<'a>(row: &'a StringRecord, ignored: Option<usize>) -> (key: Vec<&'a str>)
    ensures
        records::slice_texts(key@) == dedup_key(records::record_cells(*row), ignored),
{
    let ghost cells = records::record_cells(*row);
    let n: usize = row.len();
    let mut key: Vec<&'a str> = Vec::new();
    let ghost before: int = match ignored {
        Some(i) if i < n => i as int,
        _ => n as int,
    };
    for j in 0..n
        invariant
            cells == records::record_cells(*row),
            n == cells.len(),
            before == (match ignored {
                Some(i) if i < n => i as int,
                _ => n as int,
            }),
            key.len() == if j <= before { j as int } else { j - 1 },
            forall|k: int| 0 <= k < key.len() ==> (#[trigger] key[k])@ == cells[if k < before { k } else { k + 1 }],
    {
        let skipped = match ignored {
            Some(i) => i == j,
            None => false,
        };
        if !skipped {
            if let Some(cell) = row.get(j) {
                key.push(cell);
            }
        }
    }
    assert(records::slice_texts(key@) =~= dedup_key(cells, ignored));
    key
}

/// Row `i` is the first of its duplicates: no earlier row has the same rank and the same dedup
/// key.
pub open spec fn survives<R>(ranks: Seq<R>, dedups: Seq<Cells>, i: int) -> bool {
    forall|j: int| 0 <= j < i ==> !(#[trigger] ranks[j] == ranks[i] && dedups[j] == dedups[i])
}

/// `kept` lists the rows that survive, by ascending key, rows with equal keys in input order.
pub open spec fn is_timeline<K: SortKey>(
    kept: Seq<usize>,
    ranks: Seq<K::Rank>,
    dedups: Seq<Cells>,
) -> bool {
    &&& order::ascends::<K>(kept, ranks)
    &&& forall|i: usize|
        #[trigger] kept.contains(i) <==> i < ranks.len() && survives(ranks, dedups, i as int)
}

/// Among the first `p` positions of `order` there is a row with this rank and dedup key.
spec fn met<R>(
    order: Seq<usize>,
    ranks: Seq<R>,
    dedups: Seq<Cells>,
    p: int,
    rank: R,
    dedup: Cells,
) -> bool {
    exists|q: int|
        0 <= q < p && ranks[order[q] as int] == rank && dedups[#[trigger] order[q] as int] == dedup
}

/// Where the key at position `p` of a sorted order is larger than the one before it, no earlier
/// row has that key; else both are equal.
proof fn lemma_runs<K: SortKey>(order: Seq<usize>, ranks: Seq<K::Rank>, dedups: Seq<Cells>, p: int)
    requires
        order::ascends::<K>(order, ranks),
        0 < p < order.len(),
    ensures
        K::before(ranks[order[p - 1] as int], ranks[order[p] as int]) ==> forall|d: Cells|
            !met(order, ranks, dedups, p, ranks[order[p] as int], d),
        !K::before(ranks[order[p - 1] as int], ranks[order[p] as int]) ==> ranks[order[p - 1] as int]
            == ranks[order[p] as int],
{
    let (last, here) = (ranks[order[p - 1] as int], ranks[order[p] as int]);
    assert(order::precedes::<K>(ranks, order[p - 1] as int, order[p] as int));
    if K::before(last, here) {
        assert forall|d: Cells| !met(order, ranks, dedups, p, here, d) by {
            if met(order, ranks, dedups, p, here, d) {
                let q = choose|q: int|
                    0 <= q < p && ranks[order[q] as int] == here && dedups[#[trigger] order[q] as int] == d;
                K::lemma_irreflexive(here);
                if q < p - 1 {
                    assert(order::precedes::<K>(ranks, order[q] as int, order[p - 1] as int));
                    if K::before(here, last) {
                        K::lemma_transitive(here, last, here);
                    }
                }
            }
        }
    }
}

/// In a complete sorted order the row at position `p` survives if and only if no earlier
/// position has its rank and dedup key.
proof fn lemma_met_iff_dropped<K: SortKey>(
    order: Seq<usize>,
    ranks: Seq<K::Rank>,
    dedups: Seq<Cells>,
    p: int,
)
    requires
        order::ascends::<K>(order, ranks),
        0 <= p < order.len(),
        forall|x: usize| #[trigger] order.contains(x) <==> x < ranks.len(),
    ensures
        met(order, ranks, dedups, p, ranks[order[p] as int], dedups[order[p] as int])
            <==> !survives(ranks, dedups, order[p] as int),
{
    let i = order[p] as int;
    assert(order.contains(order[p]));
    if met(order, ranks, dedups, p, ranks[i], dedups[i]) {
        let q = choose|q: int|
            0 <= q < p && ranks[order[q] as int] == ranks[i] && dedups[#[trigger] order[q] as int]
                == dedups[i];
        assert(order::precedes::<K>(ranks, order[q] as int, i));
        K::lemma_irreflexive(ranks[i]);
        assert(ranks[order[q] as int] == ranks[i]);
    }
    if !survives(ranks, dedups, i) {
        let j = choose|j: int|
            0 <= j < i && (#[trigger] ranks[j] == ranks[i] && dedups[j] == dedups[i]);
        assert(order.contains(j as usize));
        let q = choose|q: int| 0 <= q < order.len() && order[q] == j as usize;
        assert(order::precedes::<K>(ranks, j, i));
        if q > p {
            assert(order::precedes::<K>(ranks, i, j));
            order::lemma_precedes_is_strict_total::<K>(ranks, i, j, 0);
        }
        assert(q < p);
        assert(dedups[order[q] as int] == dedups[i]);
    }
}

proof fn lemma_take_contains(s: Seq<usize>, p: int, x: usize)
    requires
        0 <= p < s.len(),
    ensures
        s.take(p + 1).contains(x) <==> s.take(p).contains(x) || x == s[p],
{
    assert(s.take(p + 1) =~= s.take(p).push(s[p]));
    if s.take(p).contains(x) {
        let q = choose|q: int| 0 <= q < s.take(p).len() && s.take(p)[q] == x;
        assert(s.take(p + 1)[q] == x);
    }
    assert(s.take(p + 1)[p] == s[p]);
}

proof fn lemma_push_contains(s: Seq<usize>, v: usize, x: usize)
    ensures
        s.push(v).contains(x) <==> s.contains(x) || x == v,
{
    if s.contains(x) {
        let q = choose|q: int| 0 <= q < s.len() && s[q] == x;
        assert(s.push(v)[q] == x);
    }
    assert(s.push(v)[s.len() as int] == v);
}

/// The positions of the rows that survive, in the order in which they are put out.
///
/// The rows are met by ascending key, so the keys already met need to be remembered only while
/// the key stays the same.
pub fn surviving_rows<K: SortKey>(rows: &[StringRecord], ignored: Option<usize>, keys: &[K]) -> (kept: Vec<usize>)
    requires
        rows@.len() == keys@.len(),
    ensures
        is_timeline::<K>(
            kept@,
            order::ranks_of(keys@),
            dedup_keys(records::rows_cells(rows@), ignored),
        ),
{
    let ghost ranks = order::ranks_of(keys@);
    let ghost dedups = dedup_keys(records::rows_cells(rows@), ignored);
    let order = stable_order(keys);
    let mut kept: Vec<usize> = Vec::new();
    let mut seen: SeenRows = SeenRows::new();
    for p in 0..order.len()
        invariant
            ranks == order::ranks_of(keys@),
            dedups == dedup_keys(records::rows_cells(rows@), ignored),
            rows@.len() == keys@.len(),
            ranks.len() == keys@.len(),
            dedups.len() == keys@.len(),
            order::ascends::<K>(order@, ranks),
            forall|x: usize| #[trigger] order@.contains(x) <==> x < keys@.len(),
            p > 0 ==> forall|d: Cells| #[trigger]
                seen_keys(seen).contains(d) <==> met(
                    order@,
                    ranks,
                    dedups,
                    p as int,
                    ranks[order@[p - 1] as int],
                    d,
                ),
            p == 0 ==> seen_keys(seen) == Set::<Cells>::empty(),
            order::ascends::<K>(kept@, ranks),
            forall|x: usize| #[trigger]
                kept@.contains(x) <==> order@.take(p as int).contains(x) && survives(
                    ranks,
                    dedups,
                    x as int,
                ),
    {
        let idx: usize = order[p];
        assert(order@.contains(idx));
        if p > 0 {
            let previous: usize = order[p - 1];
            assert(order@.contains(previous));
            proof {
                lemma_runs::<K>(order@, ranks, dedups, p as int);
            }
            if keys[previous].is_before(&keys[idx]) {
                seen.clear();
            }
        }
        let ghost rank = ranks[idx as int];
        let ghost dedup = dedups[idx as int];
        assert(forall|d: Cells| #[trigger]
            seen_keys(seen).contains(d) <==> met(order@, ranks, dedups, p as int, rank, d));
        let fresh = seen.insert(dedup_key_of(&rows[idx], ignored));
        proof {
            lemma_met_iff_dropped::<K>(order@, ranks, dedups, p as int);
            assert forall|d: Cells| #[trigger] seen_keys(seen).contains(d) <==> met(
                order@,
                ranks,
                dedups,
                p + 1,
                rank,
                d,
            ) by {
                if met(order@, ranks, dedups, p as int, rank, d) {
                    let q = choose|q: int|
                        0 <= q < p && ranks[order@[q] as int] == rank
                            && dedups[#[trigger] order@[q] as int] == d;
                    assert(dedups[order@[q] as int] == d);
                }
                assert(dedups[order@[p as int] as int] == dedup);
            }
        }
        let ghost earlier = kept@;
        if fresh {
            proof {
                assert forall|r: int| 0 <= r < earlier.len() implies order::precedes::<K>(
                    ranks,
                    #[trigger] earlier[r] as int,
                    idx as int,
                ) by {
                    assert(earlier.contains(earlier[r]));
                    let head = order@.take(p as int);
                    let q = choose|q: int| 0 <= q < head.len() && head[q] == earlier[r];
                    assert(order@[q] == earlier[r]);
                }
            }
            kept.push(idx);
        }
        proof {
            assert forall|x: usize| #[trigger] kept@.contains(x) <==> order@.take(
                p + 1,
            ).contains(x) && survives(ranks, dedups, x as int) by {
                lemma_take_contains(order@, p as int, x);
                if fresh {
                    lemma_push_contains(earlier, idx, x);
                }
            }
        }
    }
    assert(order@.take(order@.len() as int) =~= order@);
    kept
}

/// The positions of the surviving rows, in output order. There is exactly one such sequence.
pub open spec fn timeline<K: SortKey>(ranks: Seq<K::Rank>, dedups: Seq<Cells>) -> Seq<usize> {
    choose|kept: Seq<usize>| is_timeline::<K>(kept, ranks, dedups)
}

/// The keys and the rows alone determine the output: any two timelines of the same rows are
/// the same.
pub proof fn timeline_is_unique<K: SortKey>(
    kept: Seq<usize>,
    ranks: Seq<K::Rank>,
    dedups: Seq<Cells>,
)
    requires
        is_timeline::<K>(kept, ranks, dedups),
    ensures
        kept == timeline::<K>(ranks, dedups),
{
    let other = timeline::<K>(ranks, dedups);
    assert(is_timeline::<K>(other, ranks, dedups));
    order::ascending_positions_are_unique::<K>(kept, other, ranks);
}

/// Every list of rows has a timeline.
pub proof fn timeline_exists<K: SortKey>(ranks: Seq<K::Rank>, dedups: Seq<Cells>)
    requires
        ranks.len() <= usize::MAX,
    ensures
        is_timeline::<K>(timeline::<K>(ranks, dedups), ranks, dedups),
{
    let kept = order::ascending_positions_exist::<K>(
        ranks,
        |i: usize| survives(ranks, dedups, i as int),
        ranks.len(),
    );
    assert(is_timeline::<K>(kept, ranks, dedups));
}

/// Values picked at the given positions.
pub open spec fn picked<T>(values: Seq<T>, kept: Seq<usize>) -> Seq<T> {
    Seq::new(kept.len(), |p: int| values[kept[p] as int])
}

/// Orders `rows` by `keys` and keeps only the first of any rows that have the same key and are
/// identical apart from the cell in the column `ignored`. Rows with the same key stay in
/// input order.
pub fn sort_and_dedup<'a, K: SortKey>(
    rows: &'a [StringRecord],
    ignored: Option<usize>,
    keys: &[K],
) -> (out: Vec<&'a StringRecord>)
    requires
        rows@.len() == keys@.len(),
    ensures
        ({
            let ranks = order::ranks_of(keys@);
            let dedups = dedup_keys(records::rows_cells(rows@), ignored);
            let kept = timeline::<K>(ranks, dedups);
            &&& is_timeline::<K>(kept, ranks, dedups)
            &&& out@.len() == kept.len()
            &&& forall|p: int| 0 <= p < kept.len() ==> *#[trigger] out@[p] == rows@[kept[p] as int]
        }),
{
    let kept = surviving_rows(rows, ignored, keys);
    let ghost ranks = order::ranks_of(keys@);
    let ghost dedups = dedup_keys(records::rows_cells(rows@), ignored);
    proof {
        timeline_is_unique::<K>(kept@, ranks, dedups);
    }
    let mut out: Vec<&'a StringRecord> = Vec::new();
    for p in 0..kept.len()
        invariant
            is_timeline::<K>(kept@, ranks, dedups),
            ranks.len() == rows@.len(),
            out@.len() == p,
            forall|q: int| 0 <= q < p ==> *#[trigger] out@[q] == rows@[kept@[q] as int],
    {
        assert(kept@.contains(kept@[p as int]));
        out.push(&rows[kept[p]]);
    }
    out
}

/// Two rows that are equal apart from one column agree in every other column: where they reach
/// that far they have the same cell, and neither reaches that far alone.
pub proof fn duplicates_agree_elsewhere(a: Cells, b: Cells, ignored: Option<usize>, i: usize)
    requires
        dedup_key(a, ignored) == dedup_key(b, ignored),
        ignored != Some(i),
    ensures
        i < a.len() <==> i < b.len(),
        i < a.len() ==> a[i as int] == b[i as int],
{
    let (x, y) = (dedup_key(a, ignored), dedup_key(b, ignored));
    if let Some(k) = ignored {
        assert(x.len() == if k < a.len() { a.len() - 1 } else { a.len() as int });
        assert(y.len() == if k < b.len() { b.len() - 1 } else { b.len() as int });
        assert(i < a.len() <==> i < b.len());
        let at: int = if i < k {
            i as int
        } else {
            i - 1
        };
        if i < a.len() {
            if k < a.len() {
                assert(x[at] == a[i as int]);
            } else {
                assert(x[i as int] == a[i as int]);
            }
        }
        if i < b.len() {
            if k < b.len() {
                assert(y[at] == b[i as int]);
            } else {
                assert(y[i as int] == b[i as int]);
            }
        }
    }
}

/// Every entry of a timeline is the position of a row.
pub proof fn lemma_timeline_in_range<K: SortKey>(
    kept: Seq<usize>,
    ranks: Seq<K::Rank>,
    dedups: Seq<Cells>,
)
    requires
        is_timeline::<K>(kept, ranks, dedups),
    ensures
        forall|p: int|
            0 <= p < kept.len() ==> #[trigger] kept[p] < ranks.len() && survives(
                ranks,
                dedups,
                kept[p] as int,
            ),
{
    assert forall|p: int| 0 <= p < kept.len() implies #[trigger] kept[p] < ranks.len() && survives(
        ranks,
        dedups,
        kept[p] as int,
    ) by {
        assert(kept.contains(kept[p]));
    }
}

/// Of the rows with the rank and dedup key of row `i`, the first one is in the timeline.
pub proof fn first_copy_is_kept<K: SortKey>(
    kept: Seq<usize>,
    ranks: Seq<K::Rank>,
    dedups: Seq<Cells>,
    i: int,
) -> (p: int)
    requires
        is_timeline::<K>(kept, ranks, dedups),
        ranks.len() <= usize::MAX,
        0 <= i < ranks.len(),
    ensures
        0 <= p < kept.len(),
        kept[p] <= i,
        ranks[kept[p] as int] == ranks[i],
        dedups[kept[p] as int] == dedups[i],
        forall|j: int|
            0 <= j < i && #[trigger] ranks[j] == ranks[i] && dedups[j] == dedups[i] ==> kept[p] <= j,
    decreases i,
{
    if survives(ranks, dedups, i) {
        assert(kept.contains(i as usize));
        choose|p: int| 0 <= p < kept.len() && kept[p] == i as usize
    } else {
        let j = choose|j: int|
            0 <= j < i && (#[trigger] ranks[j] == ranks[i] && dedups[j] == dedups[i]);
        let p = first_copy_is_kept::<K>(kept, ranks, dedups, j);
        assert forall|m: int|
            0 <= m < i && #[trigger] ranks[m] == ranks[i] && dedups[m] == dedups[i] implies kept[p]
            <= m by {
            if m < j {
                assert(ranks[m] == ranks[j]);
            }
        }
        p
    }
}

/// A timeline has nothing more to order or to drop: the timeline of its rows is all of them, in
/// the order in which they are.
pub proof fn timeline_of_a_timeline<K: SortKey>(ranks: Seq<K::Rank>, dedups: Seq<Cells>)
    requires
        ranks.len() <= usize::MAX,
        ranks.len() == dedups.len(),
    ensures
        ({
            let kept = timeline::<K>(ranks, dedups);
            timeline::<K>(picked(ranks, kept), picked(dedups, kept)) == Seq::new(
                kept.len(),
                |p: int| p as usize,
            )
        }),
{
    let kept = timeline::<K>(ranks, dedups);
    timeline_exists::<K>(ranks, dedups);
    lemma_timeline_in_range::<K>(kept, ranks, dedups);
    let (new_ranks, new_dedups) = (picked(ranks, kept), picked(dedups, kept));
    let all = Seq::new(kept.len(), |p: int| p as usize);
    lemma_timeline_fits::<K>(kept, ranks, dedups);
    assert forall|p: int, q: int| 0 <= p < q < kept.len() implies order::precedes::<K>(
        new_ranks,
        p,
        q,
    ) by {
        assert(order::precedes::<K>(ranks, kept[p] as int, kept[q] as int));
    }
    assert forall|i: int| 0 <= i < kept.len() implies survives(new_ranks, new_dedups, i) by {
        assert forall|j: int| 0 <= j < i implies !(#[trigger] new_ranks[j] == new_ranks[i]
            && new_dedups[j] == new_dedups[i]) by {
            assert(order::precedes::<K>(ranks, kept[j] as int, kept[i] as int));
            K::lemma_irreflexive(ranks[kept[i] as int]);
            assert(survives(ranks, dedups, kept[i] as int));
            assert(ranks[kept[j] as int] == new_ranks[j]);
        }
    }
    assert(is_timeline::<K>(all, new_ranks, new_dedups)) by {
        assert forall|i: usize| #[trigger] all.contains(i) <==> i < new_ranks.len() && survives(
            new_ranks,
            new_dedups,
            i as int,
        ) by {
            if i < kept.len() {
                assert(all[i as int] == i);
            }
        }
    }
    timeline_is_unique::<K>(all, new_ranks, new_dedups);
}

/// A timeline is not longer than the list of rows.
pub proof fn lemma_timeline_fits<K: SortKey>(
    kept: Seq<usize>,
    ranks: Seq<K::Rank>,
    dedups: Seq<Cells>,
)
    requires
        is_timeline::<K>(kept, ranks, dedups),
    ensures
        kept.len() <= ranks.len(),
{
    lemma_timeline_in_range::<K>(kept, ranks, dedups);
    let positions = kept.map_values(|i: usize| i as int);
    assert(positions.no_duplicates()) by {
        assert forall|p: int, q: int|
            0 <= p < positions.len() && 0 <= q < positions.len() && p != q implies positions[p]
            != positions[q] by {
            let (a, b) = if p < q {
                (p, q)
            } else {
                (q, p)
            };
            assert(order::precedes::<K>(ranks, kept[a] as int, kept[b] as int));
            order::lemma_precedes_is_strict_total::<K>(ranks, kept[a] as int, kept[b] as int, 0);
        }
    }
    positions.unique_seq_to_set();
    let range = vstd::set_lib::set_int_range(0, ranks.len() as int);
    vstd::set_lib::lemma_int_range(0, ranks.len() as int);
    assert(positions.to_set().subset_of(range)) by {
        assert forall|x: int| positions.to_set().contains(x) implies range.contains(x) by {
            let p = choose|p: int| 0 <= p < positions.len() && positions[p] == x;
            assert(kept[p] < ranks.len());
        }
    }
    vstd::set_lib::lemma_len_subset(positions.to_set(), range);
}

/// Two rows that have the same cells everywhere but in one column.
pub open spec fn agree_outside(a: Cells, b: Cells, ignored: usize) -> bool {
    &&& a.len() == b.len()
    &&& forall|j: int| 0 <= j < a.len() && j != ignored ==> #[trigger] a[j] == b[j]
}

/// What stands in the ignored column decides neither order nor survival: with other cells
/// in that column alone the same positions come out in the same order.
pub proof fn ignored_cells_do_not_matter<K: SortKey>(
    ranks: Seq<K::Rank>,
    rows: Seq<Cells>,
    others: Seq<Cells>,
    ignored: usize,
)
    requires
        rows.len() == others.len(),
        forall|i: int| 0 <= i < rows.len() ==> agree_outside(#[trigger] rows[i], others[i], ignored),
    ensures
        timeline::<K>(ranks, dedup_keys(rows, Some(ignored))) == timeline::<K>(
            ranks,
            dedup_keys(others, Some(ignored)),
        ),
{
    lemma_ignored_cells_are_no_key(rows, others, ignored);
}

/// The cells of the ignored column are no part of a dedup key.
pub proof fn lemma_ignored_cells_are_no_key(rows: Seq<Cells>, others: Seq<Cells>, ignored: usize)
    requires
        rows.len() == others.len(),
        forall|i: int| 0 <= i < rows.len() ==> agree_outside(#[trigger] rows[i], others[i], ignored),
    ensures
        dedup_keys(rows, Some(ignored)) == dedup_keys(others, Some(ignored)),
{
    assert forall|i: int| 0 <= i < rows.len() implies dedup_key(rows[i], Some(ignored))
        == dedup_key(others[i], Some(ignored)) by {
        assert(agree_outside(rows[i], others[i], ignored));
        assert(dedup_key(rows[i], Some(ignored)) =~= dedup_key(others[i], Some(ignored)));
    }
    assert(dedup_keys(rows, Some(ignored)) =~= dedup_keys(others, Some(ignored)));
}

/// Rows that follow their own copy add nothing: the timeline of a list of rows and the same
/// list again is that of the list, so all its rows are of the first copy.
pub proof fn repeated_rows_add_nothing<K: SortKey>(
    ranks: Seq<K::Rank>,
    rows: Seq<Cells>,
    ignored: Option<usize>,
)
    requires
        ranks.len() == rows.len(),
        2 * rows.len() <= usize::MAX,
    ensures
        timeline::<K>(ranks + ranks, dedup_keys(rows + rows, ignored)) == timeline::<K>(
            ranks,
            dedup_keys(rows, ignored),
        ),
        forall|p: int|
            0 <= p < timeline::<K>(ranks, dedup_keys(rows, ignored)).len() ==> #[trigger] timeline::<
                K,
            >(ranks, dedup_keys(rows, ignored))[p] < rows.len(),
        picked(rows + rows, timeline::<K>(ranks + ranks, dedup_keys(rows + rows, ignored)))
            == picked(rows, timeline::<K>(ranks, dedup_keys(rows, ignored))),
{
    let n = rows.len();
    let (dedups, twice) = (dedup_keys(rows, ignored), dedup_keys(rows + rows, ignored));
    let (both, kept) = (ranks + ranks, timeline::<K>(ranks, dedups));
    assert(twice =~= dedups + dedups);
    timeline_exists::<K>(ranks, dedups);
    lemma_timeline_in_range::<K>(kept, ranks, dedups);
    assert forall|p: int, q: int| 0 <= p < q < kept.len() implies order::precedes::<K>(
        both,
        #[trigger] kept[p] as int,
        #[trigger] kept[q] as int,
    ) by {
        assert(order::precedes::<K>(ranks, kept[p] as int, kept[q] as int));
    }
    assert forall|i: usize| #[trigger] kept.contains(i) <==> i < both.len() && survives(
        both,
        twice,
        i as int,
    ) by {
        if i < n {
            lemma_survives_in_prefix(ranks, dedups, ranks, dedups, i as int);
        } else if i < both.len() {
            assert(both[i - n] == both[i as int] && twice[i - n] == twice[i as int]);
        }
    }
    timeline_is_unique::<K>(kept, both, twice);
    assert(picked(rows + rows, kept) =~= picked(rows, kept));
}

/// Whether a row survives depends on the rows up to it alone.
proof fn lemma_survives_in_prefix<R>(
    ranks: Seq<R>,
    dedups: Seq<Cells>,
    more_ranks: Seq<R>,
    more_dedups: Seq<Cells>,
    i: int,
)
    requires
        0 <= i < ranks.len(),
        ranks.len() == dedups.len(),
    ensures
        survives(ranks + more_ranks, dedups + more_dedups, i) == survives(ranks, dedups, i),
{
    let (all_ranks, all_dedups) = (ranks + more_ranks, dedups + more_dedups);
    assert(forall|j: int| 0 <= j <= i ==> all_ranks[j] == ranks[j] && all_dedups[j] == dedups[j]);
    if survives(all_ranks, all_dedups, i) {
        assert forall|j: int| 0 <= j < i implies !(#[trigger] ranks[j] == ranks[i] && dedups[j]
            == dedups[i]) by {
            assert(all_ranks[j] == ranks[j]);
        }
    }
}

/// `change` is strictly increasing on these ranks.
pub open spec fn increasing_on<K: SortKey, J: SortKey>(
    ranks: Seq<K::Rank>,
    change: spec_fn(K::Rank) -> J::Rank,
) -> bool {
    forall|i: int, j: int|
        0 <= i < ranks.len() && 0 <= j < ranks.len() && K::before(
            #[trigger] ranks[i],
            #[trigger] ranks[j],
        ) ==> J::before(change(ranks[i]), change(ranks[j]))
}

/// Only the relative order of the keys matters: a strictly increasing change of the keys, be it
/// to keys of another kind, leaves the same positions in the same order.
pub proof fn only_the_order_of_keys_matters<K: SortKey, J: SortKey>(
    ranks: Seq<K::Rank>,
    dedups: Seq<Cells>,
    change: spec_fn(K::Rank) -> J::Rank,
)
    requires
        ranks.len() <= usize::MAX,
        increasing_on::<K, J>(ranks, change),
    ensures
        timeline::<J>(ranks.map_values(change), dedups) == timeline::<K>(ranks, dedups),
{
    let changed = ranks.map_values(change);
    let kept = timeline::<K>(ranks, dedups);
    timeline_exists::<K>(ranks, dedups);
    lemma_timeline_in_range::<K>(kept, ranks, dedups);
    assert forall|i: int, j: int|
        0 <= i < ranks.len() && 0 <= j < ranks.len() implies (#[trigger] changed[i]
        == #[trigger] changed[j] <==> ranks[i] == ranks[j]) by {
        K::lemma_connected(ranks[i], ranks[j]);
        J::lemma_irreflexive(changed[i]);
    }
    assert forall|p: int, q: int| 0 <= p < q < kept.len() implies order::precedes::<J>(
        changed,
        #[trigger] kept[p] as int,
        #[trigger] kept[q] as int,
    ) by {
        let (i, j) = (kept[p] as int, kept[q] as int);
        assert(order::precedes::<K>(ranks, i, j));
        assert(changed[i] == change(ranks[i]) && changed[j] == change(ranks[j]));
    }
    assert forall|i: usize| #[trigger] kept.contains(i) <==> i < changed.len() && survives(
        changed,
        dedups,
        i as int,
    ) by {
        if i < ranks.len() {
            let i = i as int;
            if survives(ranks, dedups, i) {
                assert forall|j: int| 0 <= j < i implies !(#[trigger] changed[j] == changed[i]
                    && dedups[j] == dedups[i]) by {
                    assert(!(ranks[j] == ranks[i] && dedups[j] == dedups[i]));
                }
            }
            if survives(changed, dedups, i) {
                assert forall|j: int| 0 <= j < i implies !(#[trigger] ranks[j] == ranks[i]
                    && dedups[j] == dedups[i]) by {
                    assert(!(changed[j] == changed[i] && dedups[j] == dedups[i]));
                }
            }
        }
    }
    timeline_is_unique::<J>(kept, changed, dedups);
}

/// Rows that agree in every column but the ignored one are duplicates: they have the same cells
/// there, and they are equally long unless one of them ends with the ignored cell and the other just
/// before it.
pub proof fn rows_that_agree_elsewhere_are_duplicates(a: Cells, b: Cells, ignored: Option<usize>)
    requires
        a.len() == b.len() || (ignored is Some && (a.len() == ignored->0 && b.len() == ignored->0 + 1
            || b.len() == ignored->0 && a.len() == ignored->0 + 1)),
        forall|j: int|
            0 <= j < a.len() && j < b.len() && !(ignored is Some && ignored->0 == j) ==> #[trigger] a[j]
                == b[j],
    ensures
        dedup_key(a, ignored) == dedup_key(b, ignored),
{
    let (x, y) = (dedup_key(a, ignored), dedup_key(b, ignored));
    assert(x.len() == y.len());
    assert forall|i: int| 0 <= i < x.len() implies x[i] == y[i] by {
        if ignored is Some && ignored->0 <= i {
            assert(i + 1 < a.len() && i + 1 < b.len() ==> a[i + 1] == b[i + 1]);
        } else {
            assert(a[i] == b[i]);
        }
    }
    assert(x =~= y);
}

/// Duplicates agree in every column but the ignored one, and are equally long unless one of them
/// ends with the ignored cell and the other just before it.
pub proof fn duplicates_agree_but_for_the_ignored_cell(a: Cells, b: Cells, ignored: Option<usize>)
    requires
        dedup_key(a, ignored) == dedup_key(b, ignored),
    ensures
        a.len() == b.len() || (ignored is Some && (a.len() == ignored->0 && b.len() == ignored->0 + 1
            || b.len() == ignored->0 && a.len() == ignored->0 + 1)),
        forall|j: int|
            0 <= j < a.len() && j < b.len() && !(ignored is Some && ignored->0 == j) ==> #[trigger] a[j]
                == b[j],
        ignored is None ==> a == b,
{
    let (x, y) = (dedup_key(a, ignored), dedup_key(b, ignored));
    if let Some(k) = ignored {
        assert(x.len() == if k < a.len() { a.len() - 1 } else { a.len() as int });
        assert(y.len() == if k < b.len() { b.len() - 1 } else { b.len() as int });
    }
    assert forall|j: int|
        0 <= j < a.len() && j < b.len() && !(ignored is Some && ignored->0 == j) implies #[trigger] a[j]
        == b[j] by {
        if let Some(k) = ignored {
            let at: int = if j < k {
                j
            } else {
                j - 1
            };
            assert(a[j] == if k < a.len() { x[at] } else { x[j] });
            assert(b[j] == if k < b.len() { y[at] } else { y[j] });
        }
    }
}

/// Rows that are no duplicates differ in a column other than the ignored one, in its cell or because
/// only one of them reaches it.
pub proof fn other_rows_differ_elsewhere(a: Cells, b: Cells, ignored: Option<usize>) -> (j: int)
    requires
        dedup_key(a, ignored) != dedup_key(b, ignored),
    ensures
        0 <= j,
        !(ignored is Some && ignored->0 == j),
        (j < a.len() && j < b.len() && a[j] != b[j]) || (j < a.len() && j >= b.len()) || (j
            >= a.len() && j < b.len()),
{
    let n: int = if a.len() < b.len() {
        a.len() as int
    } else {
        b.len() as int
    };
    if a.len() != b.len() && !(ignored is Some && ignored->0 == n) {
        n
    } else if a.len() > n + 1 || b.len() > n + 1 {
        n + 1
    } else {
        if forall|j: int|
                0 <= j < a.len() && j < b.len() && !(ignored is Some && ignored->0 == j) ==> #[trigger] a[j]
                    == b[j] {
            rows_that_agree_elsewhere_are_duplicates(a, b, ignored);
        }
        choose|j: int|
            0 <= j < a.len() && j < b.len() && !(ignored is Some && ignored->0 == j) && #[trigger] a[j]
                != b[j]
    }
}

/// A row's dedup key is the row with the ignored cell cut out, and a row without that cell is its
/// own key.
pub proof fn ignored_cell_is_cut_out(before: Cells, cell: Seq<char>, after: Cells, ignored: usize)
    ensures
        dedup_key(before, None) == before,
        before.len() <= ignored ==> dedup_key(before, Some(ignored)) == before,
        before.len() == ignored ==> dedup_key(before + seq![cell] + after, Some(ignored)) == before
            + after,
{
    if before.len() == ignored {
        assert(dedup_key(before + seq![cell] + after, Some(ignored)) =~= before + after);
    }
}

/// Every row has its own dedup key in the list of keys, and every position its own value among
/// those that are picked.
pub proof fn keys_and_picks_follow_positions<T>(
    rows: Seq<Cells>,
    ignored: Option<usize>,
    values: Seq<T>,
    kept: Seq<usize>,
)
    ensures
        dedup_keys(rows, ignored).len() == rows.len(),
        forall|i: int|
            0 <= i < rows.len() ==> #[trigger] dedup_keys(rows, ignored)[i] == dedup_key(
                rows[i],
                ignored,
            ),
        picked(values, kept).len() == kept.len(),
        forall|p: int|
            0 <= p < kept.len() ==> #[trigger] picked(values, kept)[p] == values[kept[p] as int],
{
}

/// What a timeline is: its positions are by ascending key and, for equal keys, in input order; and
/// a position is among them if and only if no earlier row has the same key and the same dedup key.
pub proof fn timelines_are_sorted_first_copies<K: SortKey>(
    kept: Seq<usize>,
    ranks: Seq<K::Rank>,
    dedups: Seq<Cells>,
)
    ensures
        is_timeline::<K>(kept, ranks, dedups) <==> {
            &&& forall|p: int, q: int|
                0 <= p < q < kept.len() ==> {
                    let (i, j) = (#[trigger] kept[p] as int, #[trigger] kept[q] as int);
                    ||| K::before(ranks[i], ranks[j])
                    ||| ranks[i] == ranks[j] && i < j
                }
            &&& forall|i: usize| #[trigger]
                kept.contains(i) <==> i < ranks.len() && forall|j: int|
                    0 <= j < i ==> !(#[trigger] ranks[j] == ranks[i as int] && dedups[j]
                        == dedups[i as int])
        },
{
    if is_timeline::<K>(kept, ranks, dedups) {
        assert forall|p: int, q: int| 0 <= p < q < kept.len() implies ({
            let (i, j) = (#[trigger] kept[p] as int, #[trigger] kept[q] as int);
            ||| K::before(ranks[i], ranks[j])
            ||| ranks[i] == ranks[j] && i < j
        }) by {
            assert(order::precedes::<K>(ranks, kept[p] as int, kept[q] as int));
        }
    }
}

} // verus!
