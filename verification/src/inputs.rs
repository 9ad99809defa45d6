//! The choice of the files to sort.
use crate::dedup;
use crate::order::{self, stable_order, SortKey};
use vstd::prelude::*;

verus! {

/// An entry of a directory.
pub struct Entry<P> {
    /// The path to the entry.
    pub path: P,
    /// The bytes of its file name.
    pub name: Vec<u8>,
    /// Whether it is a regular file.
    pub is_file: bool,
}

/// The lower case form of an ASCII letter; any other byte as it is.
pub open spec fn ascii_lower(byte: u8) -> u8 {
    if 'A' as u8 <= byte && byte <= 'Z' as u8 {
        (byte + 0x20) as u8
    } else {
        byte
    }
}

/// A file name with the extension `csv` in upper or lower case: something, a dot and `csv`.
pub open spec fn is_csv_name(name: Seq<u8>) -> bool {
    &&& name.len() > 4
    &&& name[name.len() - 4] == '.' as u8
    &&& ascii_lower(name[name.len() - 3]) == 'c' as u8
    &&& ascii_lower(name[name.len() - 2]) == 's' as u8
    &&& ascii_lower(name[name.len() - 1]) == 'v' as u8
}

/// An entry that is an input: a regular file with the extension `csv`.
pub open spec fn is_input<P>(entry: Entry<P>) -> bool {
    entry.is_file && is_csv_name(entry.name@)
}

fn lower(byte: u8) -> (r: u8)
    ensures
        r == ascii_lower(byte),
{
    if 'A' as u8 <= byte && byte <= 'Z' as u8 {
        byte + 0x20
    } else {
        byte
    }
}

fn has_csv_name(name: &[u8]) -> (r: bool)
    ensures
        r == is_csv_name(name@),
{
    let n: usize = name.len();
    n > 4 && name[n - 4] == '.' as u8 && lower(name[n - 3]) == 'c' as u8 && lower(name[n - 2]) == 's' as u8
        && lower(name[n - 1]) == 'v' as u8
}

/// The names of the entries of a directory.
pub open spec fn names<P>(entries: Seq<Entry<P>>) -> Seq<Seq<u8>> {
    Seq::new(entries.len(), |i: int| entries[i].name@)
}

/// `chosen` lists the entries that are inputs, by ascending name.
pub open spec fn is_input_order<P>(chosen: Seq<usize>, entries: Seq<Entry<P>>) -> bool {
    &&& order::ascends::<&[u8]>(chosen, names(entries))
    &&& forall|i: usize| #[trigger]
        chosen.contains(i) <==> i < entries.len() && is_input(entries[i as int])
}

/// The positions of the inputs among the entries of a directory, by ascending name.
pub fn input_order<P>(entries: &[Entry<P>]) -> (chosen: Vec<usize>)
    ensures
        is_input_order(chosen@, entries@),
{
    let mut candidates: Vec<usize> = Vec::new();
    let mut keys: Vec<&[u8]> = Vec::new();
    for i in 0..entries.len()
        invariant
            candidates.len() == keys.len(),
            forall|k: int| 0 <= k < candidates.len() ==> (#[trigger] candidates[k]) < i,
            forall|k: int|
                0 <= k < candidates.len() ==> (#[trigger] keys[k])@ == entries@[candidates[k] as int].name@,
            forall|k: int|
                0 <= k < candidates.len() ==> is_input(entries@[#[trigger] candidates[k] as int]),
            forall|k: int, m: int| 0 <= k < m < candidates.len() ==> candidates[k] < candidates[m],
            forall|j: usize| j < i && is_input(entries@[j as int]) ==> #[trigger] candidates@.contains(j),
    {
        let ghost before = candidates@;
        if entries[i].is_file && has_csv_name(entries[i].name.as_slice()) {
            candidates.push(i);
            keys.push(entries[i].name.as_slice());
        }
        proof {
            assert forall|j: usize| j < i + 1 && is_input(entries@[j as int]) implies
                #[trigger] candidates@.contains(j) by {
                if j < i {
                    assert(before.contains(j));
                    let k = choose|k: int| 0 <= k < before.len() && before[k] == j;
                    assert(candidates@[k] == j);
                } else {
                    assert(candidates@[before.len() as int] == j);
                }
            }
        }
    }
    let sorted = stable_order(keys.as_slice());
    let ghost ranks = order::ranks_of(keys@);
    let mut chosen: Vec<usize> = Vec::new();
    for p in 0..sorted.len()
        invariant
            candidates.len() == keys.len(),
            ranks == order::ranks_of(keys@),
            forall|x: usize| #[trigger] sorted@.contains(x) <==> x < keys.len(),
            chosen.len() == p,
            forall|q: int| 0 <= q < p ==> #[trigger] chosen[q] == candidates[sorted[q] as int],
    {
        assert(sorted@.contains(sorted@[p as int]));
        chosen.push(candidates[sorted[p]]);
    }
    proof {
        assert forall|p: int, q: int| 0 <= p < q < chosen.len() implies order::precedes::<&[u8]>(
            names(entries@),
            #[trigger] chosen@[p] as int,
            #[trigger] chosen@[q] as int,
        ) by {
            assert(sorted@.contains(sorted@[p]) && sorted@.contains(sorted@[q]));
            assert(order::precedes::<&[u8]>(ranks, sorted@[p] as int, sorted@[q] as int));
            let (a, b) = (sorted@[p] as int, sorted@[q] as int);
            assert(ranks[a] == keys@[a]@ && ranks[b] == keys@[b]@);
        }
        assert forall|i: usize| #[trigger] chosen@.contains(i) <==> i < entries@.len() && is_input(
            entries@[i as int],
        ) by {
            if chosen@.contains(i) {
                let p = choose|p: int| 0 <= p < chosen@.len() && chosen@[p] == i;
                assert(sorted@.contains(sorted@[p]));
                assert(candidates@[sorted@[p] as int] == i);
            }
            if i < entries@.len() && is_input(entries@[i as int]) {
                assert(candidates@.contains(i));
                let k = choose|k: int| 0 <= k < candidates@.len() && candidates@[k] == i;
                assert(sorted@.contains(k as usize));
                let p = choose|p: int| 0 <= p < sorted@.len() && sorted@[p] == k as usize;
                assert(chosen@[p] == i);
            }
        }
    }
    chosen
}

/// The positions of the inputs among the entries of a directory, by ascending name.
pub open spec fn input_positions<P>(entries: Seq<Entry<P>>) -> Seq<usize> {
    choose|chosen: Seq<usize>| is_input_order(chosen, entries)
}

/// The inputs among the entries of a directory, by ascending name.
pub open spec fn input_entries<P>(entries: Seq<Entry<P>>) -> Seq<Entry<P>> {
    let chosen = input_positions(entries);
    Seq::new(chosen.len(), |p: int| entries[chosen[p] as int])
}

/// The names of the inputs, in order.
pub open spec fn input_names<P>(entries: Seq<Entry<P>>) -> Seq<Seq<u8>> {
    names(input_entries(entries))
}

/// The paths of the inputs, in order.
pub open spec fn input_paths<P>(entries: Seq<Entry<P>>) -> Seq<P> {
    input_entries(entries).map_values(|entry: Entry<P>| entry.path)
}

/// The files to sort: the one file that was asked for, or else every file with the extension
/// `csv` among the entries of a directory, by ascending name.
pub fn collect_input_files<'a, P>(filepath: &'a Option<P>, entries: &'a [Entry<P>]) -> (files: Vec<
    &'a P,
>)
    ensures
        filepath matches Some(file) ==> files@ == seq![file],
        filepath is None ==> {
            &&& is_input_order(input_positions(entries@), entries@)
            &&& files@.len() == input_paths(entries@).len()
            &&& forall|p: int|
                0 <= p < files@.len() ==> *#[trigger] files@[p] == input_paths(entries@)[p]
        },
{
    if let Some(file) = filepath {
        return vec![file];
    }
    let chosen = input_order(entries);
    proof {
        order::ascending_positions_are_unique::<&[u8]>(
            chosen@,
            input_positions(entries@),
            names(entries@),
        );
    }
    let mut files: Vec<&'a P> = Vec::new();
    for p in 0..chosen.len()
        invariant
            is_input_order(chosen@, entries@),
            files.len() == p,
            forall|q: int|
                0 <= q < p ==> *#[trigger] files@[q] == entries@[chosen@[q] as int].path,
    {
        assert(chosen@.contains(chosen@[p as int]));
        files.push(&entries[chosen[p]].path);
    }
    files
}

/// An entry by its path, the bytes of its name and whether it is a file.
pub open spec fn entry_view<P>(entry: Entry<P>) -> (P, Seq<u8>, bool) {
    (entry.path, entry.name@, entry.is_file)
}

/// The entries of a listing by their contents.
pub open spec fn listing<P>(entries: Seq<Entry<P>>) -> Seq<(P, Seq<u8>, bool)> {
    entries.map_values(|entry: Entry<P>| entry_view(entry))
}

/// Two listings of the same entries, in whatever order.
pub open spec fn same_entries<P>(a: Seq<Entry<P>>, b: Seq<Entry<P>>) -> bool {
    listing(a).to_multiset() == listing(b).to_multiset()
}

/// Every name stands for one path, as the names in a directory do.
pub open spec fn one_path_per_name<P>(entries: Seq<Entry<P>>) -> bool {
    forall|i: int, j: int|
        0 <= i < entries.len() && 0 <= j < entries.len() && (#[trigger] entries[i]).name@ == (
        #[trigger] entries[j]).name@ ==> entries[i].path == entries[j].path
}

proof fn lemma_input_order_exists<P>(entries: Seq<Entry<P>>)
    requires
        entries.len() <= usize::MAX,
    ensures
        is_input_order(input_positions(entries), entries),
{
    let chosen = order::ascending_positions_exist::<&[u8]>(
        names(entries),
        |i: usize| is_input(entries[i as int]),
        entries.len(),
    );
    assert(is_input_order(chosen, entries));
}

/// Picking every member once, in whatever order, gives the members with their multiplicity.
proof fn lemma_picked_members<T>(values: Seq<T>, chosen: Seq<usize>, member: spec_fn(T) -> bool)
    requires
        values.len() <= usize::MAX,
        chosen.no_duplicates(),
        forall|i: usize| #[trigger]
            chosen.contains(i) <==> i < values.len() && member(values[i as int]),
    ensures
        dedup::picked(values, chosen).to_multiset() == values.to_multiset().filter(member),
    decreases values.len(),
{
    broadcast use vstd::seq_lib::group_to_multiset_ensures;

    let out = dedup::picked(values, chosen);
    if values.len() == 0 {
        if chosen.len() > 0 {
            assert(chosen.contains(chosen[0]));
        }
        assert(out =~= Seq::empty());
        assert(values =~= Seq::empty());
        assert(out.to_multiset() =~= values.to_multiset().filter(member));
    } else {
        let (rest, last) = (values.drop_last(), values.last());
        let x = (values.len() - 1) as usize;
        assert(values =~= rest.push(last));
        assert(forall|p: int| 0 <= p < chosen.len() ==> chosen.contains(#[trigger] chosen[p]));
        if member(last) {
            assert(chosen.contains(x));
            let k = choose|k: int| 0 <= k < chosen.len() && chosen[k] == x;
            let fewer = chosen.remove(k);
            assert(fewer.no_duplicates());
            assert forall|i: usize| #[trigger] fewer.contains(i) <==> i < rest.len() && member(
                rest[i as int],
            ) by {
                if fewer.contains(i) {
                    let p = choose|p: int| 0 <= p < fewer.len() && fewer[p] == i;
                    let q = if p < k {
                        p
                    } else {
                        p + 1
                    };
                    assert(chosen[q] == i);
                    assert(chosen.contains(i));
                    assert(i != x);
                }
                if i < rest.len() && member(rest[i as int]) {
                    assert(chosen.contains(i));
                    let q = choose|q: int| 0 <= q < chosen.len() && chosen[q] == i;
                    assert(fewer[if q < k { q } else { q - 1 }] == i);
                }
            }
            lemma_picked_members(rest, fewer, member);
            assert forall|p: int| 0 <= p < fewer.len() implies #[trigger] fewer[p] < rest.len() by {
                assert(fewer.contains(fewer[p]));
            }
            assert(out.remove(k) =~= dedup::picked(rest, fewer));
            assert(out[k] == last);
            assert(out.contains(last));
            assert(out.to_multiset() =~= out.remove(k).to_multiset().insert(last));
        } else {
            assert forall|i: usize| #[trigger] chosen.contains(i) <==> i < rest.len() && member(
                rest[i as int],
            ) by {
                assert(i == x ==> !chosen.contains(i));
            }
            lemma_picked_members(rest, chosen, member);
            assert forall|p: int| 0 <= p < chosen.len() implies #[trigger] chosen[p] < rest.len() by {
                assert(chosen.contains(chosen[p]));
            }
            assert(out =~= dedup::picked(rest, chosen));
        }
        assert(out.to_multiset() =~= values.to_multiset().filter(member));
    }
}

/// A function applied to rearranged values gives rearranged results.
proof fn lemma_mapped_rearrangement<A, B>(a: Seq<A>, b: Seq<A>, f: spec_fn(A) -> B)
    requires
        a.to_multiset() == b.to_multiset(),
    ensures
        a.map_values(f).to_multiset() == b.map_values(f).to_multiset(),
    decreases a.len(),
{
    broadcast use vstd::seq_lib::group_to_multiset_ensures;

    assert(a.len() == a.to_multiset().len() && b.len() == b.to_multiset().len());
    if a.len() == 0 {
        assert(a.map_values(f) =~= b.map_values(f));
    } else {
        let n = a.len() - 1;
        assert(a.contains(a[n]));
        assert(b.to_multiset().count(a[n]) > 0);
        let i = choose|i: int| 0 <= i < b.len() && b[i] == a[n];
        lemma_mapped_rearrangement(a.remove(n), b.remove(i), f);
        let (x, y) = (a.map_values(f), b.map_values(f));
        assert(x.remove(n) =~= a.remove(n).map_values(f));
        assert(y.remove(i) =~= b.remove(i).map_values(f));
        assert(x[n] == y[i]);
        assert(x.contains(x[n]) && y.contains(y[i]));
        assert(x.to_multiset() =~= x.remove(n).to_multiset().insert(x[n]));
        assert(y.to_multiset() =~= y.remove(i).to_multiset().insert(y[i]));
    }
}

/// The names of the inputs ascend, and the inputs are the entries that are inputs.
proof fn lemma_input_entries<P>(entries: Seq<Entry<P>>)
    requires
        entries.len() <= usize::MAX,
    ensures
        vstd::relations::sorted_by(input_names(entries), name_order()),
        listing(input_entries(entries)).to_multiset() == listing(entries).to_multiset().filter(
            |view: (P, Seq<u8>, bool)| view.2 && is_csv_name(view.1),
        ),
{
    lemma_input_order_exists(entries);
    let chosen = input_positions(entries);
    let member = |view: (P, Seq<u8>, bool)| view.2 && is_csv_name(view.1);
    assert forall|p: int| 0 <= p < chosen.len() implies #[trigger] chosen[p] < entries.len() by {
        assert(chosen.contains(chosen[p]));
    }
    let sorted = input_names(entries);
    assert forall|p: int, q: int| 0 <= p < q < sorted.len() implies #[trigger] name_order()(
        sorted[p],
        sorted[q],
    ) by {
        assert(order::precedes::<&[u8]>(names(entries), chosen[p] as int, chosen[q] as int));
    }
    assert forall|p: int, q: int|
        0 <= p < chosen.len() && 0 <= q < chosen.len() && p != q implies chosen[p] != chosen[q] by {
        let (a, b) = if p < q {
            (p, q)
        } else {
            (q, p)
        };
        let (i, j) = (chosen[a] as int, chosen[b] as int);
        assert(order::precedes::<&[u8]>(names(entries), i, j));
        order::lemma_precedes_is_strict_total::<&[u8]>(names(entries), i, j, 0);
    }
    assert forall|i: usize| #[trigger] chosen.contains(i) <==> i < listing(entries).len() && member(
        listing(entries)[i as int],
    ) by {
        assert(i < entries.len() ==> listing(entries)[i as int] == entry_view(entries[i as int]));
    }
    lemma_picked_members(listing(entries), chosen, member);
    assert(listing(input_entries(entries)) =~= dedup::picked(listing(entries), chosen));
}

/// One name comes before another or is the same.
spec fn name_order() -> spec_fn(Seq<u8>, Seq<u8>) -> bool {
    |a: Seq<u8>, b: Seq<u8>| a == b || order::lex_before(a, b)
}

proof fn lemma_name_order_is_total()
    ensures
        vstd::relations::total_ordering(name_order()),
{
    let leq = name_order();
    assert forall|a: Seq<u8>, b: Seq<u8>| #[trigger] leq(a, b) && #[trigger] leq(b, a) implies a
        == b by {
        if a != b {
            <&[u8] as SortKey>::lemma_transitive(a, b, a);
            <&[u8] as SortKey>::lemma_irreflexive(a);
        }
    }
    assert forall|a: Seq<u8>, b: Seq<u8>, c: Seq<u8>| #[trigger] leq(a, b) && #[trigger] leq(
        b,
        c,
    ) implies leq(a, c) by {
        if a != b && b != c {
            <&[u8] as SortKey>::lemma_transitive(a, b, c);
        }
    }
    assert forall|a: Seq<u8>, b: Seq<u8>| #[trigger] leq(a, b) || #[trigger] leq(b, a) by {
        <&[u8] as SortKey>::lemma_connected(a, b);
    }
}

/// The order in which a directory lists its entries does not matter: two listings of the same
/// entries give the same names in the same order and, where every name stands for one path, the
/// same paths.
pub proof fn listing_order_does_not_matter<P>(a: Seq<Entry<P>>, b: Seq<Entry<P>>)
    requires
        same_entries(a, b),
        a.len() <= usize::MAX,
    ensures
        input_names(a) == input_names(b),
        one_path_per_name(a) ==> input_paths(a) == input_paths(b),
{
    broadcast use vstd::seq_lib::group_to_multiset_ensures;

    assert(listing(a).len() == listing(a).to_multiset().len());
    assert(listing(b).len() == listing(b).to_multiset().len());
    lemma_input_entries(a);
    lemma_input_entries(b);
    let (x, y) = (input_entries(a), input_entries(b));
    let name_of = |view: (P, Seq<u8>, bool)| view.1;
    lemma_mapped_rearrangement(listing(x), listing(y), name_of);
    assert(listing(x).map_values(name_of) =~= input_names(a));
    assert(listing(y).map_values(name_of) =~= input_names(b));
    lemma_name_order_is_total();
    vstd::seq_lib::lemma_sorted_unique(input_names(a), input_names(b), name_order());
    assert(x.len() == input_names(a).len() && y.len() == input_names(b).len());
    if one_path_per_name(a) {
        lemma_input_order_exists(a);
        lemma_input_order_exists(b);
        let (chosen, other) = (input_positions(a), input_positions(b));
        assert forall|p: int| 0 <= p < x.len() implies x[p].path == y[p].path by {
            assert(chosen.contains(chosen[p]) && other.contains(other[p]));
            assert(input_names(a)[p] == x[p].name@ && input_names(b)[p] == y[p].name@);
            let view = listing(b)[other[p] as int];
            assert(view == entry_view(y[p]));
            assert(listing(b).contains(view));
            assert(listing(a).to_multiset().count(view) > 0);
            let j = choose|j: int| 0 <= j < listing(a).len() && listing(a)[j] == view;
            assert(entry_view(a[j]) == view);
            assert(a[j].name@ == a[chosen[p] as int].name@);
        }
        assert(input_paths(a) =~= input_paths(b));
    }
}

/// A name counts if and only if it is a stem that is not empty, a dot and the letters `csv`, each
/// in lower or upper case. The length of the stem and the bytes in it make no difference.
pub proof fn csv_names_are_stem_dot_csv(stem: Seq<u8>, dot: u8, c: u8, s: u8, v: u8)
    ensures
        is_csv_name(stem + seq![dot, c, s, v]) <==> {
            &&& stem.len() > 0
            &&& dot == 0x2e
            &&& c == 0x63 || c == 0x43
            &&& s == 0x73 || s == 0x53
            &&& v == 0x76 || v == 0x56
        },
{
    let name = stem + seq![dot, c, s, v];
    let n = name.len();
    assert(name[n - 4] == dot && name[n - 3] == c && name[n - 2] == s && name[n - 1] == v);
}

/// A name that is too short for a stem, a dot and three letters does not count.
pub proof fn short_names_do_not_count(name: Seq<u8>)
    requires
        name.len() < 5,
    ensures
        !is_csv_name(name),
{
}

/// The chosen entries are the regular files with the extension `csv`, all of them and no others,
/// each once; their names are in lexicographic order, and entries of the same name stay in the
/// order of the listing. The paths that are handed out are theirs.
pub proof fn every_csv_file_is_chosen<P>(entries: Seq<Entry<P>>)
    requires
        entries.len() <= usize::MAX,
    ensures
        ({
            let chosen = input_positions(entries);
            &&& forall|i: usize| #[trigger]
                chosen.contains(i) <==> i < entries.len() && entries[i as int].is_file && is_csv_name(
                    entries[i as int].name@,
                )
            &&& forall|p: int, q: int|
                0 <= p < q < chosen.len() ==> {
                    let (i, j) = (#[trigger] chosen[p] as int, #[trigger] chosen[q] as int);
                    ||| order::lex_before(entries[i].name@, entries[j].name@)
                    ||| entries[i].name@ == entries[j].name@ && i < j
                }
            &&& input_entries(entries).len() == chosen.len()
            &&& input_names(entries).len() == chosen.len()
            &&& input_paths(entries).len() == chosen.len()
            &&& forall|p: int|
                0 <= p < chosen.len() ==> {
                    let entry = entries[#[trigger] chosen[p] as int];
                    &&& input_entries(entries)[p] == entry
                    &&& input_names(entries)[p] == entry.name@
                    &&& input_paths(entries)[p] == entry.path
                }
        }),
{
    lemma_input_order_exists(entries);
    let chosen = input_positions(entries);
    assert(forall|p: int| 0 <= p < chosen.len() ==> chosen.contains(#[trigger] chosen[p]));
    assert forall|p: int, q: int| 0 <= p < q < chosen.len() implies ({
        let (i, j) = (#[trigger] chosen[p] as int, #[trigger] chosen[q] as int);
        ||| order::lex_before(entries[i].name@, entries[j].name@)
        ||| entries[i].name@ == entries[j].name@ && i < j
    }) by {
        assert(order::precedes::<&[u8]>(names(entries), chosen[p] as int, chosen[q] as int));
    }
}

/// Every regular file that is named with a stem, a dot and `csv` in either case is among the files
/// to sort, however long its stem.
pub proof fn every_file_with_the_extension_is_collected<P>(
    entries: Seq<Entry<P>>,
    k: int,
    stem: Seq<u8>,
    c: u8,
    s: u8,
    v: u8,
)
    requires
        entries.len() <= usize::MAX,
        0 <= k < entries.len(),
        entries[k].is_file,
        entries[k].name@ == stem + seq![0x2eu8, c, s, v],
        stem.len() > 0,
        c == 0x63 || c == 0x43,
        s == 0x73 || s == 0x53,
        v == 0x76 || v == 0x56,
    ensures
        input_paths(entries).contains(entries[k].path),
{
    every_csv_file_is_chosen(entries);
    csv_names_are_stem_dot_csv(stem, 0x2eu8, c, s, v);
    let chosen = input_positions(entries);
    assert(chosen.contains(k as usize));
    let p = choose|p: int| 0 <= p < chosen.len() && chosen[p] == k as usize;
    assert(input_paths(entries)[p] == entries[k].path);
}

} // verus!
