//! Keys with a strict total order, and a stable sort of positions by such keys.
use vstd::prelude::*;

verus! {

/// `a` and `b` agree on their first `k` bytes and `a` comes first at position `k`:
/// either it ends there or its byte is the smaller one.
pub open spec fn drops_below_at(a: Seq<u8>, b: Seq<u8>, k: int) -> bool {
    &&& 0 <= k <= a.len()
    &&& k < b.len()
    &&& forall|i: int| 0 <= i < k ==> a[i] == b[i]
    &&& k == a.len() || a[k] < b[k]
}

/// The lexicographic order of byte strings; a proper prefix comes before the longer string.
pub open spec fn lex_before(a: Seq<u8>, b: Seq<u8>) -> bool {
    exists|k: int| drops_below_at(a, b, k)
}

proof fn lemma_lex_irreflexive(a: Seq<u8>)
    ensures
        !lex_before(a, a),
{
}

proof fn lemma_lex_transitive(a: Seq<u8>, b: Seq<u8>, c: Seq<u8>)
    requires
        lex_before(a, b),
        lex_before(b, c),
    ensures
        lex_before(a, c),
{
    let k = choose|k: int| drops_below_at(a, b, k);
    let m = choose|m: int| drops_below_at(b, c, m);
    if k <= m {
        assert(drops_below_at(a, c, k));
    } else {
        assert(drops_below_at(a, c, m));
    }
}

/// Scans from position `k`, up to which `a` and `b` agree.
proof fn lemma_lex_connected_from(a: Seq<u8>, b: Seq<u8>, k: int)
    requires
        0 <= k <= a.len(),
        k <= b.len(),
        forall|i: int| 0 <= i < k ==> a[i] == b[i],
    ensures
        a == b || lex_before(a, b) || lex_before(b, a),
    decreases a.len() - k,
{
    if k == a.len() && k == b.len() {
        assert(a =~= b);
    } else if k == a.len() {
        assert(drops_below_at(a, b, k));
    } else if k == b.len() {
        assert(drops_below_at(b, a, k));
    } else if a[k] < b[k] {
        assert(drops_below_at(a, b, k));
    } else if b[k] < a[k] {
        assert(drops_below_at(b, a, k));
    } else {
        lemma_lex_connected_from(a, b, k + 1);
    }
}

/// Compares two byte strings lexicographically.
pub fn bytes_before(a: &[u8], b: &[u8]) -> (r: bool)
    ensures
        r == lex_before(a@, b@),
{
    let mut k: usize = 0;
    while k < a.len() && k < b.len() && a[k] == b[k]
        invariant
            k <= a.len(),
            k <= b.len(),
            forall|i: int| 0 <= i < k ==> a@[i] == b@[i],
        decreases a.len() - k,
    {
        k += 1;
    }
    let r = k < b.len() && (k == a.len() || a[k] < b[k]);
    proof {
        if r {
            assert(drops_below_at(a@, b@, k as int));
        } else if lex_before(a@, b@) {
            let m = choose|m: int| drops_below_at(a@, b@, m);
            assert(m >= k);
            assert(m == k || a@[k as int] == b@[k as int]);
        }
    }
    r
}

/// A key that rows can be ordered by. `rank` is what the order depends on, `before` is a
/// strict total order on ranks.
pub trait SortKey: Sized {
    type Rank;

    spec fn rank(&self) -> Self::Rank;

    spec fn before(a: Self::Rank, b: Self::Rank) -> bool;

    proof fn lemma_irreflexive(a: Self::Rank)
        ensures
            !Self::before(a, a),
    ;

    proof fn lemma_transitive(a: Self::Rank, b: Self::Rank, c: Self::Rank)
        requires
            Self::before(a, b),
            Self::before(b, c),
        ensures
            Self::before(a, c),
    ;

    proof fn lemma_connected(a: Self::Rank, b: Self::Rank)
        ensures
            a == b || Self::before(a, b) || Self::before(b, a),
    ;

    fn is_before(&self, other: &Self) -> (r: bool)
        ensures
            r == Self::before(self.rank(), other.rank()),
    ;
}

impl SortKey for i128 {
    type Rank = i128;

    open spec fn rank(&self) -> i128 {
        *self
    }

    open spec fn before(a: i128, b: i128) -> bool {
        a < b
    }

    proof fn lemma_irreflexive(a: i128) {
    }

    proof fn lemma_transitive(a: i128, b: i128, c: i128) {
    }

    proof fn lemma_connected(a: i128, b: i128) {
    }

    fn is_before(&self, other: &Self) -> (r: bool) {
        *self < *other
    }
}

impl<'a> SortKey for &'a [u8] {
    type Rank = Seq<u8>;

    open spec fn rank(&self) -> Seq<u8> {
        self@
    }

    open spec fn before(a: Seq<u8>, b: Seq<u8>) -> bool {
        lex_before(a, b)
    }

    proof fn lemma_irreflexive(a: Seq<u8>) {
        lemma_lex_irreflexive(a);
    }

    proof fn lemma_transitive(a: Seq<u8>, b: Seq<u8>, c: Seq<u8>) {
        lemma_lex_transitive(a, b, c);
    }

    proof fn lemma_connected(a: Seq<u8>, b: Seq<u8>) {
        lemma_lex_connected_from(a, b, 0);
    }

    fn is_before(&self, other: &Self) -> (r: bool) {
        bytes_before(*self, *other)
    }
}

/// An optional text, ordered as `Option<&str>` is: no text comes first, texts are compared by
/// their UTF-8 bytes.
impl<'a> SortKey for Option<&'a str> {
    type Rank = Option<Seq<u8>>;

    open spec fn rank(&self) -> Option<Seq<u8>> {
        match self {
            Some(text) => Some(vstd::utf8::encode_utf8(text@)),
            None => None,
        }
    }

    open spec fn before(a: Option<Seq<u8>>, b: Option<Seq<u8>>) -> bool {
        match (a, b) {
            (None, Some(_)) => true,
            (Some(x), Some(y)) => lex_before(x, y),
            (_, None) => false,
        }
    }

    proof fn lemma_irreflexive(a: Option<Seq<u8>>) {
        if let Some(x) = a {
            lemma_lex_irreflexive(x);
        }
    }

    proof fn lemma_transitive(a: Option<Seq<u8>>, b: Option<Seq<u8>>, c: Option<Seq<u8>>) {
        if a is Some {
            lemma_lex_transitive(a->0, b->0, c->0);
        }
    }

    proof fn lemma_connected(a: Option<Seq<u8>>, b: Option<Seq<u8>>) {
        if a is Some && b is Some {
            lemma_lex_connected_from(a->0, b->0, 0);
        }
    }

    fn is_before(&self, other: &Self) -> (r: bool) {
        match (*self, *other) {
            (None, Some(_)) => true,
            (Some(x), Some(y)) => bytes_before(x.as_bytes(), y.as_bytes()),
            (_, None) => false,
        }
    }
}

/// The ranks of a list of keys, in the order of the list.
pub open spec fn ranks_of<K: SortKey>(keys: Seq<K>) -> Seq<K::Rank> {
    Seq::new(keys.len(), |i: int| keys[i].rank())
}

/// Position `i` goes before position `j`: its key is the smaller one, or the keys are equal and
/// `i` comes first in the input.
pub open spec fn precedes<K: SortKey>(ranks: Seq<K::Rank>, i: int, j: int) -> bool {
    K::before(ranks[i], ranks[j]) || (ranks[i] == ranks[j] && i < j)
}

/// The positions in `order` strictly ascend under `precedes`.
pub open spec fn ascends<K: SortKey>(order: Seq<usize>, ranks: Seq<K::Rank>) -> bool {
    forall|p: int, q: int|
        0 <= p < q < order.len() ==> precedes::<K>(ranks, #[trigger] order[p] as int, #[trigger] order[q] as int)
}

/// `precedes` is irreflexive, transitive and connected.
pub proof fn lemma_precedes_is_strict_total<K: SortKey>(ranks: Seq<K::Rank>, i: int, j: int, k: int)
    ensures
        !precedes::<K>(ranks, i, i),
        precedes::<K>(ranks, i, j) && precedes::<K>(ranks, j, k) ==> precedes::<K>(ranks, i, k),
        i == j || precedes::<K>(ranks, i, j) || precedes::<K>(ranks, j, i),
        !(precedes::<K>(ranks, i, j) && precedes::<K>(ranks, j, i)),
{
    let (a, b, c) = (ranks[i], ranks[j], ranks[k]);
    K::lemma_irreflexive(a);
    K::lemma_irreflexive(b);
    K::lemma_connected(a, b);
    if K::before(a, b) && K::before(b, c) {
        K::lemma_transitive(a, b, c);
    }
    if K::before(a, b) && K::before(b, a) {
        K::lemma_transitive(a, b, a);
    }
}

/// The entries of `s` strictly ascend under `less`.
pub open spec fn ascends_by<T>(s: Seq<T>, less: spec_fn(T, T) -> bool) -> bool {
    forall|p: int, q: int| 0 <= p < q < s.len() ==> less(#[trigger] s[p], #[trigger] s[q])
}

/// Two ascending sequences of the same values agree on their first `n` entries.
proof fn lemma_ascending_agree<T>(a: Seq<T>, b: Seq<T>, less: spec_fn(T, T) -> bool, n: int)
    requires
        forall|x: T, y: T| #[trigger] less(x, y) ==> !less(y, x),
        ascends_by(a, less),
        ascends_by(b, less),
        forall|x: T| a.contains(x) <==> b.contains(x),
        0 <= n <= a.len(),
        n <= b.len(),
    ensures
        forall|p: int| 0 <= p < n ==> a[p] == b[p],
    decreases n,
{
    if n > 0 {
        lemma_ascending_agree(a, b, less, n - 1);
        let (x, y) = (a[n - 1], b[n - 1]);
        if x != y {
            assert(a.contains(x) && b.contains(y));
            let q = choose|q: int| 0 <= q < b.len() && b[q] == x;
            let r = choose|r: int| 0 <= r < a.len() && a[r] == y;
            if q < n - 1 {
                assert(less(a[q], a[n - 1]));
            }
            if r < n - 1 {
                assert(less(b[r], b[n - 1]));
            }
            assert(less(y, x) && less(x, y));
        }
    }
}

proof fn lemma_ascending_not_longer<T>(a: Seq<T>, b: Seq<T>, less: spec_fn(T, T) -> bool)
    requires
        forall|x: T, y: T| #[trigger] less(x, y) ==> !less(y, x),
        ascends_by(a, less),
        ascends_by(b, less),
        forall|x: T| a.contains(x) <==> b.contains(x),
    ensures
        a.len() <= b.len(),
{
    if a.len() > b.len() {
        lemma_ascending_agree(a, b, less, b.len() as int);
        let x = a[b.len() as int];
        assert(a.contains(x));
        let q = choose|q: int| 0 <= q < b.len() && b[q] == x;
        assert(less(a[q], x));
    }
}

/// Under a strict order there is only one way to put values in ascending order.
pub proof fn ascending_is_unique<T>(a: Seq<T>, b: Seq<T>, less: spec_fn(T, T) -> bool)
    requires
        forall|x: T, y: T| #[trigger] less(x, y) ==> !less(y, x),
        ascends_by(a, less),
        ascends_by(b, less),
        forall|x: T| a.contains(x) <==> b.contains(x),
    ensures
        a == b,
{
    lemma_ascending_not_longer(a, b, less);
    lemma_ascending_not_longer(b, a, less);
    lemma_ascending_agree(a, b, less, a.len() as int);
    assert(a =~= b);
}

/// Only one sequence of given positions ascends by key.
pub proof fn ascending_positions_are_unique<K: SortKey>(
    a: Seq<usize>,
    b: Seq<usize>,
    ranks: Seq<K::Rank>,
)
    requires
        ascends::<K>(a, ranks),
        ascends::<K>(b, ranks),
        forall|i: usize| a.contains(i) <==> b.contains(i),
    ensures
        a == b,
{
    let less = |i: usize, j: usize| precedes::<K>(ranks, i as int, j as int);
    assert forall|x: usize, y: usize| #[trigger] less(x, y) implies !less(y, x) by {
        lemma_precedes_is_strict_total::<K>(ranks, x as int, y as int, 0);
    }
    ascending_is_unique(a, b, less);
}

/// Where position `x` has to stand in an ascending sequence.
proof fn lemma_insertion_point<K: SortKey>(s: Seq<usize>, ranks: Seq<K::Rank>, x: usize) -> (k: int)
    requires
        ascends::<K>(s, ranks),
        !s.contains(x),
    ensures
        0 <= k <= s.len(),
        forall|p: int| 0 <= p < k ==> precedes::<K>(ranks, #[trigger] s[p] as int, x as int),
        forall|p: int|
            k <= p < s.len() ==> precedes::<K>(ranks, x as int, #[trigger] s[p] as int),
    decreases s.len(),
{
    if s.len() == 0 {
        0
    } else {
        let last = s.last();
        assert(s.contains(last));
        lemma_precedes_is_strict_total::<K>(ranks, last as int, x as int, 0);
        if precedes::<K>(ranks, last as int, x as int) {
            assert forall|p: int| 0 <= p < s.len() implies precedes::<K>(
                ranks,
                #[trigger] s[p] as int,
                x as int,
            ) by {
                if p < s.len() - 1 {
                    assert(precedes::<K>(ranks, s[p] as int, s[s.len() - 1] as int));
                    lemma_precedes_is_strict_total::<K>(
                        ranks,
                        s[p] as int,
                        last as int,
                        x as int,
                    );
                }
            }
            s.len() as int
        } else {
            let shorter = s.drop_last();
            assert(ascends::<K>(shorter, ranks)) by {
                assert forall|p: int, q: int| 0 <= p < q < shorter.len() implies precedes::<
                    K,
                >(ranks, #[trigger] shorter[p] as int, #[trigger] shorter[q] as int) by {
                    assert(precedes::<K>(ranks, s[p] as int, s[q] as int));
                }
            }
            assert(!shorter.contains(x)) by {
                if shorter.contains(x) {
                    let q = choose|q: int| 0 <= q < shorter.len() && shorter[q] == x;
                    assert(s[q] == x);
                }
            }
            let k = lemma_insertion_point::<K>(shorter, ranks, x);
            assert forall|p: int| 0 <= p < k implies precedes::<K>(
                ranks,
                #[trigger] s[p] as int,
                x as int,
            ) by {
                assert(shorter[p] == s[p]);
            }
            assert forall|p: int| k <= p < s.len() implies precedes::<K>(
                ranks,
                x as int,
                #[trigger] s[p] as int,
            ) by {
                if p < s.len() - 1 {
                    assert(shorter[p] == s[p]);
                }
            }
            k
        }
    }
}

/// The positions below `n` that are members can be put in ascending order.
pub proof fn ascending_positions_exist<K: SortKey>(
    ranks: Seq<K::Rank>,
    member: spec_fn(usize) -> bool,
    n: nat,
) -> (s: Seq<usize>)
    requires
        n <= usize::MAX,
    ensures
        ascends::<K>(s, ranks),
        forall|i: usize| #[trigger] s.contains(i) <==> i < n && member(i),
    decreases n,
{
    if n == 0 {
        Seq::empty()
    } else {
        let x = (n - 1) as usize;
        let s = ascending_positions_exist::<K>(ranks, member, (n - 1) as nat);
        if member(x) {
            let k = lemma_insertion_point::<K>(s, ranks, x);
            let t = s.insert(k, x);
            assert forall|p: int, q: int| 0 <= p < q < t.len() implies precedes::<K>(
                ranks,
                #[trigger] t[p] as int,
                #[trigger] t[q] as int,
            ) by {
                let a = if p < k { p } else { p - 1 };
                let b = if q < k { q } else { q - 1 };
                if p != k {
                    assert(t[p] == s[a]);
                }
                if q != k {
                    assert(t[q] == s[b]);
                }
            }
            assert forall|i: usize| #[trigger] t.contains(i) <==> i < n && member(i) by {
                if t.contains(i) {
                    let p = choose|p: int| 0 <= p < t.len() && t[p] == i;
                    if p != k {
                        assert(s.contains(s[if p < k { p } else { p - 1 }]));
                    }
                }
                if i < n && member(i) {
                    if i == x {
                        assert(t[k] == x);
                    } else {
                        assert(s.contains(i));
                        let p = choose|p: int| 0 <= p < s.len() && s[p] == i;
                        assert(t[if p < k { p } else { p + 1 }] == i);
                    }
                }
            }
            t
        } else {
            s
        }
    }
}

/// Merges the sorted positions of two neighbouring stretches; on equal keys the left one wins.
fn merge<K: SortKey>(keys: &[K], left: Vec<usize>, right: Vec<usize>) -> (out: Vec<usize>)
    requires
        ascends::<K>(left@, ranks_of(keys@)),
        ascends::<K>(right@, ranks_of(keys@)),
        forall|p: int| 0 <= p < left.len() ==> left[p] < keys.len(),
        forall|p: int| 0 <= p < right.len() ==> right[p] < keys.len(),
        forall|p: int, q: int| 0 <= p < left.len() && 0 <= q < right.len() ==> left[p] < right[q],
        left.len() + right.len() <= keys.len(),
    ensures
        ascends::<K>(out@, ranks_of(keys@)),
        out.len() == left.len() + right.len(),
        forall|x: usize| #[trigger] out@.contains(x) <==> left@.contains(x) || right@.contains(x),
{
    let ghost ranks = ranks_of(keys@);
    let mut out: Vec<usize> = Vec::new();
    let mut i: usize = 0;
    let mut j: usize = 0;
    while i < left.len() || j < right.len()
        invariant
            ranks == ranks_of(keys@),
            i <= left.len(),
            j <= right.len(),
            out.len() == i + j,
            left.len() + right.len() <= keys.len(),
            ascends::<K>(left@, ranks),
            ascends::<K>(right@, ranks),
            ascends::<K>(out@, ranks),
            forall|p: int| 0 <= p < left.len() ==> left[p] < keys.len(),
            forall|p: int| 0 <= p < right.len() ==> right[p] < keys.len(),
            forall|p: int, q: int|
                0 <= p < left.len() && 0 <= q < right.len() ==> left[p] < right[q],
            forall|p: int, q: int|
                0 <= p < out.len() && i <= q < left.len() ==> precedes::<K>(
                    ranks,
                    #[trigger] out[p] as int,
                    #[trigger] left[q] as int,
                ),
            forall|p: int, q: int|
                0 <= p < out.len() && j <= q < right.len() ==> precedes::<K>(
                    ranks,
                    #[trigger] out[p] as int,
                    #[trigger] right[q] as int,
                ),
            forall|p: int| 0 <= p < i ==> out@.contains(#[trigger] left[p]),
            forall|q: int| 0 <= q < j ==> out@.contains(#[trigger] right[q]),
            forall|p: int|
                0 <= p < out.len() ==> left@.contains(#[trigger] out[p]) || right@.contains(out[p]),
        decreases left.len() - i + right.len() - j,
    {
        let take_left = j == right.len() || (i < left.len() && !keys[right[j]].is_before(
            &keys[left[i]],
        ));
        let ghost before = out@;
        if take_left {
            let next: usize = left[i];
            proof {
                if j < right.len() {
                    lemma_precedes_is_strict_total::<K>(
                        ranks,
                        next as int,
                        right[j as int] as int,
                        0,
                    );
                    assert(precedes::<K>(ranks, next as int, right[j as int] as int));
                    assert forall|q: int| j <= q < right.len() implies precedes::<K>(
                        ranks,
                        next as int,
                        #[trigger] right[q] as int,
                    ) by {
                        lemma_precedes_is_strict_total::<K>(
                            ranks,
                            next as int,
                            right[j as int] as int,
                            right[q] as int,
                        );
                    }
                }
                assert(left@.contains(next));
            }
            out.push(next);
            i += 1;
        } else {
            let next: usize = right[j];
            proof {
                if i < left.len() {
                    assert(precedes::<K>(ranks, next as int, left[i as int] as int));
                    assert forall|q: int| i <= q < left.len() implies precedes::<K>(
                        ranks,
                        next as int,
                        #[trigger] left[q] as int,
                    ) by {
                        lemma_precedes_is_strict_total::<K>(
                            ranks,
                            next as int,
                            left[i as int] as int,
                            left[q] as int,
                        );
                    }
                }
                assert(right@.contains(next));
            }
            out.push(next);
            j += 1;
        }
        proof {
            assert(out@[before.len() as int] == out@.last());
            assert forall|x: usize| before.contains(x) implies out@.contains(x) by {
                let p = choose|p: int| 0 <= p < before.len() && before[p] == x;
                assert(out@[p] == x);
            }
            assert(out@.contains(out@.last()));
        }
    }
    out
}

/// The positions `lo..hi`, stably sorted by their keys.
fn sort_stretch<K: SortKey>(keys: &[K], lo: usize, hi: usize) -> (order: Vec<usize>)
    requires
        lo <= hi <= keys.len(),
    ensures
        ascends::<K>(order@, ranks_of(keys@)),
        order.len() == hi - lo,
        forall|x: usize| #[trigger] order@.contains(x) <==> lo <= x < hi,
    decreases hi - lo,
{
    if hi - lo == 0 {
        Vec::new()
    } else if hi - lo == 1 {
        let order = vec![lo];
        assert(order@[0] == lo);
        order
    } else {
        let mid: usize = lo + (hi - lo) / 2;
        let left = sort_stretch(keys, lo, mid);
        let right = sort_stretch(keys, mid, hi);
        proof {
            assert forall|p: int| 0 <= p < left.len() implies lo <= #[trigger] left[p] < mid by {
                assert(left@.contains(left[p]));
            }
            assert forall|p: int| 0 <= p < right.len() implies mid <= #[trigger] right[p] < hi by {
                assert(right@.contains(right[p]));
            }
        }
        merge(keys, left, right)
    }
}

/// All positions of `keys`, sorted by key; positions with equal keys keep their input order.
pub fn stable_order<K: SortKey>(keys: &[K]) -> (order: Vec<usize>)
    ensures
        ascends::<K>(order@, ranks_of(keys@)),
        order.len() == keys.len(),
        forall|x: usize| #[trigger] order@.contains(x) <==> x < keys.len(),
{
    sort_stretch(keys, 0, keys.len())
}

/// The lexicographic order, one byte at a time: nothing comes before the empty string, which comes
/// before every other, and of two others the smaller first byte comes first; where the first bytes
/// are the same, the rest decides.
pub proof fn first_bytes_decide(x: u8, a: Seq<u8>, y: u8, b: Seq<u8>)
    ensures
        !lex_before(a, Seq::empty()),
        lex_before(Seq::empty(), seq![y] + b),
        lex_before(seq![x] + a, seq![y] + b) <==> x < y || (x == y && lex_before(a, b)),
{
    let (u, v) = (seq![x] + a, seq![y] + b);
    assert(drops_below_at(Seq::empty(), v, 0));
    if lex_before(u, v) {
        let k = choose|k: int| drops_below_at(u, v, k);
        if k > 0 {
            assert(u[0] == v[0]);
            assert forall|i: int| 0 <= i < k - 1 implies a[i] == b[i] by {
                assert(u[i + 1] == v[i + 1]);
            }
            assert(u[k - 1 + 1] == u[k] && (k < u.len() ==> a[k - 1] == u[k]) && b[k - 1] == v[k]);
            assert(drops_below_at(a, b, k - 1));
        }
    }
    if x < y {
        assert(drops_below_at(u, v, 0));
    }
    if x == y && lex_before(a, b) {
        let k = choose|k: int| drops_below_at(a, b, k);
        assert forall|i: int| 0 <= i < k + 1 implies u[i] == v[i] by {
            if i > 0 {
                assert(a[i - 1] == b[i - 1]);
            }
        }
        assert(drops_below_at(u, v, k + 1));
    }
}

/// One byte string comes before another if and only if, after a prefix that both share, it ends
/// where the other goes on or has the smaller byte.
pub proof fn first_difference_decides(a: Seq<u8>, b: Seq<u8>)
    ensures
        lex_before(a, b) <==> exists|k: int|
            0 <= k <= a.len() && k < b.len() && #[trigger] a.take(k) == b.take(k) && (k == a.len()
                || a[k] < b[k]),
{
    if lex_before(a, b) {
        let k = choose|k: int| drops_below_at(a, b, k);
        assert(a.take(k) =~= b.take(k));
    }
    if exists|k: int|
        0 <= k <= a.len() && k < b.len() && #[trigger] a.take(k) == b.take(k) && (k == a.len()
            || a[k] < b[k]) {
        let k = choose|k: int|
            0 <= k <= a.len() && k < b.len() && #[trigger] a.take(k) == b.take(k) && (k == a.len()
                || a[k] < b[k]);
        assert forall|i: int| 0 <= i < k implies a[i] == b[i] by {
            assert(a.take(k)[i] == b.take(k)[i]);
        }
        assert(drops_below_at(a, b, k));
    }
}

/// A missing text comes before every text, no text before a missing one, and two texts are in the
/// lexicographic order of their bytes.
pub proof fn missing_texts_come_first(x: Seq<u8>, y: Seq<u8>)
    ensures
        !<Option<&str> as SortKey>::before(None, None),
        <Option<&str> as SortKey>::before(None, Some(y)),
        !<Option<&str> as SortKey>::before(Some(x), None),
        <Option<&str> as SortKey>::before(Some(x), Some(y)) <==> lex_before(x, y),
{
}

/// One optional text is before another if and only if it is missing and the other is not, or both
/// are there and, after a prefix of UTF-8 bytes that they share, it ends where the other goes on or
/// has the smaller byte. They rank equal only where they are the same text or both missing.
pub proof fn texts_are_ordered_by_their_bytes(a: Option<&str>, b: Option<&str>)
    ensures
        <Option<&str> as SortKey>::before(a.rank(), b.rank()) <==> {
            ||| a is None && b is Some
            ||| a is Some && b is Some && ({
                let (x, y) = (vstd::utf8::encode_utf8(a->0@), vstd::utf8::encode_utf8(b->0@));
                exists|k: int|
                    0 <= k <= x.len() && k < y.len() && #[trigger] x.take(k) == y.take(k) && (k
                        == x.len() || x[k] < y[k])
            })
        },
        a.rank() == b.rank() <==> {
            ||| a is None && b is None
            ||| a is Some && b is Some && a->0@ == b->0@
        },
{
    if a is Some && b is Some {
        let (x, y) = (vstd::utf8::encode_utf8(a->0@), vstd::utf8::encode_utf8(b->0@));
        assert(a.rank() == Some(x) && b.rank() == Some(y));
        first_difference_decides(x, y);
        missing_texts_come_first(x, y);
        vstd::utf8::encode_utf8_decode_utf8(a->0@);
        vstd::utf8::encode_utf8_decode_utf8(b->0@);
    }
}

/// Integer keys are ordered as integers, and names by their bytes.
pub proof fn other_keys_are_ordered_by_value(a: i128, b: i128, x: &[u8], y: &[u8])
    ensures
        <i128 as SortKey>::before(a.rank(), b.rank()) <==> a < b,
        a.rank() == b.rank() <==> a == b,
        <&[u8] as SortKey>::before(x.rank(), y.rank()) <==> lex_before(x@, y@),
        x.rank() == y.rank() <==> x@ == y@,
{
}

/// Positions ascend if and only if of any two the one that stands first has the smaller key, or the
/// same key and the smaller position.
pub proof fn ascending_is_sorted_and_stable<K: SortKey>(order: Seq<usize>, keys: Seq<K>)
    requires
        forall|p: int| 0 <= p < order.len() ==> #[trigger] order[p] < keys.len(),
    ensures
        ascends::<K>(order, ranks_of(keys)) <==> forall|p: int, q: int|
            0 <= p < q < order.len() ==> {
                let (i, j) = (#[trigger] order[p] as int, #[trigger] order[q] as int);
                ||| K::before(keys[i].rank(), keys[j].rank())
                ||| keys[i].rank() == keys[j].rank() && i < j
            },
        ranks_of(keys).len() == keys.len(),
        forall|i: int| 0 <= i < keys.len() ==> #[trigger] ranks_of(keys)[i] == keys[i].rank(),
{
    let ranks = ranks_of(keys);
    if ascends::<K>(order, ranks) {
        assert forall|p: int, q: int| 0 <= p < q < order.len() implies ({
            let (i, j) = (#[trigger] order[p] as int, #[trigger] order[q] as int);
            ||| K::before(keys[i].rank(), keys[j].rank())
            ||| keys[i].rank() == keys[j].rank() && i < j
        }) by {
            assert(precedes::<K>(ranks, order[p] as int, order[q] as int));
        }
    }
}

} // verus!
