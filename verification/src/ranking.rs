//! Stable ordering of items by a key: a number, then a byte string, then a
//! second number, each compared in ascending order.
use vstd::prelude::*;
use crate::text::{
    bytes_lt, compare_bytes, lemma_bytes_lt_irreflexive, lemma_bytes_lt_total,
    lemma_bytes_lt_transitive,
};

verus! {

/// The key by which an item is ordered.
pub struct SortKey {
    pub primary: usize,
    pub text: Vec<u8>,
    pub secondary: usize,
}

/// Mathematical value of a [`SortKey`].
pub struct KeyView {
    pub primary: usize,
    pub text: Seq<u8>,
    pub secondary: usize,
}

impl View for SortKey {
    type V = KeyView;

    open spec fn view(&self) -> KeyView {
        KeyView { primary: self.primary, text: self.text@, secondary: self.secondary }
    }
}

pub open spec fn keys_view(keys: Seq<SortKey>) -> Seq<KeyView> {
    keys.map_values(|k: SortKey| k@)
}

/// Strict lexicographic order of keys.
pub open spec fn key_lt(a: KeyView, b: KeyView) -> bool {
    ||| a.primary < b.primary
    ||| a.primary == b.primary && bytes_lt(a.text, b.text)
    ||| a.primary == b.primary && a.text == b.text && a.secondary < b.secondary
}

/// Item `i` comes before item `j`: its key is smaller, or the keys are
/// equal and it came first.
pub open spec fn precedes(keys: Seq<KeyView>, i: usize, j: usize) -> bool {
    ||| key_lt(keys[i as int], keys[j as int])
    ||| keys[i as int] == keys[j as int] && i < j
}

/// `sorted` with `j` inserted after the last item that precedes `j`.
pub open spec fn insert_ranked(keys: Seq<KeyView>, sorted: Seq<usize>, j: usize) -> Seq<usize>
    decreases sorted.len(),
{
    if sorted.len() == 0 {
        seq![j]
    } else if precedes(keys, sorted.last(), j) {
        sorted.push(j)
    } else {
        insert_ranked(keys, sorted.drop_last(), j).push(sorted.last())
    }
}

/// The indices `0..n` in the stable order of their keys.
pub open spec fn ranked(keys: Seq<KeyView>, n: nat) -> Seq<usize>
    decreases n,
{
    if n == 0 {
        seq![]
    } else {
        insert_ranked(keys, ranked(keys, (n - 1) as nat), (n - 1) as usize)
    }
}

proof fn lemma_insert_ranked_at(keys: Seq<KeyView>, s: Seq<usize>, j: usize, p: int)
    requires
        0 <= p <= s.len(),
        p == 0 || precedes(keys, s[p - 1], j),
        forall|q: int| p <= q < s.len() ==> !precedes(keys, #[trigger] s[q], j),
    ensures
        insert_ranked(keys, s, j) == s.take(p).push(j) + s.skip(p),
    decreases s.len(),
{
    if s.len() == 0 {
        assert(s.take(p).push(j) + s.skip(p) =~= seq![j]);
    } else if precedes(keys, s.last(), j) {
        assert(p == s.len()) by {
            if p < s.len() {
                assert(!precedes(keys, s[s.len() - 1], j));
            }
        }
        assert(s.take(p).push(j) + s.skip(p) =~= s.push(j));
    } else {
        let d = s.drop_last();
        assert(p < s.len());
        assert forall|q: int| p <= q < d.len() implies !precedes(keys, #[trigger] d[q], j) by {
            assert(d[q] == s[q]);
        }
        if p > 0 {
            assert(d[p - 1] == s[p - 1]);
        }
        lemma_insert_ranked_at(keys, d, j, p);
        assert(d.take(p).push(j) + d.skip(p) + seq![s.last()] =~= s.take(p).push(j) + s.skip(p));
    }
}

/// Whether item `i` comes before item `j`.
pub fn key_precedes(keys: &Vec<SortKey>, i: usize, j: usize) -> (b: bool)
    requires
        i < keys.len(),
        j < keys.len(),
    ensures
        b == precedes(keys_view(keys@), i, j),
{
    let a = &keys[i];
    let c = &keys[j];
    let (lt, eq) = compare_bytes(a.text.as_slice(), c.text.as_slice());
    proof {
        assert(keys_view(keys@)[i as int] == a@);
        assert(keys_view(keys@)[j as int] == c@);
        if a@ == c@ {
            assert(a.text@ == c.text@);
        }
        if a.primary == c.primary && eq && a.secondary == c.secondary {
            assert(a@ =~= c@);
        }
    }
    if a.primary < c.primary {
        true
    } else if a.primary > c.primary {
        false
    } else if lt {
        true
    } else if !eq {
        false
    } else if a.secondary < c.secondary {
        true
    } else if a.secondary > c.secondary {
        false
    } else {
        i < j
    }
}

/// The indices of `keys` in the stable order of the keys.
pub fn rank(keys: &Vec<SortKey>) -> (r: Vec<usize>)
    ensures
        r@ == ranked(keys_view(keys@), keys@.len()),
        r@.len() == keys@.len(),
        forall|m: int| 0 <= m < r@.len() ==> #[trigger] r@[m] < keys@.len(),
{
    let n = keys.len();
    let ghost kv = keys_view(keys@);
    let mut r: Vec<usize> = Vec::new();
    let mut j: usize = 0;
    while j < n
        invariant
            j <= n,
            n == keys.len(),
            kv == keys_view(keys@),
            r@ == ranked(kv, j as nat),
            r@.len() == j,
            forall|m: int| 0 <= m < r@.len() ==> #[trigger] r@[m] < j,
        decreases n - j,
    {
        let mut p = r.len();
        while p > 0 && !key_precedes(keys, r[p - 1], j)
            invariant
                p <= r@.len(),
                j < n,
                n == keys.len(),
                r@.len() == j,
                kv == keys_view(keys@),
                forall|m: int| 0 <= m < r@.len() ==> #[trigger] r@[m] < j,
                forall|q: int| p <= q < r@.len() ==> !precedes(kv, #[trigger] r@[q], j),
            decreases p,
        {
            p = p - 1;
        }
        proof {
            lemma_insert_ranked_at(kv, r@, j, p as int);
        }
        let ghost before = r@;
        r.insert(p, j);
        proof {
            assert(r@ =~= before.take(p as int).push(j) + before.skip(p as int));
            assert(ranked(kv, (j + 1) as nat) == insert_ranked(kv, ranked(kv, j as nat), j));
            assert forall|m: int| 0 <= m < r@.len() implies #[trigger] r@[m] < j + 1 by {
                if m < p {
                    assert(r@[m] == before[m]);
                } else if m > p {
                    assert(r@[m] == before[m - 1]);
                }
            }
        }
        j = j + 1;
    }
    r
}


/// Ranking `n` items gives `n` indices.
pub proof fn lemma_ranked_len(keys: Seq<KeyView>, n: nat)
    ensures
        ranked(keys, n).len() == n,
    decreases n,
{
    if n > 0 {
        lemma_ranked_len(keys, (n - 1) as nat);
        lemma_insert_ranked_len(keys, ranked(keys, (n - 1) as nat), (n - 1) as usize);
    }
}

proof fn lemma_insert_ranked_len(keys: Seq<KeyView>, sorted: Seq<usize>, j: usize)
    ensures
        insert_ranked(keys, sorted, j).len() == sorted.len() + 1,
    decreases sorted.len(),
{
    if sorted.len() > 0 && !precedes(keys, sorted.last(), j) {
        lemma_insert_ranked_len(keys, sorted.drop_last(), j);
    }
}


proof fn lemma_insert_ranked_members(keys: Seq<KeyView>, s: Seq<usize>, j: usize, bound: usize)
    requires
        j < bound,
        forall|q: int| 0 <= q < s.len() ==> #[trigger] s[q] < bound,
    ensures
        forall|m: int| 0 <= m < insert_ranked(keys, s, j).len() ==> #[trigger] insert_ranked(keys, s, j)[m] < bound,
    decreases s.len(),
{
    lemma_insert_ranked_len(keys, s, j);
    if s.len() > 0 && !precedes(keys, s.last(), j) {
        let d = s.drop_last();
        assert forall|q: int| 0 <= q < d.len() implies #[trigger] d[q] < bound by {
            assert(d[q] == s[q]);
        }
        lemma_insert_ranked_members(keys, d, j, bound);
        let r = insert_ranked(keys, s, j);
        let inner = insert_ranked(keys, d, j);
        assert forall|m: int| 0 <= m < r.len() implies #[trigger] r[m] < bound by {
            if m < inner.len() {
                assert(r[m] == inner[m]);
            } else {
                assert(r[m] == s[s.len() - 1]);
            }
        }
    }
}

/// Ranking `n` items gives indices below `n`.
pub proof fn lemma_ranked_bounds(keys: Seq<KeyView>, n: nat)
    requires
        n <= usize::MAX,
    ensures
        forall|m: int| 0 <= m < ranked(keys, n).len() ==> #[trigger] ranked(keys, n)[m] < n,
    decreases n,
{
    if n > 0 {
        lemma_ranked_bounds(keys, (n - 1) as nat);
        let prev = ranked(keys, (n - 1) as nat);
        assert forall|q: int| 0 <= q < prev.len() implies #[trigger] prev[q] < n as usize by {
            assert(prev[q] < n - 1);
        }
        lemma_insert_ranked_members(keys, prev, (n - 1) as usize, n as usize);
    }
}


/// Each index comes before every later one.
pub open spec fn sorted_by(keys: Seq<KeyView>, r: Seq<usize>) -> bool {
    forall|a: int, b: int| 0 <= a < b < r.len() ==> precedes(keys, #[trigger] r[a], #[trigger] r[b])
}

/// No index occurs twice.
pub open spec fn distinct(r: Seq<usize>) -> bool {
    forall|a: int, b: int| 0 <= a < b < r.len() ==> #[trigger] r[a] != #[trigger] r[b]
}

proof fn lemma_precedes_transitive(keys: Seq<KeyView>, i: usize, j: usize, k: usize)
    requires
        precedes(keys, i, j),
        precedes(keys, j, k),
    ensures
        precedes(keys, i, k),
{
    let (a, b, c) = (keys[i as int], keys[j as int], keys[k as int]);
    if bytes_lt(a.text, b.text) && bytes_lt(b.text, c.text) {
        lemma_bytes_lt_transitive(a.text, b.text, c.text);
    }
    lemma_bytes_lt_irreflexive(a.text);
}

proof fn lemma_precedes_total(keys: Seq<KeyView>, i: usize, j: usize)
    requires
        i != j,
    ensures
        precedes(keys, i, j) || precedes(keys, j, i),
{
    let (a, b) = (keys[i as int], keys[j as int]);
    lemma_bytes_lt_total(a.text, b.text);
    if a.primary == b.primary && a.text == b.text && a.secondary == b.secondary {
        assert(a == b);
    }
}

proof fn lemma_precedes_irreflexive(keys: Seq<KeyView>, i: usize)
    ensures
        !precedes(keys, i, i),
{
    lemma_bytes_lt_irreflexive(keys[i as int].text);
}

proof fn lemma_insert_ranked_sorted(keys: Seq<KeyView>, s: Seq<usize>, j: usize)
    requires
        sorted_by(keys, s),
        distinct(s),
        !s.contains(j),
    ensures
        sorted_by(keys, insert_ranked(keys, s, j)),
        distinct(insert_ranked(keys, s, j)),
        forall|m: int| 0 <= m < insert_ranked(keys, s, j).len() ==> (#[trigger] insert_ranked(keys, s, j)[m] == j || s.contains(insert_ranked(keys, s, j)[m])),
        insert_ranked(keys, s, j).contains(j),
    decreases s.len(),
{
    lemma_insert_ranked_len(keys, s, j);
    let r = insert_ranked(keys, s, j);
    if s.len() == 0 {
        assert(r[0] == j);
    } else if precedes(keys, s.last(), j) {
        let n = s.len();
        assert(r[n as int] == j);
        assert forall|a: int, b: int| 0 <= a < b < r.len() implies precedes(keys, #[trigger] r[a], #[trigger] r[b]) by {
            if b == n {
                if a < n - 1 {
                    assert(precedes(keys, s[a], s[n - 1]));
                    lemma_precedes_transitive(keys, s[a], s[n - 1], j);
                }
            } else {
                assert(r[a] == s[a] && r[b] == s[b]);
            }
        }
        assert forall|a: int, b: int| 0 <= a < b < r.len() implies #[trigger] r[a] != #[trigger] r[b] by {
            if b == n {
                assert(r[a] == s[a]);
                assert(s.contains(s[a]));
            } else {
                assert(r[a] == s[a] && r[b] == s[b]);
            }
        }
        assert forall|m: int| 0 <= m < r.len() implies (#[trigger] r[m] == j || s.contains(r[m])) by {
            if m < n {
                assert(r[m] == s[m]);
            }
        }
    } else {
        let d = s.drop_last();
        let last = s.last();
        assert(sorted_by(keys, d)) by {
            assert forall|a: int, b: int| 0 <= a < b < d.len() implies precedes(keys, #[trigger] d[a], #[trigger] d[b]) by {
                assert(d[a] == s[a] && d[b] == s[b]);
            }
        }
        assert(distinct(d)) by {
            assert forall|a: int, b: int| 0 <= a < b < d.len() implies #[trigger] d[a] != #[trigger] d[b] by {
                assert(d[a] == s[a] && d[b] == s[b]);
            }
        }
        assert(!d.contains(j)) by {
            if d.contains(j) {
                let q = choose|q: int| 0 <= q < d.len() && d[q] == j;
                assert(s[q] == j);
            }
        }
        lemma_insert_ranked_sorted(keys, d, j);
        let inner = insert_ranked(keys, d, j);
        lemma_insert_ranked_len(keys, d, j);
        assert(r == inner.push(last));
        assert(last != j) by {
            assert(s[s.len() - 1] == last);
        }
        lemma_precedes_total(keys, last, j);
        assert forall|m: int| 0 <= m < inner.len() implies precedes(keys, #[trigger] inner[m], last) by {
            if inner[m] == j {
            } else {
                assert(d.contains(inner[m]));
                let q = choose|q: int| 0 <= q < d.len() && d[q] == inner[m];
                assert(d[q] == s[q]);
                assert(precedes(keys, s[q], s[s.len() - 1]));
            }
        }
        assert forall|a: int, b: int| 0 <= a < b < r.len() implies precedes(keys, #[trigger] r[a], #[trigger] r[b]) by {
            if b == inner.len() {
                assert(r[a] == inner[a]);
                assert(precedes(keys, inner[a], last));
            } else {
                assert(r[a] == inner[a] && r[b] == inner[b]);
            }
        }
        assert forall|a: int, b: int| 0 <= a < b < r.len() implies #[trigger] r[a] != #[trigger] r[b] by {
            if b == inner.len() {
                assert(r[a] == inner[a]);
                assert(precedes(keys, inner[a], last));
                if inner[a] == last {
                    lemma_precedes_irreflexive(keys, last);
                }
            } else {
                assert(r[a] == inner[a] && r[b] == inner[b]);
            }
        }
        assert forall|m: int| 0 <= m < r.len() implies (#[trigger] r[m] == j || s.contains(r[m])) by {
            if m < inner.len() {
                assert(r[m] == inner[m]);
                if inner[m] != j {
                    assert(d.contains(inner[m]));
                    let q = choose|q: int| 0 <= q < d.len() && d[q] == inner[m];
                    assert(s[q] == d[q]);
                }
            } else {
                assert(r[m] == last);
                assert(s[s.len() - 1] == last);
            }
        }
        let p = choose|p: int| 0 <= p < inner.len() && inner[p] == j;
        assert(r[p] == j);
    }
}

/// Ranking `n` items orders every index before each later one: the result
/// is sorted by key, ties in the order of the items, and no index occurs
/// twice.
pub proof fn lemma_ranked_sorted(keys: Seq<KeyView>, n: nat)
    requires
        n <= usize::MAX,
    ensures
        sorted_by(keys, ranked(keys, n)),
        distinct(ranked(keys, n)),
    decreases n,
{
    if n > 0 {
        let prev = ranked(keys, (n - 1) as nat);
        lemma_ranked_sorted(keys, (n - 1) as nat);
        lemma_ranked_bounds(keys, (n - 1) as nat);
        assert(!prev.contains((n - 1) as usize)) by {
            if prev.contains((n - 1) as usize) {
                let q = choose|q: int| 0 <= q < prev.len() && prev[q] == (n - 1) as usize;
                assert(prev[q] < n - 1);
            }
        }
        lemma_insert_ranked_sorted(keys, prev, (n - 1) as usize);
    }
}


/// Ranking `n` items gives each index below `n` exactly once.
pub proof fn lemma_ranked_covers(keys: Seq<KeyView>, n: nat)
    requires
        n <= usize::MAX,
    ensures
        forall|k: int| 0 <= k < n ==> ranked(keys, n).contains(#[trigger] (k as usize)),
{
    let r = ranked(keys, n);
    lemma_ranked_len(keys, n);
    lemma_ranked_bounds(keys, n);
    lemma_ranked_sorted(keys, n);
    let ri = r.map_values(|x: usize| x as int);
    assert(ri.no_duplicates()) by {
        assert forall|a: int, b: int| 0 <= a < ri.len() && 0 <= b < ri.len() && a != b implies ri[a] != ri[b] by {
            if a < b {
                assert(r[a] != r[b]);
            } else {
                assert(r[b] != r[a]);
            }
        }
    }
    ri.unique_seq_to_set();
    vstd::set_lib::lemma_int_range(0, n as int);
    let range = vstd::set_lib::set_int_range(0, n as int);
    assert(ri.to_set().subset_of(range)) by {
        assert forall|x: int| ri.to_set().contains(x) implies range.contains(x) by {
            let m = choose|m: int| 0 <= m < ri.len() && ri[m] == x;
            assert(r[m] < n);
        }
    }
    vstd::seq_lib::seq_to_set_is_finite(ri);
    vstd::set_lib::lemma_subset_equality(ri.to_set(), range);
    assert forall|k: int| 0 <= k < n implies r.contains(#[trigger] (k as usize)) by {
        assert(range.contains(k));
        assert(ri.to_set().contains(k));
        let m = choose|m: int| 0 <= m < ri.len() && ri[m] == k;
        assert(r[m] == k as usize);
    }
}


/// The order of keys is transitive.
pub proof fn lemma_key_lt_transitive(a: KeyView, b: KeyView, c: KeyView)
    requires
        key_lt(a, b),
        key_lt(b, c),
    ensures
        key_lt(a, c),
{
    if bytes_lt(a.text, b.text) && bytes_lt(b.text, c.text) {
        lemma_bytes_lt_transitive(a.text, b.text, c.text);
    }
}

/// No key comes before itself.
pub proof fn lemma_key_lt_irreflexive(a: KeyView)
    ensures
        !key_lt(a, a),
{
    lemma_bytes_lt_irreflexive(a.text);
}


/// Pushing an item whose image is that of the next item of `t` keeps the
/// images of the items pushed so far equal to those of a prefix of `t`.
pub proof fn lemma_map_push_step<A, B, C>(
    prev: Seq<A>,
    a: A,
    f: spec_fn(A) -> C,
    t: Seq<B>,
    g: spec_fn(B) -> C,
    i: int,
)
    requires
        0 <= i < t.len(),
        prev.map_values(f) == t.take(i).map_values(g),
        f(a) == g(t[i]),
    ensures
        prev.push(a).map_values(f) == t.take(i + 1).map_values(g),
{
    let (kv, fv) = (prev.push(a).map_values(f), t.take(i + 1).map_values(g));
    let (pv, ov) = (prev.map_values(f), t.take(i).map_values(g));
    assert(pv.len() == prev.len());
    assert forall|m: int| 0 <= m < kv.len() implies kv[m] == fv[m] by {
        if m < i {
            assert(kv[m] == pv[m]);
            assert(fv[m] == ov[m]);
        }
    }
    assert(kv =~= fv);
}

} // verus!
