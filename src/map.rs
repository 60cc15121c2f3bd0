//! A map whose representation is canonical: its entries are kept strictly
//! sorted by key, so two maps with the same entries are the same value,
//! whatever the order of insertion. Equality, order and hash all follow.
use std::cmp::Ordering;
use vstd::prelude::*;

use crate::order::{Canonical, is_total_order, lemma_lex, lex_cmp, lex_from};

verus! {

#[derive(Clone, Debug, PartialEq, Eq, PartialOrd, Ord, Hash)]
pub struct CanonicalMap<K, V> {
    /// The entries, strictly increasing by key (see `wf`).
    pub entries: Vec<(K, V)>,
}

impl<K: View, V: View> View for CanonicalMap<K, V> {
    type V = Seq<(K::V, V::V)>;

    open spec fn view(&self) -> Seq<(K::V, V::V)> {
        self.entries@.map_values(|e: (K, V)| (e.0@, e.1@))
    }
}

/// The keys of `s` increase strictly.
pub open spec fn keys_sorted<K: Canonical, V>(s: Seq<(K::V, V)>) -> bool {
    forall|i: int, j: int| 0 <= i < j < s.len() ==> K::order(#[trigger] s[i].0, #[trigger] s[j].0) < 0
}

/// The first position at or after `i` whose key is not below `k`.
pub open spec fn first_not_below<K: Canonical, V>(s: Seq<(K::V, V)>, k: K::V, i: int) -> int
    decreases s.len() - i,
{
    if 0 <= i < s.len() && K::order(s[i].0, k) < 0 {
        first_not_below::<K, V>(s, k, i + 1)
    } else {
        i
    }
}

/// The entries after `k` is set to `v`: the entry of `k` changes its value,
/// or a new entry stands where the order puts it.
pub open spec fn insert_entry<K: Canonical, V>(s: Seq<(K::V, V)>, k: K::V, v: V) -> Seq<(K::V, V)> {
    let i = first_not_below::<K, V>(s, k, 0);
    if i < s.len() && s[i].0 == k {
        s.update(i, (k, v))
    } else {
        s.insert(i, (k, v))
    }
}

/// The value of `k` in `s`, if it has one.
pub open spec fn lookup<K: Canonical, V>(s: Seq<(K::V, V)>, k: K::V) -> Option<V> {
    let i = first_not_below::<K, V>(s, k, 0);
    if i < s.len() && s[i].0 == k {
        Some(s[i].1)
    } else {
        None
    }
}

/// The entries after inserting `pairs` one after another into an empty map.
pub open spec fn insert_all<K: Canonical, V>(pairs: Seq<(K::V, V)>) -> Seq<(K::V, V)>
    decreases pairs.len(),
{
    if pairs.len() == 0 {
        Seq::empty()
    } else {
        let last = pairs.last();
        insert_entry::<K, V>(insert_all::<K, V>(pairs.drop_last()), last.0, last.1)
    }
}

/// Entries compare by key, then by value.
pub open spec fn pair_order<K: Canonical, V: Canonical>() -> spec_fn((K::V, V::V), (K::V, V::V)) -> int {
    |p: (K::V, V::V), q: (K::V, V::V)|
        if K::order(p.0, q.0) != 0 {
            K::order(p.0, q.0)
        } else {
            V::order(p.1, q.1)
        }
}

pub proof fn lemma_first_not_below<K: Canonical, V>(s: Seq<(K::V, V)>, k: K::V, i: int)
    requires
        0 <= i <= s.len(),
    ensures
        i <= first_not_below::<K, V>(s, k, i) <= s.len(),
        forall|j: int| i <= j < first_not_below::<K, V>(s, k, i) ==> K::order(#[trigger] s[j].0, k) < 0,
        first_not_below::<K, V>(s, k, i) < s.len() ==> K::order(s[first_not_below::<K, V>(s, k, i)].0, k)
            >= 0,
    decreases s.len() - i,
{
    if i < s.len() && K::order(s[i].0, k) < 0 {
        lemma_first_not_below::<K, V>(s, k, i + 1);
    }
}

/// Setting a key keeps the keys strictly increasing.
pub proof fn lemma_insert_sorted<K: Canonical, V>(s: Seq<(K::V, V)>, k: K::V, v: V)
    requires
        keys_sorted::<K, V>(s),
    ensures
        keys_sorted::<K, V>(insert_entry::<K, V>(s, k, v)),
{
    let i = first_not_below::<K, V>(s, k, 0);
    lemma_first_not_below::<K, V>(s, k, 0);
    let r = insert_entry::<K, V>(s, k, v);
    if i < s.len() && s[i].0 == k {
        assert forall|a: int, b: int| 0 <= a < b < r.len() implies K::order(
            #[trigger] r[a].0,
            #[trigger] r[b].0,
        ) < 0 by {
            assert(s[a].0 == r[a].0 && s[b].0 == r[b].0);
        }
    } else {
        assert forall|a: int, b: int| 0 <= a < b < r.len() implies K::order(
            #[trigger] r[a].0,
            #[trigger] r[b].0,
        ) < 0 by {
            if i < s.len() {
                K::lemma_order(s[i].0, k, s[i].0);
            }
            if b < i {
                assert(r[a] == s[a] && r[b] == s[b]);
            } else if b == i {
                assert(r[a] == s[a]);
            } else if a == i {
                // k < s[i] <= s[b - 1]
                K::lemma_order(k, s[i].0, s[b - 1].0);
            } else if a < i {
                K::lemma_order(s[a].0, k, s[b - 1].0);
                K::lemma_order(k, s[i].0, s[b - 1].0);
                assert(r[a] == s[a]);
            } else {
                assert(r[a] == s[a - 1] && r[b] == s[b - 1]);
            }
        }
    }
}

/// Keys that are equal belong to equal pairs.
pub open spec fn keys_determine<K: Canonical, V>(pairs: Set<(K::V, V)>) -> bool {
    forall|x: (K::V, V), y: (K::V, V)| pairs.contains(x) && pairs.contains(y) && x.0 == y.0 ==> x == y
}

proof fn lemma_insert_contains<A>(s: Seq<A>, i: int, x: A)
    requires
        0 <= i <= s.len(),
    ensures
        forall|y: A| #[trigger] s.insert(i, x).contains(y) <==> (y == x || s.contains(y)),
{
    let r = s.insert(i, x);
    assert forall|y: A| #[trigger] r.contains(y) <==> (y == x || s.contains(y)) by {
        if r.contains(y) {
            let j = choose|j: int| 0 <= j < r.len() && r[j] == y;
            if j < i {
                assert(s[j] == y);
            } else if j > i {
                assert(s[j - 1] == y);
            }
        }
        if y == x {
            assert(r[i] == y);
        } else if s.contains(y) {
            let j = choose|j: int| 0 <= j < s.len() && s[j] == y;
            if j < i {
                assert(r[j] == y);
            } else {
                assert(r[j + 1] == y);
            }
        }
    }
}

/// Inserting pairs whose keys are distinct gives sorted entries that are
/// exactly those pairs.
proof fn lemma_insert_all_contents<K: Canonical, V>(p: Seq<(K::V, V)>)
    requires
        forall|i: int, j: int| 0 <= i < p.len() && 0 <= j < p.len() && i != j ==> p[i].0 != p[j].0,
    ensures
        keys_sorted::<K, V>(insert_all::<K, V>(p)),
        forall|x: (K::V, V)| #[trigger] insert_all::<K, V>(p).contains(x) <==> p.contains(x),
    decreases p.len(),
{
    if p.len() > 0 {
        let q = p.drop_last();
        let (k, v) = p.last();
        lemma_insert_all_contents::<K, V>(q);
        let s = insert_all::<K, V>(q);
        lemma_insert_sorted::<K, V>(s, k, v);
        let i = first_not_below::<K, V>(s, k, 0);
        lemma_first_not_below::<K, V>(s, k, 0);
        if i < s.len() && s[i].0 == k {
            assert(s.contains(s[i]));
            let j = choose|j: int| 0 <= j < q.len() && q[j] == s[i];
            assert(p[j].0 == p[p.len() - 1].0);
        }
        lemma_insert_contains(s, i, (k, v));
        assert forall|x: (K::V, V)| #[trigger] p.contains(x) <==> (x == (k, v) || q.contains(x)) by {
            if p.contains(x) {
                let j = choose|j: int| 0 <= j < p.len() && p[j] == x;
                if j < q.len() {
                    assert(q[j] == x);
                }
            }
            if q.contains(x) {
                let j = choose|j: int| 0 <= j < q.len() && q[j] == x;
                assert(p[j] == x);
            }
            if x == (k, v) {
                assert(p[p.len() - 1] == x);
            }
        }
    }
}

/// Two sorted entry sequences that hold the same pairs are the same.
proof fn lemma_sorted_unique<K: Canonical, V>(a: Seq<(K::V, V)>, b: Seq<(K::V, V)>)
    requires
        keys_sorted::<K, V>(a),
        keys_sorted::<K, V>(b),
        forall|x: (K::V, V)| a.contains(x) <==> b.contains(x),
    ensures
        a == b,
    decreases a.len(),
{
    if a.len() == 0 {
        if b.len() > 0 {
            assert(b.contains(b[0]));
        }
        assert(a =~= b);
    } else {
        assert(a.contains(a[0]));
        let j = choose|j: int| 0 <= j < b.len() && b[j] == a[0];
        assert(b.contains(b[0]));
        let k = choose|k: int| 0 <= k < a.len() && a[k] == b[0];
        if j > 0 {
            if k > 0 {
                K::lemma_order(a[0].0, b[0].0, a[0].0);
            } else {
                K::lemma_order(b[0].0, b[0].0, b[0].0);
            }
        }
        assert(a[0] == b[0]);
        let a1 = a.drop_first();
        let b1 = b.drop_first();
        assert forall|x: (K::V, V)| a1.contains(x) <==> b1.contains(x) by {
            if a1.contains(x) {
                let m = choose|m: int| 0 <= m < a1.len() && a1[m] == x;
                assert(a.contains(x));
                let n = choose|n: int| 0 <= n < b.len() && b[n] == x;
                K::lemma_order(a[0].0, a[m + 1].0, a[0].0);
                if n == 0 {
                    assert(false);
                }
                assert(b1[n - 1] == x);
            }
            if b1.contains(x) {
                let m = choose|m: int| 0 <= m < b1.len() && b1[m] == x;
                assert(b.contains(x));
                let n = choose|n: int| 0 <= n < a.len() && a[n] == x;
                K::lemma_order(b[0].0, b[m + 1].0, b[0].0);
                if n == 0 {
                    assert(false);
                }
                assert(a1[n - 1] == x);
            }
        }
        lemma_sorted_unique::<K, V>(a1, b1);
        assert(a =~= seq![a[0]] + a1);
        assert(b =~= seq![b[0]] + b1);
    }
}

/// Inserting the pairs of a set, one key to one value, in any two orders
/// gives the same entries.
pub proof fn lemma_insert_order_irrelevant<K: Canonical, V>(
    pairs: Set<(K::V, V)>,
    p: Seq<(K::V, V)>,
    q: Seq<(K::V, V)>,
)
    requires
        keys_determine::<K, V>(pairs),
        p.no_duplicates(),
        q.no_duplicates(),
        p.to_set() == pairs,
        q.to_set() == pairs,
    ensures
        insert_all::<K, V>(p) == insert_all::<K, V>(q),
{
    assert forall|i: int, j: int| 0 <= i < p.len() && 0 <= j < p.len() && i != j implies p[i].0 != p[j].0 by {
        assert(p.to_set().contains(p[i]) && p.to_set().contains(p[j]));
    }
    assert forall|i: int, j: int| 0 <= i < q.len() && 0 <= j < q.len() && i != j implies q[i].0 != q[j].0 by {
        assert(q.to_set().contains(q[i]) && q.to_set().contains(q[j]));
    }
    lemma_insert_all_contents::<K, V>(p);
    lemma_insert_all_contents::<K, V>(q);
    assert forall|x: (K::V, V)| insert_all::<K, V>(p).contains(x) <==> insert_all::<K, V>(q).contains(x) by {
        assert(p.to_set().contains(x) == p.contains(x));
        assert(q.to_set().contains(x) == q.contains(x));
    }
    lemma_sorted_unique::<K, V>(insert_all::<K, V>(p), insert_all::<K, V>(q));
}

proof fn lemma_first_not_below_unique<K: Canonical, V>(s: Seq<(K::V, V)>, k: K::V, i: int, j: int)
    requires
        0 <= i <= j <= s.len(),
        forall|m: int| i <= m < j ==> K::order(#[trigger] s[m].0, k) < 0,
        j < s.len() ==> K::order(s[j].0, k) >= 0,
    ensures
        first_not_below::<K, V>(s, k, i) == j,
    decreases j - i,
{
    if i < j {
        lemma_first_not_below_unique::<K, V>(s, k, i + 1, j);
    }
}

/// In sorted entries, `k` has the value `w` exactly where the pair `(k, w)`
/// is an entry.
proof fn lemma_lookup_contains<K: Canonical, V>(s: Seq<(K::V, V)>, k: K::V, w: V)
    requires
        keys_sorted::<K, V>(s),
    ensures
        (lookup::<K, V>(s, k) == Some(w)) == s.contains((k, w)),
{
    lemma_first_not_below::<K, V>(s, k, 0);
    if s.contains((k, w)) {
        let j = choose|j: int| 0 <= j < s.len() && s[j] == (k, w);
        K::lemma_order(k, k, k);
        assert forall|m: int| 0 <= m < j implies K::order(#[trigger] s[m].0, k) < 0 by {
            assert(K::order(s[m].0, s[j].0) < 0);
        }
        lemma_first_not_below_unique::<K, V>(s, k, 0, j);
    }
    if lookup::<K, V>(s, k) == Some(w) {
        let i = first_not_below::<K, V>(s, k, 0);
        assert(s[i] == (k, w));
    }
}

/// The entries after setting `k` to `v` are `(k, v)` and the entries of
/// other keys.
proof fn lemma_insert_entry_contents<K: Canonical, V>(s: Seq<(K::V, V)>, k: K::V, v: V)
    requires
        keys_sorted::<K, V>(s),
    ensures
        forall|x: (K::V, V)| #[trigger] insert_entry::<K, V>(s, k, v).contains(x) <==> (x == (k, v) || (
        s.contains(x) && x.0 != k)),
{
    let i = first_not_below::<K, V>(s, k, 0);
    lemma_first_not_below::<K, V>(s, k, 0);
    let r = insert_entry::<K, V>(s, k, v);
    if i < s.len() && s[i].0 == k {
        assert forall|x: (K::V, V)| #[trigger] r.contains(x) <==> (x == (k, v) || (s.contains(x) && x.0
            != k)) by {
            if r.contains(x) {
                let j = choose|j: int| 0 <= j < r.len() && r[j] == x;
                if j != i {
                    K::lemma_order(s[j].0, s[i].0, s[j].0);
                    assert(s[j] == x);
                }
            }
            if x == (k, v) {
                assert(r[i] == x);
            } else if s.contains(x) && x.0 != k {
                let j = choose|j: int| 0 <= j < s.len() && s[j] == x;
                assert(r[j] == x);
            }
        }
    } else {
        lemma_insert_contains(s, i, (k, v));
        assert forall|x: (K::V, V)| s.contains(x) implies x.0 != k by {
            if x.0 == k {
                lemma_lookup_contains::<K, V>(s, k, x.1);
            }
        }
    }
}

/// Setting a key twice keeps the last value: after `k` is set to `v`, `k`
/// has the value `v` and every other key keeps its value.
pub proof fn lemma_lookup_insert<K: Canonical, V>(s: Seq<(K::V, V)>, k: K::V, v: V, other: K::V)
    requires
        keys_sorted::<K, V>(s),
    ensures
        lookup::<K, V>(insert_entry::<K, V>(s, k, v), k) == Some(v),
        other != k ==> lookup::<K, V>(insert_entry::<K, V>(s, k, v), other) == lookup::<K, V>(s, other),
{
    let r = insert_entry::<K, V>(s, k, v);
    lemma_insert_sorted::<K, V>(s, k, v);
    lemma_insert_entry_contents::<K, V>(s, k, v);
    lemma_lookup_contains::<K, V>(r, k, v);
    if other != k {
        if let Some(w) = lookup::<K, V>(s, other) {
            lemma_lookup_contains::<K, V>(s, other, w);
            lemma_lookup_contains::<K, V>(r, other, w);
        }
        if let Some(w) = lookup::<K, V>(r, other) {
            lemma_lookup_contains::<K, V>(s, other, w);
            lemma_lookup_contains::<K, V>(r, other, w);
        }
    }
}

impl<K: Canonical, V: View> CanonicalMap<K, V> {
    /// The entries are strictly sorted by key.
    pub open spec fn wf(&self) -> bool {
        keys_sorted::<K, V::V>(self@)
    }

    pub fn new() -> (r: CanonicalMap<K, V>)
        ensures
            r@ == Seq::<(K::V, V::V)>::empty(),
            r.wf(),
    {
        let r = CanonicalMap { entries: Vec::new() };
        assert(r@ =~= Seq::<(K::V, V::V)>::empty());
        r
    }

    pub fn len(&self) -> (r: usize)
        ensures
            r == self@.len(),
    {
        self.entries.len()
    }

    /// The position of the first entry whose key is not below `k`.
    fn position(&self, k: &K) -> (r: usize)
        ensures
            r == first_not_below::<K, V::V>(self@, k@, 0),
    {
        let mut i: usize = 0;
        while i < self.entries.len() && matches!(self.entries[i].0.compare(k), Ordering::Less)
            invariant
                i <= self@.len(),
                first_not_below::<K, V::V>(self@, k@, 0) == first_not_below::<K, V::V>(
                    self@,
                    k@,
                    i as int,
                ),
            decreases self@.len() - i,
        {
            i = i + 1;
        }
        i
    }

    /// Sets the value of `k` to `v`; an earlier value of `k` is replaced.
    pub fn insert(&mut self, k: K, v: V)
        requires
            old(self).wf(),
        ensures
            final(self).wf(),
            final(self)@ == insert_entry::<K, V::V>(old(self)@, k@, v@),
    {
        let i = self.position(&k);
        proof {
            lemma_first_not_below::<K, V::V>(self@, k@, 0);
            lemma_insert_sorted::<K, V::V>(self@, k@, v@);
        }
        let ghost before = self@;
        let ghost kv = k@;
        let ghost vv = v@;
        if i < self.entries.len() && matches!(self.entries[i].0.compare(&k), Ordering::Equal) {
            proof {
                K::lemma_order(self@[i as int].0, k@, k@);
            }
            self.entries.set(i, (k, v));
            assert(self@ =~= before.update(i as int, (kv, vv)));
        } else {
            proof {
                if i < self.entries.len() {
                    K::lemma_order(self@[i as int].0, k@, k@);
                }
            }
            self.entries.insert(i, (k, v));
            assert(self@ =~= before.insert(i as int, (kv, vv)));
        }
    }

    /// The value of `k`, if it has one.
    pub fn get(&self, k: &K) -> (r: Option<&V>)
        ensures
            r is Some <==> lookup::<K, V::V>(self@, k@) is Some,
            r matches Some(v) ==> v@ == lookup::<K, V::V>(self@, k@)->0,
    {
        let i = self.position(k);
        proof {
            lemma_first_not_below::<K, V::V>(self@, k@, 0);
        }
        if i < self.entries.len() && matches!(self.entries[i].0.compare(k), Ordering::Equal) {
            proof {
                K::lemma_order(self@[i as int].0, k@, k@);
            }
            Some(&self.entries[i].1)
        } else {
            proof {
                if i < self.entries.len() {
                    K::lemma_order(self@[i as int].0, k@, k@);
                }
            }
            None
        }
    }
}

pub proof fn lemma_pair_order<K: Canonical, V: Canonical>()
    ensures
        is_total_order(pair_order::<K, V>()),
{
    let f = pair_order::<K, V>();
    assert forall|p: (K::V, V::V), q: (K::V, V::V)| -1 <= #[trigger] f(p, q) <= 1 by {
        K::lemma_order(p.0, q.0, p.0);
        V::lemma_order(p.1, q.1, p.1);
    }
    assert forall|p: (K::V, V::V), q: (K::V, V::V)| (#[trigger] f(p, q) == 0) == (p == q) by {
        K::lemma_order(p.0, q.0, p.0);
        V::lemma_order(p.1, q.1, p.1);
    }
    assert forall|p: (K::V, V::V), q: (K::V, V::V)| #[trigger] f(p, q) == -f(q, p) by {
        K::lemma_order(p.0, q.0, p.0);
        V::lemma_order(p.1, q.1, p.1);
    }
    assert forall|p: (K::V, V::V), q: (K::V, V::V), t: (K::V, V::V)|
        #[trigger] f(p, q) < 0 && #[trigger] f(q, t) < 0 implies f(p, t) < 0 by {
        K::lemma_order(p.0, q.0, t.0);
        K::lemma_order(p.0, t.0, q.0);
        K::lemma_order(q.0, t.0, p.0);
        V::lemma_order(p.1, q.1, t.1);
    }
}

/// Maps compare by their sorted entries, lexicographically.
impl<K: Canonical, V: Canonical> Canonical for CanonicalMap<K, V> {
    open spec fn order(a: Seq<(K::V, V::V)>, b: Seq<(K::V, V::V)>) -> int {
        lex_cmp(a, b, pair_order::<K, V>())
    }

    proof fn lemma_order(a: Seq<(K::V, V::V)>, b: Seq<(K::V, V::V)>, c: Seq<(K::V, V::V)>) {
        lemma_pair_order::<K, V>();
        lemma_lex(pair_order::<K, V>());
        let f = |x: Seq<(K::V, V::V)>, y: Seq<(K::V, V::V)>| lex_cmp(x, y, pair_order::<K, V>());
        assert(f(a, b) == lex_cmp(a, b, pair_order::<K, V>()));
        assert(f(b, a) == lex_cmp(b, a, pair_order::<K, V>()));
        assert(f(b, c) == lex_cmp(b, c, pair_order::<K, V>()));
        assert(f(a, c) == lex_cmp(a, c, pair_order::<K, V>()));
    }

    fn compare(&self, other: &Self) -> (r: Ordering) {
        let ghost f = pair_order::<K, V>();
        let n = self.entries.len();
        let m = other.entries.len();
        let mut i: usize = 0;
        while i < n && i < m
            invariant
                n == self@.len(),
                m == other@.len(),
                f == pair_order::<K, V>(),
                i <= n && i <= m,
                lex_from(self@, other@, 0, f) == lex_from(self@, other@, i as int, f),
            decreases n - i,
        {
            let c = self.entries[i].0.compare(&other.entries[i].0);
            match c {
                Ordering::Equal => {
                    let d = self.entries[i].1.compare(&other.entries[i].1);
                    match d {
                        Ordering::Equal => {},
                        _ => {
                            return d;
                        },
                    }
                },
                _ => {
                    return c;
                },
            }
            i = i + 1;
        }
        if n == m {
            Ordering::Equal
        } else if n < m {
            Ordering::Less
        } else {
            Ordering::Greater
        }
    }
}

} // verus!
