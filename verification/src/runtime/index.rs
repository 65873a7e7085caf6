//! Indexes over encoded column values: a primary-key index from key bytes
//! to a row position, a secondary index from a column's bytes to the rows
//! holding them, and a composite index over several columns. Keys are
//! kept in byte order, so ordered listings and range queries go by it.
use vstd::prelude::*;
use crate::runtime::value::KeyOrder;

verus! {

/// Byte strings in lexicographic order, a proper prefix first.
pub open spec fn bytes_lt(a: Seq<u8>, b: Seq<u8>) -> bool
    decreases a.len(),
{
    if a.len() == 0 {
        b.len() > 0
    } else if b.len() == 0 {
        false
    } else if a[0] < b[0] {
        true
    } else if a[0] == b[0] {
        bytes_lt(a.drop_first(), b.drop_first())
    } else {
        false
    }
}

pub open spec fn bytes_le(a: Seq<u8>, b: Seq<u8>) -> bool {
    bytes_lt(a, b) || a == b
}

pub proof fn lemma_bytes_lt_irreflexive(a: Seq<u8>)
    ensures
        !bytes_lt(a, a),
    decreases a.len(),
{
    if a.len() > 0 {
        lemma_bytes_lt_irreflexive(a.drop_first());
    }
}

pub proof fn lemma_bytes_lt_transitive(a: Seq<u8>, b: Seq<u8>, c: Seq<u8>)
    requires
        bytes_lt(a, b),
        bytes_lt(b, c),
    ensures
        bytes_lt(a, c),
    decreases a.len(),
{
    if a.len() > 0 && b.len() > 0 && c.len() > 0 {
        if a[0] == b[0] && b[0] == c[0] {
            lemma_bytes_lt_transitive(a.drop_first(), b.drop_first(), c.drop_first());
        }
    }
}

pub proof fn lemma_bytes_lt_total(a: Seq<u8>, b: Seq<u8>)
    ensures
        bytes_lt(a, b) || bytes_lt(b, a) || a == b,
    decreases a.len(),
{
    if a.len() > 0 && b.len() > 0 {
        if a[0] == b[0] {
            lemma_bytes_lt_total(a.drop_first(), b.drop_first());
            if a.drop_first() == b.drop_first() {
                assert(a =~= seq![a[0]] + a.drop_first());
                assert(b =~= seq![b[0]] + b.drop_first());
            }
        }
    } else if a.len() == 0 && b.len() == 0 {
        assert(a =~= b);
    }
}

/// The byte order is irreflexive, transitive and total.
pub proof fn lemma_bytes_order(a: Seq<u8>, b: Seq<u8>, c: Seq<u8>)
    ensures
        !bytes_lt(a, a),
        bytes_lt(a, b) && bytes_lt(b, c) ==> bytes_lt(a, c),
        bytes_lt(a, b) || bytes_lt(b, a) || a == b,
        bytes_lt(a, b) ==> !bytes_lt(b, a),
{
    lemma_bytes_lt_irreflexive(a);
    if bytes_lt(a, b) && bytes_lt(b, c) {
        lemma_bytes_lt_transitive(a, b, c);
    }
    lemma_bytes_lt_total(a, b);
    if bytes_lt(a, b) && bytes_lt(b, a) {
        lemma_bytes_lt_transitive(a, b, a);
    }
}

proof fn lemma_bytes_lt_prefix(a: Seq<u8>, b: Seq<u8>, i: int)
    requires
        0 <= i <= a.len(),
        i <= b.len(),
        a.subrange(0, i) == b.subrange(0, i),
    ensures
        bytes_lt(a, b) == bytes_lt(a.subrange(i, a.len() as int), b.subrange(i, b.len() as int)),
    decreases i,
{
    if i > 0 {
        assert(a[0] == a.subrange(0, i)[0]);
        assert(b[0] == b.subrange(0, i)[0]);
        assert(a.drop_first().subrange(0, i - 1) =~= a.subrange(0, i).drop_first());
        assert(b.drop_first().subrange(0, i - 1) =~= b.subrange(0, i).drop_first());
        lemma_bytes_lt_prefix(a.drop_first(), b.drop_first(), i - 1);
        assert(a.drop_first().subrange(i - 1, a.len() - 1) =~= a.subrange(i, a.len() as int));
        assert(b.drop_first().subrange(i - 1, b.len() - 1) =~= b.subrange(i, b.len() as int));
    } else {
        assert(a.subrange(0, a.len() as int) =~= a);
        assert(b.subrange(0, b.len() as int) =~= b);
    }
}

/// Compare two byte strings in byte order.
pub fn compare_bytes(a: &[u8], b: &[u8]) -> (o: KeyOrder)
    ensures
        o == (if bytes_lt(a@, b@) {
            KeyOrder::Less
        } else if a@ == b@ {
            KeyOrder::Equal
        } else {
            KeyOrder::Greater
        }),
{
    let la = a.len();
    let lb = b.len();
    let mut i: usize = 0;
    while i < la && i < lb
        invariant
            la == a@.len(),
            lb == b@.len(),
            i <= la,
            i <= lb,
            a@.subrange(0, i as int) == b@.subrange(0, i as int),
        decreases la - i,
    {
        let ca = a[i];
        let cb = b[i];
        if ca != cb {
            proof {
                lemma_bytes_lt_prefix(a@, b@, i as int);
                lemma_bytes_lt_prefix(b@, a@, i as int);
                lemma_bytes_order(a@, b@, a@);
            }
            if ca < cb {
                return KeyOrder::Less;
            } else {
                return KeyOrder::Greater;
            }
        }
        proof {
            assert(a@.subrange(0, i + 1) =~= a@.subrange(0, i as int).push(ca));
            assert(b@.subrange(0, i + 1) =~= b@.subrange(0, i as int).push(cb));
        }
        i = i + 1;
    }
    proof {
        lemma_bytes_lt_prefix(a@, b@, i as int);
        lemma_bytes_lt_prefix(b@, a@, i as int);
        lemma_bytes_order(a@, b@, a@);
        if la == lb {
            assert(a@ =~= a@.subrange(0, i as int));
            assert(b@ =~= b@.subrange(0, i as int));
        }
    }
    if la < lb {
        KeyOrder::Less
    } else if la == lb {
        KeyOrder::Equal
    } else {
        KeyOrder::Greater
    }
}

/// Keys in strictly increasing byte order.
pub open spec fn keys_sorted<V>(s: Seq<(Seq<u8>, V)>) -> bool {
    forall|i: int, j: int| 0 <= i < j < s.len() ==> bytes_lt((#[trigger] s[i]).0, (#[trigger] s[j]).0)
}

/// No key occurs twice.
pub open spec fn keys_distinct<K, V>(s: Seq<(K, V)>) -> bool {
    forall|i: int, j: int| 0 <= i < s.len() && 0 <= j < s.len() && i != j ==> (#[trigger] s[i]).0 != (#[trigger] s[j]).0
}

/// The value stored under `k`, if any.
pub open spec fn lookup<K, V>(s: Seq<(K, V)>, k: K) -> Option<V> {
    if exists|i: int| 0 <= i < s.len() && (#[trigger] s[i]).0 == k {
        Some(s[choose|i: int| 0 <= i < s.len() && (#[trigger] s[i]).0 == k].1)
    } else {
        None
    }
}

/// Keys in increasing order are distinct.
pub proof fn lemma_sorted_distinct<V>(s: Seq<(Seq<u8>, V)>)
    requires
        keys_sorted(s),
    ensures
        keys_distinct(s),
{
    assert forall|i: int, j: int| 0 <= i < s.len() && 0 <= j < s.len() && i != j implies (#[trigger] s[i]).0 != (
    #[trigger] s[j]).0 by {
        lemma_bytes_order(s[i].0, s[i].0, s[i].0);
        if i < j {
            assert(bytes_lt(s[i].0, s[j].0));
        } else {
            assert(bytes_lt(s[j].0, s[i].0));
        }
    }
}

/// With distinct keys, the entry with key `s[i].0` is the one at `i`.
pub proof fn lemma_lookup_at<K, V>(s: Seq<(K, V)>, i: int)
    requires
        keys_distinct(s),
        0 <= i < s.len(),
    ensures
        lookup(s, s[i].0) == Some(s[i].1),
{
    let j = choose|j: int| 0 <= j < s.len() && (#[trigger] s[j]).0 == s[i].0;
}

/// Stored keys in strictly increasing byte order.
pub open spec fn raw_sorted<V>(s: Seq<(Vec<u8>, V)>) -> bool {
    forall|i: int, j: int| 0 <= i < j < s.len() ==> bytes_lt((#[trigger] s[i]).0@, (#[trigger] s[j]).0@)
}

/// Where `k` is, or would go, among entries sorted by key: every key
/// before the position is smaller, and the key at it, if any, is not.
fn locate<V>(s: &Vec<(Vec<u8>, V)>, k: &[u8]) -> (r: (bool, usize))
    requires
        raw_sorted(s@),
    ensures
        r.1 <= s@.len(),
        forall|i: int| 0 <= i < r.1 ==> bytes_lt((#[trigger] s@[i]).0@, k@),
        forall|i: int| r.1 <= i < s@.len() ==> bytes_le(k@, (#[trigger] s@[i]).0@),
        r.1 < s@.len() && r.0 ==> s@[r.1 as int].0@ == k@,
        !r.0 ==> forall|i: int| 0 <= i < s@.len() ==> (#[trigger] s@[i]).0@ != k@,
        !r.0 ==> forall|i: int| r.1 <= i < s@.len() ==> bytes_lt(k@, (#[trigger] s@[i]).0@),
        r.0 ==> r.1 < s@.len(),
{
    let mut p: usize = 0;
    while p < s.len()
        invariant
            p <= s@.len(),
            forall|i: int| 0 <= i < p ==> bytes_lt((#[trigger] s@[i]).0@, k@),
        ensures
            p <= s@.len(),
            forall|i: int| 0 <= i < p ==> bytes_lt((#[trigger] s@[i]).0@, k@),
            p < s@.len() ==> !bytes_lt(s@[p as int].0@, k@),
        decreases s.len() - p,
    {
        match compare_bytes(s[p].0.as_slice(), k) {
            KeyOrder::Less => {},
            _ => {
                break;
            },
        }
        p = p + 1;
    }
    let found = if p < s.len() {
        match compare_bytes(s[p].0.as_slice(), k) {
            KeyOrder::Equal => true,
            _ => false,
        }
    } else {
        false
    };
    proof {
        lemma_bytes_order(k@, k@, k@);
        if p < s@.len() {
            let kp = s@[p as int].0@;
            lemma_bytes_order(kp, k@, kp);
            assert forall|i: int| p <= i < s@.len() implies bytes_le(k@, (#[trigger] s@[i]).0@) by {
                if i > p {
                    assert(bytes_lt(kp, s@[i].0@));
                    lemma_bytes_order(k@, kp, s@[i].0@);
                }
            }
            assert forall|i: int| 0 <= i < s@.len() && !found implies (#[trigger] s@[i]).0@ != k@ by {
                if i >= p {
                    assert(bytes_le(k@, s@[i].0@));
                    if i > p {
                        assert(bytes_lt(kp, s@[i].0@));
                        lemma_bytes_order(k@, kp, s@[i].0@);
                    }
                }
            }
            assert forall|i: int| p <= i < s@.len() && !found implies bytes_lt(k@, (#[trigger] s@[i]).0@) by {
                if i > p {
                    assert(bytes_lt(kp, s@[i].0@));
                    lemma_bytes_order(k@, kp, s@[i].0@);
                }
            }
        }
    }
    (found, p)
}

/// Maps encoded primary keys to row positions.
pub struct PrimaryKeyIndex {
    map: Vec<(Vec<u8>, usize)>,
}

impl View for PrimaryKeyIndex {
    type V = Seq<(Seq<u8>, usize)>;

    closed spec fn view(&self) -> Seq<(Seq<u8>, usize)> {
        self.map@.map_values(|e: (Vec<u8>, usize)| (e.0@, e.1))
    }
}

impl PrimaryKeyIndex {
    /// The entries are in strictly increasing key order.
    pub open spec fn wf(&self) -> bool {
        keys_sorted(self@)
    }

    proof fn lemma_raw_sorted(&self)
        requires
            self.wf(),
        ensures
            raw_sorted(self.map@),
            keys_distinct(self@),
    {
        lemma_sorted_distinct(self@);
        assert forall|i: int, j: int| 0 <= i < j < self.map@.len() implies bytes_lt(
            (#[trigger] self.map@[i]).0@,
            (#[trigger] self.map@[j]).0@,
        ) by {
            assert(self@[i].0 == self.map@[i].0@ && self@[j].0 == self.map@[j].0@);
        }
    }

    /// An empty index.
    pub fn new() -> (r: Self)
        ensures
            r.wf(),
            r@ == Seq::<(Seq<u8>, usize)>::empty(),
    {
        let r = PrimaryKeyIndex { map: Vec::new() };
        assert(r@ =~= Seq::<(Seq<u8>, usize)>::empty());
        r
    }

    /// Point `key_bytes` at `row_index`, replacing what it pointed at.
    pub fn insert(&mut self, key_bytes: Vec<u8>, row_index: usize)
        requires
            old(self).wf(),
        ensures
            final(self).wf(),
            lookup(final(self)@, key_bytes@) == Some(row_index),
            forall|k: Seq<u8>| k != key_bytes@ ==> lookup(final(self)@, k) == lookup(old(self)@, k),
            final(self)@.len() == old(self)@.len() + if lookup(old(self)@, key_bytes@) is Some { 0int } else { 1 },
    {
        let ghost s0 = self@;
        let ghost k = key_bytes@;
        proof {
            self.lemma_raw_sorted();
        }
        let (found, p) = locate(&self.map, key_bytes.as_slice());
        if found {
            self.map.set(p, (key_bytes, row_index));
            proof {
                assert(self@ =~= s0.update(p as int, (k, row_index)));
                lemma_lookup_at(s0, p as int);
                lemma_lookup_at(self@, p as int);
                assert forall|k2: Seq<u8>| k2 != k implies lookup(self@, k2) == lookup(s0, k2) by {
                    if exists|i: int| 0 <= i < s0.len() && (#[trigger] s0[i]).0 == k2 {
                        let i = choose|i: int| 0 <= i < s0.len() && (#[trigger] s0[i]).0 == k2;
                        lemma_lookup_at(s0, i);
                        lemma_lookup_at(self@, i);
                    }
                }
            }
        } else {
            self.map.insert(p, (key_bytes, row_index));
            proof {
                let s1 = self@;
                assert(s1 =~= s0.insert(p as int, (k, row_index)));
                assert forall|i: int, j: int| 0 <= i < j < s1.len() implies bytes_lt((#[trigger] s1[i]).0, (#[trigger] s1[j]).0) by {
                    if j < p {
                    } else if j == p {
                        assert(s1[i] == s0[i]);
                    } else if i < p {
                        assert(s1[i] == s0[i] && s1[j] == s0[j - 1]);
                        lemma_bytes_order(s0[i].0, k, s0[j - 1].0);
                    } else if i == p {
                        assert(s1[j] == s0[j - 1]);
                    } else {
                        assert(s1[i] == s0[i - 1] && s1[j] == s0[j - 1]);
                    }
                }
                lemma_lookup_at(s1, p as int);
                assert forall|k2: Seq<u8>| k2 != k implies lookup(s1, k2) == lookup(s0, k2) by {
                    if exists|i: int| 0 <= i < s0.len() && (#[trigger] s0[i]).0 == k2 {
                        let i = choose|i: int| 0 <= i < s0.len() && (#[trigger] s0[i]).0 == k2;
                        lemma_lookup_at(s0, i);
                        let i1 = if i < p { i } else { i + 1 };
                        assert(s1[i1] == s0[i]);
                        lemma_lookup_at(s1, i1);
                    } else {
                        assert forall|i: int| 0 <= i < s1.len() implies (#[trigger] s1[i]).0 != k2 by {
                            if i < p {
                                assert(s1[i] == s0[i]);
                            } else if i > p {
                                assert(s1[i] == s0[i - 1]);
                            }
                        }
                    }
                }
            }
        }
    }

    /// Drop the entry for `key_bytes`, returning the position it held.
    pub fn remove(&mut self, key_bytes: &[u8]) -> (r: Option<usize>)
        requires
            old(self).wf(),
        ensures
            final(self).wf(),
            r == lookup(old(self)@, key_bytes@),
            lookup(final(self)@, key_bytes@) is None,
            forall|k: Seq<u8>| k != key_bytes@ ==> lookup(final(self)@, k) == lookup(old(self)@, k),
            final(self)@.len() == old(self)@.len() - if r is Some { 1int } else { 0 },
    {
        let ghost s0 = self@;
        proof {
            self.lemma_raw_sorted();
        }
        let (found, p) = locate(&self.map, key_bytes);
        if !found {
            return None;
        }
        let (_, v) = self.map.remove(p);
        proof {
            let s1 = self@;
            let k = key_bytes@;
            assert(s1 =~= s0.remove(p as int));
            lemma_lookup_at(s0, p as int);
            assert forall|i: int| 0 <= i < s1.len() implies (#[trigger] s1[i]).0 != k by {
                let oi = if i < p { i } else { i + 1 };
                assert(s1[i] == s0[oi]);
                lemma_bytes_order(k, k, k);
                if oi > p {
                    assert(bytes_lt(s0[p as int].0, s0[oi].0));
                }
            }
            assert forall|k2: Seq<u8>| k2 != k implies lookup(s1, k2) == lookup(s0, k2) by {
                if exists|i: int| 0 <= i < s0.len() && (#[trigger] s0[i]).0 == k2 {
                    let i = choose|i: int| 0 <= i < s0.len() && (#[trigger] s0[i]).0 == k2;
                    lemma_lookup_at(s0, i);
                    assert(i != p);
                    let i1 = if i < p { i } else { i - 1 };
                    assert(s1[i1] == s0[i]);
                    lemma_lookup_at(s1, i1);
                } else {
                    assert forall|i: int| 0 <= i < s1.len() implies (#[trigger] s1[i]).0 != k2 by {
                        let oi = if i < p { i } else { i + 1 };
                        assert(s1[i] == s0[oi]);
                    }
                }
            }
        }
        Some(v)
    }

    /// The position stored for `key_bytes`.
    pub fn get(&self, key_bytes: &[u8]) -> (r: Option<usize>)
        requires
            self.wf(),
        ensures
            r == lookup(self@, key_bytes@),
    {
        proof {
            self.lemma_raw_sorted();
        }
        let (found, p) = locate(&self.map, key_bytes);
        if found {
            proof {
                lemma_lookup_at(self@, p as int);
            }
            Some(self.map[p].1)
        } else {
            None
        }
    }

    /// Point an existing key at a new position; false, and no change, when
    /// the key is absent.
    pub fn update(&mut self, key_bytes: &[u8], new_row_index: usize) -> (r: bool)
        requires
            old(self).wf(),
        ensures
            final(self).wf(),
            r == lookup(old(self)@, key_bytes@) is Some,
            r ==> lookup(final(self)@, key_bytes@) == Some(new_row_index),
            !r ==> final(self)@ == old(self)@,
            forall|k: Seq<u8>| k != key_bytes@ ==> lookup(final(self)@, k) == lookup(old(self)@, k),
            final(self)@.len() == old(self)@.len(),
    {
        let ghost s0 = self@;
        proof {
            self.lemma_raw_sorted();
        }
        let (found, p) = locate(&self.map, key_bytes);
        if !found {
            return false;
        }
        let key = self.map[p].0.clone();
        self.map.set(p, (key, new_row_index));
        proof {
            let k = key_bytes@;
            assert(self@ =~= s0.update(p as int, (k, new_row_index)));
            lemma_lookup_at(s0, p as int);
            lemma_lookup_at(self@, p as int);
            assert forall|k2: Seq<u8>| k2 != k implies lookup(self@, k2) == lookup(s0, k2) by {
                if exists|i: int| 0 <= i < s0.len() && (#[trigger] s0[i]).0 == k2 {
                    let i = choose|i: int| 0 <= i < s0.len() && (#[trigger] s0[i]).0 == k2;
                    lemma_lookup_at(s0, i);
                    lemma_lookup_at(self@, i);
                }
            }
        }
        true
    }

    /// The number of keys.
    pub fn len(&self) -> (r: usize)
        ensures
            r == self@.len(),
    {
        self.map.len()
    }

    pub fn is_empty(&self) -> (r: bool)
        ensures
            r == (self@.len() == 0),
    {
        self.map.len() == 0
    }

    /// The stored positions, in key order.
    pub fn all_indices(&self) -> (r: Vec<usize>)
        ensures
            r@ == self@.map_values(|e: (Seq<u8>, usize)| e.1),
    {
        let mut r: Vec<usize> = Vec::new();
        let mut i: usize = 0;
        while i < self.map.len()
            invariant
                i <= self.map@.len(),
                r@.len() == i,
                forall|j: int| 0 <= j < i ==> r@[j] == (#[trigger] self.map@[j]).1,
            decreases self.map.len() - i,
        {
            r.push(self.map[i].1);
            i = i + 1;
        }
        assert(r@ =~= self@.map_values(|e: (Seq<u8>, usize)| e.1));
        r
    }
}


/// `l` without the occurrences of `row`, in order.
pub open spec fn drop_row(l: Seq<usize>, row: usize) -> Seq<usize> {
    l.filter(|y: usize| y != row)
}

/// `v` without the occurrences of `x`.
fn without_value(v: &Vec<usize>, x: usize) -> (r: Vec<usize>)
    ensures
        r@ == drop_row(v@, x),
{
    let mut r: Vec<usize> = Vec::new();
    let mut i: usize = 0;
    while i < v.len()
        invariant
            i <= v@.len(),
            r@ == drop_row(v@.take(i as int), x),
        decreases v.len() - i,
    {
        proof {
            assert(v@.take(i + 1).drop_last() =~= v@.take(i as int));
            reveal_with_fuel(Seq::filter, 1);
        }
        if v[i] != x {
            r.push(v[i]);
        }
        i = i + 1;
    }
    assert(v@.take(i as int) =~= v@);
    r
}

/// The row lists of the entries whose key lies between `start` and
/// `end`, among the first `n`, joined in order.
pub open spec fn range_rows(s: Seq<(Seq<u8>, Seq<usize>)>, start: Seq<u8>, end: Seq<u8>, n: int) -> Seq<usize>
    decreases n,
{
    if n <= 0 {
        Seq::empty()
    } else {
        let prev = range_rows(s, start, end, n - 1);
        if bytes_le(start, s[n - 1].0) && bytes_le(s[n - 1].0, end) {
            prev + s[n - 1].1
        } else {
            prev
        }
    }
}

/// An empty range matches no entry.
proof fn lemma_empty_range(s: Seq<(Seq<u8>, Seq<usize>)>, start: Seq<u8>, end: Seq<u8>, n: int)
    requires
        !bytes_le(start, end),
    ensures
        range_rows(s, start, end, n) == Seq::<usize>::empty(),
    decreases n,
{
    if n > 0 {
        lemma_empty_range(s, start, end, n - 1);
        let k = s[n - 1].0;
        lemma_bytes_order(start, k, end);
        lemma_bytes_order(k, end, start);
        lemma_bytes_order(start, end, k);
    }
}

/// The number of rows listed in the first `n` entries.
pub open spec fn total_rows<K>(s: Seq<(K, Seq<usize>)>, n: int) -> int
    decreases n,
{
    if n <= 0 {
        0
    } else {
        total_rows(s, n - 1) + s[n - 1].1.len()
    }
}

/// What removing `row` from the list under `k` does: the list without
/// `row`, or no entry when nothing is left.
pub open spec fn list_after_remove(l: Seq<usize>, row: usize) -> Option<Seq<usize>> {
    let l2 = drop_row(l, row);
    if l2.len() == 0 {
        None
    } else {
        Some(l2)
    }
}

/// Maps a column's encoded values to the rows that hold them.
pub struct SecondaryIndex {
    map: Vec<(Vec<u8>, Vec<usize>)>,
    column_name: String,
}

impl View for SecondaryIndex {
    type V = Seq<(Seq<u8>, Seq<usize>)>;

    closed spec fn view(&self) -> Seq<(Seq<u8>, Seq<usize>)> {
        self.map@.map_values(|e: (Vec<u8>, Vec<usize>)| (e.0@, e.1@))
    }
}

impl SecondaryIndex {
    /// Keys in strictly increasing order, each with at least one row.
    pub open spec fn wf(&self) -> bool {
        &&& keys_sorted(self@)
        &&& forall|i: int| 0 <= i < self@.len() ==> (#[trigger] self@[i]).1.len() > 0
    }

    pub closed spec fn column(&self) -> Seq<char> {
        self.column_name@
    }

    proof fn lemma_raw_sorted(&self)
        requires
            self.wf(),
        ensures
            raw_sorted(self.map@),
            keys_distinct(self@),
    {
        lemma_sorted_distinct(self@);
        assert forall|i: int, j: int| 0 <= i < j < self.map@.len() implies bytes_lt(
            (#[trigger] self.map@[i]).0@,
            (#[trigger] self.map@[j]).0@,
        ) by {
            assert(self@[i].0 == self.map@[i].0@ && self@[j].0 == self.map@[j].0@);
        }
    }

    /// An empty index on `column_name`.
    pub fn new(column_name: String) -> (r: Self)
        ensures
            r.wf(),
            r@ == Seq::<(Seq<u8>, Seq<usize>)>::empty(),
            r.column() == column_name@,
    {
        let r = SecondaryIndex { map: Vec::new(), column_name };
        assert(r@ =~= Seq::<(Seq<u8>, Seq<usize>)>::empty());
        r
    }

    pub fn column_name(&self) -> (r: &str)
        ensures
            r@ == self.column(),
    {
        self.column_name.as_str()
    }

    /// Add `row_index` at the end of the rows listed under `value_bytes`.
    pub fn insert(&mut self, value_bytes: Vec<u8>, row_index: usize)
        requires
            old(self).wf(),
        ensures
            final(self).wf(),
            final(self).column() == old(self).column(),
            lookup(final(self)@, value_bytes@) == Some(
                match lookup(old(self)@, value_bytes@) {
                    Some(l) => l.push(row_index),
                    None => seq![row_index],
                },
            ),
            forall|k: Seq<u8>| k != value_bytes@ ==> lookup(final(self)@, k) == lookup(old(self)@, k),
    {
        proof {
            self.lemma_raw_sorted();
        }
        let ghost s0 = self@;
        let ghost k = value_bytes@;
        let (found, p) = locate(&self.map, value_bytes.as_slice());
        if found {
            let (key, mut rows) = self.map.remove(p);
            rows.push(row_index);
            self.map.insert(p, (key, rows));
            proof {
                let s1 = self@;
                assert(s1 =~= s0.update(p as int, (k, s0[p as int].1.push(row_index))));
                lemma_lookup_at(s0, p as int);
                assert(keys_sorted(s1));
                lemma_sorted_distinct(s1);
                lemma_lookup_at(s1, p as int);
                assert forall|k2: Seq<u8>| k2 != k implies lookup(s1, k2) == lookup(s0, k2) by {
                    if exists|i: int| 0 <= i < s0.len() && (#[trigger] s0[i]).0 == k2 {
                        let i = choose|i: int| 0 <= i < s0.len() && (#[trigger] s0[i]).0 == k2;
                        lemma_lookup_at(s0, i);
                        lemma_lookup_at(s1, i);
                    }
                }
            }
        } else {
            let mut rows: Vec<usize> = Vec::new();
            rows.push(row_index);
            self.map.insert(p, (value_bytes, rows));
            proof {
                let s1 = self@;
                assert(s1 =~= s0.insert(p as int, (k, seq![row_index])));
                assert forall|i: int, j: int| 0 <= i < j < s1.len() implies bytes_lt((#[trigger] s1[i]).0, (#[trigger] s1[j]).0) by {
                    if j < p {
                    } else if j == p {
                        assert(s1[i] == s0[i]);
                    } else if i < p {
                        assert(s1[i] == s0[i] && s1[j] == s0[j - 1]);
                        lemma_bytes_order(s0[i].0, k, s0[j - 1].0);
                    } else if i == p {
                        assert(s1[j] == s0[j - 1]);
                    } else {
                        assert(s1[i] == s0[i - 1] && s1[j] == s0[j - 1]);
                    }
                }
                assert forall|i: int| 0 <= i < s1.len() implies (#[trigger] s1[i]).1.len() > 0 by {
                    if i < p {
                        assert(s1[i] == s0[i]);
                    } else if i > p {
                        assert(s1[i] == s0[i - 1]);
                    }
                }
                lemma_sorted_distinct(s1);
                lemma_lookup_at(s1, p as int);
                assert forall|k2: Seq<u8>| k2 != k implies lookup(s1, k2) == lookup(s0, k2) by {
                    if exists|i: int| 0 <= i < s0.len() && (#[trigger] s0[i]).0 == k2 {
                        let i = choose|i: int| 0 <= i < s0.len() && (#[trigger] s0[i]).0 == k2;
                        lemma_lookup_at(s0, i);
                        let i1 = if i < p { i } else { i + 1 };
                        assert(s1[i1] == s0[i]);
                        lemma_lookup_at(s1, i1);
                    } else {
                        assert forall|i: int| 0 <= i < s1.len() implies (#[trigger] s1[i]).0 != k2 by {
                            if i < p {
                                assert(s1[i] == s0[i]);
                            } else if i > p {
                                assert(s1[i] == s0[i - 1]);
                            }
                        }
                    }
                }
            }
        }
    }

    /// Take `row_index` out of the rows under `value_bytes`. True exactly
    /// when that left no row, and the value was dropped.
    pub fn remove(&mut self, value_bytes: &[u8], row_index: usize) -> (r: bool)
        requires
            old(self).wf(),
        ensures
            final(self).wf(),
            final(self).column() == old(self).column(),
            match lookup(old(self)@, value_bytes@) {
                None => !r && final(self)@ == old(self)@,
                Some(l) => {
                    &&& r == (list_after_remove(l, row_index) is None)
                    &&& lookup(final(self)@, value_bytes@) == list_after_remove(l, row_index)
                },
            },
            forall|k: Seq<u8>| k != value_bytes@ ==> lookup(final(self)@, k) == lookup(old(self)@, k),
    {
        proof {
            self.lemma_raw_sorted();
        }
        let ghost s0 = self@;
        let ghost k = value_bytes@;
        let (found, p) = locate(&self.map, value_bytes);
        if !found {
            return false;
        }
        proof {
            lemma_lookup_at(s0, p as int);
        }
        let (key, rows) = self.map.remove(p);
        proof {
            assert(rows@ == s0[p as int].1);
        }
        let kept = without_value(&rows, row_index);
        if kept.len() == 0 {
            proof {
                let s1 = self@;
                assert(s1 =~= s0.remove(p as int));
                assert forall|i: int| 0 <= i < s1.len() implies (#[trigger] s1[i]).0 != k by {
                    let oi = if i < p { i } else { i + 1 };
                    assert(s1[i] == s0[oi]);
                    lemma_bytes_order(k, k, k);
                    if oi > p {
                        assert(bytes_lt(s0[p as int].0, s0[oi].0));
                    }
                }
                assert forall|i: int| 0 <= i < s1.len() implies (#[trigger] s1[i]).1.len() > 0 by {
                    let oi = if i < p { i } else { i + 1 };
                    assert(s1[i] == s0[oi]);
                }
                lemma_sorted_distinct(s1);
                assert forall|k2: Seq<u8>| k2 != k implies lookup(s1, k2) == lookup(s0, k2) by {
                    if exists|i: int| 0 <= i < s0.len() && (#[trigger] s0[i]).0 == k2 {
                        let i = choose|i: int| 0 <= i < s0.len() && (#[trigger] s0[i]).0 == k2;
                        lemma_lookup_at(s0, i);
                        let i1 = if i < p { i } else { i - 1 };
                        assert(s1[i1] == s0[i]);
                        lemma_lookup_at(s1, i1);
                    } else {
                        assert forall|i: int| 0 <= i < s1.len() implies (#[trigger] s1[i]).0 != k2 by {
                            let oi = if i < p { i } else { i + 1 };
                            assert(s1[i] == s0[oi]);
                        }
                    }
                }
            }
            true
        } else {
            self.map.insert(p, (key, kept));
            proof {
                let s1 = self@;
                assert(s1 =~= s0.update(p as int, (k, drop_row(s0[p as int].1, row_index))));
                assert(keys_sorted(s1));
                lemma_sorted_distinct(s1);
                lemma_lookup_at(s1, p as int);
                assert forall|k2: Seq<u8>| k2 != k implies lookup(s1, k2) == lookup(s0, k2) by {
                    if exists|i: int| 0 <= i < s0.len() && (#[trigger] s0[i]).0 == k2 {
                        let i = choose|i: int| 0 <= i < s0.len() && (#[trigger] s0[i]).0 == k2;
                        lemma_lookup_at(s0, i);
                        lemma_lookup_at(s1, i);
                    }
                }
            }
            false
        }
    }

    /// The rows listed under `value_bytes`, in the order they were added.
    pub fn query(&self, value_bytes: &[u8]) -> (r: Vec<usize>)
        requires
            self.wf(),
        ensures
            r@ == match lookup(self@, value_bytes@) {
                Some(l) => l,
                None => Seq::<usize>::empty(),
            },
    {
        proof {
            self.lemma_raw_sorted();
        }
        let (found, p) = locate(&self.map, value_bytes);
        if found {
            proof {
                lemma_lookup_at(self@, p as int);
            }
            let rows = &self.map[p].1;
            let mut r: Vec<usize> = Vec::new();
            let mut i: usize = 0;
            while i < rows.len()
                invariant
                    i <= rows@.len(),
                    r@ == rows@.take(i as int),
                decreases rows.len() - i,
            {
                r.push(rows[i]);
                proof {
                    assert(rows@.take(i + 1) =~= rows@.take(i as int).push(rows@[i as int]));
                }
                i = i + 1;
            }
            assert(rows@.take(i as int) =~= rows@);
            r
        } else {
            Vec::new()
        }
    }

    /// The rows listed under every value from `start` to `end`, both
    /// included, value by value in byte order; none when `start` comes
    /// after `end`.
    pub fn range_query(&self, start: &[u8], end: &[u8]) -> (r: Vec<usize>)
        requires
            self.wf(),
        ensures
            r@ == range_rows(self@, start@, end@, self@.len() as int),
            !bytes_le(start@, end@) ==> r@.len() == 0,
    {
        proof {
            if !bytes_le(start@, end@) {
                lemma_empty_range(self@, start@, end@, self@.len() as int);
            }
        }
        let mut result: Vec<usize> = Vec::new();
        let mut t: usize = 0;
        while t < self.map.len()
            invariant
                t <= self.map@.len(),
                result@ == range_rows(self@, start@, end@, t as int),
            decreases self.map.len() - t,
        {
            let key = self.map[t].0.as_slice();
            let after_start = match compare_bytes(start, key) {
                KeyOrder::Greater => false,
                _ => true,
            };
            let before_end = match compare_bytes(key, end) {
                KeyOrder::Greater => false,
                _ => true,
            };
            proof {
                assert(self@[t as int] == (self.map@[t as int].0@, self.map@[t as int].1@));
            }
            if after_start && before_end {
                let rows = &self.map[t].1;
                let ghost base = result@;
                let mut i: usize = 0;
                while i < rows.len()
                    invariant
                        i <= rows@.len(),
                        result@ == base + rows@.take(i as int),
                    decreases rows.len() - i,
                {
                    result.push(rows[i]);
                    proof {
                        assert(rows@.take(i + 1) =~= rows@.take(i as int).push(rows@[i as int]));
                        assert(base + rows@.take(i + 1) =~= (base + rows@.take(i as int)).push(rows@[i as int]));
                    }
                    i = i + 1;
                }
                proof {
                    assert(rows@.take(i as int) =~= rows@);
                }
            }
            t = t + 1;
        }
        result
    }

    /// The number of distinct values.
    pub fn value_count(&self) -> (r: usize)
        ensures
            r == self@.len(),
    {
        self.map.len()
    }

    /// The number of rows listed, all values together.
    pub fn total_entries(&self) -> (r: usize)
        requires
            total_rows(self@, self@.len() as int) <= usize::MAX,
        ensures
            r == total_rows(self@, self@.len() as int),
    {
        let mut sum: usize = 0;
        let mut t: usize = 0;
        while t < self.map.len()
            invariant
                t <= self.map@.len(),
                sum == total_rows(self@, t as int),
                total_rows(self@, self@.len() as int) <= usize::MAX,
            decreases self.map.len() - t,
        {
            proof {
                assert(self@[t as int].1.len() == self.map@[t as int].1@.len());
                lemma_total_rows_monotone(self@, t + 1, self@.len() as int);
            }
            sum = sum + self.map[t].1.len();
            t = t + 1;
        }
        sum
    }
}

proof fn lemma_total_rows_monotone<K>(s: Seq<(K, Seq<usize>)>, a: int, b: int)
    requires
        0 <= a <= b <= s.len(),
    ensures
        total_rows(s, a) <= total_rows(s, b),
    decreases b - a,
{
    if a < b {
        lemma_total_rows_monotone(s, a, b - 1);
    }
}

pub open spec fn tuple_view(t: Seq<Vec<u8>>) -> Seq<Seq<u8>> {
    t.map_values(|v: Vec<u8>| v@)
}

/// Whether two tuples of encoded values are equal.
fn tuples_equal(a: &[Vec<u8>], b: &[Vec<u8>]) -> (r: bool)
    ensures
        r == (tuple_view(a@) == tuple_view(b@)),
{
    if a.len() != b.len() {
        proof {
            assert(tuple_view(a@).len() != tuple_view(b@).len());
        }
        return false;
    }
    let mut i: usize = 0;
    while i < a.len()
        invariant
            a@.len() == b@.len(),
            i <= a@.len(),
            forall|j: int| 0 <= j < i ==> (#[trigger] a@[j])@ == b@[j]@,
        decreases a.len() - i,
    {
        match compare_bytes(a[i].as_slice(), b[i].as_slice()) {
            KeyOrder::Equal => {},
            _ => {
                proof {
                    lemma_bytes_order(a@[i as int]@, a@[i as int]@, a@[i as int]@);
                    assert(tuple_view(a@)[i as int] == a@[i as int]@);
                    assert(tuple_view(b@)[i as int] == b@[i as int]@);
                    assert(tuple_view(a@)[i as int] != tuple_view(b@)[i as int]);
                }
                return false;
            },
        }
        i = i + 1;
    }
    assert(tuple_view(a@) =~= tuple_view(b@));
    true
}

/// Maps tuples of encoded column values to the rows that hold them.
pub struct CompositeIndex {
    map: Vec<(Vec<Vec<u8>>, Vec<usize>)>,
    column_names: Vec<String>,
}

impl View for CompositeIndex {
    type V = Seq<(Seq<Seq<u8>>, Seq<usize>)>;

    closed spec fn view(&self) -> Seq<(Seq<Seq<u8>>, Seq<usize>)> {
        self.map@.map_values(|e: (Vec<Vec<u8>>, Vec<usize>)| (tuple_view(e.0@), e.1@))
    }
}

impl CompositeIndex {
    /// No tuple twice, each with at least one row.
    pub open spec fn wf(&self) -> bool {
        &&& keys_distinct(self@)
        &&& forall|i: int| 0 <= i < self@.len() ==> (#[trigger] self@[i]).1.len() > 0
    }

    pub closed spec fn columns(&self) -> Seq<String> {
        self.column_names@
    }

    /// Where `t` is stored, if it is.
    fn find(&self, t: &[Vec<u8>]) -> (r: Option<usize>)
        ensures
            match r {
                Some(p) => p < self@.len() && self@[p as int].0 == tuple_view(t@),
                None => forall|i: int| 0 <= i < self@.len() ==> (#[trigger] self@[i]).0 != tuple_view(t@),
            },
    {
        let mut p: usize = 0;
        while p < self.map.len()
            invariant
                p <= self@.len(),
                self@.len() == self.map@.len(),
                forall|i: int| 0 <= i < p ==> (#[trigger] self@[i]).0 != tuple_view(t@),
            decreases self.map.len() - p,
        {
            proof {
                assert(self@[p as int].0 == tuple_view(self.map@[p as int].0@));
            }
            if tuples_equal(self.map[p].0.as_slice(), t) {
                return Some(p);
            }
            p = p + 1;
        }
        None
    }

    /// An empty index on `column_names`.
    pub fn new(column_names: Vec<String>) -> (r: Self)
        ensures
            r.wf(),
            r@ == Seq::<(Seq<Seq<u8>>, Seq<usize>)>::empty(),
            r.columns() == column_names@,
    {
        let r = CompositeIndex { map: Vec::new(), column_names };
        assert(r@ =~= Seq::<(Seq<Seq<u8>>, Seq<usize>)>::empty());
        r
    }

    pub fn column_names(&self) -> (r: &[String])
        ensures
            r@ == self.columns(),
    {
        self.column_names.as_slice()
    }

    /// Add `row_index` at the end of the rows listed under `value_tuple`,
    /// which has one value per column.
    pub fn insert(&mut self, value_tuple: Vec<Vec<u8>>, row_index: usize)
        requires
            old(self).wf(),
            value_tuple@.len() == old(self).columns().len(),
        ensures
            final(self).wf(),
            final(self).columns() == old(self).columns(),
            lookup(final(self)@, tuple_view(value_tuple@)) == Some(
                match lookup(old(self)@, tuple_view(value_tuple@)) {
                    Some(l) => l.push(row_index),
                    None => seq![row_index],
                },
            ),
            forall|k: Seq<Seq<u8>>| k != tuple_view(value_tuple@) ==> lookup(final(self)@, k) == lookup(old(self)@, k),
    {
        let ghost s0 = self@;
        let ghost k = tuple_view(value_tuple@);
        match self.find(value_tuple.as_slice()) {
            Some(p) => {
                proof {
                    lemma_lookup_at(s0, p as int);
                }
                let (key, mut rows) = self.map.remove(p);
                rows.push(row_index);
                self.map.insert(p, (key, rows));
                proof {
                    let s1 = self@;
                    assert(s1 =~= s0.update(p as int, (k, s0[p as int].1.push(row_index))));
                    lemma_lookup_at(s1, p as int);
                    assert forall|k2: Seq<Seq<u8>>| k2 != k implies lookup(s1, k2) == lookup(s0, k2) by {
                        if exists|i: int| 0 <= i < s0.len() && (#[trigger] s0[i]).0 == k2 {
                            let i = choose|i: int| 0 <= i < s0.len() && (#[trigger] s0[i]).0 == k2;
                            lemma_lookup_at(s0, i);
                            lemma_lookup_at(s1, i);
                        }
                    }
                }
            },
            None => {
                let mut rows: Vec<usize> = Vec::new();
                rows.push(row_index);
                self.map.push((value_tuple, rows));
                proof {
                    let s1 = self@;
                    assert(s1 =~= s0.push((k, seq![row_index])));
                    lemma_lookup_at(s1, s0.len() as int);
                    assert forall|k2: Seq<Seq<u8>>| k2 != k implies lookup(s1, k2) == lookup(s0, k2) by {
                        if exists|i: int| 0 <= i < s0.len() && (#[trigger] s0[i]).0 == k2 {
                            let i = choose|i: int| 0 <= i < s0.len() && (#[trigger] s0[i]).0 == k2;
                            lemma_lookup_at(s0, i);
                            assert(s1[i] == s0[i]);
                            lemma_lookup_at(s1, i);
                        } else {
                            assert forall|i: int| 0 <= i < s1.len() implies (#[trigger] s1[i]).0 != k2 by {
                                if i < s0.len() {
                                    assert(s1[i] == s0[i]);
                                }
                            }
                        }
                    }
                }
            },
        }
    }

    /// Take `row_index` out of the rows under `value_tuple`. True exactly
    /// when that left no row, and the tuple was dropped.
    pub fn remove(&mut self, value_tuple: &[Vec<u8>], row_index: usize) -> (r: bool)
        requires
            old(self).wf(),
        ensures
            final(self).wf(),
            final(self).columns() == old(self).columns(),
            match lookup(old(self)@, tuple_view(value_tuple@)) {
                None => !r && final(self)@ == old(self)@,
                Some(l) => {
                    &&& r == (list_after_remove(l, row_index) is None)
                    &&& lookup(final(self)@, tuple_view(value_tuple@)) == list_after_remove(l, row_index)
                },
            },
            forall|k: Seq<Seq<u8>>| k != tuple_view(value_tuple@) ==> lookup(final(self)@, k) == lookup(old(self)@, k),
    {
        let ghost s0 = self@;
        let ghost k = tuple_view(value_tuple@);
        let p = match self.find(value_tuple) {
            Some(p) => p,
            None => {
                return false;
            },
        };
        proof {
            lemma_lookup_at(s0, p as int);
        }
        let (key, rows) = self.map.remove(p);
        proof {
            assert(rows@ == s0[p as int].1);
        }
        let kept = without_value(&rows, row_index);
        if kept.len() == 0 {
            proof {
                let s1 = self@;
                assert(s1 =~= s0.remove(p as int));
                assert forall|i: int| 0 <= i < s1.len() implies (#[trigger] s1[i]).0 != k by {
                    let oi = if i < p { i } else { i + 1 };
                    assert(s1[i] == s0[oi]);
                }
                assert forall|i: int| 0 <= i < s1.len() implies (#[trigger] s1[i]).1.len() > 0 by {
                    let oi = if i < p { i } else { i + 1 };
                    assert(s1[i] == s0[oi]);
                }
                assert forall|i: int, j: int| 0 <= i < s1.len() && 0 <= j < s1.len() && i != j implies (
                #[trigger] s1[i]).0 != (#[trigger] s1[j]).0 by {
                    let oi = if i < p { i } else { i + 1 };
                    let oj = if j < p { j } else { j + 1 };
                    assert(s1[i] == s0[oi] && s1[j] == s0[oj]);
                }
                assert forall|k2: Seq<Seq<u8>>| k2 != k implies lookup(s1, k2) == lookup(s0, k2) by {
                    if exists|i: int| 0 <= i < s0.len() && (#[trigger] s0[i]).0 == k2 {
                        let i = choose|i: int| 0 <= i < s0.len() && (#[trigger] s0[i]).0 == k2;
                        lemma_lookup_at(s0, i);
                        let i1 = if i < p { i } else { i - 1 };
                        assert(s1[i1] == s0[i]);
                        lemma_lookup_at(s1, i1);
                    } else {
                        assert forall|i: int| 0 <= i < s1.len() implies (#[trigger] s1[i]).0 != k2 by {
                            let oi = if i < p { i } else { i + 1 };
                            assert(s1[i] == s0[oi]);
                        }
                    }
                }
            }
            true
        } else {
            self.map.insert(p, (key, kept));
            proof {
                let s1 = self@;
                assert(s1 =~= s0.update(p as int, (k, drop_row(s0[p as int].1, row_index))));
                lemma_lookup_at(s1, p as int);
                assert forall|k2: Seq<Seq<u8>>| k2 != k implies lookup(s1, k2) == lookup(s0, k2) by {
                    if exists|i: int| 0 <= i < s0.len() && (#[trigger] s0[i]).0 == k2 {
                        let i = choose|i: int| 0 <= i < s0.len() && (#[trigger] s0[i]).0 == k2;
                        lemma_lookup_at(s0, i);
                        lemma_lookup_at(s1, i);
                    }
                }
            }
            false
        }
    }

    /// The rows listed under `value_tuple`, in the order they were added.
    pub fn query(&self, value_tuple: &[Vec<u8>]) -> (r: Vec<usize>)
        requires
            self.wf(),
        ensures
            r@ == match lookup(self@, tuple_view(value_tuple@)) {
                Some(l) => l,
                None => Seq::<usize>::empty(),
            },
    {
        match self.find(value_tuple) {
            Some(p) => {
                proof {
                    lemma_lookup_at(self@, p as int);
                    assert(self@[p as int].1 == self.map@[p as int].1@);
                }
                let rows = &self.map[p].1;
                let mut r: Vec<usize> = Vec::new();
                let mut i: usize = 0;
                while i < rows.len()
                    invariant
                        i <= rows@.len(),
                        r@ == rows@.take(i as int),
                    decreases rows.len() - i,
                {
                    r.push(rows[i]);
                    proof {
                        assert(rows@.take(i + 1) =~= rows@.take(i as int).push(rows@[i as int]));
                    }
                    i = i + 1;
                }
                assert(rows@.take(i as int) =~= rows@);
                r
            },
            None => Vec::new(),
        }
    }

    /// The number of distinct tuples.
    pub fn tuple_count(&self) -> (r: usize)
        ensures
            r == self@.len(),
    {
        self.map.len()
    }
}

} // verus!
