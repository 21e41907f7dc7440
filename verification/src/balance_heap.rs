use vstd::prelude::*;

use core::cmp::Ordering;

use crate::ord::EasyOrd;

verus! {

/// Key type requirement for the heap: an executable equality test that
/// agrees with mathematical equality, and cheap copying.
pub trait HeapKey: Sized + Copy {
    fn key_eq(&self, other: &Self) -> (r: bool)
        ensures
            r == (self == other),
    ;
}

impl HeapKey for char {
    fn key_eq(&self, other: &Self) -> (r: bool) {
        *self == *other
    }
}

impl HeapKey for u32 {
    fn key_eq(&self, other: &Self) -> (r: bool) {
        *self == *other
    }
}

impl HeapKey for u128 {
    fn key_eq(&self, other: &Self) -> (r: bool) {
        *self == *other
    }
}

/// One copy of an entry inside the heap-ordered backing sequence.
#[derive(Clone, Copy)]
struct HeapEnt<E, V> {
    entry: E,
    order: V,
}

/// No key occurs twice in the association sequence.
spec fn keys_unique<E, V>(s: Seq<(E, V)>) -> bool {
    forall|i: int, j: int| 0 <= i < j < s.len() ==> (#[trigger] s[i]).0 != (#[trigger] s[j]).0
}

/// Some index of the association sequence binds the key `k`.
spec fn assoc_has<E, V>(s: Seq<(E, V)>, k: E) -> bool {
    exists|i: int| 0 <= i < s.len() && (#[trigger] s[i]).0 == k
}

/// The value the association sequence binds to `k`.
spec fn assoc_at<E, V>(s: Seq<(E, V)>, k: E) -> V {
    s[choose|i: int| 0 <= i < s.len() && (#[trigger] s[i]).0 == k].1
}

/// The mapping an association sequence stands for.
spec fn assoc_view<E, V>(s: Seq<(E, V)>) -> Map<E, V> {
    Map::new(|k: E| assoc_has(s, k), |k: E| assoc_at(s, k))
}

/// Every element sits below its parent in the implicit binary tree.
spec fn heap_ordered<E, V: EasyOrd>(h: Seq<HeapEnt<E, V>>) -> bool {
    forall|i: int|
        1 <= i < h.len() ==> (#[trigger] h[i]).order.ord_key() <= h[(i - 1) / 2].order.ord_key()
}

/// A copy of the pair `(k, v)` occurs somewhere in the backing sequence.
spec fn heap_has_copy<E, V>(h: Seq<HeapEnt<E, V>>, k: E, v: V) -> bool {
    h.contains((HeapEnt { entry: k, order: v }))
}

proof fn lemma_assoc_at_index<E, V>(s: Seq<(E, V)>, i: int)
    requires
        keys_unique(s),
        0 <= i < s.len(),
    ensures
        assoc_has(s, s[i].0),
        assoc_at(s, s[i].0) == s[i].1,
{
    let k = s[i].0;
    assert(assoc_has(s, k));
    let j = choose|j: int| 0 <= j < s.len() && (#[trigger] s[j]).0 == k;
    if i != j {
        assert(s[i].0 != s[j].0);
        assert(false);
    }
}

proof fn lemma_assoc_update<E, V>(s: Seq<(E, V)>, i: int, k: E, v: V)
    requires
        keys_unique(s),
        0 <= i < s.len(),
        s[i].0 == k,
    ensures
        keys_unique(s.update(i, (k, v))),
        assoc_view(s.update(i, (k, v))) == assoc_view(s).insert(k, v),
{
    let s2 = s.update(i, (k, v));
    assert forall|a: int| 0 <= a < s2.len() implies (#[trigger] s2[a]).0 == s[a].0 by {}
    assert(keys_unique(s2));
    assert forall|k2: E| assoc_has(s2, k2) <==> assoc_has(s, k2) by {
        if assoc_has(s2, k2) {
            let j = choose|j: int| 0 <= j < s2.len() && (#[trigger] s2[j]).0 == k2;
            assert(s[j].0 == k2);
        }
        if assoc_has(s, k2) {
            let j = choose|j: int| 0 <= j < s.len() && (#[trigger] s[j]).0 == k2;
            assert(s2[j].0 == k2);
        }
    }
    assert forall|k2: E| assoc_has(s2, k2) implies assoc_at(s2, k2) == (if k2 == k {
        v
    } else {
        assoc_at(s, k2)
    }) by {
        let j = choose|j: int| 0 <= j < s2.len() && (#[trigger] s2[j]).0 == k2;
        lemma_assoc_at_index(s2, j);
        if k2 == k {
            if j != i {
                assert(s[j].0 == k2);
                assert(false);
            }
        } else {
            assert(j != i);
            lemma_assoc_at_index(s, j);
        }
    }
    assert(assoc_view(s2) =~= assoc_view(s).insert(k, v));
}

proof fn lemma_assoc_push<E, V>(s: Seq<(E, V)>, k: E, v: V)
    requires
        keys_unique(s),
        !assoc_has(s, k),
    ensures
        keys_unique(s.push((k, v))),
        assoc_view(s.push((k, v))) == assoc_view(s).insert(k, v),
{
    let s2 = s.push((k, v));
    assert forall|a: int, b: int| 0 <= a < b < s2.len() implies (#[trigger] s2[a]).0 != (
    #[trigger] s2[b]).0 by {
        if b == s.len() {
            assert(s[a].0 == s2[a].0);
        }
    }
    assert forall|k2: E| assoc_has(s2, k2) <==> (assoc_has(s, k2) || k2 == k) by {
        if assoc_has(s2, k2) {
            let j = choose|j: int| 0 <= j < s2.len() && (#[trigger] s2[j]).0 == k2;
            if j < s.len() {
                assert(s[j].0 == k2);
            }
        }
        if assoc_has(s, k2) {
            let j = choose|j: int| 0 <= j < s.len() && (#[trigger] s[j]).0 == k2;
            assert(s2[j].0 == k2);
        }
        if k2 == k {
            assert(s2[s.len() as int].0 == k2);
        }
    }
    assert forall|k2: E| assoc_has(s2, k2) implies assoc_at(s2, k2) == (if k2 == k {
        v
    } else {
        assoc_at(s, k2)
    }) by {
        let j = choose|j: int| 0 <= j < s2.len() && (#[trigger] s2[j]).0 == k2;
        lemma_assoc_at_index(s2, j);
        if k2 == k {
            assert(j == s.len());
        } else {
            assert(j < s.len());
            lemma_assoc_at_index(s, j);
        }
    }
    assert(assoc_view(s2) =~= assoc_view(s).insert(k, v));
}

proof fn lemma_assoc_remove<E, V>(s: Seq<(E, V)>, i: int)
    requires
        keys_unique(s),
        0 <= i < s.len(),
    ensures
        keys_unique(s.remove(i)),
        assoc_view(s.remove(i)) == assoc_view(s).remove(s[i].0),
{
    let k = s[i].0;
    let s2 = s.remove(i);
    assert forall|a: int, b: int| 0 <= a < b < s2.len() implies (#[trigger] s2[a]).0 != (
    #[trigger] s2[b]).0 by {}
    assert forall|k2: E| assoc_has(s2, k2) <==> (assoc_has(s, k2) && k2 != k) by {
        if assoc_has(s2, k2) {
            let j = choose|j: int| 0 <= j < s2.len() && (#[trigger] s2[j]).0 == k2;
            if j < i {
                assert(s[j].0 == k2);
                assert(s[j].0 != s[i].0);
            } else {
                assert(s[j + 1].0 == k2);
                assert(s[i].0 != s[j + 1].0);
            }
        }
        if assoc_has(s, k2) && k2 != k {
            let j = choose|j: int| 0 <= j < s.len() && (#[trigger] s[j]).0 == k2;
            if j < i {
                assert(s2[j].0 == k2);
            } else {
                assert(j > i);
                assert(s2[j - 1].0 == k2);
            }
        }
    }
    assert forall|k2: E| assoc_has(s2, k2) implies assoc_at(s2, k2) == assoc_at(s, k2) by {
        let j = choose|j: int| 0 <= j < s2.len() && (#[trigger] s2[j]).0 == k2;
        lemma_assoc_at_index(s2, j);
        if j < i {
            lemma_assoc_at_index(s, j);
        } else {
            assert(s[j + 1].0 == k2);
            lemma_assoc_at_index(s, j + 1);
        }
    }
    assert(assoc_view(s2) =~= assoc_view(s).remove(k));
}

proof fn lemma_push_contains<T>(s: Seq<T>, x: T)
    ensures
        forall|e: T| #[trigger] s.push(x).contains(e) <==> (s.contains(e) || e == x),
{
    assert forall|e: T| #[trigger] s.push(x).contains(e) implies (s.contains(e) || e == x) by {
        let w = choose|w: int| 0 <= w < s.push(x).len() && s.push(x)[w] == e;
        if w < s.len() {
            assert(s[w] == e);
        }
    }
    assert forall|e: T| (s.contains(e) || e == x) implies #[trigger] s.push(x).contains(e) by {
        if s.contains(e) {
            let w = choose|w: int| 0 <= w < s.len() && s[w] == e;
            assert(s.push(x)[w] == e);
        } else {
            assert(s.push(x)[s.len() as int] == e);
        }
    }
}

proof fn lemma_swap_contains<T>(s1: Seq<T>, s2: Seq<T>, i: int, j: int)
    requires
        0 <= i < s1.len(),
        0 <= j < s1.len(),
        s2 == s1.update(i, s1[j]).update(j, s1[i]),
    ensures
        forall|e: T| #[trigger] s1.contains(e) <==> #[trigger] s2.contains(e),
{
    assert forall|e: T| #[trigger] s1.contains(e) implies s2.contains(e) by {
        let w = choose|w: int| 0 <= w < s1.len() && s1[w] == e;
        if w == i {
            assert(s2[j] == e);
        } else if w == j {
            assert(s2[i] == e);
        } else {
            assert(s2[w] == e);
        }
    }
    assert forall|e: T| #[trigger] s2.contains(e) implies s1.contains(e) by {
        let w = choose|w: int| 0 <= w < s2.len() && s2[w] == e;
        if w == i {
            assert(s1[j] == e);
        } else if w == j {
            assert(s1[i] == e);
        } else {
            assert(s1[w] == e);
        }
    }
}

/// Exchanges the backing entries at `i` and `j`.
fn ent_swap<E: HeapKey, V: EasyOrd + Copy>(h: &mut Vec<HeapEnt<E, V>>, i: usize, j: usize)
    requires
        i < old(h)@.len(),
        j < old(h)@.len(),
    ensures
        final(h)@ == old(h)@.update(i as int, old(h)@[j as int]).update(
            j as int,
            old(h)@[i as int],
        ),
        forall|e: HeapEnt<E, V>|
            #[trigger] old(h)@.contains(e) <==> #[trigger] final(h)@.contains(e),
{
    let a = h[i];
    let b = h[j];
    h[i] = b;
    h[j] = a;
    proof {
        lemma_swap_contains(old(h)@, h@, i as int, j as int);
    }
}

/// In a heap-ordered sequence, the top bounds every element.
proof fn lemma_root_dominates<E, V: EasyOrd>(h: Seq<HeapEnt<E, V>>, j: int)
    requires
        heap_ordered(h),
        0 <= j < h.len(),
    ensures
        h[j].order.ord_key() <= h[0].order.ord_key(),
    decreases j,
{
    if j > 0 {
        lemma_root_dominates(h, (j - 1) / 2);
    }
}

/// Appends `ent` and restores heap order by sifting it up.
fn heap_push<E: HeapKey, V: EasyOrd + Copy>(h: &mut Vec<HeapEnt<E, V>>, ent: HeapEnt<E, V>)
    requires
        heap_ordered(old(h)@),
    ensures
        heap_ordered(final(h)@),
        final(h)@.len() == old(h)@.len() + 1,
        forall|e: HeapEnt<E, V>| #[trigger] final(h)@.contains(e) <==> (old(h)@.contains(e) || e
            == ent),
{
    proof {
        lemma_push_contains(old(h)@, ent);
    }
    h.push(ent);
    let mut i: usize = h.len() - 1;
    loop
        invariant
            h@.len() == old(h)@.len() + 1,
            0 <= i < h@.len(),
            h@[i as int] == ent,
            forall|c: int|
                1 <= c < h@.len() && c != i ==> (#[trigger] h@[c]).order.ord_key() <= h@[(c - 1)
                    / 2].order.ord_key(),
            i > 0 ==> forall|c: int|
                1 <= c < h@.len() && (c - 1) / 2 == i ==> (#[trigger] h@[c]).order.ord_key()
                    <= h@[(i - 1) as int / 2].order.ord_key(),
            forall|e: HeapEnt<E, V>| #[trigger] h@.contains(e) <==> (old(h)@.contains(e) || e
                == ent),
        ensures
            heap_ordered(h@),
            h@.len() == old(h)@.len() + 1,
            forall|e: HeapEnt<E, V>| #[trigger] h@.contains(e) <==> (old(h)@.contains(e) || e
                == ent),
        decreases i,
    {
        if i == 0 {
            break ;
        }
        let p = (i - 1) / 2;
        let a = h[p];
        let b = h[i];
        if matches!(a.order.cmp(&b.order), Ordering::Less) {
            let ghost pre = h@;
            ent_swap(h, p, i);
            proof {
                assert forall|e: HeapEnt<E, V>|
                    #[trigger] h@.contains(e) <==> (old(h)@.contains(e) || e == ent) by {
                    assert(pre.contains(e) <==> h@.contains(e));
                    assert(pre.contains(e) <==> (old(h)@.contains(e) || e == ent));
                }
            }
            i = p;
        } else {
            break ;
        }
    }
}

/// Removes the top entry and restores heap order by sifting the last
/// entry down from the top.
#[verifier::rlimit(60)]
fn heap_remove_top<E: HeapKey, V: EasyOrd + Copy>(h: &mut Vec<HeapEnt<E, V>>)
    requires
        heap_ordered(old(h)@),
        old(h)@.len() > 0,
    ensures
        heap_ordered(final(h)@),
        final(h)@.len() == old(h)@.len() - 1,
        forall|e: HeapEnt<E, V>| #[trigger] final(h)@.contains(e) ==> old(h)@.contains(e),
        forall|e: HeapEnt<E, V>|
            old(h)@.contains(e) && e != old(h)@[0] ==> #[trigger] final(h)@.contains(e),
{
    let last = h.pop().unwrap();
    if h.len() == 0 {
        proof {
            assert forall|e: HeapEnt<E, V>|
                old(h)@.contains(e) && e != old(h)@[0] implies #[trigger] h@.contains(e) by {
                let w = choose|w: int| 0 <= w < old(h)@.len() && old(h)@[w] == e;
                assert(w == 0);
            }
        }
        return ;
    }
    h[0] = last;
    proof {
        let prev = old(h)@;
        assert forall|e: HeapEnt<E, V>| #[trigger] h@.contains(e) implies prev.contains(e) by {
            let w = choose|w: int| 0 <= w < h@.len() && h@[w] == e;
            if w == 0 {
                assert(prev[prev.len() - 1] == e);
            } else {
                assert(prev[w] == e);
            }
        }
        assert forall|e: HeapEnt<E, V>|
            prev.contains(e) && e != prev[0] implies #[trigger] h@.contains(e) by {
            let w = choose|w: int| 0 <= w < prev.len() && prev[w] == e;
            if w == prev.len() - 1 {
                assert(h@[0] == e);
            } else {
                assert(h@[w] == e);
            }
        }
    }
    let ghost mid = h@;
    let mut i: usize = 0;
    loop
        invariant
            h@.len() == old(h)@.len() - 1,
            0 <= i < h@.len(),
            forall|c: int|
                1 <= c < h@.len() && (c - 1) / 2 != i ==> (#[trigger] h@[c]).order.ord_key()
                    <= h@[(c - 1) / 2].order.ord_key(),
            i > 0 ==> forall|c: int|
                1 <= c < h@.len() && (c - 1) / 2 == i ==> (#[trigger] h@[c]).order.ord_key()
                    <= h@[(i - 1) as int / 2].order.ord_key(),
            forall|e: HeapEnt<E, V>| #[trigger] h@.contains(e) <==> mid.contains(e),
        ensures
            heap_ordered(h@),
            h@.len() == old(h)@.len() - 1,
            forall|e: HeapEnt<E, V>| #[trigger] h@.contains(e) <==> mid.contains(e),
        decreases h@.len() - i,
    {
        if h.len() < 2 || i > (h.len() - 2) / 2 {
            proof {
                assert forall|c: int|
                    1 <= c < h@.len() implies (#[trigger] h@[c]).order.ord_key() <= h@[(c - 1)
                    / 2].order.ord_key() by {
                    assert((c - 1) / 2 != i);
                }
            }
            break ;
        }
        let l = 2 * i + 1;
        let mut m = l;
        if l + 1 < h.len() {
            if matches!(h[l].order.cmp(&h[l + 1].order), Ordering::Less) {
                m = l + 1;
            }
        }
        if matches!(h[i].order.cmp(&h[m].order), Ordering::Less) {
            let ghost pre = h@;
            ent_swap(h, i, m);
            proof {
                assert forall|e: HeapEnt<E, V>| #[trigger] h@.contains(e) <==> mid.contains(
                    e,
                ) by {
                    assert(pre.contains(e) <==> h@.contains(e));
                    assert(pre.contains(e) <==> mid.contains(e));
                }
            }
            i = m;
        } else {
            proof {
                assert forall|c: int|
                    1 <= c < h@.len() implies (#[trigger] h@[c]).order.ord_key() <= h@[(c - 1)
                    / 2].order.ord_key() by {}
            }
            break ;
        }
    }
}

/// Get consistency: once a binding is recorded, the mapping answers
/// with the most recently recorded priority for that key, and every
/// other key keeps its binding. Together with the contracts of
/// `update` and `get`, which speak of the same mapping, this pins
/// what `get` returns after any run of updates.
pub proof fn lemma_get_consistency<E, V>(m: Map<E, V>, k: E, v: V)
    ensures
        m.insert(k, v).dom().contains(k),
        m.insert(k, v)[k] == v,
        forall|k2: E|
            k2 != k && m.dom().contains(k2) ==> m.insert(k, v).dom().contains(k2) && m.insert(
                k,
                v,
            )[k2] == m[k2],
{
}

/// A kind of heap that can be updated in place, for load balancing.
///
/// The authoritative state is a key-to-priority mapping; the backing
/// sequence is a binary max-heap that may additionally hold stale
/// copies of entries whose priority has since changed. Stale copies
/// are discarded lazily when they surface at the top.
pub struct BalanceHeap<E, V> {
    heap: Vec<HeapEnt<E, V>>,
    map: Vec<(E, V)>,
}

impl<E, V> View for BalanceHeap<E, V> {
    type V = Map<E, V>;

    closed spec fn view(&self) -> Map<E, V> {
        assoc_view(self.map@)
    }
}

impl<E: HeapKey, V: EasyOrd + Copy> BalanceHeap<E, V> {
    /// Number of live keys, that is, the size of the mapping.
    pub open spec fn spec_len(&self) -> nat {
        self@.dom().len()
    }

    /// Length of the heap backing sequence, stale copies included.
    pub closed spec fn spec_backing_len(&self) -> nat {
        self.heap@.len()
    }

    /// The entry currently at the top of the backing sequence.
    pub closed spec fn spec_top(&self) -> Option<(E, V)> {
        if self.heap@.len() == 0 {
            None
        } else {
            Some((self.heap@[0].entry, self.heap@[0].order))
        }
    }

    /// The backing sequence holds few entries, or at most twice the
    /// number of live keys, one transient copy allowed either way.
    pub open spec fn compaction_ok(&self) -> bool {
        self.spec_backing_len() <= 17 || self.spec_backing_len() <= 2 * self.spec_len() + 1
    }

    /// Well-formedness: keys are unique, the backing sequence is
    /// heap-ordered, every current binding has a copy in the backing
    /// sequence, and stale copies are bounded in number.
    pub closed spec fn wf(&self) -> bool {
        &&& keys_unique(self.map@)
        &&& heap_ordered(self.heap@)
        &&& (forall|i: int|
            0 <= i < self.map@.len() ==> heap_has_copy(
                self.heap@,
                (#[trigger] self.map@[i]).0,
                self.map@[i].1,
            ))
        &&& (self.heap@.len() <= 17 || self.heap@.len() <= 2 * self.map@.len() + 1)
    }

    /// The mapping's domain has exactly as many keys as the
    /// association sequence has entries.
    proof fn lemma_dom_card(&self)
        requires
            keys_unique(self.map@),
        ensures
            self@.dom().finite(),
            self@.dom().len() == self.map@.len(),
    {
        let keys = self.map@.map_values(|p: (E, V)| p.0);
        assert(keys.no_duplicates());
        keys.unique_seq_to_set();
        assert forall|k: E| self@.dom().contains(k) <==> keys.to_set().contains(k) by {
            if assoc_has(self.map@, k) {
                let i = choose|i: int| 0 <= i < self.map@.len() && (#[trigger] self.map@[i]).0
                    == k;
                assert(keys[i] == k);
                assert(keys.contains(k));
            }
            if keys.contains(k) {
                let i = choose|i: int| 0 <= i < keys.len() && keys[i] == k;
                assert(self.map@[i].0 == k);
            }
        }
        assert(self@.dom() =~= keys.to_set());
    }

    /// The mapping of a well-formed heap binds finitely many keys.
    pub proof fn lemma_finite_dom(&self)
        requires
            self.wf(),
        ensures
            self@.dom().finite(),
    {
        self.lemma_dom_card();
    }

    /// An empty heap: no keys, no backing entries.
    pub fn new() -> (r: Self)
        ensures
            r.wf(),
            r@ == Map::<E, V>::empty(),
            r.spec_backing_len() == 0,
    {
        let r = Self { heap: Vec::new(), map: Vec::new() };
        proof {
            assert(r@ =~= Map::<E, V>::empty());
        }
        r
    }

    /// Index of the binding for `entry` in the association sequence.
    fn find_key(&self, entry: &E) -> (r: Option<usize>)
        ensures
            match r {
                Some(i) => i < self.map@.len() && self.map@[i as int].0 == *entry,
                None => forall|j: int| 0 <= j < self.map@.len() ==> (#[trigger] self.map@[j]).0
                    != *entry,
            },
    {
        let mut i: usize = 0;
        while i < self.map.len()
            invariant
                i <= self.map@.len(),
                forall|j: int| 0 <= j < i ==> (#[trigger] self.map@[j]).0 != *entry,
            decreases self.map@.len() - i,
        {
            if self.map[i].0.key_eq(entry) {
                return Some(i);
            }
            i = i + 1;
        }
        None
    }

    /// The priority currently recorded for a key.
    pub fn get(&self, entry: &E) -> (r: Option<&V>)
        requires
            self.wf(),
        ensures
            match r {
                Some(v) => self@.dom().contains(*entry) && *v == self@[*entry],
                None => !self@.dom().contains(*entry),
            },
    {
        match self.find_key(entry) {
            Some(i) => {
                proof {
                    lemma_assoc_at_index(self.map@, i as int);
                }
                Some(&self.map[i].1)
            },
            None => None,
        }
    }

    /// Rebuilds the backing sequence from the mapping in one pass,
    /// discarding every stale copy.
    fn rebuild(&mut self)
        requires
            keys_unique(old(self).map@),
        ensures
            final(self).map@ == old(self).map@,
            heap_ordered(final(self).heap@),
            final(self).heap@.len() == old(self).map@.len(),
            forall|i: int|
                0 <= i < final(self).map@.len() ==> heap_has_copy(
                    final(self).heap@,
                    (#[trigger] final(self).map@[i]).0,
                    final(self).map@[i].1,
                ),
    {
        let mut nh: Vec<HeapEnt<E, V>> = Vec::new();
        let mut i: usize = 0;
        while i < self.map.len()
            invariant
                self.map@ == old(self).map@,
                self.heap@ == old(self).heap@,
                i <= self.map@.len(),
                nh@.len() == i,
                heap_ordered(nh@),
                forall|j: int|
                    0 <= j < i ==> heap_has_copy(
                        nh@,
                        (#[trigger] self.map@[j]).0,
                        self.map@[j].1,
                    ),
            decreases self.map@.len() - i,
        {
            let p = self.map[i];
            let ghost prev = nh@;
            heap_push(&mut nh, HeapEnt { entry: p.0, order: p.1 });
            proof {
                assert forall|j: int|
                    0 <= j < i + 1 implies heap_has_copy(
                    nh@,
                    (#[trigger] self.map@[j]).0,
                    self.map@[j].1,
                ) by {
                    if j < i {
                        assert(prev.contains((HeapEnt { entry: self.map@[j].0, order: self.map@[j].1 })));
                    }
                }
            }
            i = i + 1;
        }
        self.heap = nh;
    }

    /// Records the mapping of `entry` to `order` and pushes a copy of
    /// the new pair onto the heap; an earlier copy, if any, stays
    /// behind and becomes stale. Rebuilds the backing sequence first
    /// when stale copies outnumber live ones beyond a small floor.
    pub fn update(&mut self, entry: E, order: V)
        requires
            old(self).wf(),
        ensures
            final(self).wf(),
            final(self)@ == old(self)@.insert(entry, order),
            final(self).compaction_ok(),
    {
        let found = self.find_key(&entry);
        match found {
            Some(i) => {
                proof {
                    lemma_assoc_update(self.map@, i as int, entry, order);
                }
                self.map[i] = (entry, order);
            },
            None => {
                proof {
                    lemma_assoc_push(self.map@, entry, order);
                }
                self.map.push((entry, order));
            },
        }
        if self.heap.len() > 16 && (self.heap.len() as u128) > 2 * (self.map.len() as u128) {
            self.rebuild();
        } else {
            heap_push(&mut self.heap, HeapEnt { entry, order });
            proof {
                assert forall|idx: int|
                    0 <= idx < self.map@.len() implies heap_has_copy(
                    self.heap@,
                    (#[trigger] self.map@[idx]).0,
                    self.map@[idx].1,
                ) by {
                    let p = self.map@[idx];
                    lemma_assoc_at_index(self.map@, idx);
                    if p.0 == entry {
                        assert(p.1 == order);
                        assert(self.heap@.contains((HeapEnt { entry, order })));
                    } else {
                        let s1 = old(self).map@;
                        assert(old(self)@[p.0] == p.1 && old(self)@.dom().contains(p.0));
                        let j = choose|j: int| 0 <= j < s1.len() && (#[trigger] s1[j]).0 == p.0;
                        lemma_assoc_at_index(s1, j);
                        assert(heap_has_copy(old(self).heap@, s1[j].0, s1[j].1));
                        assert(old(self).heap@.contains((HeapEnt { entry: p.0, order: p.1 })));
                    }
                }
            }
        }
        proof {
            self.lemma_dom_card();
        }
    }

    /// Returns the current top pair without removing it, or `None`
    /// when the mapping is empty. Stale copies that surface at the
    /// top are discarded along the way.
    pub fn peek(&mut self) -> (r: Option<(E, V)>)
        requires
            old(self).wf(),
        ensures
            final(self).wf(),
            final(self)@ == old(self)@,
            final(self).spec_backing_len() <= old(self).spec_backing_len(),
            final(self).compaction_ok(),
            r == final(self).spec_top(),
            match r {
                Some(p) => {
                    &&& final(self)@.dom().contains(p.0)
                    &&& p.1.ord_key() == final(self)@[p.0].ord_key()
                    &&& forall|k: E|
                        final(self)@.dom().contains(k)
                            ==> (#[trigger] final(self)@[k]).ord_key() <= p.1.ord_key()
                },
                None => final(self)@ == Map::<E, V>::empty(),
            },
    {
        loop
            invariant
                self.wf(),
                self.map@ == old(self).map@,
                self.heap@.len() <= old(self).heap@.len(),
            decreases self.heap@.len(),
        {
            if self.heap.len() == 0 {
                proof {
                    if self.map@.len() > 0 {
                        assert(heap_has_copy(self.heap@, (self.map@[0]).0, self.map@[0].1));
                        let w = choose|w: int|
                            0 <= w < self.heap@.len() && self.heap@[w] == (HeapEnt {
                                entry: self.map@[0].0,
                                order: self.map@[0].1,
                            });
                        assert(false);
                    }
                    assert(self@ =~= Map::<E, V>::empty());
                    self.lemma_dom_card();
                }
                return None;
            }
            let top = self.heap[0];
            let found = self.find_key(&top.entry);
            let mut is_current = false;
            if let Some(i) = found {
                if matches!(self.map[i].1.cmp(&top.order), Ordering::Equal) {
                    is_current = true;
                }
            }
            if is_current {
                proof {
                    let i = found.unwrap() as int;
                    lemma_assoc_at_index(self.map@, i);
                    assert(self@[top.entry].ord_key() == top.order.ord_key());
                    assert forall|k: E|
                        self@.dom().contains(k) implies (#[trigger] self@[k]).ord_key()
                        <= top.order.ord_key() by {
                        let j = choose|j: int|
                            0 <= j < self.map@.len() && (#[trigger] self.map@[j]).0 == k;
                        lemma_assoc_at_index(self.map@, j);
                        let ent2 = HeapEnt { entry: self.map@[j].0, order: self.map@[j].1 };
                        assert(heap_has_copy(self.heap@, self.map@[j].0, self.map@[j].1));
                        let w = choose|w: int|
                            0 <= w < self.heap@.len() && self.heap@[w] == ent2;
                        lemma_root_dominates(self.heap@, w);
                    }
                    self.lemma_dom_card();
                }
                return Some((top.entry, top.order));
            }
            proof {
                assert forall|idx: int|
                    0 <= idx < self.map@.len() implies (HeapEnt {
                    entry: (#[trigger] self.map@[idx]).0,
                    order: self.map@[idx].1,
                }) != self.heap@[0] by {
                    if self.map@[idx].0 == top.entry {
                        let i = found.unwrap() as int;
                        assert(idx == i);
                    }
                }
            }
            let ghost pre = *self;
            heap_remove_top(&mut self.heap);
            proof {
                assert forall|idx: int|
                    0 <= idx < self.map@.len() implies heap_has_copy(
                    self.heap@,
                    (#[trigger] self.map@[idx]).0,
                    self.map@[idx].1,
                ) by {
                    let ent2 = HeapEnt { entry: self.map@[idx].0, order: self.map@[idx].1 };
                    assert(pre.heap@.contains(ent2));
                    assert(ent2 != pre.heap@[0]);
                    assert(self.heap@.contains(ent2));
                }
            }
        }
    }

    /// Removes and returns the current top pair, along with its
    /// mapping entry, or returns `None` when the mapping is empty.
    /// Stale copies that surface at the top are discarded; the
    /// backing sequence is rebuilt when stale copies pile up.
    pub fn pop(&mut self) -> (r: Option<(E, V)>)
        requires
            old(self).wf(),
        ensures
            final(self).wf(),
            final(self).compaction_ok(),
            match r {
                Some(p) => {
                    &&& old(self)@.dom().contains(p.0)
                    &&& p.1.ord_key() == old(self)@[p.0].ord_key()
                    &&& forall|k: E|
                        old(self)@.dom().contains(k)
                            ==> (#[trigger] old(self)@[k]).ord_key() <= p.1.ord_key()
                    &&& final(self)@ == old(self)@.remove(p.0)
                },
                None => final(self)@ == old(self)@ && old(self)@ == Map::<E, V>::empty(),
            },
            (match old(self).spec_top() {
                Some(t) => old(self)@.dom().contains(t.0) && t.1.ord_key() == old(
                    self)@[t.0].ord_key(),
                None => false,
            }) ==> r == old(self).spec_top(),
    {
        loop
            invariant
                self.wf(),
                self.map@ == old(self).map@,
                self.heap@.len() <= old(self).heap@.len(),
                self.heap@ == old(self).heap@ || !(match old(self).spec_top() {
                    Some(t) => old(self)@.dom().contains(t.0) && t.1.ord_key() == old(
                        self)@[t.0].ord_key(),
                    None => false,
                }),
            decreases self.heap@.len(),
        {
            if self.heap.len() == 0 {
                proof {
                    if self.map@.len() > 0 {
                        assert(heap_has_copy(self.heap@, (self.map@[0]).0, self.map@[0].1));
                        let w = choose|w: int|
                            0 <= w < self.heap@.len() && self.heap@[w] == (HeapEnt {
                                entry: self.map@[0].0,
                                order: self.map@[0].1,
                            });
                        assert(false);
                    }
                    assert(self@ =~= Map::<E, V>::empty());
                    self.lemma_dom_card();
                }
                return None;
            }
            let top = self.heap[0];
            let found = self.find_key(&top.entry);
            let mut is_current = false;
            if let Some(i) = found {
                if matches!(self.map[i].1.cmp(&top.order), Ordering::Equal) {
                    is_current = true;
                }
            }
            if is_current {
                let i = found.unwrap();
                proof {
                    lemma_assoc_at_index(self.map@, i as int);
                    assert(self@[top.entry].ord_key() == top.order.ord_key());
                    assert forall|k: E|
                        self@.dom().contains(k) implies (#[trigger] self@[k]).ord_key()
                        <= top.order.ord_key() by {
                        let j = choose|j: int|
                            0 <= j < self.map@.len() && (#[trigger] self.map@[j]).0 == k;
                        lemma_assoc_at_index(self.map@, j);
                        let ent2 = HeapEnt { entry: self.map@[j].0, order: self.map@[j].1 };
                        assert(heap_has_copy(self.heap@, self.map@[j].0, self.map@[j].1));
                        let w = choose|w: int|
                            0 <= w < self.heap@.len() && self.heap@[w] == ent2;
                        lemma_root_dominates(self.heap@, w);
                    }
                }
                let ghost pre = *self;
                heap_remove_top(&mut self.heap);
                self.map.remove(i);
                proof {
                    lemma_assoc_remove(pre.map@, i as int);
                    assert forall|idx: int|
                        0 <= idx < self.map@.len() implies heap_has_copy(
                        self.heap@,
                        (#[trigger] self.map@[idx]).0,
                        self.map@[idx].1,
                    ) by {
                        let j: int = if idx < i { idx } else { idx + 1 };
                        assert(pre.map@[j] == self.map@[idx]);
                        assert(j != i);
                        let ent2 = HeapEnt { entry: pre.map@[j].0, order: pre.map@[j].1 };
                        assert(heap_has_copy(pre.heap@, (pre.map@[j]).0, pre.map@[j].1));
                        assert(ent2 != pre.heap@[0]);
                        assert(self.heap@.contains(ent2));
                    }
                }
                if self.heap.len() > 16 && (self.heap.len() as u128) > 2 * (
                self.map.len() as u128) {
                    self.rebuild();
                }
                proof {
                    self.lemma_dom_card();
                }
                return Some((top.entry, top.order));
            }
            proof {
                assert forall|idx: int|
                    0 <= idx < self.map@.len() implies (HeapEnt {
                    entry: (#[trigger] self.map@[idx]).0,
                    order: self.map@[idx].1,
                }) != self.heap@[0] by {
                    if self.map@[idx].0 == top.entry {
                        let i = found.unwrap() as int;
                        assert(idx == i);
                    }
                }
            }
            let ghost pre = *self;
            heap_remove_top(&mut self.heap);
            proof {
                assert forall|idx: int|
                    0 <= idx < self.map@.len() implies heap_has_copy(
                    self.heap@,
                    (#[trigger] self.map@[idx]).0,
                    self.map@[idx].1,
                ) by {
                    let ent2 = HeapEnt { entry: self.map@[idx].0, order: self.map@[idx].1 };
                    assert(pre.heap@.contains(ent2));
                    assert(ent2 != pre.heap@[0]);
                    assert(self.heap@.contains(ent2));
                }
            }
        }
    }

    /// Number of live keys.
    pub fn len(&self) -> (r: usize)
        requires
            self.wf(),
        ensures
            r == self.spec_len(),
    {
        proof {
            self.lemma_dom_card();
        }
        self.map.len()
    }

    /// Length of the heap backing sequence, stale copies included.
    pub fn backing_len(&self) -> (r: usize)
        ensures
            r == self.spec_backing_len(),
    {
        self.heap.len()
    }

    /// A snapshot of every current binding, one pair per live key.
    pub(crate) fn entries(&self) -> (r: Vec<(E, V)>)
        requires
            self.wf(),
        ensures
            forall|i: int|
                0 <= i < r@.len() ==> self@.dom().contains((#[trigger] r@[i]).0)
                    && self@[r@[i].0] == r@[i].1,
            forall|k: E|
                self@.dom().contains(k) ==> exists|i: int|
                    0 <= i < r@.len() && (#[trigger] r@[i]).0 == k,
    {
        let mut r: Vec<(E, V)> = Vec::new();
        let mut i: usize = 0;
        while i < self.map.len()
            invariant
                self.wf(),
                i <= self.map@.len(),
                r@ == self.map@.take(i as int),
            decreases self.map@.len() - i,
        {
            r.push(self.map[i]);
            i = i + 1;
        }
        proof {
            assert(r@ == self.map@);
            assert forall|i2: int|
                0 <= i2 < r@.len() implies self@.dom().contains((#[trigger] r@[i2]).0)
                && self@[r@[i2].0] == r@[i2].1 by {
                lemma_assoc_at_index(self.map@, i2);
            }
        }
        r
    }
}

} // verus!
