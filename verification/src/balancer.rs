use vstd::prelude::*;

use core::cmp::Ordering;

use crate::addr::IpAddress;
use crate::balance_heap::{BalanceHeap, HeapKey};
use crate::ord::EasyOrd;

verus! {

/// Load state of one source address: the number of outstanding
/// acquisitions and the operator-chosen weight.
#[derive(Clone, Copy)]
pub struct MetricState {
    use_count: usize,
    metric: usize,
}

impl MetricState {
    /// The weight is always at least one, so the effective load is
    /// well defined.
    #[verifier::type_invariant]
    spec fn type_inv(self) -> bool {
        self.metric >= 1
    }

    pub closed spec fn spec_use_count(&self) -> nat {
        self.use_count as nat
    }

    pub closed spec fn spec_metric(&self) -> nat {
        self.metric as nat
    }

    /// Effective load: outstanding uses per unit of weight, rounded
    /// down.
    pub open spec fn load(&self) -> int {
        self.spec_use_count() as int / self.spec_metric() as int
    }

    pub fn new(metric: usize) -> (r: Self)
        requires
            metric >= 1,
        ensures
            r.spec_use_count() == 0,
            r.spec_metric() == metric,
    {
        MetricState { use_count: 0, metric }
    }

    pub fn use_count(&self) -> (r: usize)
        ensures
            r == self.spec_use_count(),
    {
        self.use_count
    }

    pub fn metric(&self) -> (r: usize)
        ensures
            r == self.spec_metric(),
    {
        self.metric
    }
}

impl EasyOrd for MetricState {
    /// Lower effective load ranks higher, so a max-heap of metric
    /// states yields the least-loaded address.
    open spec fn ord_key(&self) -> int {
        -self.load()
    }

    fn cmp(&self, other: &Self) -> (r: Ordering) {
        proof {
            use_type_invariant(&*self);
            use_type_invariant(&*other);
        }
        let a = self.use_count / self.metric;
        let b = other.use_count / other.metric;
        if b < a {
            Ordering::Less
        } else if a == b {
            Ordering::Equal
        } else {
            Ordering::Greater
        }
    }
}

/// The plain-value view of a heap of metric states: each address maps
/// to its (use count, metric) pair.
pub open spec fn pair_view<K>(m: Map<K, MetricState>) -> Map<K, (nat, nat)> {
    Map::new(
        |k: K| m.dom().contains(k),
        |k: K| ((m[k].spec_use_count(), m[k].spec_metric())),
    )
}

/// Effective load of a (use count, metric) pair.
pub open spec fn pair_load(p: (nat, nat)) -> int {
    p.0 as int / p.1 as int
}

/// Sum of the use counts over a finite map of (use count, metric)
/// pairs.
pub open spec fn map_sum<K>(m: Map<K, (nat, nat)>) -> int
    decreases m.dom().len(),
    when m.dom().finite()
{
    if m.dom().is_empty() {
        0
    } else {
        let k = m.dom().choose();
        m[k].0 + map_sum(m.remove(k))
    }
}

proof fn lemma_map_sum_remove<K>(m: Map<K, (nat, nat)>, k: K)
    requires
        m.dom().finite(),
        m.dom().contains(k),
    ensures
        map_sum(m) == map_sum(m.remove(k)) + m[k].0,
    decreases m.dom().len(),
{
    let c = m.dom().choose();
    assert(m.dom().contains(c));
    if c == k {
    } else {
        lemma_map_sum_remove(m.remove(c), k);
        lemma_map_sum_remove(m.remove(k), c);
        assert(m.remove(c).remove(k) =~= m.remove(k).remove(c));
    }
}

proof fn lemma_map_sum_insert<K>(m: Map<K, (nat, nat)>, k: K, p: (nat, nat))
    requires
        m.dom().finite(),
    ensures
        map_sum(m.insert(k, p)) == map_sum(m) + p.0 - (if m.dom().contains(k) {
            m[k].0 as int
        } else {
            0
        }),
{
    let m2 = m.insert(k, p);
    lemma_map_sum_remove(m2, k);
    if m.dom().contains(k) {
        lemma_map_sum_remove(m, k);
        assert(m2.remove(k) =~= m.remove(k));
    } else {
        assert(m2.remove(k) =~= m);
    }
}

/// The mapping that results from registering a sequence of
/// `(address, metric)` pairs with the IPv4 heap: each IPv4 pair is
/// inserted with a use count of zero, later pairs overriding earlier
/// ones.
pub open spec fn spec_extend_v4(m: Map<u32, (nat, nat)>, addrs: Seq<(IpAddress, usize)>) -> Map<
    u32,
    (nat, nat),
>
    decreases addrs.len(),
{
    if addrs.len() == 0 {
        m
    } else {
        let rest = spec_extend_v4(m, addrs.drop_last());
        match addrs.last().0 {
            IpAddress::V4(x) => rest.insert(x, (0, addrs.last().1 as nat)),
            IpAddress::V6(_) => rest,
        }
    }
}

/// The IPv6 counterpart of `spec_extend_v4`.
pub open spec fn spec_extend_v6(m: Map<u128, (nat, nat)>, addrs: Seq<(IpAddress, usize)>) -> Map<
    u128,
    (nat, nat),
>
    decreases addrs.len(),
{
    if addrs.len() == 0 {
        m
    } else {
        let rest = spec_extend_v6(m, addrs.drop_last());
        match addrs.last().0 {
            IpAddress::V4(_) => rest,
            IpAddress::V6(x) => rest.insert(x, (0, addrs.last().1 as nat)),
        }
    }
}

/// Re-inserts the binding for `value` with its use count moved one
/// step up or down.
fn heap_chg<E: HeapKey>(heap: &mut BalanceHeap<E, MetricState>, value: E, up: bool)
    requires
        old(heap).wf(),
        old(heap)@.dom().contains(value),
        up ==> pair_view(old(heap)@)[value].0 < usize::MAX,
        !up ==> pair_view(old(heap)@)[value].0 >= 1,
    ensures
        final(heap).wf(),
        pair_view(final(heap)@) == pair_view(old(heap)@).insert(
            value,
            (
                (if up {
                    pair_view(old(heap)@)[value].0 + 1
                } else {
                    (pair_view(old(heap)@)[value].0 - 1) as nat
                }) as nat,
                pair_view(old(heap)@)[value].1,
            ),
        ),
        final(heap).compaction_ok(),
{
    let cur = *heap.get(&value).unwrap();
    proof {
        use_type_invariant(cur);
    }
    let next = if up {
        MetricState { use_count: cur.use_count + 1, metric: cur.metric }
    } else {
        MetricState { use_count: cur.use_count - 1, metric: cur.metric }
    };
    heap.update(value, next);
    proof {
        assert(pair_view(heap@) =~= pair_view(old(heap)@).insert(
            value,
            (next.spec_use_count(), next.spec_metric()),
        ));
    }
}

/// The load balancer's state: one update heap per address family,
/// each keyed by the numeric address and valued by its load state.
pub struct BalancerState {
    v4_heap: BalanceHeap<u32, MetricState>,
    v6_heap: BalanceHeap<u128, MetricState>,
}

impl BalancerState {
    pub closed spec fn wf(&self) -> bool {
        self.v4_heap.wf() && self.v6_heap.wf()
    }

    pub closed spec fn v4_map(&self) -> Map<u32, (nat, nat)> {
        pair_view(self.v4_heap@)
    }

    pub closed spec fn v6_map(&self) -> Map<u128, (nat, nat)> {
        pair_view(self.v6_heap@)
    }

    pub open spec fn contains_addr(&self, a: IpAddress) -> bool {
        match a {
            IpAddress::V4(x) => self.v4_map().dom().contains(x),
            IpAddress::V6(x) => self.v6_map().dom().contains(x),
        }
    }

    /// The (use count, metric) pair recorded for an address.
    pub open spec fn pair_of(&self, a: IpAddress) -> (nat, nat) {
        match a {
            IpAddress::V4(x) => self.v4_map()[x],
            IpAddress::V6(x) => self.v6_map()[x],
        }
    }

    /// Effective load recorded for an address.
    pub open spec fn load_of(&self, a: IpAddress) -> int {
        pair_load(self.pair_of(a))
    }

    /// Sum of the use counts over both families: the number of
    /// outstanding acquisitions.
    pub open spec fn total_use_count(&self) -> int {
        map_sum(self.v4_map()) + map_sum(self.v6_map())
    }

    proof fn lemma_finite(&self)
        requires
            self.wf(),
        ensures
            self.v4_map().dom().finite(),
            self.v6_map().dom().finite(),
    {
        self.v4_heap.lemma_finite_dom();
        self.v6_heap.lemma_finite_dom();
        assert(self.v4_map().dom() =~= self.v4_heap@.dom());
        assert(self.v6_map().dom() =~= self.v6_heap@.dom());
    }

    pub fn new() -> (r: Self)
        ensures
            r.wf(),
            r.v4_map() == Map::<u32, (nat, nat)>::empty(),
            r.v6_map() == Map::<u128, (nat, nat)>::empty(),
            r.total_use_count() == 0,
    {
        let r = BalancerState { v4_heap: BalanceHeap::new(), v6_heap: BalanceHeap::new() };
        proof {
            assert(r.v4_map() =~= Map::<u32, (nat, nat)>::empty());
            assert(r.v6_map() =~= Map::<u128, (nat, nat)>::empty());
        }
        r
    }

    /// Registers each `(address, metric)` pair with the heap of its
    /// family, with an initial use count of zero.
    pub fn extend(&mut self, addrs: &Vec<(IpAddress, usize)>)
        requires
            old(self).wf(),
            forall|i: int| 0 <= i < addrs@.len() ==> (#[trigger] addrs@[i]).1 >= 1,
        ensures
            final(self).wf(),
            final(self).v4_map() == spec_extend_v4(old(self).v4_map(), addrs@),
            final(self).v6_map() == spec_extend_v6(old(self).v6_map(), addrs@),
    {
        let mut i: usize = 0;
        while i < addrs.len()
            invariant
                self.wf(),
                i <= addrs@.len(),
                forall|j: int| 0 <= j < addrs@.len() ==> (#[trigger] addrs@[j]).1 >= 1,
                self.v4_map() == spec_extend_v4(old(self).v4_map(), addrs@.take(i as int)),
                self.v6_map() == spec_extend_v6(old(self).v6_map(), addrs@.take(i as int)),
            decreases addrs@.len() - i,
        {
            let p = addrs[i];
            let ms = MetricState::new(p.1);
            proof {
                assert(addrs@.take(i + 1).drop_last() =~= addrs@.take(i as int));
                assert(addrs@.take(i + 1).last() == addrs@[i as int]);
            }
            match p.0 {
                IpAddress::V4(x) => {
                    self.v4_heap.update(x, ms);
                    proof {
                        assert(self.v4_map() =~= spec_extend_v4(
                            old(self).v4_map(),
                            addrs@.take(i + 1),
                        ));
                    }
                },
                IpAddress::V6(x) => {
                    self.v6_heap.update(x, ms);
                    proof {
                        assert(self.v6_map() =~= spec_extend_v6(
                            old(self).v6_map(),
                            addrs@.take(i + 1),
                        ));
                    }
                },
            }
            i = i + 1;
        }
        proof {
            assert(addrs@.take(addrs@.len() as int) =~= addrs@);
        }
    }

    /// Acquires the least-loaded address among the allowed families:
    /// each allowed heap offers its top, the offer with the lower
    /// effective load wins, and the winner's use count rises by one.
    /// Returns `None` exactly when every allowed family is empty.
    pub fn take(&mut self, take_v4: bool, take_v6: bool) -> (r: Option<IpAddress>)
        requires
            old(self).wf(),
            take_v4 ==> forall|a: u32|
                old(self).v4_map().dom().contains(a) ==> (#[trigger] old(self).v4_map()[a]).0
                    < usize::MAX,
            take_v6 ==> forall|a: u128|
                old(self).v6_map().dom().contains(a) ==> (#[trigger] old(self).v6_map()[a]).0
                    < usize::MAX,
        ensures
            final(self).wf(),
            (r is None) <==> ((!take_v4 || old(self).v4_map() =~= Map::<u32, (nat, nat)>::empty())
                && (!take_v6 || old(self).v6_map() =~= Map::<u128, (nat, nat)>::empty())),
            r is None ==> final(self).v4_map() == old(self).v4_map() && final(self).v6_map()
                == old(self).v6_map() && final(self).total_use_count() == old(
                self,
            ).total_use_count(),
            match r {
                Some(a) => {
                    &&& a is V4 ==> take_v4
                    &&& a is V6 ==> take_v6
                    &&& old(self).contains_addr(a)
                    &&& match a {
                        IpAddress::V4(x) => final(self).v4_map() == old(self).v4_map().insert(
                            x,
                            ((old(self).v4_map()[x].0 + 1) as nat, old(self).v4_map()[x].1),
                        ) && final(self).v6_map() == old(self).v6_map(),
                        IpAddress::V6(x) => final(self).v6_map() == old(self).v6_map().insert(
                            x,
                            ((old(self).v6_map()[x].0 + 1) as nat, old(self).v6_map()[x].1),
                        ) && final(self).v4_map() == old(self).v4_map(),
                    }
                    &&& take_v4 ==> forall|b: u32|
                        old(self).v4_map().dom().contains(b) ==> old(self).load_of(a)
                            <= pair_load(#[trigger] old(self).v4_map()[b])
                    &&& take_v6 ==> forall|b: u128|
                        old(self).v6_map().dom().contains(b) ==> old(self).load_of(a)
                            <= pair_load(#[trigger] old(self).v6_map()[b])
                    &&& final(self).total_use_count() == old(self).total_use_count() + 1
                },
                None => true,
            },
    {
        proof {
            self.lemma_finite();
        }
        let mut best_v4: Option<(u32, MetricState)> = None;
        if take_v4 {
            best_v4 = self.v4_heap.peek();
        }
        let mut best_v6: Option<(u128, MetricState)> = None;
        if take_v6 {
            best_v6 = self.v6_heap.peek();
        }
        match (best_v4, best_v6) {
            (None, None) => None,
            (Some(p4), None) => {
                heap_chg(&mut self.v4_heap, p4.0, true);
                proof {
                    lemma_map_sum_insert(
                        old(self).v4_map(),
                        p4.0,
                        ((old(self).v4_map()[p4.0].0 + 1) as nat, old(self).v4_map()[p4.0].1),
                    );
                }
                Some(IpAddress::V4(p4.0))
            },
            (None, Some(p6)) => {
                heap_chg(&mut self.v6_heap, p6.0, true);
                proof {
                    lemma_map_sum_insert(
                        old(self).v6_map(),
                        p6.0,
                        ((old(self).v6_map()[p6.0].0 + 1) as nat, old(self).v6_map()[p6.0].1),
                    );
                }
                Some(IpAddress::V6(p6.0))
            },
            (Some(p4), Some(p6)) => {
                if matches!(p6.1.cmp(&p4.1), Ordering::Less) {
                    heap_chg(&mut self.v4_heap, p4.0, true);
                    proof {
                        lemma_map_sum_insert(
                            old(self).v4_map(),
                            p4.0,
                            ((old(self).v4_map()[p4.0].0 + 1) as nat, old(self).v4_map()[p4.0].1),
                        );
                    }
                    Some(IpAddress::V4(p4.0))
                } else {
                    heap_chg(&mut self.v6_heap, p6.0, true);
                    proof {
                        lemma_map_sum_insert(
                            old(self).v6_map(),
                            p6.0,
                            ((old(self).v6_map()[p6.0].0 + 1) as nat, old(self).v6_map()[p6.0].1),
                        );
                    }
                    Some(IpAddress::V6(p6.0))
                }
            },
        }
    }

    /// Releases one acquisition of `addr`: its use count falls by one.
    pub fn release(&mut self, addr: IpAddress)
        requires
            old(self).wf(),
            old(self).contains_addr(addr),
            old(self).pair_of(addr).0 >= 1,
        ensures
            final(self).wf(),
            match addr {
                IpAddress::V4(x) => final(self).v4_map() == old(self).v4_map().insert(
                    x,
                    ((old(self).v4_map()[x].0 - 1) as nat, old(self).v4_map()[x].1),
                ) && final(self).v6_map() == old(self).v6_map(),
                IpAddress::V6(x) => final(self).v6_map() == old(self).v6_map().insert(
                    x,
                    ((old(self).v6_map()[x].0 - 1) as nat, old(self).v6_map()[x].1),
                ) && final(self).v4_map() == old(self).v4_map(),
            },
            final(self).total_use_count() == old(self).total_use_count() - 1,
    {
        proof {
            self.lemma_finite();
        }
        match addr {
            IpAddress::V4(x) => {
                heap_chg(&mut self.v4_heap, x, false);
                proof {
                    lemma_map_sum_insert(
                        old(self).v4_map(),
                        x,
                        ((old(self).v4_map()[x].0 - 1) as nat, old(self).v4_map()[x].1),
                    );
                }
            },
            IpAddress::V6(x) => {
                heap_chg(&mut self.v6_heap, x, false);
                proof {
                    lemma_map_sum_insert(
                        old(self).v6_map(),
                        x,
                        ((old(self).v6_map()[x].0 - 1) as nat, old(self).v6_map()[x].1),
                    );
                }
            },
        }
    }

    /// The use count currently recorded for an address, if the
    /// address is configured.
    pub fn use_count_of(&self, addr: IpAddress) -> (r: Option<usize>)
        requires
            self.wf(),
        ensures
            r == (if self.contains_addr(addr) {
                Some((self.pair_of(addr).0 as usize))
            } else {
                None::<usize>
            }),
    {
        match addr {
            IpAddress::V4(x) => {
                match self.v4_heap.get(&x) {
                    Some(ms) => Some(ms.use_count()),
                    None => None,
                }
            },
            IpAddress::V6(x) => {
                match self.v6_heap.get(&x) {
                    Some(ms) => Some(ms.use_count()),
                    None => None,
                }
            },
        }
    }

    /// True when every recorded use count still has room to rise,
    /// which is what `take` asks of its caller.
    pub fn use_counts_below_max(&self) -> (r: bool)
        requires
            self.wf(),
        ensures
            r == ((forall|a: u32|
                self.v4_map().dom().contains(a) ==> (#[trigger] self.v4_map()[a]).0 < usize::MAX)
                && (forall|a: u128|
                self.v6_map().dom().contains(a) ==> (#[trigger] self.v6_map()[a]).0
                    < usize::MAX)),
    {
        let e4 = self.v4_heap.entries();
        let mut i: usize = 0;
        while i < e4.len()
            invariant
                self.wf(),
                i <= e4@.len(),
                forall|j: int|
                    0 <= j < e4@.len() ==> self.v4_heap@.dom().contains((#[trigger] e4@[j]).0)
                        && self.v4_heap@[e4@[j].0] == e4@[j].1,
                forall|k: u32|
                    self.v4_heap@.dom().contains(k) ==> exists|j: int|
                        0 <= j < e4@.len() && (#[trigger] e4@[j]).0 == k,
                forall|j: int|
                    0 <= j < i ==> ((#[trigger] e4@[j]).1).spec_use_count() < usize::MAX,
            decreases e4@.len() - i,
        {
            if e4[i].1.use_count() == usize::MAX {
                proof {
                    let a = e4@[i as int].0;
                    assert(self.v4_map().dom().contains(a) && (self.v4_map()[a]).0
                        >= usize::MAX);
                }
                return false;
            }
            i = i + 1;
        }
        let e6 = self.v6_heap.entries();
        let mut i6: usize = 0;
        while i6 < e6.len()
            invariant
                self.wf(),
                i6 <= e6@.len(),
                forall|j: int|
                    0 <= j < e6@.len() ==> self.v6_heap@.dom().contains((#[trigger] e6@[j]).0)
                        && self.v6_heap@[e6@[j].0] == e6@[j].1,
                forall|k: u128|
                    self.v6_heap@.dom().contains(k) ==> exists|j: int|
                        0 <= j < e6@.len() && (#[trigger] e6@[j]).0 == k,
                forall|j: int|
                    0 <= j < i6 ==> ((#[trigger] e6@[j]).1).spec_use_count() < usize::MAX,
            decreases e6@.len() - i6,
        {
            if e6[i6].1.use_count() == usize::MAX {
                proof {
                    let a = e6@[i6 as int].0;
                    assert(self.v6_map().dom().contains(a) && (self.v6_map()[a]).0
                        >= usize::MAX);
                }
                return false;
            }
            i6 = i6 + 1;
        }
        true
    }
}

/// A token release right after an acquisition leaves every use count
/// as it was before the acquisition.
pub proof fn lemma_release_restores<K>(
    m0: Map<K, (nat, nat)>,
    m1: Map<K, (nat, nat)>,
    m2: Map<K, (nat, nat)>,
    k: K,
)
    requires
        m0.dom().contains(k),
        m1 == m0.insert(k, ((m0[k].0 + 1) as nat, m0[k].1)),
        m2 == m1.insert(k, ((m1[k].0 - 1) as nat, m1[k].1)),
    ensures
        m2 == m0,
{
    assert(m2 =~= m0);
}

} // verus!
