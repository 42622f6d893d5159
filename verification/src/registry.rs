//! The hosts that a scan has discovered, one hardware address for each
//! network address, kept in ascending order of address.

use vstd::prelude::*;

use crate::address::{HardwareAddress, NetworkAddress};

verus! {

/// A host that has answered: where it is, and what it is.
#[derive(Clone, Copy, Debug, PartialEq, Eq, Structural)]
pub struct DiscoveredHost {
    pub address: NetworkAddress,
    pub hardware: HardwareAddress,
}

/// Strictly ascending by address: no address occurs twice.
pub open spec fn ascending(s: Seq<DiscoveredHost>) -> bool {
    forall|i: int, j: int|
        #![trigger s[i], s[j]]
        0 <= i < j < s.len() ==> s[i].address.value < s[j].address.value
}

/// Whether some host of `s` has the address `a`.
pub open spec fn has_address(s: Seq<DiscoveredHost>, a: NetworkAddress) -> bool {
    exists|i: int| 0 <= i < s.len() && (#[trigger] s[i]).address == a
}

/// The hardware address recorded for `a`, if any.
pub open spec fn hardware_of(s: Seq<DiscoveredHost>, a: NetworkAddress) -> Option<
    HardwareAddress,
> {
    if has_address(s, a) {
        Some(s[choose|i: int| 0 <= i < s.len() && (#[trigger] s[i]).address == a].hardware)
    } else {
        None
    }
}

/// The number of hosts of `s` that stand before the place of `a`.
pub open spec fn slot(s: Seq<DiscoveredHost>, a: NetworkAddress) -> int
    decreases s.len(),
{
    if s.len() > 0 && s.last().address.value >= a.value {
        slot(s.drop_last(), a)
    } else {
        s.len() as int
    }
}

/// `s` after `host` is offered to it: unchanged where its address is
/// already known, else with `host` at the place that keeps the order.
pub open spec fn offered(s: Seq<DiscoveredHost>, host: DiscoveredHost) -> Seq<DiscoveredHost> {
    if has_address(s, host.address) {
        s
    } else {
        s.insert(slot(s, host.address), host)
    }
}

/// In an ascending sequence the place of `a` is where the smaller addresses
/// end.
pub proof fn lemma_slot(s: Seq<DiscoveredHost>, a: NetworkAddress, k: int)
    requires
        ascending(s),
        0 <= k <= s.len(),
        forall|i: int| 0 <= i < k ==> (#[trigger] s[i]).address.value < a.value,
        forall|i: int| k <= i < s.len() ==> (#[trigger] s[i]).address.value >= a.value,
    ensures
        slot(s, a) == k,
    decreases s.len(),
{
    if s.len() > 0 && s.last().address.value >= a.value {
        let t = s.drop_last();
        assert(k < s.len()) by {
            if k == s.len() {
                assert(s[k - 1].address.value < a.value);
            }
        }
        assert forall|i: int, j: int| 0 <= i < j < t.len() implies (#[trigger] t[i]).address.value
            < (#[trigger] t[j]).address.value by {
            assert(t[i] == s[i] && t[j] == s[j]);
        }
        assert forall|i: int| 0 <= i < k implies (#[trigger] t[i]).address.value < a.value by {
            assert(t[i] == s[i]);
        }
        assert forall|i: int| k <= i < t.len() implies (#[trigger] t[i]).address.value
            >= a.value by {
            assert(t[i] == s[i]);
        }
        lemma_slot(t, a, k);
    } else if s.len() > 0 {
        if k < s.len() {
            assert(s[s.len() - 1].address.value >= a.value);
        }
    }
}

/// Offering a host keeps the order, makes its address known, and leaves
/// every address that was known with the hardware address it had.
pub proof fn lemma_offered(s: Seq<DiscoveredHost>, host: DiscoveredHost)
    requires
        ascending(s),
    ensures
        ascending(offered(s, host)),
        has_address(offered(s, host), host.address),
        forall|a: NetworkAddress| has_address(s, a) ==> hardware_of(offered(s, host), a) == hardware_of(s, a),
        forall|a: NetworkAddress|
            has_address(offered(s, host), a) <==> has_address(s, a) || a == host.address,
        !has_address(s, host.address) ==> hardware_of(offered(s, host), host.address) == Some(
            host.hardware,
        ),
{
    let t = offered(s, host);
    if has_address(s, host.address) {
    } else {
        let k = slot(s, host.address);
        lemma_slot_splits(s, host.address);
        assert(t[k] == host);
        assert forall|i: int, j: int| 0 <= i < j < t.len() implies (#[trigger] t[i]).address.value
            < (#[trigger] t[j]).address.value by {
            let si = if i < k { i } else { i - 1 };
            let sj = if j < k { j } else { j - 1 };
            if i != k {
                assert(t[i] == s[si]);
            }
            if j != k {
                assert(t[j] == s[sj]);
            }
        }
        assert forall|a: NetworkAddress| has_address(t, a) <==> has_address(s, a) || a
            == host.address by {
            if has_address(s, a) {
                let i = choose|i: int| 0 <= i < s.len() && (#[trigger] s[i]).address == a;
                let ti = if i < k { i } else { i + 1 };
                assert(t[ti] == s[i]);
            }
            if has_address(t, a) && a != host.address {
                let i = choose|i: int| 0 <= i < t.len() && (#[trigger] t[i]).address == a;
                let si = if i < k { i } else { i - 1 };
                assert(t[i] == s[si]);
            }
        }
        assert forall|a: NetworkAddress| has_address(s, a) implies hardware_of(t, a)
            == hardware_of(s, a) by {
            let i = choose|i: int| 0 <= i < s.len() && (#[trigger] s[i]).address == a;
            let j = choose|j: int| 0 <= j < t.len() && (#[trigger] t[j]).address == a;
            let ti = if i < k { i } else { i + 1 };
            assert(t[ti] == s[i]);
            lemma_one_place(t, j, ti);
        }
        let j = choose|j: int| 0 <= j < t.len() && (#[trigger] t[j]).address == host.address;
        lemma_one_place(t, j, k);
    }
}

/// In an ascending sequence an address stands at one place only.
pub proof fn lemma_one_place(s: Seq<DiscoveredHost>, i: int, j: int)
    requires
        ascending(s),
        0 <= i < s.len(),
        0 <= j < s.len(),
        s[i].address == s[j].address,
    ensures
        i == j,
{
    if i < j {
        assert(s[i].address.value < s[j].address.value);
    }
    if j < i {
        assert(s[j].address.value < s[i].address.value);
    }
}

/// The place of `a` parts the smaller addresses from the others.
pub proof fn lemma_slot_splits(s: Seq<DiscoveredHost>, a: NetworkAddress)
    requires
        ascending(s),
    ensures
        0 <= slot(s, a) <= s.len(),
        forall|i: int| 0 <= i < slot(s, a) ==> (#[trigger] s[i]).address.value < a.value,
        forall|i: int| slot(s, a) <= i < s.len() ==> (#[trigger] s[i]).address.value >= a.value,
    decreases s.len(),
{
    if s.len() > 0 && s.last().address.value >= a.value {
        let t = s.drop_last();
        assert forall|i: int, j: int| 0 <= i < j < t.len() implies (#[trigger] t[i]).address.value
            < (#[trigger] t[j]).address.value by {
            assert(t[i] == s[i] && t[j] == s[j]);
        }
        lemma_slot_splits(t, a);
        assert forall|i: int| 0 <= i < slot(s, a) implies (#[trigger] s[i]).address.value
            < a.value by {
            assert(t[i] == s[i]);
        }
        assert forall|i: int| slot(s, a) <= i < s.len() implies (#[trigger] s[i]).address.value
            >= a.value by {
            if i < t.len() {
                assert(t[i] == s[i]);
            }
        }
    } else if s.len() > 0 {
        assert forall|i: int| 0 <= i < s.len() implies (#[trigger] s[i]).address.value
            < a.value by {
            if i < s.len() - 1 {
                assert(s[i].address.value < s[s.len() - 1].address.value);
            }
        }
    }
}

/// Who answers first is kept: a second offer for an address changes
/// nothing, whatever hardware address it brings.
pub proof fn lemma_first_writer_wins(
    s: Seq<DiscoveredHost>,
    address: NetworkAddress,
    first: HardwareAddress,
    second: HardwareAddress,
)
    requires
        ascending(s),
    ensures
        ({
            let once = offered(s, DiscoveredHost { address, hardware: first });
            let twice = offered(once, DiscoveredHost { address, hardware: second });
            &&& twice == once
            &&& !has_address(s, address) ==> hardware_of(twice, address) == Some(first)
        }),
{
    lemma_offered(s, DiscoveredHost { address, hardware: first });
}

/// The set of the hosts discovered in one scan.
pub struct HostRegistry {
    hosts: Vec<DiscoveredHost>,
}

impl HostRegistry {
    /// The hosts, in ascending order of address.
    pub closed spec fn view(&self) -> Seq<DiscoveredHost> {
        self.hosts@
    }

    /// The invariant: the hosts are in strictly ascending order of address.
    pub open spec fn wf(&self) -> bool {
        ascending(self@)
    }

    /// The registry of a scan that has not begun.
    pub fn new() -> (r: HostRegistry)
        ensures
            r.wf(),
            r@ == Seq::<DiscoveredHost>::empty(),
    {
        HostRegistry { hosts: Vec::new() }
    }

    /// The number of hosts.
    pub fn len(&self) -> (n: usize)
        ensures
            n == self@.len(),
    {
        self.hosts.len()
    }

    /// The number of hosts below `address`, found by bisection.
    fn place(&self, address: NetworkAddress) -> (k: usize)
        requires
            self.wf(),
        ensures
            k == slot(self@, address),
            k <= self@.len(),
            has_address(self@, address) <==> (k < self@.len() && self@[k as int].address
                == address),
    {
        let mut lo: usize = 0;
        let mut hi: usize = self.hosts.len();
        while lo < hi
            invariant
                self.wf(),
                0 <= lo <= hi <= self.hosts.len(),
                forall|i: int| 0 <= i < lo ==> (#[trigger] self@[i]).address.value < address.value,
                forall|i: int|
                    hi <= i < self@.len() ==> (#[trigger] self@[i]).address.value >= address.value,
            decreases hi - lo,
        {
            let mid = lo + (hi - lo) / 2;
            if self.hosts[mid].address.value < address.value {
                assert forall|i: int| 0 <= i < mid + 1 implies (#[trigger] self@[i]).address.value
                    < address.value by {
                    if i < mid {
                        assert(self@[i].address.value < self@[mid as int].address.value);
                    }
                }
                lo = mid + 1;
            } else {
                assert forall|i: int| mid <= i < self@.len() implies (
                #[trigger] self@[i]).address.value >= address.value by {
                    if mid < i {
                        assert(self@[mid as int].address.value < self@[i].address.value);
                    }
                }
                hi = mid;
            }
        }
        proof {
            lemma_slot(self@, address, lo as int);
            if has_address(self@, address) {
                let i = choose|i: int| 0 <= i < self@.len() && (#[trigger] self@[i]).address
                    == address;
                if i > lo {
                    assert(self@[lo as int].address.value < self@[i].address.value);
                }
            }
        }
        lo
    }

    /// Records `hardware` for `address` unless the address is known already.
    /// Says whether it was recorded.
    pub fn insert_if_absent(&mut self, address: NetworkAddress, hardware: HardwareAddress) -> (inserted: bool)
        requires
            old(self).wf(),
        ensures
            final(self).wf(),
            inserted == !has_address(old(self)@, address),
            final(self)@ == offered(old(self)@, DiscoveredHost { address, hardware }),
            final(self)@.len() == old(self)@.len() + (if inserted {
                1int
            } else {
                0int
            }),
            hardware_of(final(self)@, address) == (if inserted {
                Some(hardware)
            } else {
                hardware_of(old(self)@, address)
            }),
    {
        let k = self.place(address);
        proof {
            lemma_offered(self@, DiscoveredHost { address, hardware });
        }
        if k < self.hosts.len() && self.hosts[k].address.value == address.value {
            false
        } else {
            self.hosts.insert(k, DiscoveredHost { address, hardware });
            true
        }
    }

    /// The hardware address recorded for `address`.
    pub fn lookup(&self, address: NetworkAddress) -> (r: Option<HardwareAddress>)
        requires
            self.wf(),
        ensures
            r == hardware_of(self@, address),
    {
        let k = self.place(address);
        if k < self.hosts.len() && self.hosts[k].address.value == address.value {
            proof {
                let j = choose|j: int| 0 <= j < self@.len() && (#[trigger] self@[j]).address
                    == address;
                lemma_one_place(self@, j, k as int);
            }
            Some(self.hosts[k].hardware)
        } else {
            None
        }
    }

    /// The host at place `i` of the ascending order.
    pub fn get(&self, i: usize) -> (h: DiscoveredHost)
        requires
            i < self@.len(),
        ensures
            h == self@[i as int],
    {
        self.hosts[i]
    }

    /// All hosts, in ascending order of address.
    pub fn snapshot_sorted_by_address(&self) -> (r: Vec<DiscoveredHost>)
        requires
            self.wf(),
        ensures
            r@ == self@,
            ascending(r@),
    {
        let mut r: Vec<DiscoveredHost> = Vec::new();
        let mut i: usize = 0;
        while i < self.hosts.len()
            invariant
                i <= self.hosts.len(),
                r@ == self@.subrange(0, i as int),
            decreases self.hosts.len() - i,
        {
            r.push(self.hosts[i]);
            i = i + 1;
        }
        assert(self@.subrange(0, self@.len() as int) == self@);
        r
    }
}

} // verus!
