//! The server's registry of per-client channels: a fixed pool of addresses,
//! each either free or in use by exactly one transfer.
use crate::ztp::{request_at, ZTPRequest, ZTPRequestCode};
use vstd::prelude::*;

verus! {

/// The channel addresses of the pool, and which of them are in use.
#[derive(Debug)]
pub struct ChannelRegistry {
    slots: Vec<String>,
    busy: Vec<bool>,
}

/// A registry as a mathematical value.
pub struct RegistryModel {
    pub pool: Set<Seq<char>>,
    pub free: Set<Seq<char>>,
    pub in_use: Set<Seq<char>>,
}

/// The free and in-use addresses split the pool: no address is both, and
/// together they are the whole pool.
pub open spec fn partitioned(m: RegistryModel) -> bool {
    &&& m.free.disjoint(m.in_use)
    &&& m.free + m.in_use == m.pool
}

/// The addresses held in `v`.
pub open spec fn addr_set(v: Seq<String>) -> Set<Seq<char>> {
    Set::new(|a: Seq<char>| exists|i: int| 0 <= i < v.len() && v[i]@ == a)
}

proof fn lemma_addr_set_push(v: Seq<String>, x: String)
    ensures
        addr_set(v.push(x)) == addr_set(v).insert(x@),
{
    let w = v.push(x);
    assert forall|a: Seq<char>| addr_set(w).contains(a) <==> addr_set(v).insert(x@).contains(a) by {
        if addr_set(w).contains(a) {
            let i = choose|i: int| 0 <= i < w.len() && w[i]@ == a;
            if i < v.len() {
                assert(v[i]@ == a);
            }
        }
        if addr_set(v).contains(a) {
            let i = choose|i: int| 0 <= i < v.len() && v[i]@ == a;
            assert(w[i]@ == a);
        }
        if a == x@ {
            assert(w[v.len() as int]@ == a);
        }
    }
    assert(addr_set(w) =~= addr_set(v).insert(x@));
}

/// The addresses of `slots` whose flag in `busy` is `flag`.
pub open spec fn flagged(slots: Seq<String>, busy: Seq<bool>, flag: bool) -> Set<Seq<char>> {
    Set::new(
        |a: Seq<char>| exists|i: int| 0 <= i < slots.len() && slots[i]@ == a && busy[i] == flag,
    )
}

/// Distinct addresses, each with its flag.
pub open spec fn slots_wf(slots: Seq<String>, busy: Seq<bool>) -> bool {
    &&& slots.len() == busy.len()
    &&& forall|i: int, j: int| 0 <= i < j < slots.len() ==> slots[i]@ != slots[j]@
}

proof fn lemma_distinct(slots: Seq<String>, busy: Seq<bool>, i: int, j: int)
    requires
        slots_wf(slots, busy),
        0 <= i < slots.len(),
        0 <= j < slots.len(),
        slots[i]@ == slots[j]@,
    ensures
        i == j,
{
    if i < j {
        assert(slots[i]@ != slots[j]@);
    } else if j < i {
        assert(slots[j]@ != slots[i]@);
    }
}

proof fn lemma_flags_partition(slots: Seq<String>, busy: Seq<bool>)
    requires
        slots_wf(slots, busy),
    ensures
        flagged(slots, busy, false).disjoint(flagged(slots, busy, true)),
        flagged(slots, busy, false) + flagged(slots, busy, true) == addr_set(slots),
{
    let f = flagged(slots, busy, false);
    let u = flagged(slots, busy, true);
    assert forall|a: Seq<char>| !(f.contains(a) && u.contains(a)) by {
        if f.contains(a) && u.contains(a) {
            let i = choose|i: int| 0 <= i < slots.len() && slots[i]@ == a && busy[i] == false;
            let j = choose|j: int| 0 <= j < slots.len() && slots[j]@ == a && busy[j] == true;
            lemma_distinct(slots, busy, i, j);
        }
    }
    assert forall|a: Seq<char>| (f + u).contains(a) <==> addr_set(slots).contains(a) by {
        if addr_set(slots).contains(a) {
            let i = choose|i: int| 0 <= i < slots.len() && slots[i]@ == a;
            if busy[i] {
                assert(u.contains(a));
            } else {
                assert(f.contains(a));
            }
        }
    }
    assert(f + u =~= addr_set(slots));
}

proof fn lemma_flag_update(slots: Seq<String>, busy: Seq<bool>, i: int, flag: bool)
    requires
        slots_wf(slots, busy),
        0 <= i < slots.len(),
        busy[i] != flag,
    ensures
        flagged(slots, busy.update(i, flag), flag) == flagged(slots, busy, flag).insert(slots[i]@),
        flagged(slots, busy.update(i, flag), !flag) == flagged(slots, busy, !flag).remove(
            slots[i]@,
        ),
        flagged(slots, busy, !flag).contains(slots[i]@),
        !flagged(slots, busy, flag).contains(slots[i]@),
{
    let nb = busy.update(i, flag);
    let a = slots[i]@;
    let nf = !flag;
    assert(flagged(slots, busy, !flag).contains(a));
    if flagged(slots, busy, flag).contains(a) {
        let j = choose|j: int| 0 <= j < slots.len() && slots[j]@ == a && busy[j] == flag;
        lemma_distinct(slots, busy, i, j);
    }
    assert forall|x: Seq<char>| #[trigger] flagged(slots, nb, flag).contains(x) <==> flagged(slots, busy, flag).insert(a).contains(x) by {
        if flagged(slots, nb, flag).contains(x) && x != a {
            let j = choose|j: int| 0 <= j < slots.len() && slots[j]@ == x && nb[j] == flag;
            assert(j != i);
            assert(busy[j] == flag);
        }
        if flagged(slots, busy, flag).contains(x) {
            let j = choose|j: int| 0 <= j < slots.len() && slots[j]@ == x && busy[j] == flag;
            assert(j != i);
            assert(nb[j] == flag);
        }
        if x == a {
            assert(nb[i] == flag);
        }
    }
    assert forall|x: Seq<char>| #[trigger] flagged(slots, nb, nf).contains(x) <==> flagged(slots, busy, nf).remove(a).contains(x) by {
        if flagged(slots, nb, !flag).contains(x) {
            let j = choose|j: int| 0 <= j < slots.len() && slots[j]@ == x && nb[j] == !flag;
            assert(j != i);
            assert(busy[j] == !flag);
            if x == a {
                lemma_distinct(slots, busy, i, j);
            }
        }
        if flagged(slots, busy, !flag).remove(a).contains(x) {
            let j = choose|j: int| 0 <= j < slots.len() && slots[j]@ == x && busy[j] == !flag;
            assert(j != i);
            assert(nb[j] == !flag);
        }
    }
    assert(flagged(slots, nb, flag) =~= flagged(slots, busy, flag).insert(a));
    assert(flagged(slots, nb, !flag) =~= flagged(slots, busy, !flag).remove(a));
}

impl View for ChannelRegistry {
    type V = RegistryModel;

    closed spec fn view(&self) -> RegistryModel {
        RegistryModel {
            pool: addr_set(self.slots@),
            free: flagged(self.slots@, self.busy@, false),
            in_use: flagged(self.slots@, self.busy@, true),
        }
    }
}

impl ChannelRegistry {
    /// The pool's addresses are distinct, and each has its flag.
    pub closed spec fn wf(&self) -> bool {
        slots_wf(self.slots@, self.busy@)
    }

    proof fn lemma_partitioned(&self)
        requires
            self.wf(),
        ensures
            partitioned(self@),
    {
        lemma_flags_partition(self.slots@, self.busy@);
    }

    /// A registry whose pool holds the given addresses, all of them free;
    /// an address given twice is one channel.
    pub fn new(addrs: &Vec<String>) -> (r: ChannelRegistry)
        ensures
            r.wf(),
            r@.pool == addr_set(addrs@),
            r@.free == r@.pool,
            r@.in_use.is_empty(),
            partitioned(r@),
    {
        let mut slots: Vec<String> = Vec::new();
        let mut busy: Vec<bool> = Vec::new();
        let mut i: usize = 0;
        proof {
            assert(addr_set(slots@) =~= addr_set(addrs@.subrange(0, 0)));
        }
        while i < addrs.len()
            invariant
                i <= addrs@.len(),
                slots@.len() == busy@.len(),
                forall|k: int| 0 <= k < busy@.len() ==> !busy@[k],
                forall|k: int, l: int| 0 <= k < l < slots@.len() ==> slots@[k]@ != slots@[l]@,
                addr_set(slots@) == addr_set(addrs@.subrange(0, i as int)),
            decreases addrs@.len() - i,
        {
            let a = &addrs[i];
            let mut k: usize = 0;
            let mut found = false;
            while k < slots.len()
                invariant
                    k <= slots@.len(),
                    found ==> addr_set(slots@).contains(a@),
                    !found ==> forall|l: int| 0 <= l < k ==> slots@[l]@ != a@,
                decreases slots@.len() - k,
            {
                if slots[k] == *a {
                    found = true;
                    assert(slots@[k as int]@ == a@);
                }
                k = k + 1;
            }
            proof {
                assert(addrs@.subrange(0, i + 1) == addrs@.subrange(0, i as int).push(*a));
                lemma_addr_set_push(addrs@.subrange(0, i as int), *a);
            }
            if !found {
                let ghost old_slots = slots@;
                let c = a.clone();
                slots.push(c);
                busy.push(false);
                proof {
                    lemma_addr_set_push(old_slots, c);
                }
            } else {
                proof {
                    assert(addr_set(slots@).insert(a@) =~= addr_set(slots@));
                }
            }
            i = i + 1;
        }
        let r = ChannelRegistry { slots, busy };
        proof {
            r.lemma_partitioned();
            assert(addrs@.subrange(0, addrs@.len() as int) == addrs@);
            assert(r@.pool =~= addr_set(r.slots@));
            assert(r@.free =~= r@.pool);
            assert(r@.in_use =~= Set::empty());
        }
        r
    }

    /// Takes a free channel for a new client: its address, now in use, or
    /// `None`, with nothing changed, when every channel is in use.
    pub fn allocate(&mut self) -> (r: Option<String>)
        requires
            old(self).wf(),
        ensures
            final(self).wf(),
            partitioned(final(self)@),
            final(self)@.pool == old(self)@.pool,
            match r {
                Some(a) => {
                    &&& old(self)@.free.contains(a@)
                    &&& !old(self)@.in_use.contains(a@)
                    &&& final(self)@.free == old(self)@.free.remove(a@)
                    &&& final(self)@.in_use == old(self)@.in_use.insert(a@)
                },
                None => old(self)@.free.is_empty() && final(self)@ == old(self)@,
            },
    {
        proof {
            self.lemma_partitioned();
        }
        let mut i: usize = 0;
        while i < self.busy.len()
            invariant
                i <= self.busy@.len(),
                self.wf(),
                self.slots@ == old(self).slots@,
                self.busy@ == old(self).busy@,
                forall|k: int| 0 <= k < i ==> self.busy@[k],
            decreases self.busy@.len() - i,
        {
            if !self.busy[i] {
                let a = self.slots[i].clone();
                proof {
                    lemma_flag_update(self.slots@, self.busy@, i as int, true);
                }
                self.busy.set(i, true);
                proof {
                    self.lemma_partitioned();
                }
                return Some(a);
            }
            i = i + 1;
        }
        proof {
            assert forall|x: Seq<char>| !self@.free.contains(x) by {
                if self@.free.contains(x) {
                    let k = choose|k: int|
                        0 <= k < self.slots@.len() && self.slots@[k]@ == x && self.busy@[k] == false;
                    assert(self.busy@[k]);
                }
            }
            assert(self@.free =~= Set::empty());
        }
        None
    }

    /// Hands a channel back once its transfer is over: `true`, and the
    /// address free again, when it was in use; else `false` and nothing
    /// changed, so that a stray release cannot free a channel twice.
    pub fn release(&mut self, addr: &String) -> (r: bool)
        requires
            old(self).wf(),
        ensures
            final(self).wf(),
            partitioned(final(self)@),
            final(self)@.pool == old(self)@.pool,
            r == old(self)@.in_use.contains(addr@),
            r ==> final(self)@.free == old(self)@.free.insert(addr@) && final(self)@.in_use == old(
                self,
            )@.in_use.remove(addr@),
            !r ==> final(self)@ == old(self)@,
    {
        proof {
            self.lemma_partitioned();
        }
        let mut i: usize = 0;
        while i < self.slots.len()
            invariant
                i <= self.slots@.len(),
                self.wf(),
                self.slots@ == old(self).slots@,
                self.busy@ == old(self).busy@,
                forall|k: int| 0 <= k < i ==> self.slots@[k]@ != addr@,
            decreases self.slots@.len() - i,
        {
            if self.slots[i] == *addr {
                if !self.busy[i] {
                    proof {
                        self.lemma_partitioned();
                        if self@.in_use.contains(addr@) {
                            let k = choose|k: int|
                                0 <= k < self.slots@.len() && self.slots@[k]@ == addr@
                                    && self.busy@[k] == true;
                            lemma_distinct(self.slots@, self.busy@, i as int, k);
                        }
                    }
                    return false;
                }
                proof {
                    lemma_flag_update(self.slots@, self.busy@, i as int, false);
                }
                self.busy.set(i, false);
                proof {
                    self.lemma_partitioned();
                }
                return true;
            }
            i = i + 1;
        }
        proof {
            if self@.in_use.contains(addr@) {
                let k = choose|k: int|
                    0 <= k < self.slots@.len() && self.slots@[k]@ == addr@ && self.busy@[k] == true;
                assert(self.slots@[k]@ != addr@);
            }
        }
        false
    }

    /// Answers a datagram on the rendezvous address: a connection request
    /// gets a channel, as `allocate` gives it; anything else is ignored and
    /// changes nothing.
    pub fn resolve_conn_req(&mut self, datagram: &[u8]) -> (r: Option<String>)
        requires
            old(self).wf(),
        ensures
            final(self).wf(),
            partitioned(final(self)@),
            final(self)@.pool == old(self)@.pool,
            match request_at(datagram@) {
                Some((m, _)) if m.code == ZTPRequestCode::Conn => match r {
                    Some(a) => {
                        &&& old(self)@.free.contains(a@)
                        &&& !old(self)@.in_use.contains(a@)
                        &&& final(self)@.free == old(self)@.free.remove(a@)
                        &&& final(self)@.in_use == old(self)@.in_use.insert(a@)
                    },
                    None => old(self)@.free.is_empty() && final(self)@ == old(self)@,
                },
                _ => r is None && final(self)@ == old(self)@,
            },
    {
        proof {
            self.lemma_partitioned();
        }
        match ZTPRequest::decode_from_slice(datagram) {
            Ok((req, _)) => match req.get_code() {
                ZTPRequestCode::Conn => self.allocate(),
                _ => None,
            },
            Err(_) => None,
        }
    }
}

} // verus!
