//! A longest-prefix-match store from IP networks to values.
//!
//! The networks live in an `ip_network_table::IpNetworkTable`; the values
//! live beside it in a vector, and the table maps each network to the slot
//! of its value. What the table does is stated in the contracts of the
//! `table_*` functions below, which Verus takes on trust.

use crate::addr::{IpAddr, Prefix};
use ip_network::IpNetwork;
use ip_network_table::IpNetworkTable;
use vstd::prelude::*;

verus! {

/// `ip_network_table::IpNetworkTable`, taken as it is.
#[verifier::external_type_specification]
#[verifier::external_body]
#[verifier::reject_recursive_types(T)]
pub struct ExIpNetworkTable<T>(IpNetworkTable<T>);

/// The networks that a table holds, each with the slot stored for it.
pub uninterp spec fn table_entries(table: IpNetworkTable<usize>) -> Map<Prefix, usize>;

/// Whether `k` is the most specific network of `dom` that contains `ip`.
pub open spec fn is_most_specific(dom: Set<Prefix>, ip: IpAddr, k: Prefix) -> bool {
    &&& dom.contains(k)
    &&& k.contains(ip)
    &&& forall|other: Prefix| #[trigger]
        dom.contains(other) && other.contains(ip) ==> other.len <= k.len
}

/// The most specific network of `dom` that contains `ip`, if any does.
pub open spec fn most_specific(dom: Set<Prefix>, ip: IpAddr) -> Option<Prefix> {
    if exists|k: Prefix| is_most_specific(dom, ip, k) {
        Some(choose|k: Prefix| is_most_specific(dom, ip, k))
    } else {
        None
    }
}

/// The value stored for the most specific network of `m` that contains `ip`.
pub open spec fn longest_match<D>(m: Map<Prefix, D>, ip: IpAddr) -> Option<D> {
    match most_specific(m.dom(), ip) {
        Some(k) => Some(m[k]),
        None => None,
    }
}

/// `IpNetworkTable::new`: the new table holds no network.
#[verifier::external_body]
fn table_new() -> (r: IpNetworkTable<usize>)
    ensures
        table_entries(r).dom() == Set::<Prefix>::empty(),
{
    IpNetworkTable::new()
}

/// `IpNetwork::new_truncate` followed by `IpNetworkTable::insert`: the
/// address loses its host bits, the network so formed is bound to `slot`,
/// and the slot that it was bound to before comes back.
#[verifier::external_body]
fn table_insert(table: &mut IpNetworkTable<usize>, ip: IpAddr, len: u8, slot: usize) -> (prior:
    Option<usize>)
    requires
        len <= ip.width(),
    ensures
        table_entries(*final(table)) == table_entries(*old(table)).insert(
            Prefix::of(ip, len as nat),
            slot,
        ),
        prior == if table_entries(*old(table)).dom().contains(Prefix::of(ip, len as nat)) {
            Some(table_entries(*old(table))[Prefix::of(ip, len as nat)])
        } else {
            None
        },
{
    let network = match ip {
        IpAddr::V4(octets) => IpNetwork::new_truncate(octets, len),
        IpAddr::V6(octets) => IpNetwork::new_truncate(octets, len),
    };
    table.insert(network.unwrap(), slot)
}

/// `IpNetwork::new_truncate` followed by `IpNetworkTable::exact_match`:
/// the slot bound to exactly the network of `ip` and `len`, if it is held.
#[verifier::external_body]
fn table_exact_match(table: &IpNetworkTable<usize>, ip: IpAddr, len: u8) -> (slot: Option<usize>)
    requires
        len <= ip.width(),
    ensures
        slot == if table_entries(*table).dom().contains(Prefix::of(ip, len as nat)) {
            Some(table_entries(*table)[Prefix::of(ip, len as nat)])
        } else {
            None
        },
{
    let network = match ip {
        IpAddr::V4(octets) => IpNetwork::new_truncate(octets, len),
        IpAddr::V6(octets) => IpNetwork::new_truncate(octets, len),
    };
    table.exact_match(network.unwrap()).copied()
}

/// `IpNetworkTable::longest_match`: the prefix length and the slot of the
/// most specific network held that contains `ip`, or nothing if no network
/// held contains it.
#[verifier::external_body]
fn table_longest_match(table: &IpNetworkTable<usize>, ip: IpAddr) -> (found: Option<(u8, usize)>)
    ensures
        match found {
            Some((len, slot)) => {
                &&& is_most_specific(table_entries(*table).dom(), ip, Prefix::of(ip, len as nat))
                &&& table_entries(*table)[Prefix::of(ip, len as nat)] == slot
            },
            None => forall|k: Prefix| #[trigger]
                table_entries(*table).dom().contains(k) ==> !k.contains(ip),
        },
{
    let found = match ip {
        IpAddr::V4(octets) => table.longest_match(octets),
        IpAddr::V6(octets) => table.longest_match(octets),
    };
    found.map(|(network, slot)| (network.netmask(), *slot))
}

/// `IpNetworkTable::iter`: every network held comes out once, as its
/// network address, its prefix length and its slot, in no stated order.
#[verifier::external_body]
fn table_list(table: &IpNetworkTable<usize>) -> (list: Vec<(IpAddr, u8, usize)>)
    ensures
        forall|i: int|
            0 <= i < list.len() ==> {
                let (ip, len, slot) = #[trigger] list[i];
                &&& len <= ip.width()
                &&& Prefix::of(ip, len as nat).bits == ip.bits()
                &&& table_entries(*table).contains_pair(Prefix::of(ip, len as nat), slot)
            },
        forall|i: int, j: int|
            0 <= i < j < list.len() ==> Prefix::of((#[trigger] list[i]).0, list[i].1 as nat)
                != Prefix::of((#[trigger] list[j]).0, list[j].1 as nat),
        forall|k: Prefix| #[trigger]
            table_entries(*table).dom().contains(k) ==> exists|i: int|
                0 <= i < list.len() && Prefix::of((#[trigger] list[i]).0, list[i].1 as nat) == k,
{
    table.iter().map(
        |(network, slot)|
            match network {
                IpNetwork::V4(n) => (IpAddr::V4(n.network_address().octets()), n.netmask(), *slot),
                IpNetwork::V6(n) => (IpAddr::V6(n.network_address().octets()), n.netmask(), *slot),
            },
    ).collect()
}

/// A longest-prefix-match store over IP networks, with values of type `D`.
///
/// Keys are networks: an address whose host bits are cleared on insertion,
/// and a prefix length. IPv4 and IPv6 networks never match each other's
/// addresses.
pub struct AllowedIps<D> {
    table: IpNetworkTable<usize>,
    values: Vec<D>,
}

impl<D> View for AllowedIps<D> {
    type V = Map<Prefix, D>;

    /// The networks held, each with its value.
    closed spec fn view(&self) -> Map<Prefix, D> {
        Map::new(
            |k: Prefix| table_entries(self.table).dom().contains(k),
            |k: Prefix| self.values@[table_entries(self.table)[k] as int],
        )
    }
}

impl<D> AllowedIps<D> {
    /// Every network held is well formed and owns one slot of the values.
    pub closed spec fn wf(&self) -> bool {
        let entries = table_entries(self.table);
        &&& forall|k: Prefix| #[trigger]
            entries.dom().contains(k) ==> k.wf() && entries[k] < self.values@.len()
        &&& forall|k1: Prefix, k2: Prefix|
            #![trigger entries.dom().contains(k1), entries.dom().contains(k2)]
            entries.dom().contains(k1) && entries.dom().contains(k2) && k1 != k2 ==> entries[k1]
                != entries[k2]
    }

    /// An empty store.
    pub fn new() -> (r: Self)
        ensures
            r.wf(),
            r@ == Map::<Prefix, D>::empty(),
    {
        let r = AllowedIps { table: table_new(), values: Vec::new() };
        assert(r@ =~= Map::<Prefix, D>::empty());
        r
    }

    /// Binds the network of `key` and `cidr` to `data`.
    ///
    /// The host bits of `key` are dropped. If the network was held already,
    /// its value is replaced and the value it had comes back.
    pub fn insert(&mut self, key: IpAddr, cidr: u8, data: D) -> (prior: Option<D>)
        requires
            old(self).wf(),
            cidr <= key.width(),
        ensures
            final(self).wf(),
            final(self)@ == old(self)@.insert(Prefix::of(key, cidr as nat), data),
            prior == if old(self)@.dom().contains(Prefix::of(key, cidr as nat)) {
                Some(old(self)@[Prefix::of(key, cidr as nat)])
            } else {
                None
            },
    {
        let ghost k = Prefix::of(key, cidr as nat);
        let ghost before = *self;
        proof {
            crate::addr::lemma_prefix_of_wf(key, cidr as nat);
        }
        match table_exact_match(&self.table, key, cidr) {
            Some(slot) => {
                self.values.push(data);
                let prior = self.values.swap_remove(slot);
                assert(self@ =~= before@.insert(k, data));
                Some(prior)
            },
            None => {
                let slot = self.values.len();
                self.values.push(data);
                table_insert(&mut self.table, key, cidr, slot);
                assert(self@ =~= before@.insert(k, data));
                None
            },
        }
    }

    /// The value of the most specific network held that contains `key`.
    pub fn get(&self, key: IpAddr) -> (r: Option<&D>)
        requires
            self.wf(),
        ensures
            match r {
                Some(d) => longest_match(self@, key) == Some(*d),
                None => longest_match(self@, key) is None,
            },
            r is None <==> forall|k: Prefix| #[trigger] self@.dom().contains(k) ==> !k.contains(key),
    {
        match table_longest_match(&self.table, key) {
            Some((len, slot)) => {
                proof {
                    let k = Prefix::of(key, len as nat);
                    assert(self@.dom() =~= table_entries(self.table).dom());
                    lemma_most_specific_unique(self@.dom(), key, k);
                }
                Some(&self.values[slot])
            },
            None => {
                proof {
                    assert(self@.dom() =~= table_entries(self.table).dom());
                }
                None
            },
        }
    }

    /// Every network held, once, with its value, its network address and
    /// its prefix length, to be taken one by one. The order is not stated.
    pub fn iter(&self) -> (r: Iter<'_, D>)
        requires
            self.wf(),
        ensures
            lists_all(r.remaining(), self@),
    {
        let items = self.entries();
        assert(items@.skip(0) =~= items@);
        Iter { items, at: 0 }
    }

    /// Every network held, once, with its value, its network address and
    /// its prefix length. The order is not stated.
    pub fn entries(&self) -> (r: Vec<(&D, IpAddr, u8)>)
        requires
            self.wf(),
        ensures
            lists_all(r@, self@),
    {
        let list = table_list(&self.table);
        let mut r: Vec<(&D, IpAddr, u8)> = Vec::new();
        let mut i: usize = 0;
        while i < list.len()
            invariant
                self.wf(),
                i <= list.len(),
                r.len() == i,
                forall|j: int|
                    0 <= j < list.len() ==> {
                        let (ip, len, slot) = #[trigger] list[j];
                        &&& len <= ip.width()
                        &&& Prefix::of(ip, len as nat).bits == ip.bits()
                        &&& table_entries(self.table).contains_pair(
                            Prefix::of(ip, len as nat),
                            slot,
                        )
                    },
                forall|j: int|
                    0 <= j < i ==> {
                        let (d, ip, len) = #[trigger] r[j];
                        &&& ip == list[j].0
                        &&& len == list[j].1
                        &&& *d == self.values@[list[j].2 as int]
                    },
            decreases list.len() - i,
        {
            let (ip, len, slot) = list[i];
            assert(table_entries(self.table).dom().contains(Prefix::of(ip, len as nat)));
            r.push((&self.values[slot], ip, len));
            i += 1;
        }
        assert forall|k: Prefix| #[trigger] self@.dom().contains(k) implies exists|i: int|
            0 <= i < r.len() && Prefix::of((#[trigger] r[i]).1, r[i].2 as nat) == k by {
            assert(table_entries(self.table).dom().contains(k));
            let j = choose|j: int|
                0 <= j < list.len() && Prefix::of((#[trigger] list[j]).0, list[j].1 as nat) == k;
            assert(Prefix::of(r[j].1, r[j].2 as nat) == k);
        }
        r
    }

    /// Inserts every item in turn, as `insert` does.
    pub fn extend(&mut self, items: Vec<(IpAddr, u8, D)>)
        requires
            old(self).wf(),
            forall|i: int| 0 <= i < items.len() ==> (#[trigger] items[i]).1 <= items[i].0.width(),
        ensures
            final(self).wf(),
            final(self)@ == insert_all(old(self)@, items@),
    {
        let ghost all = items@;
        let ghost start = self@;
        for item in it: items
            invariant
                self.wf(),
                it.seq() == all,
                forall|i: int| 0 <= i < all.len() ==> (#[trigger] all[i]).1 <= all[i].0.width(),
                self@ == insert_all(start, all.subrange(0, it.index() as int)),
        {
            let ghost n = it.index() as int;
            assert(all.subrange(0, n + 1).drop_last() =~= all.subrange(0, n));
            let (ip, len, data) = item;
            self.insert(ip, len, data);
        }
        assert(all.subrange(0, all.len() as int) =~= all);
    }
}

impl<D> Default for AllowedIps<D> {
    /// An empty store.
    fn default() -> (r: Self)
        ensures
            r.wf(),
            r@ == Map::<Prefix, D>::empty(),
    {
        AllowedIps::new()
    }
}

/// Whether `list` holds every network of `m` once, each with its value, its
/// network address and its prefix length.
pub open spec fn lists_all<D>(list: Seq<(&D, IpAddr, u8)>, m: Map<Prefix, D>) -> bool {
    &&& forall|i: int|
        0 <= i < list.len() ==> {
            let (d, ip, len) = #[trigger] list[i];
            &&& len <= ip.width()
            &&& Prefix::of(ip, len as nat).bits == ip.bits()
            &&& m.contains_pair(Prefix::of(ip, len as nat), *d)
        }
    &&& forall|i: int, j: int|
        0 <= i < j < list.len() ==> Prefix::of((#[trigger] list[i]).1, list[i].2 as nat)
            != Prefix::of((#[trigger] list[j]).1, list[j].2 as nat)
    &&& forall|k: Prefix| #[trigger]
        m.dom().contains(k) ==> exists|i: int|
            0 <= i < list.len() && Prefix::of((#[trigger] list[i]).1, list[i].2 as nat) == k
}

/// The networks of a store, to be taken one by one, each once.
pub struct Iter<'a, D> {
    items: Vec<(&'a D, IpAddr, u8)>,
    at: usize,
}

impl<'a, D> Iter<'a, D> {
    #[verifier::type_invariant]
    spec fn in_range(self) -> bool {
        self.at <= self.items@.len()
    }

    /// What is still to come, in the order in which it comes.
    pub closed spec fn remaining(&self) -> Seq<(&'a D, IpAddr, u8)> {
        self.items@.skip(self.at as int)
    }

    /// The next network with its value, or nothing where all were taken.
    pub fn next(&mut self) -> (r: Option<(&'a D, IpAddr, u8)>)
        ensures
            match r {
                Some(item) => old(self).remaining().len() > 0 && item == old(self).remaining()[0]
                    && final(self).remaining() == old(self).remaining().skip(1),
                None => old(self).remaining().len() == 0 && final(self).remaining() == old(
                    self,
                ).remaining(),
            },
    {
        proof {
            use_type_invariant(&*self);
        }
        if self.at < self.items.len() {
            let item = self.items[self.at];
            assert(self.items@.skip(self.at as int).skip(1) =~= self.items@.skip(self.at + 1));
            self.at = self.at + 1;
            Some(item)
        } else {
            None
        }
    }
}

/// The store that results from inserting every item of `items` in turn.
pub open spec fn insert_all<D>(m: Map<Prefix, D>, items: Seq<(IpAddr, u8, D)>) -> Map<Prefix, D>
    decreases items.len(),
{
    if items.len() == 0 {
        m
    } else {
        insert_all(m, items.drop_last()).insert(
            Prefix::of(items.last().0, items.last().1 as nat),
            items.last().2,
        )
    }
}

/// The network that an item of `extend` is stored under.
pub open spec fn item_key<D>(item: (IpAddr, u8, D)) -> Prefix {
    Prefix::of(item.0, item.1 as nat)
}

/// Whether no later item of `items` has the network of item `i`.
pub open spec fn is_last_for_key<D>(items: Seq<(IpAddr, u8, D)>, i: int) -> bool {
    forall|j: int| i < j < items.len() ==> item_key(#[trigger] items[j]) != item_key(items[i])
}

/// Whether some item of `items` has the network `k`.
pub open spec fn names_key<D>(items: Seq<(IpAddr, u8, D)>, k: Prefix) -> bool {
    exists|i: int| 0 <= i < items.len() && item_key(#[trigger] items[i]) == k
}

/// What a run of inserts leaves: the networks held before and those of the
/// items, each network of an item with the value of the last item that
/// names it, and every other network with the value it had.
pub proof fn lemma_insert_all<D>(m: Map<Prefix, D>, items: Seq<(IpAddr, u8, D)>)
    ensures
        forall|k: Prefix|
            #![trigger insert_all(m, items).dom().contains(k)]
            insert_all(m, items).dom().contains(k) <==> m.dom().contains(k) || names_key(items, k),
        forall|i: int|
            #![trigger is_last_for_key(items, i)]
            0 <= i < items.len() && is_last_for_key(items, i) ==> insert_all(m, items)[item_key(
                items[i],
            )] == items[i].2,
        forall|k: Prefix|
            #![trigger insert_all(m, items)[k]]
            m.dom().contains(k) && !names_key(items, k) ==> insert_all(m, items)[k] == m[k],
    decreases items.len(),
{
    if items.len() > 0 {
        let front = items.drop_last();
        let n = items.len() - 1;
        lemma_insert_all(m, front);
        assert forall|k: Prefix| names_key(items, k) <==> names_key(front, k) || k == item_key(
            items[n],
        ) by {
            if names_key(items, k) {
                let i = choose|i: int| 0 <= i < items.len() && item_key(#[trigger] items[i]) == k;
                if i < n {
                    assert(item_key(front[i]) == k);
                }
            }
            if names_key(front, k) {
                let i = choose|i: int| 0 <= i < front.len() && item_key(#[trigger] front[i]) == k;
                assert(item_key(items[i]) == k);
            }
            if k == item_key(items[n]) {
                assert(item_key(items[n]) == k);
            }
        }
        assert forall|k: Prefix|
            #![trigger insert_all(m, items).dom().contains(k)]
            insert_all(m, items).dom().contains(k) <==> m.dom().contains(k) || names_key(
                items,
                k,
            ) by {
            assert(insert_all(m, front).dom().contains(k) <==> m.dom().contains(k) || names_key(
                front,
                k,
            ));
        }
        assert forall|i: int|
            #![trigger is_last_for_key(items, i)]
            0 <= i < items.len() && is_last_for_key(items, i) implies insert_all(m, items)[item_key(
                items[i],
            )] == items[i].2 by {
            if i < n {
                assert(item_key(items[n]) != item_key(items[i]));
                assert(front[i] == items[i]);
                assert(is_last_for_key(front, i)) by {
                    assert forall|j: int| i < j < front.len() implies item_key(
                        #[trigger] front[j],
                    ) != item_key(front[i]) by {
                        assert(front[j] == items[j]);
                    }
                }
            }
        }
        assert forall|k: Prefix|
            #![trigger insert_all(m, items)[k]]
            m.dom().contains(k) && !names_key(items, k) implies insert_all(m, items)[k] == m[k] by {
            assert(insert_all(m, front)[k] == m[k]);
        }
    } else {
        assert forall|k: Prefix| !names_key(items, k) by {}
    }
}

/// After any run of inserts into an empty store, a lookup gives the value
/// of the most specific network inserted that contains the address, as its
/// last insert left it, and nothing where no network inserted contains the
/// address.
pub proof fn lemma_longest_match_after_inserts<D>(items: Seq<(IpAddr, u8, D)>, ip: IpAddr)
    ensures
        match longest_match(insert_all(Map::empty(), items), ip) {
            Some(d) => exists|i: int|
                {
                    &&& 0 <= i < items.len()
                    &&& (#[trigger] items[i]).2 == d
                    &&& item_key(items[i]).contains(ip)
                    &&& is_last_for_key(items, i)
                    &&& forall|j: int|
                        0 <= j < items.len() && item_key(#[trigger] items[j]).contains(ip)
                            ==> items[j].1 <= items[i].1
                },
            None => forall|i: int|
                0 <= i < items.len() ==> !item_key(#[trigger] items[i]).contains(ip),
        },
{
    let m = insert_all(Map::<Prefix, D>::empty(), items);
    lemma_insert_all(Map::<Prefix, D>::empty(), items);
    match most_specific(m.dom(), ip) {
        Some(k) => {
            assert(is_most_specific(m.dom(), ip, k));
            assert(names_key(items, k));
            let first = choose|i: int| 0 <= i < items.len() && item_key(#[trigger] items[i]) == k;
            let i = lemma_last_for_key(items, first);
            assert(is_last_for_key(items, i));
            assert forall|j: int|
                0 <= j < items.len() && item_key(#[trigger] items[j]).contains(
                    ip,
                ) implies items[j].1 <= items[i].1 by {
                assert(names_key(items, item_key(items[j])));
                assert(m.dom().contains(item_key(items[j])));
            }
        },
        None => {
            assert forall|i: int| 0 <= i < items.len() implies !item_key(
                #[trigger] items[i],
            ).contains(ip) by {
                if item_key(items[i]).contains(ip) {
                    assert(names_key(items, item_key(items[i])));
                    assert(m.dom().contains(item_key(items[i])));
                    lemma_most_specific_exists(m.dom(), ip, item_key(items[i]));
                }
            }
        },
    }
}

/// Some item with the network of item `i` is the last with that network.
pub proof fn lemma_last_for_key<D>(items: Seq<(IpAddr, u8, D)>, i: int) -> (last: int)
    requires
        0 <= i < items.len(),
    ensures
        i <= last < items.len(),
        item_key(items[last]) == item_key(items[i]),
        is_last_for_key(items, last),
    decreases items.len() - i,
{
    if is_last_for_key(items, i) {
        i
    } else {
        let j = choose|j: int|
            i < j < items.len() && !(item_key(#[trigger] items[j]) != item_key(items[i]));
        lemma_last_for_key(items, j)
    }
}

/// The most specific network that contains an address is unique.
pub proof fn lemma_most_specific_unique(dom: Set<Prefix>, ip: IpAddr, k: Prefix)
    requires
        is_most_specific(dom, ip, k),
    ensures
        most_specific(dom, ip) == Some(k),
{
    let c = choose|c: Prefix| is_most_specific(dom, ip, c);
    assert(c.len <= k.len);
    assert(k.len <= c.len);
}

/// Where some network held contains the address, a most specific one does.
pub proof fn lemma_most_specific_exists(dom: Set<Prefix>, ip: IpAddr, k: Prefix)
    requires
        dom.contains(k),
        k.contains(ip),
    ensures
        most_specific(dom, ip) is Some,
    decreases ip.width() - k.len,
{
    if !is_most_specific(dom, ip, k) {
        let other = choose|other: Prefix|
            dom.contains(other) && other.contains(ip) && !(other.len <= k.len);
        lemma_most_specific_exists(dom, ip, other);
    }
}

} // verus!
