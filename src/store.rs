use vstd::prelude::*;
use vstd::set_lib::lemma_subset_equality;

use crate::auth::{authorize, bytes_equal, id_bytes, parse_principal, principal_of_text};
use crate::batch::{
    batch_failure, batch_stored, key_at, delete_all, delete_failure, deleted_ids, keys_in_order,
    msg_none_deleted, msg_too_large, oversized, rejected_with, store_all,
    stored_num, string_views, MAX_ORDER_PER_BATCH,
};
use crate::fixed_key::{key_less, lemma_key_less_irreflexive, order_key, StorableStr};
use crate::laws::{lemma_store_count, lemma_store_dom};
use crate::order::{
    decode_order, encode_order, order_encoding, order_views, OrderInfo, OrderView,
    StoreOrderListResult, MAX_VALUE_SIZE,
};
use crate::stable_map::{
    entries_listed, map_contains_key, map_contents, map_entries, map_get, map_insert,
    map_len, map_remove, OrderMap,
};

verus! {

/// The order registry: a durable map from fixed keys to orders, and the admin
/// principal that may change it.
pub struct OrderStore {
    map: OrderMap,
    admin: Option<Vec<u8>>,
    orders: Ghost<Map<Seq<u8>, OrderView>>,
}

/// A record's key is present before its turn exactly where the store held it
/// or an earlier record of the batch has it.
proof fn lemma_key_new(
    m: Map<Seq<u8>, OrderView>,
    views: Seq<OrderView>,
    i: int,
    keys: Seq<[u8; 32]>,
    k: Seq<u8>,
)
    requires
        0 <= i < views.len(),
        keys.len() == i,
        forall|j: int| 0 <= j < i ==> (#[trigger] keys[j])@ == key_at(views, j),
        k == key_at(views, i),
    ensures
        store_all(m, views.take(i)).contains_key(k) <==> (m.contains_key(k) || exists|j: int|
            0 <= j < keys.len() && keys[j]@ == k),
{
    lemma_store_dom(m, views.take(i), k);
    assert forall|j: int| 0 <= j < i implies #[trigger] key_at(views.take(i), j) == keys[j]@ by {}
    if store_all(m, views.take(i)).contains_key(k) && !m.contains_key(k) {
        let j = choose|j: int| 0 <= j < i && #[trigger] key_at(views.take(i), j) == k;
        assert(keys[j]@ == k);
    }
    if exists|j: int| 0 <= j < keys.len() && keys[j]@ == k {
        let j = choose|j: int| 0 <= j < keys.len() && keys[j]@ == k;
        assert(key_at(views.take(i), j) == k);
    }
}

/// Whether the key is among the given keys.
fn key_seen(keys: &Vec<[u8; 32]>, k: &[u8; 32]) -> (r: bool)
    ensures
        r == exists|j: int| 0 <= j < keys@.len() && keys@[j]@ == k@,
{
    let mut j: usize = 0;
    while j < keys.len()
        invariant
            j <= keys@.len(),
            forall|i: int| 0 <= i < j ==> keys@[i]@ != k@,
        decreases keys@.len() - j,
    {
        if bytes_equal(keys[j].as_slice(), k.as_slice()) {
            return true;
        }
        j = j + 1;
    }
    false
}

/// Every order sits under the key of its own identifier.
pub open spec fn keyed_by_id(m: Map<Seq<u8>, OrderView>) -> bool {
    forall|k: Seq<u8>| #[trigger] m.contains_key(k) ==> order_key(m[k].order_id) == k
}

/// Whether a stored entry is the encoding of some record whose identifier has
/// the entry's key.
pub open spec fn entry_valid(e: ([u8; 32], Vec<u8>)) -> bool {
    exists|v: OrderView| #[trigger] order_encoding(v) == e.1@ && order_key(v.order_id) == e.0@
}

/// Whether every stored value is the encoding of a record whose identifier has
/// the value's key.
pub open spec fn contents_valid(c: Map<Seq<u8>, Seq<u8>>) -> bool {
    forall|k: Seq<u8>| #[trigger]
        c.contains_key(k) ==> exists|v: OrderView| #[trigger] order_encoding(v) == c[k] && order_key(
            v.order_id,
        ) == k
}

/// The records of stored entries, in their order, or nothing where some entry
/// is not the encoding of a record under its own key.
pub fn orders_of_entries(entries: &Vec<([u8; 32], Vec<u8>)>) -> (r: Option<Vec<OrderInfo>>)
    ensures
        r is None <==> exists|i: int| 0 <= i < entries@.len() && !entry_valid(#[trigger] entries@[i]),
        r matches Some(os) ==> os@.len() == entries@.len() && forall|i: int|
            0 <= i < entries@.len() ==> order_encoding((#[trigger] os@[i])@) == entries@[i].1@
                && order_key(os@[i]@.order_id) == entries@[i].0@,
{
    let mut os: Vec<OrderInfo> = Vec::new();
    let mut i: usize = 0;
    while i < entries.len()
        invariant
            i <= entries@.len(),
            os@.len() == i,
            forall|j: int|
                0 <= j < i ==> order_encoding((#[trigger] os@[j])@) == entries@[j].1@ && order_key(
                    os@[j]@.order_id,
                ) == entries@[j].0@,
        decreases entries@.len() - i,
    {
        let bytes = entries[i].1.as_slice();
        let o = match decode_order(bytes) {
            Some(o) => o,
            None => {
                assert(!entry_valid(entries@[i as int]));
                return None;
            },
        };
        let again = encode_order(&o);
        let key = StorableStr::new(o.order_id.as_str());
        if !bytes_equal(again.as_slice(), bytes) || !bytes_equal(key.bytes().as_slice(), entries[i].0.as_slice()) {
            proof {
                if entry_valid(entries@[i as int]) {
                    let v = choose|v: OrderView| #[trigger] order_encoding(v) == entries@[i as int].1@
                        && order_key(v.order_id) == entries@[i as int].0@;
                    assert(o@ == v);
                }
            }
            return None;
        }
        os.push(o);
        i = i + 1;
    }
    proof {
        assert forall|i: int| 0 <= i < entries@.len() implies entry_valid(#[trigger] entries@[i]) by {
            assert(order_encoding(os@[i]@) == entries@[i].1@);
        }
    }
    Some(os)
}

impl View for OrderStore {
    type V = Map<Seq<u8>, OrderView>;

    closed spec fn view(&self) -> Map<Seq<u8>, OrderView> {
        self.orders@
    }
}

impl OrderStore {
    /// The durable map holds exactly the encodings of the orders in the view, each
    /// under the key of its own identifier.
    pub closed spec fn wf(&self) -> bool {
        &&& self.orders@.dom().finite()
        &&& map_contents(self.map).dom() == self.orders@.dom()
        &&& forall|k: Seq<u8>| #[trigger]
            self.orders@.contains_key(k) ==> map_contents(self.map)[k] == order_encoding(
                self.orders@[k],
            )
        &&& keyed_by_id(self@)
    }

    /// Storing a batch in a well-formed store grows the order count by exactly the
    /// number of records that the call reports as stored.
    pub proof fn lemma_count_after_store(&self, orders: Seq<OrderView>)
        requires
            self.wf(),
        ensures
            store_all(self@, orders).len() == self@.len() + stored_num(self@, orders),
    {
        lemma_store_count(self@, orders);
    }

    /// The admin principal's bytes, or nothing where the configured id is malformed.
    pub closed spec fn admin(&self) -> Option<Seq<u8>> {
        id_bytes(self.admin)
    }

    /// The store kept in the given map, with the admin named by a textual
    /// principal id. Where some stored entry is not the encoding of a record
    /// under its own key, the map is corrupt and nothing is returned.
    pub fn open(map: OrderMap, admin_text: &str) -> (r: Option<Self>)
        ensures
            r is None <==> !contents_valid(map_contents(map)),
            r matches Some(s) ==> s.wf() && s.admin() == principal_of_text(admin_text@)
                && s@.dom() == map_contents(map).dom() && forall|k: Seq<u8>| #[trigger]
                s@.contains_key(k) ==> order_encoding(s@[k]) == map_contents(map)[k],
    {
        let entries = map_entries(&map);
        let os = match orders_of_entries(&entries) {
            Some(os) => os,
            None => {
                proof {
                    let i = choose|i: int| 0 <= i < entries@.len() && !entry_valid(#[trigger] entries@[i]);
                    let k = entries@[i].0@;
                    assert(map_contents(map).contains_key(k));
                    if contents_valid(map_contents(map)) {
                        let v = choose|v: OrderView| #[trigger] order_encoding(v) == map_contents(map)[k]
                            && order_key(v.order_id) == k;
                        assert(entry_valid(entries@[i]));
                    }
                }
                return None;
            },
        };
        let ghost mut orders: Map<Seq<u8>, OrderView> = Map::empty();
        let mut i: usize = 0;
        while i < os.len()
            invariant
                entries_listed(map_contents(map), entries@),
                os@.len() == entries@.len(),
                forall|j: int|
                    0 <= j < entries@.len() ==> order_encoding((#[trigger] os@[j])@)
                        == entries@[j].1@ && order_key(os@[j]@.order_id) == entries@[j].0@,
                i <= os@.len(),
                orders.dom().finite(),
                orders.len() == i,
                orders.dom().subset_of(map_contents(map).dom()),
                forall|k: Seq<u8>| #[trigger]
                    orders.contains_key(k) ==> map_contents(map)[k] == order_encoding(orders[k]),
                keyed_by_id(orders),
                forall|k: Seq<u8>|
                    #[trigger] orders.contains_key(k) ==> exists|j: int|
                        0 <= j < i && entries@[j].0@ == k,
            decreases os@.len() - i,
        {
            proof {
                let k = entries@[i as int].0@;
                assert(map_contents(map).contains_key(k));
                assert(order_encoding(os@[i as int]@) == entries@[i as int].1@);
                if orders.contains_key(k) {
                    let j = choose|j: int| 0 <= j < i && entries@[j].0@ == k;
                    assert(key_less(entries@[j].0@, entries@[i as int].0@));
                    lemma_key_less_irreflexive(k);
                }
                orders = orders.insert(k, os@[i as int]@);
                assert forall|k2: Seq<u8>| #[trigger] orders.contains_key(k2) implies exists|j: int|
                    0 <= j < i + 1 && entries@[j].0@ == k2 by {
                    if k2 == k {
                        assert(entries@[i as int].0@ == k2);
                    }
                }
            }
            i = i + 1;
        }
        proof {
            lemma_subset_equality(orders.dom(), map_contents(map).dom());
            assert forall|k: Seq<u8>| #[trigger] map_contents(map).contains_key(k) implies exists|v: OrderView|
                #[trigger] order_encoding(v) == map_contents(map)[k] && order_key(v.order_id) == k by {
                assert(orders.contains_key(k));
                let j = choose|j: int| 0 <= j < i && entries@[j].0@ == k;
                assert(order_encoding(os@[j]@) == entries@[j].1@);
            }
        }
        let admin = parse_principal(admin_text);
        Some(OrderStore { map, admin, orders: Ghost(orders) })
    }

    /// The number of stored orders.
    pub fn get_orders_count(&self) -> (r: u64)
        requires
            self.wf(),
        ensures
            r as nat == self@.len(),
    {
        map_len(&self.map)
    }

    /// Why a batch of `n` orders from `caller` is refused outright, if it is.
    fn check_batch(&self, caller: &[u8], n: usize) -> (r: Option<String>)
        ensures
            r is None <==> batch_failure(self.admin(), caller@, n as nat) is None,
            r matches Some(m) ==> batch_failure(self.admin(), caller@, n as nat) == Some(m@),
    {
        if let Some(msg) = authorize(&self.admin, caller) {
            return Some(msg);
        }
        if n > MAX_ORDER_PER_BATCH {
            return Some("Too many users in batch. Maximum allowed is 200".to_owned());
        }
        if n == 0 {
            return Some("Order list cannot be empty".to_owned());
        }
        None
    }

    /// Stores a batch of orders for `caller`: each record whose key is new is
    /// inserted, and each whose key is already present is counted as a duplicate
    /// and left as it was. A refused batch changes nothing.
    pub fn store_user_list(&mut self, caller: &[u8], order_list: Vec<OrderInfo>) -> (r:
        StoreOrderListResult)
        requires
            old(self).wf(),
        ensures
            final(self).wf(),
            final(self).admin() == old(self).admin(),
            match batch_failure(old(self).admin(), caller@, order_list@.len()) {
                Some(msg) => rejected_with(r, msg) && final(self)@ == old(self)@,
                None => if oversized(old(self)@, order_views(order_list@)) {
                    rejected_with(r, msg_too_large()) && final(self)@ == old(self)@
                } else {
                    batch_stored(r, old(self)@, final(self)@, order_views(order_list@))
                },
            },
    {
        if let Some(msg) = self.check_batch(caller, order_list.len()) {
            return StoreOrderListResult::Rejected(msg);
        }
        let mut encoded: Vec<Vec<u8>> = Vec::new();
        let mut i: usize = 0;
        while i < order_list.len()
            invariant
                self.wf(),
                self.admin() == old(self).admin(),
                self@ == old(self)@,
                batch_failure(old(self).admin(), caller@, order_list@.len()) is None,
                i <= order_list@.len(),
                encoded@.len() == i,
                forall|j: int|
                    0 <= j < i ==> (#[trigger] encoded@[j])@ == order_encoding(order_list@[j]@),
            decreases order_list@.len() - i,
        {
            let b = encode_order(&order_list[i]);
            encoded.push(b);
            i = i + 1;
        }
        self.store_encoded(caller, &order_list, &encoded)
    }

    /// The order stored under the identifier's key, if any.
    pub fn get_order(&self, order_id: String) -> (r: Option<OrderInfo>)
        requires
            self.wf(),
        ensures
            r is None <==> !self@.contains_key(order_key(order_id@)),
            r matches Some(o) ==> o@ == self@[order_key(order_id@)],
    {
        let key = StorableStr::new(order_id.as_str());
        let kb = key.bytes();
        match map_get(&self.map, &kb) {
            None => None,
            Some(b) => {
                let r = decode_order(b.as_slice());
                assert(order_encoding(self@[kb@]) == b@);
                r
            },
        }
    }

    /// Every stored order, in ascending order of key; each is found again by
    /// `get_order` on its own identifier.
    pub fn get_all_orders(&self) -> (r: Vec<OrderInfo>)
        requires
            self.wf(),
        ensures
            exists|ks: Seq<Seq<u8>>|
                keys_in_order(ks, self@) && ks.len() == r@.len() && forall|i: int|
                    0 <= i < r@.len() ==> (#[trigger] r@[i])@ == self@[ks[i]] && order_key(
                        r@[i]@.order_id,
                    ) == ks[i],
    {
        let entries = map_entries(&self.map);
        let ghost ks = entries@.map_values(|e: ([u8; 32], Vec<u8>)| e.0@);
        let mut r: Vec<OrderInfo> = Vec::new();
        let mut i: usize = 0;
        while i < entries.len()
            invariant
                self.wf(),
                ks == entries@.map_values(|e: ([u8; 32], Vec<u8>)| e.0@),
                entries_listed(map_contents(self.map), entries@),
                i <= entries@.len(),
                r@.len() == i,
                forall|j: int| 0 <= j < i ==> (#[trigger] r@[j])@ == self@[ks[j]],
            decreases entries@.len() - i,
        {
            let ghost k = entries@[i as int].0@;
            assert(map_contents(self.map).contains_key(k));
            assert(order_encoding(self@[k]) == entries@[i as int].1@);
            match decode_order(entries[i].1.as_slice()) {
                Some(o) => r.push(o),
                None => {
                    assert(false);
                },
            }
            i = i + 1;
        }
        proof {
            assert(map_contents(self.map).dom() == self@.dom());
            assert forall|i: int, j: int| 0 <= i < j < ks.len() implies key_less(
                #[trigger] ks[i],
                #[trigger] ks[j],
            ) by {
                assert(key_less(entries@[i].0@, entries@[j].0@));
            }
            assert forall|i: int| 0 <= i < ks.len() implies self@.contains_key(#[trigger] ks[i]) by {
                assert(map_contents(self.map).contains_key(entries@[i].0@));
            }
            assert(keys_in_order(ks, self@));
        }
        r
    }

    /// Deletes the orders under the identifiers' keys, skipping empty identifiers,
    /// and lists the identifiers whose key had an order. Fails where the caller is
    /// refused, the list is empty, or nothing was deleted.
    pub fn delete_order(&mut self, caller: &[u8], order_ids: Vec<String>) -> (r: Result<
        Vec<String>,
        String,
    >)
        requires
            old(self).wf(),
        ensures
            final(self).wf(),
            final(self).admin() == old(self).admin(),
            match delete_failure(old(self).admin(), caller@, order_ids@.len()) {
                Some(msg) => (r matches Err(s) && s@ == msg) && final(self)@ == old(self)@,
                None => {
                    &&& final(self)@ == delete_all(old(self)@, string_views(order_ids@))
                    &&& deleted_ids(old(self)@, string_views(order_ids@)).len() == 0 ==> (r matches Err(
                        s,
                    ) && s@ == msg_none_deleted())
                    &&& deleted_ids(old(self)@, string_views(order_ids@)).len() > 0 ==> (r matches Ok(
                        v,
                    ) && string_views(v@) == deleted_ids(old(self)@, string_views(order_ids@)))
                },
            },
    {
        if let Some(msg) = authorize(&self.admin, caller) {
            return Err(msg);
        }
        if order_ids.len() == 0 {
            return Err("Order IDs list cannot be empty".to_owned());
        }
        let ghost m0 = self@;
        let ghost ids = string_views(order_ids@);
        let mut deleted: Vec<String> = Vec::new();
        let mut i: usize = 0;
        while i < order_ids.len()
            invariant
                self.wf(),
                self.admin() == old(self).admin(),
                m0 == old(self)@,
                ids == string_views(order_ids@),
                i <= order_ids@.len(),
                self@ == delete_all(m0, ids.take(i as int)),
                string_views(deleted@) == deleted_ids(m0, ids.take(i as int)),
            decreases order_ids@.len() - i,
        {
            assert(ids.take(i + 1).drop_last() =~= ids.take(i as int));
            assert(ids.take(i + 1).last() == order_ids@[i as int]@);
            if order_ids[i].as_str().is_empty() {
            } else {
                let key = StorableStr::new(order_ids[i].as_str());
                let kb = key.bytes();
                let removed = map_remove(&mut self.map, &kb);
                self.orders = Ghost(self.orders@.remove(kb@));
                assert(map_contents(self.map).dom() =~= self.orders@.dom());
                if removed.is_some() {
                    let id = order_ids[i].clone();
                    deleted.push(id);
                    assert(string_views(deleted@) =~= string_views(deleted@.drop_last()).push(id@));
                }
            }
            i = i + 1;
        }
        assert(ids.take(order_ids@.len() as int) =~= ids);
        if deleted.len() == 0 {
            Err("No orders were found and deleted".to_owned())
        } else {
            Ok(deleted)
        }
    }

    /// Whether some record of the batch that would be inserted encodes to more
    /// bytes than a value may hold.
    fn would_overflow(&self, orders: &Vec<OrderInfo>, encoded: &Vec<Vec<u8>>) -> (r: bool)
        requires
            self.wf(),
            encoded@.len() == orders@.len(),
            forall|i: int|
                0 <= i < orders@.len() ==> (#[trigger] encoded@[i])@ == order_encoding(orders@[i]@),
        ensures
            r == oversized(self@, order_views(orders@)),
    {
        let ghost views = order_views(orders@);
        let ghost m0 = self@;
        let mut keys: Vec<[u8; 32]> = Vec::new();
        let mut i: usize = 0;
        while i < orders.len()
            invariant
                self.wf(),
                m0 == self@,
                encoded@.len() == orders@.len(),
                views == order_views(orders@),
                forall|i: int|
                    0 <= i < orders@.len() ==> (#[trigger] encoded@[i])@ == order_encoding(orders@[i]@),
                i <= orders@.len(),
                keys@.len() == i,
                forall|j: int| 0 <= j < i ==> (#[trigger] keys@[j])@ == key_at(views, j),
                forall|j: int|
                    0 <= j < i && !store_all(m0, views.take(j)).contains_key(key_at(views, j))
                        ==> order_encoding(#[trigger] views[j]).len() <= MAX_VALUE_SIZE,
            decreases orders@.len() - i,
        {
            let kb = StorableStr::new(orders[i].order_id.as_str()).bytes();
            let present = map_contains_key(&self.map, &kb);
            let seen = key_seen(&keys, &kb);
            proof {
                lemma_key_new(m0, views, i as int, keys@, kb@);
            }
            if !present && !seen && encoded[i].len() > MAX_VALUE_SIZE {
                assert(order_encoding(views[i as int]).len() > MAX_VALUE_SIZE);
                return true;
            }
            keys.push(kb);
            i = i + 1;
        }
        false
    }

    /// Stores a batch whose records were already encoded, one encoding per order.
    pub fn store_encoded(
        &mut self,
        caller: &[u8],
        orders: &Vec<OrderInfo>,
        encoded: &Vec<Vec<u8>>,
    ) -> (r: StoreOrderListResult)
        requires
            old(self).wf(),
            encoded@.len() == orders@.len(),
            forall|i: int|
                0 <= i < orders@.len() ==> (#[trigger] encoded@[i])@ == order_encoding(orders@[i]@),
        ensures
            final(self).wf(),
            final(self).admin() == old(self).admin(),
            match batch_failure(old(self).admin(), caller@, orders@.len()) {
                Some(msg) => rejected_with(r, msg) && final(self)@ == old(self)@,
                None => if oversized(old(self)@, order_views(orders@)) {
                    rejected_with(r, msg_too_large()) && final(self)@ == old(self)@
                } else {
                    batch_stored(r, old(self)@, final(self)@, order_views(orders@))
                },
            },
    {
        if let Some(msg) = self.check_batch(caller, orders.len()) {
            return StoreOrderListResult::Rejected(msg);
        }
        if self.would_overflow(orders, encoded) {
            return StoreOrderListResult::Rejected(
                "Order record exceeds the maximum stored size".to_owned(),
            );
        }
        let ghost views = order_views(orders@);
        let ghost m0 = self@;
        let mut stored_count: u64 = 0;
        let mut duplicate_count: u64 = 0;
        let mut i: usize = 0;
        while i < orders.len()
            invariant
                self.wf(),
                self.admin() == old(self).admin(),
                m0 == old(self)@,
                batch_failure(old(self).admin(), caller@, orders@.len()) is None,
                encoded@.len() == orders@.len(),
                orders@.len() <= MAX_ORDER_PER_BATCH,
                views == order_views(orders@),
                forall|i: int|
                    0 <= i < orders@.len() ==> (#[trigger] encoded@[i])@ == order_encoding(orders@[i]@),
                i <= orders@.len(),
                self@ == store_all(m0, views.take(i as int)),
                stored_count == stored_num(m0, views.take(i as int)),
                stored_count + duplicate_count == i,
            decreases orders@.len() - i,
        {
            let key = StorableStr::new(orders[i].order_id.as_str());
            let kb = key.bytes();
            assert(views.take(i + 1).drop_last() =~= views.take(i as int));
            assert(views.take(i + 1).last() == orders@[i as int]@);
            if map_contains_key(&self.map, &kb) {
                duplicate_count = duplicate_count + 1;
            } else {
                let value = encoded[i].clone();
                assert(value@ =~= encoded@[i as int]@);
                let _ = map_insert(&mut self.map, kb, value);
                self.orders = Ghost(self.orders@.insert(kb@, orders@[i as int]@));
                stored_count = stored_count + 1;
                assert(map_contents(self.map).dom() =~= self.orders@.dom());
            }
            i = i + 1;
        }
        assert(views.take(orders@.len() as int) =~= views);
        StoreOrderListResult::Stored { stored_count, duplicate_count }
    }
}

} // verus!
