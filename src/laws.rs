use vstd::prelude::*;
use vstd::utf8::encode_utf8;

use crate::batch::{key_at, store_all, stored_num};
use crate::fixed_key::{fixed_key_of, order_key, KEY_LEN};
use crate::order::OrderView;

verus! {

/// A key is present after storing a batch exactly where it was present before
/// or belongs to a record of the batch.
pub proof fn lemma_store_dom(m: Map<Seq<u8>, OrderView>, orders: Seq<OrderView>, k: Seq<u8>)
    ensures
        store_all(m, orders).contains_key(k) <==> (m.contains_key(k) || exists|i: int|
            0 <= i < orders.len() && #[trigger] key_at(orders, i) == k),
    decreases orders.len(),
{
    if orders.len() > 0 {
        let p = orders.drop_last();
        lemma_store_dom(m, p, k);
        assert(key_at(orders, orders.len() - 1) == order_key(orders.last().order_id));
        if exists|i: int| 0 <= i < p.len() && #[trigger] key_at(p, i) == k {
            let i = choose|i: int| 0 <= i < p.len() && #[trigger] key_at(p, i) == k;
            assert(key_at(orders, i) == k);
        }
        if exists|i: int| 0 <= i < orders.len() && #[trigger] key_at(orders, i) == k {
            let i = choose|i: int| 0 <= i < orders.len() && #[trigger] key_at(orders, i) == k;
            if i < p.len() {
                assert(key_at(p, i) == k);
            }
        }
    }
}

/// Storing a batch never changes a record that was already present.
pub proof fn lemma_store_keeps(m: Map<Seq<u8>, OrderView>, orders: Seq<OrderView>, k: Seq<u8>)
    requires
        m.contains_key(k),
    ensures
        store_all(m, orders).contains_key(k),
        store_all(m, orders)[k] == m[k],
    decreases orders.len(),
{
    if orders.len() > 0 {
        lemma_store_keeps(m, orders.drop_last(), k);
    }
}

/// Storing a batch is storing its first `j` records, then the rest.
pub proof fn lemma_store_split(m: Map<Seq<u8>, OrderView>, orders: Seq<OrderView>, j: int)
    requires
        0 <= j <= orders.len(),
    ensures
        store_all(m, orders) == store_all(store_all(m, orders.take(j)), orders.skip(j)),
        stored_num(m, orders) == stored_num(m, orders.take(j)) + stored_num(
            store_all(m, orders.take(j)),
            orders.skip(j),
        ),
    decreases orders.len(),
{
    if j == orders.len() {
        assert(orders.take(j) =~= orders);
        assert(orders.skip(j) =~= Seq::<OrderView>::empty());
    } else {
        let p = orders.drop_last();
        lemma_store_split(m, p, j);
        assert(p.take(j) =~= orders.take(j));
        assert(p.skip(j) =~= orders.skip(j).drop_last());
        assert(orders.skip(j).last() == orders.last());
    }
}

/// After a batch is stored, the count of stored records has grown by exactly the
/// number of records reported as stored.
pub proof fn lemma_store_count(m: Map<Seq<u8>, OrderView>, orders: Seq<OrderView>)
    requires
        m.dom().finite(),
    ensures
        store_all(m, orders).dom().finite(),
        store_all(m, orders).len() == m.len() + stored_num(m, orders),
    decreases orders.len(),
{
    if orders.len() > 0 {
        lemma_store_count(m, orders.drop_last());
    }
}

/// Every record of a batch has its key present once the batch is stored.
pub proof fn lemma_batch_keys_present(m: Map<Seq<u8>, OrderView>, orders: Seq<OrderView>, i: int)
    requires
        0 <= i < orders.len(),
    ensures
        store_all(m, orders).contains_key(key_at(orders, i)),
{
    lemma_store_dom(m, orders, key_at(orders, i));
}

/// Storing a batch whose keys are all present already changes nothing and
/// stores nothing.
pub proof fn lemma_store_present(m: Map<Seq<u8>, OrderView>, orders: Seq<OrderView>)
    requires
        forall|i: int| 0 <= i < orders.len() ==> m.contains_key(#[trigger] key_at(orders, i)),
    ensures
        store_all(m, orders) == m,
        stored_num(m, orders) == 0,
    decreases orders.len(),
{
    if orders.len() > 0 {
        let p = orders.drop_last();
        assert forall|i: int| 0 <= i < p.len() implies m.contains_key(#[trigger] key_at(p, i)) by {
            assert(key_at(orders, i) == key_at(p, i));
        }
        lemma_store_present(m, p);
        assert(key_at(orders, orders.len() - 1) == order_key(orders.last().order_id));
    }
}

/// Storing the same batch a second time stores nothing, counts every record as
/// a duplicate, and leaves the records stored the first time as they were.
pub proof fn lemma_store_twice(m: Map<Seq<u8>, OrderView>, orders: Seq<OrderView>)
    ensures
        store_all(store_all(m, orders), orders) == store_all(m, orders),
        stored_num(store_all(m, orders), orders) == 0,
        orders.len() - stored_num(store_all(m, orders), orders) == orders.len(),
{
    assert forall|i: int| 0 <= i < orders.len() implies store_all(m, orders).contains_key(
        #[trigger] key_at(orders, i),
    ) by {
        lemma_batch_keys_present(m, orders, i);
    }
    lemma_store_present(store_all(m, orders), orders);
}

/// A batch whose keys are pairwise distinct and absent from the store is stored
/// whole, with no duplicate.
pub proof fn lemma_store_fresh(m: Map<Seq<u8>, OrderView>, orders: Seq<OrderView>)
    requires
        forall|i: int| 0 <= i < orders.len() ==> !m.contains_key(#[trigger] key_at(orders, i)),
        forall|i: int, j: int|
            0 <= i < j < orders.len() ==> #[trigger] key_at(orders, i) != #[trigger] key_at(
                orders,
                j,
            ),
    ensures
        stored_num(m, orders) == orders.len(),
    decreases orders.len(),
{
    if orders.len() > 0 {
        let p = orders.drop_last();
        let n = orders.len() - 1;
        assert forall|i: int| 0 <= i < p.len() implies !m.contains_key(#[trigger] key_at(p, i)) by {
            assert(key_at(orders, i) == key_at(p, i));
        }
        assert forall|i: int, j: int| 0 <= i < j < p.len() implies #[trigger] key_at(p, i)
            != #[trigger] key_at(p, j) by {
            assert(key_at(orders, i) == key_at(p, i));
            assert(key_at(orders, j) == key_at(p, j));
        }
        lemma_store_fresh(m, p);
        let k = key_at(orders, n);
        lemma_store_dom(m, p, k);
        if store_all(m, p).contains_key(k) {
            let i = choose|i: int| 0 <= i < p.len() && #[trigger] key_at(p, i) == k;
            assert(key_at(orders, i) == key_at(p, i));
        }
    }
}

/// A record that was stored when its turn came is what the store holds under
/// its key once the whole batch is processed.
pub proof fn lemma_stored_record_kept(m: Map<Seq<u8>, OrderView>, orders: Seq<OrderView>, i: int)
    requires
        0 <= i < orders.len(),
        !store_all(m, orders.take(i)).contains_key(key_at(orders, i)),
    ensures
        store_all(m, orders).contains_key(key_at(orders, i)),
        store_all(m, orders)[key_at(orders, i)] == orders[i],
{
    let k = key_at(orders, i);
    lemma_store_split(m, orders, i + 1);
    assert(orders.take(i + 1).drop_last() =~= orders.take(i));
    let a = store_all(m, orders.take(i + 1));
    assert(a.contains_key(k) && a[k] == orders[i]);
    lemma_store_keeps(a, orders.skip(i + 1), k);
}

/// The byte at position `j` of a byte string padded with zeros on the right.
pub open spec fn padded_byte(b: Seq<u8>, j: int) -> u8 {
    if j < b.len() {
        b[j]
    } else {
        0u8
    }
}

/// Two identifiers whose UTF-8 bytes agree on the first `KEY_LEN` positions, once
/// padded with zeros, share one key: storing a record with the second after one
/// with the first counts the second as a duplicate and keeps the first.
pub proof fn lemma_shared_prefix_collides(m: Map<Seq<u8>, OrderView>, a: OrderView, b: OrderView)
    requires
        forall|j: int|
            0 <= j < KEY_LEN ==> padded_byte(encode_utf8(a.order_id), j) == padded_byte(
                encode_utf8(b.order_id),
                j,
            ),
    ensures
        order_key(a.order_id) == order_key(b.order_id),
        store_all(m, seq![a, b]) == store_all(m, seq![a]),
        stored_num(m, seq![a, b]) == stored_num(m, seq![a]),
{
    let ka = fixed_key_of(encode_utf8(a.order_id));
    let kb = fixed_key_of(encode_utf8(b.order_id));
    assert(ka =~= kb) by {
        assert forall|j: int| 0 <= j < KEY_LEN implies ka[j] == kb[j] by {
            assert(padded_byte(encode_utf8(a.order_id), j) == padded_byte(encode_utf8(b.order_id), j));
        }
    }
    let s = seq![a, b];
    assert(s.drop_last() =~= seq![a]);
    assert(seq![a].drop_last() =~= Seq::<OrderView>::empty());
}

} // verus!
