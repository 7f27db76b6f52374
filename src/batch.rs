use vstd::prelude::*;

use crate::auth::auth_failure;
use crate::fixed_key::{key_less, order_key};
use crate::order::{order_encoding, OrderView, StoreOrderListResult, MAX_VALUE_SIZE};

verus! {

/// Largest number of orders that one batch may hold.
pub const MAX_ORDER_PER_BATCH: usize = 200;

/// The orders stored after processing a batch in order: a record whose key is
/// already present is skipped, never overwritten.
pub open spec fn store_all(m: Map<Seq<u8>, OrderView>, orders: Seq<OrderView>) -> Map<
    Seq<u8>,
    OrderView,
>
    decreases orders.len(),
{
    if orders.len() == 0 {
        m
    } else {
        let prev = store_all(m, orders.drop_last());
        let k = order_key(orders.last().order_id);
        if prev.contains_key(k) {
            prev
        } else {
            prev.insert(k, orders.last())
        }
    }
}

/// How many records of the batch were new when their turn came.
pub open spec fn stored_num(m: Map<Seq<u8>, OrderView>, orders: Seq<OrderView>) -> nat
    decreases orders.len(),
{
    if orders.len() == 0 {
        0
    } else {
        stored_num(m, orders.drop_last()) + if store_all(m, orders.drop_last()).contains_key(
            order_key(orders.last().order_id),
        ) {
            0nat
        } else {
            1nat
        }
    }
}

/// The key of one record of a batch.
pub open spec fn key_at(orders: Seq<OrderView>, i: int) -> Seq<u8> {
    order_key(orders[i].order_id)
}

/// Whether some record of the batch that would be inserted, its key being new
/// when its turn comes, encodes to more bytes than a value may hold. Records
/// that are skipped as duplicates are never written, whatever their size.
pub open spec fn oversized(m: Map<Seq<u8>, OrderView>, orders: Seq<OrderView>) -> bool {
    exists|i: int|
        0 <= i < orders.len() && !store_all(m, orders.take(i)).contains_key(key_at(orders, i))
            && #[trigger] order_encoding(orders[i]).len() > MAX_VALUE_SIZE
}

pub open spec fn msg_too_many() -> Seq<char> {
    "Too many users in batch. Maximum allowed is 200"@
}

pub open spec fn msg_empty_batch() -> Seq<char> {
    "Order list cannot be empty"@
}

pub open spec fn msg_too_large() -> Seq<char> {
    "Order record exceeds the maximum stored size"@
}

pub open spec fn msg_empty_ids() -> Seq<char> {
    "Order IDs list cannot be empty"@
}

pub open spec fn msg_none_deleted() -> Seq<char> {
    "No orders were found and deleted"@
}

/// Why a batch of `n` orders is refused before any record is looked at, if it is.
pub open spec fn batch_failure(admin: Option<Seq<u8>>, caller: Seq<u8>, n: nat) -> Option<
    Seq<char>,
> {
    match auth_failure(admin, caller) {
        Some(msg) => Some(msg),
        None => if n > MAX_ORDER_PER_BATCH {
            Some(msg_too_many())
        } else if n == 0 {
            Some(msg_empty_batch())
        } else {
            None
        },
    }
}

/// Whether the result is a refusal with the given message.
pub open spec fn rejected_with(r: StoreOrderListResult, msg: Seq<char>) -> bool {
    r matches StoreOrderListResult::Rejected(s) && s@ == msg
}

/// What storing a batch that passed the checks returns and leaves behind.
pub open spec fn batch_stored(
    r: StoreOrderListResult,
    before: Map<Seq<u8>, OrderView>,
    after: Map<Seq<u8>, OrderView>,
    orders: Seq<OrderView>,
) -> bool {
    &&& r matches StoreOrderListResult::Stored { stored_count, duplicate_count }
        && stored_count == stored_num(before, orders)
        && duplicate_count == orders.len() - stored_num(before, orders)
    &&& after == store_all(before, orders)
}

/// The map after deleting the identifiers in order; empty identifiers are skipped.
pub open spec fn delete_all(m: Map<Seq<u8>, OrderView>, ids: Seq<Seq<char>>) -> Map<
    Seq<u8>,
    OrderView,
>
    decreases ids.len(),
{
    if ids.len() == 0 {
        m
    } else {
        let prev = delete_all(m, ids.drop_last());
        if ids.last().len() == 0 {
            prev
        } else {
            prev.remove(order_key(ids.last()))
        }
    }
}

/// The identifiers whose key had a record when their turn came, in input order.
pub open spec fn deleted_ids(m: Map<Seq<u8>, OrderView>, ids: Seq<Seq<char>>) -> Seq<Seq<char>>
    decreases ids.len(),
{
    if ids.len() == 0 {
        Seq::empty()
    } else {
        let prev = deleted_ids(m, ids.drop_last());
        let id = ids.last();
        if id.len() > 0 && delete_all(m, ids.drop_last()).contains_key(order_key(id)) {
            prev.push(id)
        } else {
            prev
        }
    }
}

/// Why a deletion of `n` identifiers is refused before any is looked at, if it is.
pub open spec fn delete_failure(admin: Option<Seq<u8>>, caller: Seq<u8>, n: nat) -> Option<
    Seq<char>,
> {
    match auth_failure(admin, caller) {
        Some(msg) => Some(msg),
        None => if n == 0 {
            Some(msg_empty_ids())
        } else {
            None
        },
    }
}

/// The values of a sequence of strings.
pub open spec fn string_views(s: Seq<String>) -> Seq<Seq<char>> {
    s.map_values(|x: String| x@)
}

/// `ks` lists the keys of `m`, each once, in ascending byte order.
pub open spec fn keys_in_order(ks: Seq<Seq<u8>>, m: Map<Seq<u8>, OrderView>) -> bool {
    &&& ks.len() == m.len()
    &&& forall|i: int| 0 <= i < ks.len() ==> m.contains_key(#[trigger] ks[i])
    &&& forall|i: int, j: int| 0 <= i < j < ks.len() ==> key_less(#[trigger] ks[i], #[trigger] ks[j])
}

} // verus!
