use std::cmp::Ordering;

use candid::Principal;
use ic_stable_structures::memory_manager::{MemoryId, MemoryManager};
use ic_stable_structures::{DefaultMemoryImpl, StableBTreeMap};
use order_center::stable_map::OrderMap;
use order_center::store::{orders_of_entries, OrderStore};
use order_center::{OrderInfo, StorableStr, StoreOrderListResult};

const ADMIN: &str = "nlptv-oct5y-qmful-kkutn-zghyv-npwrx-usyby-r7g3u-k4k44-3rq4o-mqe";

fn admin_bytes() -> Vec<u8> {
    Principal::from_text(ADMIN).unwrap().as_slice().to_vec()
}

fn stranger_bytes() -> Vec<u8> {
    Principal::anonymous().as_slice().to_vec()
}

fn order(id: &str, location: &str, time: u64, currency: &str, amount: &str) -> OrderInfo {
    OrderInfo {
        order_id: id.to_string(),
        location: location.to_string(),
        create_time: time,
        currency: currency.to_string(),
        amount: amount.to_string(),
    }
}

fn simple(id: &str) -> OrderInfo {
    order(id, "NYC", 1000, "USD", "10.00")
}

fn empty_map() -> OrderMap {
    let manager = MemoryManager::init(DefaultMemoryImpl::default());
    OrderMap(StableBTreeMap::new(manager.get(MemoryId::new(0))))
}

fn fresh() -> OrderStore {
    OrderStore::open(empty_map(), ADMIN).unwrap()
}

fn encoded(o: &OrderInfo) -> Vec<u8> {
    candid::encode_one((
        o.order_id.clone(),
        o.location.clone(),
        o.create_time,
        o.currency.clone(),
        o.amount.clone(),
    ))
    .unwrap()
}

fn counts(r: &StoreOrderListResult) -> (u64, u64) {
    match r {
        StoreOrderListResult::Stored { stored_count, duplicate_count } => {
            (*stored_count, *duplicate_count)
        }
        StoreOrderListResult::Rejected(msg) => panic!("rejected: {}", msg),
    }
}

fn rejection(r: &StoreOrderListResult) -> String {
    match r {
        StoreOrderListResult::Stored { .. } => panic!("stored"),
        StoreOrderListResult::Rejected(msg) => msg.clone(),
    }
}

fn same(a: &OrderInfo, b: &OrderInfo) -> bool {
    a.order_id == b.order_id
        && a.location == b.location
        && a.create_time == b.create_time
        && a.currency == b.currency
        && a.amount == b.amount
}

#[test]
fn store_count_delete_scenario() {
    let mut s = fresh();
    let r = s.store_user_list(&admin_bytes(), vec![order("A1", "NYC", 1000, "USD", "10.00")]);
    assert_eq!(counts(&r), (1, 0));
    assert_eq!(s.get_orders_count(), 1);
    let d = s.delete_order(&admin_bytes(), vec!["A1".to_string()]);
    assert_eq!(d, Ok(vec!["A1".to_string()]));
    assert_eq!(s.get_orders_count(), 0);
}

#[test]
fn delete_nonexistent_on_empty_store() {
    let mut s = fresh();
    let d = s.delete_order(&admin_bytes(), vec!["nonexistent".to_string()]);
    assert_eq!(d, Err("No orders were found and deleted".to_string()));
    assert_eq!(s.get_orders_count(), 0);
}

#[test]
fn unauthorized_caller_is_refused() {
    let mut s = fresh();
    counts(&s.store_user_list(&admin_bytes(), vec![simple("A1")]));
    let r = s.store_user_list(&stranger_bytes(), vec![simple("B1")]);
    assert_eq!(rejection(&r), "Unauthorized: only the admin can call this method");
    assert_eq!(s.get_orders_count(), 1);
    let d = s.delete_order(&stranger_bytes(), vec!["A1".to_string()]);
    assert_eq!(d, Err("Unauthorized: only the admin can call this method".to_string()));
    assert_eq!(s.get_orders_count(), 1);
    assert!(s.get_order("A1".to_string()).is_some());
}

#[test]
fn malformed_admin_id_refuses_everyone() {
    let mut s = OrderStore::open(empty_map(), "not a principal").unwrap();
    let r = s.store_user_list(&admin_bytes(), vec![simple("A1")]);
    assert_eq!(rejection(&r), "Invalid authorized principal");
    let d = s.delete_order(&admin_bytes(), vec!["A1".to_string()]);
    assert_eq!(d, Err("Invalid authorized principal".to_string()));
    assert_eq!(s.get_orders_count(), 0);
}

#[test]
fn empty_batch_is_refused() {
    let mut s = fresh();
    let r = s.store_user_list(&admin_bytes(), vec![]);
    assert_eq!(rejection(&r), "Order list cannot be empty");
    assert_eq!(s.get_orders_count(), 0);
}

#[test]
fn oversized_batch_is_refused() {
    let mut s = fresh();
    let batch: Vec<OrderInfo> = (0..201).map(|i| simple(&format!("id{}", i))).collect();
    let r = s.store_user_list(&admin_bytes(), batch);
    assert_eq!(rejection(&r), "Too many users in batch. Maximum allowed is 200");
    assert_eq!(s.get_orders_count(), 0);
}

#[test]
fn largest_batch_is_stored() {
    let mut s = fresh();
    let batch: Vec<OrderInfo> = (0..200).map(|i| simple(&format!("id{}", i))).collect();
    let r = s.store_user_list(&admin_bytes(), batch);
    assert_eq!(counts(&r), (200, 0));
    assert_eq!(s.get_orders_count(), 200);
}

#[test]
fn record_too_large_is_refused() {
    let mut s = fresh();
    let big = "x".repeat(400_001);
    let r = s.store_user_list(&admin_bytes(), vec![simple("A1"), order("A2", &big, 1, "USD", "1")]);
    assert_eq!(rejection(&r), "Order record exceeds the maximum stored size");
    assert_eq!(s.get_orders_count(), 0);
}

#[test]
fn storing_twice_counts_duplicates() {
    let mut s = fresh();
    let batch = vec![simple("A1"), simple("A2"), simple("A3")];
    assert_eq!(counts(&s.store_user_list(&admin_bytes(), batch.clone())), (3, 0));
    assert_eq!(counts(&s.store_user_list(&admin_bytes(), batch)), (0, 3));
    assert_eq!(s.get_orders_count(), 3);
}

#[test]
fn count_grows_by_stored_count() {
    let mut s = fresh();
    counts(&s.store_user_list(&admin_bytes(), vec![simple("A1"), simple("A2")]));
    let before = s.get_orders_count();
    let r = s.store_user_list(&admin_bytes(), vec![simple("A2"), simple("A3"), simple("A3")]);
    assert_eq!(counts(&r), (1, 2));
    assert_eq!(s.get_orders_count(), before + 1);
}

#[test]
fn duplicate_keeps_first_record() {
    let mut s = fresh();
    let first = order("A1", "NYC", 1000, "USD", "10.00");
    let second = order("A1", "LA", 2000, "EUR", "99.99");
    let r = s.store_user_list(&admin_bytes(), vec![first.clone(), second]);
    assert_eq!(counts(&r), (1, 1));
    assert!(same(&s.get_order("A1".to_string()).unwrap(), &first));
}

#[test]
fn get_order_round_trips_all_fields() {
    let mut s = fresh();
    let o = order("ORD-42", "Zürich", u64::MAX, "CHF", "1234567.89");
    counts(&s.store_user_list(&admin_bytes(), vec![o.clone()]));
    let got = s.get_order("ORD-42".to_string()).unwrap();
    assert!(same(&got, &o));
    assert!(s.get_order("ORD-43".to_string()).is_none());
}

#[test]
fn shared_prefix_ids_collide() {
    let mut s = fresh();
    let prefix = "0123456789abcdef0123456789abcdef";
    let a = format!("{}-first", prefix);
    let b = format!("{}-second", prefix);
    assert_eq!(counts(&s.store_user_list(&admin_bytes(), vec![order(&a, "A", 1, "USD", "1")])), (1, 0));
    assert_eq!(counts(&s.store_user_list(&admin_bytes(), vec![order(&b, "B", 2, "USD", "2")])), (0, 1));
    assert_eq!(s.get_orders_count(), 1);
    assert_eq!(s.get_order(b).unwrap().order_id, a);
}

#[test]
fn delete_reports_each_found_id_once() {
    let mut s = fresh();
    counts(&s.store_user_list(&admin_bytes(), vec![simple("A1"), simple("B1")]));
    let d = s.delete_order(
        &admin_bytes(),
        vec!["A1".to_string(), "".to_string(), "missing".to_string(), "B1".to_string(), "A1".to_string()],
    );
    assert_eq!(d, Ok(vec!["A1".to_string(), "B1".to_string()]));
    assert_eq!(s.get_orders_count(), 0);
}

#[test]
fn delete_empty_list_is_refused() {
    let mut s = fresh();
    counts(&s.store_user_list(&admin_bytes(), vec![simple("A1")]));
    let d = s.delete_order(&admin_bytes(), vec![]);
    assert_eq!(d, Err("Order IDs list cannot be empty".to_string()));
    assert_eq!(s.get_orders_count(), 1);
}

#[test]
fn delete_only_empty_ids_finds_nothing() {
    let mut s = fresh();
    counts(&s.store_user_list(&admin_bytes(), vec![simple("A1")]));
    let d = s.delete_order(&admin_bytes(), vec!["".to_string()]);
    assert_eq!(d, Err("No orders were found and deleted".to_string()));
    assert_eq!(s.get_orders_count(), 1);
}

#[test]
fn all_orders_come_in_key_order() {
    let mut s = fresh();
    counts(&s.store_user_list(&admin_bytes(), vec![simple("b"), simple("a10"), simple("a9"), simple("c")]));
    let ids: Vec<String> = s.get_all_orders().into_iter().map(|o| o.order_id).collect();
    assert_eq!(ids, vec!["a10", "a9", "b", "c"]);
}

#[test]
fn all_orders_of_empty_store() {
    let s = fresh();
    assert!(s.get_all_orders().is_empty());
    assert_eq!(s.get_orders_count(), 0);
}

#[test]
fn key_pads_short_identifiers() {
    let k = StorableStr::new("abc");
    let mut expected = [0u8; 32];
    expected[..3].copy_from_slice(b"abc");
    assert_eq!(k.bytes(), expected);
    assert_eq!(StorableStr::new("").bytes(), [0u8; 32]);
}

#[test]
fn key_truncates_long_identifiers() {
    let long = "0123456789abcdef0123456789abcdefXYZ";
    let k = StorableStr::new(long);
    assert_eq!(&k.bytes()[..], &long.as_bytes()[..32]);
    assert_eq!(k, StorableStr::new("0123456789abcdef0123456789abcdef"));
}

#[test]
fn key_uses_utf8_bytes() {
    let k = StorableStr::new("é");
    assert_eq!(&k.bytes()[..3], &[0xc3, 0xa9, 0]);
}

#[test]
fn key_compare_is_bytewise() {
    assert_eq!(StorableStr::new("10").compare(&StorableStr::new("9")), Ordering::Less);
    assert_eq!(StorableStr::new("b").compare(&StorableStr::new("a")), Ordering::Greater);
    assert_eq!(StorableStr::new("a").compare(&StorableStr::new("a")), Ordering::Equal);
    assert_eq!(StorableStr::new("a").compare(&StorableStr::new("a\0")), Ordering::Equal);
    assert_eq!(StorableStr::new("a").compare(&StorableStr::new("ab")), Ordering::Less);
}

#[test]
fn open_on_empty_map_is_empty_and_usable() {
    let mut s = OrderStore::open(empty_map(), ADMIN).unwrap();
    assert_eq!(s.get_orders_count(), 0);
    assert_eq!(counts(&s.store_user_list(&admin_bytes(), vec![simple("A1")])), (1, 0));
    assert!(same(&s.get_order("A1".to_string()).unwrap(), &simple("A1")));
}

#[test]
fn open_loads_existing_entries() {
    let mut map = empty_map();
    let o = order("A7", "Paris", 7, "EUR", "7.70");
    map.0.insert(StorableStr::new("A7").bytes(), encoded(&o));
    let s = OrderStore::open(map, ADMIN).unwrap();
    assert_eq!(s.get_orders_count(), 1);
    assert!(same(&s.get_order("A7".to_string()).unwrap(), &o));
}

#[test]
fn open_refuses_corrupt_entries() {
    let mut map = empty_map();
    map.0.insert(StorableStr::new("A7").bytes(), vec![1, 2, 3]);
    assert!(OrderStore::open(map, ADMIN).is_none());
}

#[test]
fn entries_decode_in_order() {
    let a = simple("A1");
    let b = order("B2", "LA", 5, "USD", "5.00");
    let entries = vec![
        (StorableStr::new("A1").bytes(), encoded(&a)),
        (StorableStr::new("B2").bytes(), encoded(&b)),
    ];
    let os = orders_of_entries(&entries).unwrap();
    assert_eq!(os.len(), 2);
    assert!(same(&os[0], &a));
    assert!(same(&os[1], &b));
    assert_eq!(orders_of_entries(&vec![]).map(|v| v.len()), Some(0));
}

#[test]
fn entries_with_garbage_are_refused() {
    let entries = vec![
        (StorableStr::new("A1").bytes(), encoded(&simple("A1"))),
        (StorableStr::new("B2").bytes(), b"DIDL".to_vec()),
    ];
    assert!(orders_of_entries(&entries).is_none());
}

#[test]
fn entries_under_a_foreign_key_are_refused() {
    let entries = vec![(StorableStr::new("B2").bytes(), encoded(&simple("A1")))];
    assert!(orders_of_entries(&entries).is_none());
}

#[test]
fn greet_names_the_visitor() {
    assert_eq!(
        order_center::greeting::greet("Ada".to_string()),
        "Hello, Ada! Welcome to Onta Order Center"
    );
}

#[test]
fn oversized_duplicate_is_counted_not_refused() {
    let mut s = fresh();
    counts(&s.store_user_list(&admin_bytes(), vec![simple("A1")]));
    let big = "x".repeat(400_001);
    let r = s.store_user_list(
        &admin_bytes(),
        vec![simple("B1"), order("A1", &big, 1, "USD", "1")],
    );
    assert_eq!(counts(&r), (1, 1));
    assert_eq!(s.get_orders_count(), 2);
    assert!(same(&s.get_order("A1".to_string()).unwrap(), &simple("A1")));
}

#[test]
fn oversized_repeat_within_batch_is_counted_not_refused() {
    let mut s = fresh();
    let big = "x".repeat(400_001);
    let r = s.store_user_list(
        &admin_bytes(),
        vec![simple("A1"), order("A1", &big, 1, "USD", "1")],
    );
    assert_eq!(counts(&r), (1, 1));
    assert_eq!(s.get_orders_count(), 1);
}
