use vstd::prelude::*;

verus! {

/// Largest encoded record, in bytes, that the store accepts.
pub const MAX_VALUE_SIZE: usize = 400000;

/// One order as clients submit it and the store keeps it.
#[derive(Debug, Clone)]
pub struct OrderInfo {
    pub order_id: String,
    pub location: String,
    pub create_time: u64,
    pub currency: String,
    /// Decimal amount kept as text.
    pub amount: String,
}

/// The mathematical value of an order: its five fields.
pub struct OrderView {
    pub order_id: Seq<char>,
    pub location: Seq<char>,
    pub create_time: u64,
    pub currency: Seq<char>,
    pub amount: Seq<char>,
}

impl View for OrderInfo {
    type V = OrderView;

    open spec fn view(&self) -> OrderView {
        OrderView {
            order_id: self.order_id@,
            location: self.location@,
            create_time: self.create_time,
            currency: self.currency@,
            amount: self.amount@,
        }
    }
}

/// The values of a sequence of orders.
pub open spec fn order_views(s: Seq<OrderInfo>) -> Seq<OrderView> {
    s.map_values(|o: OrderInfo| o@)
}

/// Outcome of storing a batch of orders.
pub enum StoreOrderListResult {
    /// How many records were new, and how many had a key that was already stored.
    Stored { stored_count: u64, duplicate_count: u64 },
    /// The batch was refused as a whole and nothing changed.
    Rejected(String),
}

/// The Candid encoding of an order's fields, taken as one tuple value.
pub uninterp spec fn order_encoding(o: OrderView) -> Seq<u8>;

/// Relies on `candid::encode_one`: the bytes of the record's fields as one
/// Candid tuple value. Its serializer writes into a `Vec` and fails only on the
/// empty type or an unresolved recursive type, which four texts and a `nat64`
/// never hold, so the `unwrap` cannot panic.
#[verifier::external_body]
pub(crate) fn encode_order(o: &OrderInfo) -> (r: Vec<u8>)
    ensures
        r@ == order_encoding(o@),
{
    candid::encode_one(
        (o.order_id.clone(), o.location.clone(), o.create_time, o.currency.clone(), o.amount.clone()),
    ).unwrap()
}

/// Relies on `candid::decode_one`: bytes that `candid::encode_one` wrote for a
/// record's fields decode back to those fields.
#[verifier::external_body]
pub(crate) fn decode_order(b: &[u8]) -> (r: Option<OrderInfo>)
    ensures
        r is None ==> forall|v: OrderView| order_encoding(v) != b@,
        r matches Some(o) ==> forall|v: OrderView| order_encoding(v) == b@ ==> o@ == v,
{
    match candid::decode_one::<(String, String, u64, String, String)>(b) {
        Ok((order_id, location, create_time, currency, amount)) => Some(
            OrderInfo { order_id, location, create_time, currency, amount },
        ),
        Err(_) => None,
    }
}

} // verus!
