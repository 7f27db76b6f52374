use vstd::prelude::*;
use vstd::string::StringSliceAdditionalSpecFns;
use vstd::utf8::encode_utf8;

verus! {

/// Width of a fixed key in bytes.
pub const KEY_LEN: usize = 32;

/// The fixed key of a byte string: its first `KEY_LEN` bytes, padded with zeros
/// on the right.
pub open spec fn fixed_key_of(b: Seq<u8>) -> Seq<u8> {
    Seq::new(KEY_LEN as nat, |i: int| if i < b.len() { b[i] } else { 0u8 })
}

/// The fixed key of an order identifier: the key of its UTF-8 bytes.
pub open spec fn order_key(id: Seq<char>) -> Seq<u8> {
    fixed_key_of(encode_utf8(id))
}

/// Byte-wise lexicographic order on keys of equal width.
pub open spec fn key_less(a: Seq<u8>, b: Seq<u8>) -> bool {
    exists|j: int|
        0 <= j < a.len() && j < b.len() && a.subrange(0, j) == b.subrange(0, j) && a[j] < b[j]
}

/// No key is below itself.
pub proof fn lemma_key_less_irreflexive(a: Seq<u8>)
    ensures
        !key_less(a, a),
{
}

/// Where two equal-length keys first differ decides their order.
pub proof fn lemma_first_difference(a: Seq<u8>, b: Seq<u8>, i: int)
    requires
        a.len() == b.len(),
        0 <= i < a.len(),
        a.subrange(0, i) == b.subrange(0, i),
        a[i] != b[i],
    ensures
        key_less(a, b) <==> a[i] < b[i],
        key_less(b, a) <==> b[i] < a[i],
        a != b,
{
    assert forall|j: int|
        0 <= j < a.len() && a.subrange(0, j) == b.subrange(0, j) && a[j] != b[j] implies j == i by {
        if j < i {
            assert(a.subrange(0, i)[j] == a[j]);
            assert(b.subrange(0, i)[j] == b[j]);
        } else if j > i {
            assert(a.subrange(0, j)[i] == a[i]);
            assert(b.subrange(0, j)[i] == b[i]);
        }
    }
}

/// A fixed-width key derived from a variable-length identifier.
///
/// Identifiers that agree on their first `KEY_LEN` bytes, or that differ only by
/// trailing zero bytes within that window, share one key.
#[derive(Debug, Clone, Copy, PartialEq, Eq, PartialOrd, Ord, Hash)]
pub struct StorableStr([u8; 32]);

impl View for StorableStr {
    type V = Seq<u8>;

    closed spec fn view(&self) -> Seq<u8> {
        self.0@
    }
}

impl StorableStr {
    /// Truncates the identifier's bytes to `KEY_LEN` and zero-pads the rest.
    pub fn new(s: &str) -> (r: Self)
        ensures
            r@ == fixed_key_of(s.spec_bytes()),
    {
        let bytes = s.as_bytes();
        let len: usize = if bytes.len() < KEY_LEN {
            bytes.len()
        } else {
            KEY_LEN
        };
        let mut arr = [0u8; 32];
        let mut i: usize = 0;
        while i < len
            invariant
                len <= KEY_LEN,
                len <= bytes@.len(),
                bytes@ == s.spec_bytes(),
                i <= len,
                arr@.len() == KEY_LEN,
                forall|j: int| 0 <= j < i ==> arr@[j] == bytes@[j],
                forall|j: int| i <= j < KEY_LEN ==> arr@[j] == 0u8,
            decreases len - i,
        {
            arr[i] = bytes[i];
            i = i + 1;
        }
        let r = StorableStr(arr);
        assert(r@ =~= fixed_key_of(s.spec_bytes()));
        r
    }

    /// Byte-wise lexicographic comparison of two keys.
    pub fn compare(&self, other: &StorableStr) -> (r: std::cmp::Ordering)
        ensures
            r == std::cmp::Ordering::Less <==> key_less(self@, other@),
            r == std::cmp::Ordering::Equal <==> self@ == other@,
            r == std::cmp::Ordering::Greater <==> key_less(other@, self@),
    {
        let mut i: usize = 0;
        while i < KEY_LEN
            invariant
                self.0@.len() == KEY_LEN,
                other.0@.len() == KEY_LEN,
                i <= KEY_LEN,
                self.0@.subrange(0, i as int) == other.0@.subrange(0, i as int),
            decreases KEY_LEN - i,
        {
            if self.0[i] != other.0[i] {
                proof {
                    lemma_first_difference(self@, other@, i as int);
                }
                if self.0[i] < other.0[i] {
                    return std::cmp::Ordering::Less;
                } else {
                    return std::cmp::Ordering::Greater;
                }
            }
            assert(self.0@.subrange(0, i + 1) =~= self.0@.subrange(0, i as int).push(self.0@[i as int]));
            assert(other.0@.subrange(0, i + 1) =~= other.0@.subrange(0, i as int).push(other.0@[i as int]));
            i = i + 1;
        }
        assert(self.0@ =~= self.0@.subrange(0, KEY_LEN as int));
        assert(other.0@ =~= other.0@.subrange(0, KEY_LEN as int));
        proof {
            lemma_key_less_irreflexive(self@);
        }
        std::cmp::Ordering::Equal
    }

    /// The raw key bytes.
    pub fn bytes(&self) -> (r: [u8; 32])
        ensures
            r@ == self@,
    {
        self.0
    }
}

} // verus!
