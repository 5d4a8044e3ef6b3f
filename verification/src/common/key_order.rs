//! The order of internal keys: user keys ascending byte by byte, and among the
//! versions of one user key the newest first.

use std::cmp::Ordering;
use vstd::prelude::*;
use crate::common::MAX_SEQUENCE_NUMBER;
use crate::common::format::{
    extract_internal_key_footer, lemma_internal_key_determined, lemma_internal_key_parts,
    spec_internal_key, spec_internal_key_footer, Slice,
};
use crate::util::{
    common_prefix_len, extract_user_key, spec_agree_up_to, spec_extract_user_key,
    spec_is_common_prefix_len, FOOTER_SIZE,
};

verus! {

/// `a` and `b` agree on their first `n` bytes, and there `a` ends while `b`
/// goes on, or `a` holds the smaller byte.
pub open spec fn spec_bytes_less_at(a: Seq<u8>, b: Seq<u8>, n: int) -> bool {
    &&& spec_agree_up_to(a, b, n)
    &&& n < b.len()
    &&& n < a.len() ==> a[n] < b[n]
}

/// The lexicographic order of byte strings: `a` comes strictly before `b`.
pub open spec fn spec_bytes_less(a: Seq<u8>, b: Seq<u8>) -> bool {
    exists|n: int| #[trigger] spec_bytes_less_at(a, b, n)
}

/// The order of internal keys: `a` comes strictly before `b` if its user key
/// does, or if the user keys are equal and the footer of `a` is the larger
/// number.
pub open spec fn spec_internal_key_less(a: Seq<u8>, b: Seq<u8>) -> bool
    recommends
        a.len() >= FOOTER_SIZE,
        b.len() >= FOOTER_SIZE,
{
    let user_a = spec_extract_user_key(a);
    let user_b = spec_extract_user_key(b);
    spec_bytes_less(user_a, user_b) || (user_a == user_b && spec_internal_key_footer(a)
        > spec_internal_key_footer(b))
}

/// No byte string comes before itself, and of two byte strings at most one
/// comes before the other.
pub proof fn lemma_bytes_less_asymmetric(a: Seq<u8>, b: Seq<u8>)
    ensures
        !spec_bytes_less(a, a),
        spec_bytes_less(a, b) ==> !spec_bytes_less(b, a),
{
    if spec_bytes_less(a, b) && spec_bytes_less(b, a) {
        let n = choose|n: int| #[trigger] spec_bytes_less_at(a, b, n);
        let m = choose|m: int| #[trigger] spec_bytes_less_at(b, a, m);
        if n < m {
            assert(b[n] == a[n]);
        } else if m < n {
            assert(a[m] == b[m]);
        }
    }
}

/// What comes before a byte string comes before all that it comes before.
pub proof fn lemma_bytes_less_transitive(a: Seq<u8>, b: Seq<u8>, c: Seq<u8>)
    requires
        spec_bytes_less(a, b),
        spec_bytes_less(b, c),
    ensures
        spec_bytes_less(a, c),
{
    let n = choose|n: int| #[trigger] spec_bytes_less_at(a, b, n);
    let m = choose|m: int| #[trigger] spec_bytes_less_at(b, c, m);
    if n <= m {
        assert(spec_bytes_less_at(a, c, n));
    } else {
        assert(spec_bytes_less_at(a, c, m));
    }
}

/// Where the longest common prefix of two byte strings ends, the bytes that
/// follow it decide their order.
pub proof fn lemma_bytes_order_at_common_prefix(a: Seq<u8>, b: Seq<u8>, n: usize)
    requires
        spec_is_common_prefix_len(a, b, n as int),
    ensures
        spec_bytes_less(a, b) <==> n < b.len() && (n == a.len() || a[n as int] < b[n as int]),
        spec_bytes_less(b, a) <==> n < a.len() && (n == b.len() || b[n as int] < a[n as int]),
        a == b <==> n == a.len() && n == b.len(),
{
    lemma_bytes_less_asymmetric(a, b);
    lemma_bytes_less_asymmetric(b, a);
    if n < b.len() && (n == a.len() || a[n as int] < b[n as int]) {
        assert(spec_bytes_less_at(a, b, n as int));
    } else if n < a.len() && (n == b.len() || b[n as int] < a[n as int]) {
        assert(spec_bytes_less_at(b, a, n as int));
    } else {
        assert(a =~= b);
    }
}

/// Of two different byte strings one comes before the other.
pub proof fn lemma_bytes_less_total(a: Seq<u8>, b: Seq<u8>)
    ensures
        a == b || spec_bytes_less(a, b) || spec_bytes_less(b, a),
{
    lemma_bytes_less_total_from(a, b, 0);
}

proof fn lemma_bytes_less_total_from(a: Seq<u8>, b: Seq<u8>, n: int)
    requires
        spec_agree_up_to(a, b, n),
    ensures
        a == b || spec_bytes_less(a, b) || spec_bytes_less(b, a),
    decreases a.len() - n,
{
    if n == a.len() {
        if n == b.len() {
            assert(a =~= b);
        } else {
            assert(spec_bytes_less_at(a, b, n));
        }
    } else if n == b.len() {
        assert(spec_bytes_less_at(b, a, n));
    } else if a[n] < b[n] {
        assert(spec_bytes_less_at(a, b, n));
    } else if b[n] < a[n] {
        assert(spec_bytes_less_at(b, a, n));
    } else {
        lemma_bytes_less_total_from(a, b, n + 1);
    }
}

/// Compares two byte strings lexicographically.
pub fn compare_bytes(a: &[u8], b: &[u8]) -> (order: Ordering)
    ensures
        order == Ordering::Less <==> spec_bytes_less(a@, b@),
        order == Ordering::Equal <==> a@ == b@,
        order == Ordering::Greater <==> spec_bytes_less(b@, a@),
{
    let n: usize = common_prefix_len(a, b);
    proof {
        lemma_bytes_order_at_common_prefix(a@, b@, n);
    }
    if n < a.len() && n < b.len() {
        if a[n] < b[n] {
            Ordering::Less
        } else {
            Ordering::Greater
        }
    } else if n < b.len() {
        Ordering::Less
    } else if n < a.len() {
        Ordering::Greater
    } else {
        Ordering::Equal
    }
}

impl Slice {
    /// Compares the bytes that this range denotes in `buffer` with the
    /// bytes that `other` denotes in `other_buffer`, lexicographically.
    pub fn compare(&self, buffer: &[u8], other: &Slice, other_buffer: &[u8]) -> (order: Ordering)
        requires
            self.is_valid_for(buffer@.len()),
            other.is_valid_for(other_buffer@.len()),
        ensures
            order == Ordering::Less <==> spec_bytes_less(
                self.spec_bytes(buffer@),
                other.spec_bytes(other_buffer@),
            ),
            order == Ordering::Equal <==> self.spec_bytes(buffer@) == other.spec_bytes(
                other_buffer@,
            ),
            order == Ordering::Greater <==> spec_bytes_less(
                other.spec_bytes(other_buffer@),
                self.spec_bytes(buffer@),
            ),
    {
        compare_bytes(self.bytes(buffer), other.bytes(other_buffer))
    }
}

/// Compares two internal keys: by user key first, and where the user keys
/// are equal the key with the larger footer, which is the newer one, comes
/// first.
pub fn compare_internal_key(a: &[u8], b: &[u8]) -> (order: Ordering)
    requires
        a@.len() >= FOOTER_SIZE,
        b@.len() >= FOOTER_SIZE,
    ensures
        order == Ordering::Less <==> spec_internal_key_less(a@, b@),
        order == Ordering::Equal <==> a@ == b@,
        order == Ordering::Greater <==> spec_internal_key_less(b@, a@),
{
    proof {
        lemma_bytes_less_asymmetric(spec_extract_user_key(a@), spec_extract_user_key(b@));
        lemma_bytes_less_asymmetric(spec_extract_user_key(b@), spec_extract_user_key(a@));
    }
    match compare_bytes(extract_user_key(a), extract_user_key(b)) {
        Ordering::Less => Ordering::Less,
        Ordering::Greater => Ordering::Greater,
        Ordering::Equal => {
            let footer_a: u64 = extract_internal_key_footer(a);
            let footer_b: u64 = extract_internal_key_footer(b);
            if footer_a > footer_b {
                Ordering::Less
            } else if footer_a < footer_b {
                Ordering::Greater
            } else {
                proof {
                    lemma_internal_key_determined(a@, b@);
                }
                Ordering::Equal
            }
        },
    }
}

/// Tells whether the internal key `a` comes before the internal key `b`.
pub fn internal_key_less(a: &[u8], b: &[u8]) -> (less: bool)
    requires
        a@.len() >= FOOTER_SIZE,
        b@.len() >= FOOTER_SIZE,
    ensures
        less == spec_internal_key_less(a@, b@),
{
    match compare_internal_key(a, b) {
        Ordering::Less => true,
        _ => false,
    }
}

/// The order of internal keys is a strict order: no key comes before itself,
/// and of two keys at most one comes before the other.
pub proof fn lemma_internal_key_less_asymmetric(a: Seq<u8>, b: Seq<u8>)
    ensures
        !spec_internal_key_less(a, a),
        spec_internal_key_less(a, b) ==> !spec_internal_key_less(b, a),
{
    lemma_bytes_less_asymmetric(spec_extract_user_key(a), spec_extract_user_key(b));
    lemma_bytes_less_asymmetric(spec_extract_user_key(b), spec_extract_user_key(a));
}

/// The order of internal keys is transitive.
pub proof fn lemma_internal_key_less_transitive(a: Seq<u8>, b: Seq<u8>, c: Seq<u8>)
    requires
        spec_internal_key_less(a, b),
        spec_internal_key_less(b, c),
    ensures
        spec_internal_key_less(a, c),
{
    let user_a = spec_extract_user_key(a);
    let user_b = spec_extract_user_key(b);
    let user_c = spec_extract_user_key(c);
    if spec_bytes_less(user_a, user_b) && spec_bytes_less(user_b, user_c) {
        lemma_bytes_less_transitive(user_a, user_b, user_c);
    }
}

/// The order of internal keys is total: of two different internal keys one
/// comes before the other.
pub proof fn lemma_internal_key_less_total(a: Seq<u8>, b: Seq<u8>)
    requires
        a.len() >= FOOTER_SIZE,
        b.len() >= FOOTER_SIZE,
    ensures
        a == b || spec_internal_key_less(a, b) || spec_internal_key_less(b, a),
{
    lemma_bytes_less_total(spec_extract_user_key(a), spec_extract_user_key(b));
    if spec_extract_user_key(a) == spec_extract_user_key(b) && spec_internal_key_footer(a)
        == spec_internal_key_footer(b) {
        lemma_internal_key_determined(a, b);
    }
}

/// Internal keys order by user key before anything else: every internal key
/// of a user key that comes before another comes before every internal key of
/// that other, whatever their sequence numbers and value types are.
pub proof fn lemma_user_key_order_decides(
    user_a: Seq<u8>,
    seq_a: u64,
    t_a: u8,
    user_b: Seq<u8>,
    seq_b: u64,
    t_b: u8,
)
    requires
        spec_bytes_less(user_a, user_b),
    ensures
        spec_internal_key_less(
            spec_internal_key(user_a, seq_a, t_a),
            spec_internal_key(user_b, seq_b, t_b),
        ),
{
    lemma_internal_key_parts(user_a, seq_a, t_a);
    lemma_internal_key_parts(user_b, seq_b, t_b);
}

/// Among the internal keys of one user key the higher sequence number comes
/// first, whatever the value types are.
pub proof fn lemma_newer_sequence_orders_first(
    user_key: Seq<u8>,
    seq_a: u64,
    t_a: u8,
    seq_b: u64,
    t_b: u8,
)
    requires
        seq_b < seq_a <= MAX_SEQUENCE_NUMBER,
    ensures
        spec_internal_key_less(
            spec_internal_key(user_key, seq_a, t_a),
            spec_internal_key(user_key, seq_b, t_b),
        ),
{
    lemma_internal_key_parts(user_key, seq_a, t_a);
    lemma_internal_key_parts(user_key, seq_b, t_b);
}

} // verus!
