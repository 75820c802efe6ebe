use vstd::prelude::*;

verus! {

/// The byte that masking key `mask` applies at payload position `i`.
pub open spec fn key_byte(mask: [u8; 4], i: int) -> u8 {
    mask@[i % 4]
}

/// The result of XOR-ing every byte of `payload` with the masking key,
/// the key repeating every four bytes (RFC 6455 section 5.3).
pub open spec fn masked(payload: Seq<u8>, mask: [u8; 4]) -> Seq<u8> {
    Seq::new(payload.len(), |i: int| payload[i] ^ key_byte(mask, i))
}

/// Byte-at-a-time masking loop.
fn unmask_easy(payload: &mut [u8], mask: [u8; 4])
    ensures
        final(payload)@ == masked(old(payload)@, mask),
{
    let len = payload.len();
    let mut i: usize = 0;
    while i < len
        invariant
            len == payload@.len(),
            len == old(payload)@.len(),
            i <= len,
            forall|j: int| 0 <= j < i ==> payload@[j] == old(payload)@[j] ^ key_byte(mask, j),
            forall|j: int| i <= j < len ==> payload@[j] == old(payload)@[j],
        decreases len - i,
    {
        let b = payload[i] ^ mask[i % 4];
        payload[i] = b;
        i = i + 1;
    }
    assert(payload@ =~= masked(old(payload)@, mask));
}

/// Unmasks (or masks: the operation is its own inverse) a payload in place
/// with the given 4-byte masking key.
pub fn unmask(payload: &mut [u8], mask: [u8; 4])
    ensures
        final(payload)@ == masked(old(payload)@, mask),
{
    unmask_easy(payload, mask);
}

/// Masking is its own inverse: unmasking with the key that masked a payload
/// gives the payload back.
pub proof fn lemma_mask_involution(payload: Seq<u8>, key: [u8; 4])
    ensures
        masked(masked(payload, key), key) == payload,
{
    assert forall|i: int| 0 <= i < payload.len() implies #[trigger] masked(
        masked(payload, key),
        key,
    )[i] == payload[i] by {
        let a = payload[i];
        let k = key_byte(key, i);
        assert((a ^ k) ^ k == a) by (bit_vector);
    }
    assert(masked(masked(payload, key), key) =~= payload);
}

} // verus!
