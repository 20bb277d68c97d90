//! Properties of the cipher, stated over the model and proved.

use vstd::prelude::*;
use crate::model::{
    advance, crypt, initial_state, is_permutation, key_schedule, keystream, keystream_byte,
    lemma_identity_permutation, lemma_swap_permutation, step, valid_key, CipherState,
};

verus! {

proof fn lemma_key_schedule_permutation(key: Seq<u8>, n: nat)
    requires
        valid_key(key),
        n <= 256,
    ensures
        is_permutation(key_schedule(key, n).0),
    decreases n,
{
    if n == 0 {
        lemma_identity_permutation();
    } else {
        lemma_key_schedule_permutation(key, (n - 1) as nat);
        let (t, j) = key_schedule(key, (n - 1) as nat);
        lemma_swap_permutation(t, n - 1, key_schedule(key, n).1 as int);
    }
}

proof fn lemma_advance_permutation(st: CipherState, n: nat)
    requires
        is_permutation(st.table),
    ensures
        is_permutation(advance(st, n).table),
    decreases n,
{
    if n > 0 {
        let prev = advance(st, (n - 1) as nat);
        lemma_advance_permutation(st, (n - 1) as nat);
        let s = step(prev);
        lemma_swap_permutation(prev.table, s.i as int, s.j as int);
    }
}

/// The table holds every byte value exactly once right after keying and
/// after any number of processed bytes.
pub proof fn lemma_table_stays_permutation(key: Seq<u8>, n: nat)
    requires
        valid_key(key),
    ensures
        is_permutation(advance(initial_state(key), n).table),
{
    lemma_key_schedule_permutation(key, 256);
    lemma_advance_permutation(initial_state(key), n);
}

/// Stepping `m` times and then `n` times is stepping `m + n` times.
pub proof fn lemma_advance_add(st: CipherState, m: nat, n: nat)
    ensures
        advance(st, m + n) == advance(advance(st, m), n),
    decreases n,
{
    if n > 0 {
        lemma_advance_add(st, m, (n - 1) as nat);
        assert(advance(st, m + n) == step(advance(st, (m + n - 1) as nat)));
    }
}

/// Engines keyed with equal keys are in equal states, produce the same
/// keystream, and so transform any data identically.
pub proof fn lemma_determinism(k1: Seq<u8>, k2: Seq<u8>, data: Seq<u8>, n: nat)
    requires
        k1 == k2,
    ensures
        initial_state(k1) == initial_state(k2),
        keystream(initial_state(k1), n) == keystream(initial_state(k2), n),
        crypt(initial_state(k1), data) == crypt(initial_state(k2), data),
        advance(initial_state(k1), n) == advance(initial_state(k2), n),
{
}

/// The keystream depends on the state alone: whatever the data, each output
/// byte is the input byte combined with the same keystream byte, and the
/// output is as long as the input.
pub proof fn lemma_keystream_independent_of_data(st: CipherState, data: Seq<u8>)
    ensures
        crypt(st, data).len() == data.len(),
        forall|k: int| 0 <= k < data.len() ==> #[trigger] crypt(st, data)[k] ^ data[k]
            == keystream(st, data.len())[k],
{
    assert forall|k: int| 0 <= k < data.len() implies #[trigger] crypt(st, data)[k] ^ data[k]
        == keystream(st, data.len())[k] by {
        let a = data[k];
        let b = keystream_byte(st, k as nat);
        assert((a ^ b) ^ a == b) by (bit_vector);
    }
}

/// Transforming twice from the same state restores the data: a freshly
/// keyed engine decrypts what another freshly keyed engine with the same
/// key encrypted.
pub proof fn lemma_round_trip(key: Seq<u8>, data: Seq<u8>)
    ensures
        crypt(initial_state(key), crypt(initial_state(key), data)) == data,
{
    let st = initial_state(key);
    let once = crypt(st, data);
    let twice = crypt(st, once);
    assert forall|k: int| 0 <= k < data.len() implies twice[k] == data[k] by {
        let a = data[k];
        let b = keystream_byte(st, k as nat);
        assert((a ^ b) ^ b == a) by (bit_vector);
    }
    assert(twice =~= data);
}

/// Processing a message in two pieces on one engine gives the same output,
/// and leaves the same state, as processing it whole.
pub proof fn lemma_split_processing(st: CipherState, a: Seq<u8>, b: Seq<u8>)
    ensures
        crypt(st, a + b) == crypt(st, a) + crypt(advance(st, a.len()), b),
        advance(st, (a + b).len()) == advance(advance(st, a.len()), b.len()),
{
    lemma_advance_add(st, a.len(), b.len());
    let mid = advance(st, a.len());
    assert forall|k: int| 0 <= k < b.len() implies keystream_byte(st, (a.len() + k) as nat)
        == #[trigger] keystream_byte(mid, k as nat) by {
        lemma_advance_add(st, a.len(), (k + 1) as nat);
    }
    let whole = crypt(st, a + b);
    let parts = crypt(st, a) + crypt(mid, b);
    assert forall|k: int| 0 <= k < whole.len() implies whole[k] == parts[k] by {
        if k >= a.len() {
            assert(keystream_byte(st, k as nat) == keystream_byte(mid, (k - a.len()) as nat));
        }
    }
    assert(whole =~= parts);
}

} // verus!
