//! Mathematical model of the cipher: the state, the key schedule, the
//! per-byte generation step and the keystream it yields.

use vstd::prelude::*;

verus! {

/// Number of entries in the permutation table.
pub const TABLE_SIZE: usize = 256;

/// Abstract cipher state: the permutation table and the two running indices.
pub ghost struct CipherState {
    pub table: Seq<u8>,
    pub i: u8,
    pub j: u8,
}

/// `t` holds every byte value exactly once.
pub open spec fn is_permutation(t: Seq<u8>) -> bool {
    &&& t.len() == 256
    &&& forall|a: int, b: int| 0 <= a < 256 && 0 <= b < 256 && a != b ==> t[a] != t[b]
    &&& forall|v: u8| #[trigger] t.contains(v)
}

/// Addition of two bytes modulo 256.
pub open spec fn add8(a: int, b: int) -> u8 {
    ((a + b) % 256) as u8
}

/// `t` with the entries at `a` and `b` exchanged.
pub open spec fn swap(t: Seq<u8>, a: int, b: int) -> Seq<u8> {
    t.update(a, t[b]).update(b, t[a])
}

/// The identity table `0, 1, ..., 255`.
pub open spec fn identity_table() -> Seq<u8> {
    Seq::new(256, |k: int| k as u8)
}

/// Table and second index after the first `n` rounds of the key schedule.
pub open spec fn key_schedule(key: Seq<u8>, n: nat) -> (Seq<u8>, u8)
    decreases n,
{
    if n == 0 {
        (identity_table(), 0u8)
    } else {
        let (t, j) = key_schedule(key, (n - 1) as nat);
        let i = n - 1;
        let j2 = add8(add8(j as int, t[i] as int) as int, key[i % key.len() as int] as int);
        (swap(t, i, j2 as int), j2)
    }
}

/// A key is accepted when it holds 1 to 256 bytes.
pub open spec fn valid_key(key: Seq<u8>) -> bool {
    1 <= key.len() <= 256
}

/// The state of a freshly keyed cipher.
pub open spec fn initial_state(key: Seq<u8>) -> CipherState {
    CipherState { table: key_schedule(key, 256).0, i: 0, j: 0 }
}

/// One step of the keystream generator.
pub open spec fn step(st: CipherState) -> CipherState {
    let i = add8(st.i as int, 1);
    let j = add8(st.j as int, st.table[i as int] as int);
    CipherState { table: swap(st.table, i as int, j as int), i, j }
}

/// The keystream byte emitted by a state that has just been stepped into.
pub open spec fn output(st: CipherState) -> u8 {
    st.table[add8(st.table[st.i as int] as int, st.table[st.j as int] as int) as int]
}

/// The state after `n` generator steps.
pub open spec fn advance(st: CipherState, n: nat) -> CipherState
    decreases n,
{
    if n == 0 {
        st
    } else {
        step(advance(st, (n - 1) as nat))
    }
}

/// The `k`-th keystream byte (counting from zero) produced from state `st`.
pub open spec fn keystream_byte(st: CipherState, k: nat) -> u8 {
    output(advance(st, k + 1))
}

/// The first `n` keystream bytes produced from state `st`.
pub open spec fn keystream(st: CipherState, n: nat) -> Seq<u8> {
    Seq::new(n, |k: int| keystream_byte(st, k as nat))
}

/// `data` combined byte by byte, by exclusive or, with the keystream of `st`.
pub open spec fn crypt(st: CipherState, data: Seq<u8>) -> Seq<u8> {
    Seq::new(data.len(), |k: int| data[k] ^ keystream_byte(st, k as nat))
}

/// Exchanging two entries keeps a table a permutation.
pub proof fn lemma_swap_permutation(t: Seq<u8>, a: int, b: int)
    requires
        is_permutation(t),
        0 <= a < 256,
        0 <= b < 256,
    ensures
        is_permutation(swap(t, a, b)),
{
    let s = swap(t, a, b);
    assert forall|v: u8| #[trigger] s.contains(v) by {
        assert(t.contains(v));
        let k = choose|k: int| 0 <= k < 256 && t[k] == v;
        if k == a {
            assert(s[b] == v);
        } else if k == b {
            assert(s[a] == v);
        } else {
            assert(s[k] == v);
        }
    }
}

/// The identity table is a permutation.
pub proof fn lemma_identity_permutation()
    ensures
        is_permutation(identity_table()),
{
    let t = identity_table();
    assert forall|v: u8| #[trigger] t.contains(v) by {
        assert(t[v as int] == v);
    }
}

} // verus!
