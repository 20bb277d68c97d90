//! The executable cipher engine.

use vstd::prelude::*;
use vstd::slice::slice_to_vec;
use crate::model::{
    add8, advance, crypt, identity_table, initial_state, is_permutation, key_schedule,
    keystream_byte, lemma_identity_permutation, lemma_swap_permutation, output, step, swap,
    valid_key, CipherState, TABLE_SIZE,
};

verus! {

/// Error returned when a key is empty or longer than the table.
#[derive(Debug, Clone, Copy, PartialEq, Eq, Structural)]
pub struct InvalidKeyError;

/// An RC4 engine: a permutation table and two running indices.
///
/// One engine is one position in one keystream; every processed byte
/// advances it.
pub struct Rc4 {
    s: [u8; 256],
    i: u8,
    j: u8,
}

impl View for Rc4 {
    type V = CipherState;

    closed spec fn view(&self) -> CipherState {
        CipherState { table: self.s@, i: self.i, j: self.j }
    }
}

impl Rc4 {
    /// The table is a permutation of all byte values.
    pub open spec fn wf(&self) -> bool {
        is_permutation(self@.table)
    }

    /// Keys the engine: the key schedule run over the identity table.
    ///
    /// Fails exactly when the key is empty or longer than 256 bytes.
    pub fn new(key: &[u8]) -> (r: Result<Rc4, InvalidKeyError>)
        ensures
            r is Err <==> !valid_key(key@),
            r matches Ok(e) ==> e@ == initial_state(key@) && e.wf(),
    {
        if key.len() == 0 || key.len() > TABLE_SIZE {
            return Err(InvalidKeyError);
        }
        let mut s: [u8; 256] = [0u8; 256];
        let mut n: usize = 0;
        while n < TABLE_SIZE
            invariant
                0 <= n <= 256,
                s@.len() == 256,
                forall|k: int| 0 <= k < n ==> s@[k] == k as u8,
            decreases 256 - n,
        {
            s[n] = n as u8;
            n = n + 1;
        }
        assert(s@ =~= identity_table());
        proof {
            lemma_identity_permutation();
        }
        let mut j: u8 = 0;
        let mut i: usize = 0;
        while i < TABLE_SIZE
            invariant
                0 <= i <= 256,
                valid_key(key@),
                s@.len() == 256,
                (s@, j) == key_schedule(key@, i as nat),
                is_permutation(s@),
            decreases 256 - i,
        {
            let ghost t = s@;
            let ghost j0 = j;
            let key_byte = key[i % key.len()];
            let si = s[i];
            j = j.wrapping_add(si).wrapping_add(key_byte);
            assert(j == add8(add8(j0 as int, t[i as int] as int) as int, key@[(i as int) % (key@.len() as int)] as int));
            let sj = s[j as usize];
            s[i] = sj;
            s[j as usize] = si;
            assert(s@ =~= swap(t, i as int, j as int));
            proof {
                lemma_swap_permutation(t, i as int, j as int);
            }
            i = i + 1;
        }
        Ok(Rc4 { s, i: 0, j: 0 })
    }

    /// Advances the engine by one step and returns the keystream byte.
    fn next_byte(&mut self) -> (k: u8)
        requires
            old(self).wf(),
        ensures
            final(self)@ == step(old(self)@),
            k == output(final(self)@),
            final(self).wf(),
    {
        let i = self.i.wrapping_add(1);
        let si = self.s[i as usize];
        let j = self.j.wrapping_add(si);
        let sj = self.s[j as usize];
        self.s[i as usize] = sj;
        self.s[j as usize] = si;
        self.i = i;
        self.j = j;
        proof {
            lemma_swap_permutation(old(self)@.table, i as int, j as int);
        }
        self.s[si.wrapping_add(sj) as usize]
    }

    /// Combines `data` in place with the next `data.len()` keystream bytes,
    /// by exclusive or, and advances the engine past them.
    ///
    /// Running the same engine state over the result again restores `data`.
    pub fn process(&mut self, data: &mut [u8])
        requires
            old(self).wf(),
        ensures
            final(self).wf(),
            final(self)@ == advance(old(self)@, old(data)@.len()),
            final(data)@ == crypt(old(self)@, old(data)@),
            final(data)@.len() == old(data)@.len(),
    {
        let ghost st0 = self@;
        let ghost d0 = data@;
        let len = data.len();
        let mut k: usize = 0;
        while k < len
            invariant
                0 <= k <= len,
                len == d0.len(),
                self.wf(),
                self@ == advance(st0, k as nat),
                data@.len() == len,
                forall|m: int| 0 <= m < k ==> data@[m] == d0[m] ^ keystream_byte(st0, m as nat),
                forall|m: int| k <= m < len ==> data@[m] == d0[m],
            decreases len - k,
        {
            let ks = self.next_byte();
            data[k] = data[k] ^ ks;
            k = k + 1;
        }
        assert(data@ =~= crypt(st0, d0));
    }

    /// Returns a copy of `data` combined with the next `data.len()` keystream
    /// bytes, and advances the engine past them.
    pub fn apply(&mut self, data: &[u8]) -> (r: Vec<u8>)
        requires
            old(self).wf(),
        ensures
            final(self).wf(),
            final(self)@ == advance(old(self)@, data@.len()),
            r@ == crypt(old(self)@, data@),
            r@.len() == data@.len(),
    {
        let mut out = slice_to_vec(data);
        self.process(out.as_mut_slice());
        out
    }
}

} // verus!
