//! Obfuscated in-memory storage for short secrets such as passwords.
//!
//! The backing buffer is always in one of two states: *locked*, each
//! byte XOR-ed with a per-instance random byte stream of equal length,
//! or *unlocked*, plaintext.  The mask is chosen at construction and
//! never reused.  This hides secrets from naive memory scans; it claims
//! no defense against a privileged attacker.

use vstd::prelude::*;

use crate::crypto::random_bytes;

verus! {

/// Every byte of `s` is zero.
pub open spec fn all_zero(s: Seq<u8>) -> bool {
    forall|i: int| 0 <= i < s.len() ==> s[i] == 0
}

/// The pointwise XOR of two equally long byte sequences.
pub open spec fn xor_seq(a: Seq<u8>, b: Seq<u8>) -> Seq<u8> {
    Seq::new(a.len(), |i: int| a[i] ^ b[i])
}

/// XOR-ing the same stream in twice gives the original bytes back.
proof fn lemma_xor_involutive(a: Seq<u8>, b: Seq<u8>)
    requires
        a.len() == b.len(),
    ensures
        xor_seq(xor_seq(a, b), b) =~= a,
{
    assert forall|x: u8, y: u8| #[trigger] ((x ^ y) ^ y) == x by {
        assert((x ^ y) ^ y == x) by (bit_vector);
    }
}

/// Overwrites every byte of `v` with zero, keeping its length: for
/// wiping a temporary plaintext buffer once it has been used.
pub fn wipe_bytes(v: &mut Vec<u8>)
    ensures
        final(v)@.len() == old(v)@.len(),
        all_zero(final(v)@),
{
    let n = v.len();
    let mut i: usize = 0;
    while i < n
        invariant
            v@.len() == n,
            i <= n,
            forall|j: int| 0 <= j < i ==> v@[j] == 0,
        decreases n - i,
    {
        let p = &mut v[i];
        *p = 0;
        i += 1;
    }
}

/// A short secret held in an obfuscated buffer.  The debug form
/// shows only the obfuscated bytes, never the plaintext.
#[derive(Debug)]
pub struct SecureString {
    data: Vec<u8>,
    mask: Vec<u8>,
    locked: bool,
}

impl SecureString {
    /// The secret itself, whatever the lock state of the buffer.
    pub closed spec fn plaintext(self) -> Seq<u8> {
        if self.locked {
            xor_seq(self.data@, self.mask@)
        } else {
            self.data@
        }
    }

    /// Whether reads of the backing buffer would see the plaintext.
    pub closed spec fn is_locked(self) -> bool {
        self.locked
    }

    /// The mask always matches the buffer in length.
    pub closed spec fn wf(self) -> bool {
        self.data@.len() == self.mask@.len()
    }

    /// Both backing buffers have been overwritten with zero.
    pub closed spec fn buffers_zero(self) -> bool {
        all_zero(self.data@) && all_zero(self.mask@)
    }

    /// Moves `plain` in and locks it at once under a fresh random mask;
    /// the caller keeps no plaintext copy.
    pub fn new(plain: Vec<u8>) -> (r: SecureString)
        ensures
            r.wf(),
            r.is_locked(),
            r.plaintext() == plain@,
    {
        let mut buf = plain;
        let mask = random_bytes(buf.len());
        let ghost orig = buf@;
        let mut i: usize = 0;
        while i < buf.len()
            invariant
                buf@.len() == orig.len(),
                mask@.len() == orig.len(),
                i <= orig.len(),
                forall|j: int| 0 <= j < i ==> buf@[j] == (orig[j] ^ mask@[j]),
                forall|j: int| i <= j < orig.len() ==> buf@[j] == orig[j],
            decreases orig.len() - i,
        {
            let b = buf[i] ^ mask[i];
            buf.set(i, b);
            i += 1;
        }
        proof {
            assert(buf@ =~= xor_seq(orig, mask@));
            lemma_xor_involutive(orig, mask@);
        }
        SecureString { data: buf, mask, locked: true }
    }

    /// The number of bytes of the secret.
    pub fn byte_len(&self) -> (n: usize)
        ensures
            n == self.plaintext().len(),
    {
        self.data.len()
    }

    /// XORs the buffer in place so that it holds the plaintext.
    /// Reads are only valid between `unlock` and `lock`.
    pub fn unlock(&mut self)
        requires
            old(self).wf(),
            old(self).is_locked(),
        ensures
            final(self).wf(),
            !final(self).is_locked(),
            final(self).plaintext() == old(self).plaintext(),
    {
        let ghost orig = self.data@;
        let mut i: usize = 0;
        while i < self.data.len()
            invariant
                self.mask@.len() == orig.len(),
                self.data@.len() == orig.len(),
                i <= orig.len(),
                forall|j: int| 0 <= j < i ==> self.data@[j] == (orig[j] ^ self.mask@[j]),
                forall|j: int| i <= j < orig.len() ==> self.data@[j] == orig[j],
                self.locked == old(self).locked,
                self.mask@ == old(self).mask@,
            decreases orig.len() - i,
        {
            let b = self.data[i] ^ self.mask[i];
            self.data.set(i, b);
            i += 1;
        }
        proof {
            assert(self.data@ =~= xor_seq(orig, self.mask@));
        }
        self.locked = false;
    }

    /// XORs the plaintext back under the same stream.
    pub fn lock(&mut self)
        requires
            old(self).wf(),
            !old(self).is_locked(),
        ensures
            final(self).wf(),
            final(self).is_locked(),
            final(self).plaintext() == old(self).plaintext(),
    {
        let ghost orig = self.data@;
        let mut i: usize = 0;
        while i < self.data.len()
            invariant
                self.mask@.len() == orig.len(),
                self.data@.len() == orig.len(),
                i <= orig.len(),
                forall|j: int| 0 <= j < i ==> self.data@[j] == (orig[j] ^ self.mask@[j]),
                forall|j: int| i <= j < orig.len() ==> self.data@[j] == orig[j],
                self.locked == old(self).locked,
                self.mask@ == old(self).mask@,
            decreases orig.len() - i,
        {
            let b = self.data[i] ^ self.mask[i];
            self.data.set(i, b);
            i += 1;
        }
        proof {
            assert(self.data@ =~= xor_seq(orig, self.mask@));
            lemma_xor_involutive(orig, self.mask@);
        }
        self.locked = true;
    }

    /// Locks the buffer again after a read; the name kept for parity
    /// with the unlock/delete bracket callers expect.
    pub fn delete(&mut self)
        requires
            old(self).wf(),
            !old(self).is_locked(),
        ensures
            final(self).wf(),
            final(self).is_locked(),
            final(self).plaintext() == old(self).plaintext(),
    {
        self.lock();
    }

    /// Borrows the plaintext bytes; only valid while unlocked.
    pub fn unlocked_bytes(&self) -> (r: &Vec<u8>)
        requires
            !self.is_locked(),
        ensures
            r@ == self.plaintext(),
    {
        &self.data
    }

    /// Decodes the secret into a fresh buffer without touching the
    /// lock state.  The caller owns the plaintext copy and is expected
    /// to wipe it as soon as it has served its purpose.
    pub fn plaintext_copy(&self) -> (r: Vec<u8>)
        requires
            self.wf(),
        ensures
            r@ == self.plaintext(),
    {
        let n = self.data.len();
        let mut out: Vec<u8> = Vec::new();
        let mut i: usize = 0;
        while i < n
            invariant
                self.data@.len() == n,
                self.mask@.len() == n,
                i <= n,
                out@.len() == i,
                forall|j: int| 0 <= j < i ==> out@[j] == self.plaintext()[j],
            decreases n - i,
        {
            if self.locked {
                out.push(self.data[i] ^ self.mask[i]);
            } else {
                out.push(self.data[i]);
            }
            i += 1;
        }
        proof {
            assert(out@ =~= self.plaintext());
        }
        out
    }

    /// Overwrites both backing buffers with zero.  Best-effort secret
    /// hygiene: after this, no trace of the secret or its mask remains
    /// in the buffers.  Callers release a secret by zeroising it first;
    /// the remove operations of the database do so.
    pub fn zeroize(&mut self)
        ensures
            final(self).buffers_zero(),
    {
        let n = self.data.len();
        let mut i: usize = 0;
        while i < n
            invariant
                self.data@.len() == n,
                i <= n,
                forall|j: int| 0 <= j < i ==> self.data@[j] == 0,
            decreases n - i,
        {
            let p = &mut self.data[i];
            *p = 0;
            i += 1;
        }
        let m = self.mask.len();
        let mut k: usize = 0;
        while k < m
            invariant
                self.mask@.len() == m,
                k <= m,
                forall|j: int| 0 <= j < k ==> self.mask@[j] == 0,
                forall|j: int| 0 <= j < self.data@.len() ==> self.data@[j] == 0,
            decreases m - k,
        {
            let p = &mut self.mask[k];
            *p = 0;
            k += 1;
        }
    }
}

} // verus!
