//! Key derivation and body encryption.
//!
//! The final AES key is derived from a password and/or a keyfile:
//! each factor is hashed, the factors are combined, the combination
//! is encrypted in place with AES-256-ECB for the header's round
//! count under the header's transform seed, hashed again, and hashed
//! once more together with the header's final random seed.  The body
//! is then encrypted or decrypted with AES-256-CBC under that key and
//! the header's IV, with PKCS#7 padding.  Intermediate key material
//! is wiped after use.

use vstd::prelude::*;

use crate::crypto::{aes256_cbc_decrypt, aes256_cbc_encrypt, aes256_ecb_encrypt, sha256};
use crate::crypto::{aes_cbc_decrypt_of, aes_cbc_encrypt_of, aes_ecb_encrypt_of, sha256_of};
use crate::error::V1KpdbError;
use crate::header::V1Header;
use crate::secstr::{wipe_bytes, SecureString};

verus! {

/// A hexadecimal digit in ASCII.
pub open spec fn is_hex_digit(b: u8) -> bool {
    (0x30 <= b <= 0x39) || (0x41 <= b <= 0x46) || (0x61 <= b <= 0x66)
}

/// The value of a hexadecimal digit.
pub open spec fn hex_val(b: u8) -> int {
    if 0x30 <= b <= 0x39 {
        b - 0x30
    } else if 0x41 <= b <= 0x46 {
        b - 0x41 + 10
    } else {
        b - 0x61 + 10
    }
}

/// Whether every byte of `s` is a hexadecimal digit.
pub open spec fn all_hex(s: Seq<u8>) -> bool {
    forall|i: int| 0 <= i < s.len() ==> is_hex_digit(#[trigger] s[i])
}

/// The bytes that a run of hexadecimal digit pairs denotes.
pub open spec fn hex_decode(s: Seq<u8>) -> Seq<u8> {
    Seq::new(s.len() / 2, |i: int| (16 * hex_val(s[2 * i]) + hex_val(s[2 * i + 1])) as u8)
}

/// The 32-byte key a keyfile contributes: its bytes verbatim when it
/// is exactly 32 bytes long; the decoded value when it is exactly 64
/// hexadecimal digits; the SHA-256 digest of its contents otherwise.
pub open spec fn spec_keyfile_key(kf: Seq<u8>) -> Seq<u8> {
    if kf.len() == 32 {
        kf
    } else if kf.len() == 64 && all_hex(kf) {
        hex_decode(kf)
    } else {
        sha256_of(kf)
    }
}

/// The composite master key: the hash of the password, the keyfile
/// key, or the hash of both concatenated.  Meaningful only when at
/// least one factor is present.
pub open spec fn spec_composite_key(pw: Option<Seq<u8>>, kf: Option<Seq<u8>>) -> Seq<u8> {
    match (pw, kf) {
        (Some(p), Some(k)) => sha256_of(sha256_of(p) + spec_keyfile_key(k)),
        (Some(p), None) => sha256_of(p),
        (None, Some(k)) => spec_keyfile_key(k),
        (None, None) => Seq::empty(),
    }
}

/// `n` rounds of AES-256-ECB encryption of `data` under `key`.
pub open spec fn ecb_iter(n: nat, key: Seq<u8>, data: Seq<u8>) -> Seq<u8>
    decreases n,
{
    if n == 0 {
        data
    } else {
        aes_ecb_encrypt_of(key, ecb_iter((n - 1) as nat, key, data))
    }
}

/// The final body key for a given header: the composite key is
/// transformed for the round count under the transform seed, hashed,
/// and hashed again after the final random seed.
pub open spec fn spec_final_key(
    composite: Seq<u8>,
    transf_seed: Seq<u8>,
    rounds: u32,
    final_seed: Seq<u8>,
) -> Seq<u8> {
    sha256_of(final_seed + sha256_of(ecb_iter(rounds as nat, transf_seed, composite)))
}

/// The PKCS#7 padding of `s` to the next 16-byte boundary: between 1
/// and 16 bytes, each holding the count of padding bytes.
pub open spec fn spec_pad(s: Seq<u8>) -> Seq<u8> {
    let padlen = 16 - (s.len() % 16);
    s + Seq::new(padlen as nat, |i: int| padlen as u8)
}

/// The PKCS#7 padding of `s` verified and stripped: the last byte
/// counts the padding bytes, which must all match it.
pub open spec fn spec_unpad(s: Seq<u8>) -> Option<Seq<u8>> {
    if s.len() == 0 || s.len() % 16 != 0 {
        None
    } else {
        let padlen = s.last() as int;
        if 1 <= padlen <= 16 && padlen <= s.len() && (forall|i: int|
            s.len() - padlen <= i < s.len() ==> s[i] == s.last()) {
            Some(s.take(s.len() - padlen))
        } else {
            None
        }
    }
}

/// Stripping the padding of a padded body gives the body back.
pub proof fn lemma_pad_round_trip(s: Seq<u8>)
    ensures
        spec_pad(s).len() == s.len() + 16 - (s.len() % 16),
        spec_pad(s).len() % 16 == 0,
        spec_unpad(spec_pad(s)) == Some(s),
{
    let p = spec_pad(s);
    let padlen = 16 - (s.len() % 16);
    assert(p.len() == s.len() + padlen);
    assert(p.len() % 16 == 0) by {
        assert(s.len() % 16 < 16);
        assert(p.len() == 16 * (s.len() / 16) + 16);
    }
    assert(p.last() == padlen as u8);
    assert(forall|i: int| p.len() - padlen <= i < p.len() ==> p[i] == p.last());
    assert(p.take(p.len() - padlen) =~= s);
}

/// Carries the key factors of a database: an obfuscated password
/// and/or the raw contents of a keyfile.
#[derive(Debug)]
pub struct Crypter {
    password: Option<SecureString>,
    keyfile: Option<Vec<u8>>,
}

impl Crypter {
    /// The password factor, as plaintext bytes.
    pub closed spec fn password_view(self) -> Option<Seq<u8>> {
        match self.password {
            Some(p) => Some(p.plaintext()),
            None => None,
        }
    }

    /// The keyfile factor, as the file's contents.
    pub closed spec fn keyfile_view(self) -> Option<Seq<u8>> {
        match self.keyfile {
            Some(k) => Some(k@),
            None => None,
        }
    }

    /// The password buffer, when present, is well-formed and locked.
    pub closed spec fn password_sound(self) -> bool {
        self.password matches Some(p) ==> p.wf() && p.is_locked()
    }

    /// At least one factor present, and the password buffer sound.
    pub open spec fn wf(self) -> bool {
        &&& self.password_view() is Some || self.keyfile_view() is Some
        &&& self.password_sound()
    }

    /// The composite master key of the stored factors.
    pub open spec fn composite_view(self) -> Seq<u8> {
        spec_composite_key(self.password_view(), self.keyfile_view())
    }

    /// Builds a crypter from an optional password and the optional
    /// contents of a keyfile; at least one must be present.  The
    /// password is moved into an obfuscated buffer at once.
    pub fn new(password: Option<Vec<u8>>, keyfile: Option<Vec<u8>>) -> (r: Result<
        Crypter,
        V1KpdbError,
    >)
        ensures
            r matches Ok(c) ==> c.wf() && c.password_view() == spec_view_of(password)
                && c.keyfile_view() == spec_view_of(keyfile),
            r is Err <==> password is None && keyfile is None,
            r is Err ==> r == Err::<Crypter, V1KpdbError>(V1KpdbError::EncFlagErr),
    {
        if password.is_none() && keyfile.is_none() {
            return Err(V1KpdbError::EncFlagErr);
        }
        let pw = match password {
            Some(p) => Some(SecureString::new(p)),
            None => None,
        };
        Ok(Crypter { password: pw, keyfile })
    }

    /// Replaces the password factor; `None` clears it.
    pub fn change_password(&mut self, password: Option<Vec<u8>>)
        ensures
            final(self).password_view() == spec_view_of(password),
            final(self).keyfile_view() == old(self).keyfile_view(),
            final(self).password_sound(),
    {
        let mut old_pw = None;
        core::mem::swap(&mut self.password, &mut old_pw);
        if let Some(mut p) = old_pw {
            p.zeroize();
        }
        self.password = match password {
            Some(p) => Some(SecureString::new(p)),
            None => None,
        };
    }

    /// Replaces the keyfile factor; `None` clears it.
    pub fn change_keyfile(&mut self, keyfile: Option<Vec<u8>>)
        ensures
            final(self).keyfile_view() == spec_view_of(keyfile),
            final(self).password_view() == old(self).password_view(),
            old(self).password_sound() ==> final(self).password_sound(),
    {
        let mut old_kf = None;
        core::mem::swap(&mut self.keyfile, &mut old_kf);
        if let Some(mut k) = old_kf {
            wipe_bytes(&mut k);
        }
        self.keyfile = keyfile;
    }

    /// Whether a password factor is present.
    pub fn has_password(&self) -> (r: bool)
        ensures
            r == (self.password_view() is Some),
    {
        self.password.is_some()
    }

    /// Whether a keyfile factor is present.
    pub fn has_keyfile(&self) -> (r: bool)
        ensures
            r == (self.keyfile_view() is Some),
    {
        self.keyfile.is_some()
    }

    /// The SHA-256 content hash of a plaintext body, as the header
    /// stores it.
    pub fn get_content_hash(data: &Vec<u8>) -> (r: Vec<u8>)
        ensures
            r@ == sha256_of(data@),
            r@.len() == 32,
    {
        sha256(data.as_slice())
    }

    /// Whether any key factor is present.
    pub fn has_factor(&self) -> (r: bool)
        ensures
            r == (self.password_view() is Some || self.keyfile_view() is Some),
    {
        self.password.is_some() || self.keyfile.is_some()
    }

    /// The keyfile's 32-byte key contribution.
    fn keyfile_key(kf: &Vec<u8>) -> (r: Vec<u8>)
        ensures
            r@ == spec_keyfile_key(kf@),
            r@.len() == 32,
    {
        if kf.len() == 32 {
            let r = crate::header::copy_range(kf.as_slice(), 0, 32);
            proof {
                assert(r@ =~= kf@);
            }
            return r;
        }
        if kf.len() == 64 {
            let mut ok = true;
            let mut i: usize = 0;
            while i < 64
                invariant
                    i <= 64,
                    kf@.len() == 64,
                    ok == (forall|j: int| 0 <= j < i ==> is_hex_digit(#[trigger] kf@[j])),
                decreases 64 - i,
            {
                let b = kf[i];
                let good = (0x30 <= b && b <= 0x39) || (0x41 <= b && b <= 0x46) || (0x61 <= b && b
                    <= 0x66);
                ok = ok && good;
                i += 1;
            }
            if ok {
                let mut out: Vec<u8> = Vec::new();
                let mut k: usize = 0;
                while k < 32
                    invariant
                        k <= 32,
                        kf@.len() == 64,
                        all_hex(kf@),
                        out@.len() == k,
                        forall|j: int| 0 <= j < k ==> out@[j] == hex_decode(kf@)[j],
                    decreases 32 - k,
                {
                    let hi = hex_digit_val(kf[2 * k]);
                    let lo = hex_digit_val(kf[2 * k + 1]);
                    out.push(16 * hi + lo);
                    k += 1;
                }
                proof {
                    assert(out@ =~= hex_decode(kf@));
                }
                return out;
            }
            return sha256(kf.as_slice());
        }
        sha256(kf.as_slice())
    }

    /// The composite master key of the stored factors; the password
    /// is unlocked only for the hash and locked again at once.
    fn composite_key(&mut self) -> (r: Vec<u8>)
        requires
            old(self).wf(),
        ensures
            final(self).wf(),
            final(self).password_view() == old(self).password_view(),
            final(self).keyfile_view() == old(self).keyfile_view(),
            r@ == old(self).composite_view(),
    {
        let pw_hash: Option<Vec<u8>> = match &mut self.password {
            Some(p) => {
                p.unlock();
                let h = sha256(p.unlocked_bytes().as_slice());
                p.delete();
                Some(h)
            },
            None => None,
        };
        match (pw_hash, &self.keyfile) {
            (Some(ph), Some(kf)) => {
                let mut both = ph;
                let kk = Crypter::keyfile_key(kf);
                crate::header::push_bytes(&mut both, kk.as_slice());
                let r = sha256(both.as_slice());
                wipe_bytes(&mut both);
                r
            },
            (Some(ph), None) => ph,
            (None, Some(kf)) => Crypter::keyfile_key(kf),
            (None, None) => Vec::new(),
        }
    }

    /// Derives the final body key for `header`.  Every intermediate
    /// buffer is wiped before returning.
    pub fn derive_final_key(&mut self, header: &V1Header) -> (r: Result<Vec<u8>, V1KpdbError>)
        requires
            old(self).wf(),
            header.wf(),
        ensures
            final(self).wf(),
            final(self).password_view() == old(self).password_view(),
            final(self).keyfile_view() == old(self).keyfile_view(),
            r matches Ok(k) ==> k@ == spec_final_key(
                old(self).composite_view(),
                header.transf_randomseed@,
                header.key_transf_rounds,
                header.final_randomseed@,
            ) && k@.len() == 32,
            r is Err ==> r == Err::<Vec<u8>, V1KpdbError>(V1KpdbError::DecryptErr),
    {
        let mut key = self.composite_key();
        let ghost composite = key@;
        if key.len() != 32 {
            // A composite key is always a 32-byte digest; a keyfile
            // contribution is 32 bytes by construction.
            wipe_bytes(&mut key);
            return Err(V1KpdbError::DecryptErr);
        }
        let rounds = header.key_transf_rounds;
        let mut i: u32 = 0;
        while i < rounds
            invariant
                i <= rounds,
                header.wf(),
                self.wf(),
                self.password_view() == old(self).password_view(),
                self.keyfile_view() == old(self).keyfile_view(),
                key@ == ecb_iter(i as nat, header.transf_randomseed@, composite),
                key@.len() == 32,
            decreases rounds - i,
        {
            match aes256_ecb_encrypt(header.transf_randomseed.as_slice(), key.as_slice()) {
                Some(next) => {
                    wipe_bytes(&mut key);
                    key = next;
                },
                None => {
                    wipe_bytes(&mut key);
                    return Err(V1KpdbError::DecryptErr);
                },
            }
            i += 1;
        }
        let mut transformed_hash = sha256(key.as_slice());
        wipe_bytes(&mut key);
        let mut salted = crate::header::copy_range(header.final_randomseed.as_slice(), 0, 16);
        crate::header::push_bytes(&mut salted, transformed_hash.as_slice());
        wipe_bytes(&mut transformed_hash);
        let fk = sha256(salted.as_slice());
        wipe_bytes(&mut salted);
        proof {
            assert(header.final_randomseed@.subrange(0, 16) =~= header.final_randomseed@);
        }
        Ok(fk)
    }

    /// Decrypts and unpads the body, then checks its shape and its
    /// hash against the header.  Nothing is promised of the cipher
    /// call itself, but whatever comes back is accepted only when the
    /// padding is sound and the hash matches.
    pub fn decrypt_database(&mut self, header: &V1Header, encrypted: Vec<u8>) -> (r: Result<
        Vec<u8>,
        V1KpdbError,
    >)
        requires
            old(self).wf(),
            header.wf(),
        ensures
            final(self).wf(),
            final(self).password_view() == old(self).password_view(),
            final(self).keyfile_view() == old(self).keyfile_view(),
            r matches Ok(pt) ==> ({
                let fk = spec_final_key(
                    old(self).composite_view(),
                    header.transf_randomseed@,
                    header.key_transf_rounds,
                    header.final_randomseed@,
                );
                &&& spec_unpad(aes_cbc_decrypt_of(fk, header.iv@, encrypted@)) == Some(pt@)
                &&& sha256_of(pt@) == header.content_hash@
                &&& pt@.len() <= 0x7FFF_FF36
                &&& (pt@.len() == 0 ==> header.num_groups == 0)
            }),
            r is Err ==> r == Err::<Vec<u8>, V1KpdbError>(V1KpdbError::DecryptErr) || r == Err::<
                Vec<u8>,
                V1KpdbError,
            >(V1KpdbError::HashErr),
            encrypted@.len() == 0 || encrypted@.len() % 16 != 0 || encrypted@.len()
                >= 0x4000_0000 ==> r == Err::<Vec<u8>, V1KpdbError>(V1KpdbError::DecryptErr),
            r == Err::<Vec<u8>, V1KpdbError>(V1KpdbError::HashErr) ==> ({
                let fk = spec_final_key(
                    old(self).composite_view(),
                    header.transf_randomseed@,
                    header.key_transf_rounds,
                    header.final_randomseed@,
                );
                let dec = aes_cbc_decrypt_of(fk, header.iv@, encrypted@);
                match spec_unpad(dec) {
                    Some(pt) => sha256_of(pt) != header.content_hash@,
                    None => true,
                }
            }),
    {
        if encrypted.len() == 0 || encrypted.len() % 16 != 0 || encrypted.len() >= 0x4000_0000 {
            return Err(V1KpdbError::DecryptErr);
        }
        let fk = match self.derive_final_key(header) {
            Ok(k) => k,
            Err(e) => {
                return Err(e);
            },
        };
        let raw = match aes256_cbc_decrypt(fk.as_slice(), header.iv.as_slice(),
            encrypted.as_slice()) {
            Some(v) => v,
            None => {
                return Err(V1KpdbError::DecryptErr);
            },
        };
        let mut fk2 = fk;
        wipe_bytes(&mut fk2);
        let pt = match unpad(raw) {
            Ok(v) => v,
            Err(_) => {
                // A body whose padding does not verify cannot match the
                // stored content hash either; report the mismatch, as on
                // a wrong key.
                return Err(V1KpdbError::HashErr);
            },
        };
        if pt.len() > 0x7FFF_FF36 || (pt.len() == 0 && header.num_groups > 0) {
            return Err(V1KpdbError::DecryptErr);
        }
        let hash = sha256(pt.as_slice());
        if !bytes_eq(hash.as_slice(), header.content_hash.as_slice()) {
            return Err(V1KpdbError::HashErr);
        }
        Ok(pt)
    }

    /// Pads and encrypts the body under the key that `header`'s fresh
    /// seeds and IV determine.  The padded plaintext is wiped before
    /// returning.
    pub fn encrypt_database(&mut self, header: &V1Header, plaintext: Vec<u8>) -> (r: Result<
        Vec<u8>,
        V1KpdbError,
    >)
        requires
            old(self).wf(),
            header.wf(),
            plaintext@.len() < 0x3000_0000,
        ensures
            final(self).wf(),
            final(self).password_view() == old(self).password_view(),
            final(self).keyfile_view() == old(self).keyfile_view(),
            r matches Ok(ct) ==> ({
                let fk = spec_final_key(
                    old(self).composite_view(),
                    header.transf_randomseed@,
                    header.key_transf_rounds,
                    header.final_randomseed@,
                );
                &&& ct@ == aes_cbc_encrypt_of(fk, header.iv@, spec_pad(plaintext@))
                &&& aes_cbc_decrypt_of(fk, header.iv@, ct@) == spec_pad(plaintext@)
                &&& ct@.len() == spec_pad(plaintext@).len()
            }),
            r is Err ==> r == Err::<Vec<u8>, V1KpdbError>(V1KpdbError::WriteErr),
    {
        let fk = match self.derive_final_key(header) {
            Ok(k) => k,
            Err(_) => {
                return Err(V1KpdbError::WriteErr);
            },
        };
        let mut padded = plaintext;
        let ghost orig = padded@;
        let padlen: usize = 16 - (padded.len() % 16);
        let target = padded.len() + padlen;
        while padded.len() < target
            invariant
                orig.len() <= padded@.len() <= target,
                target == orig.len() + padlen,
                padlen == 16 - (orig.len() % 16),
                forall|j: int| 0 <= j < orig.len() ==> padded@[j] == orig[j],
                forall|j: int| orig.len() <= j < padded@.len() ==> padded@[j] == padlen as u8,
            decreases target - padded@.len(),
        {
            padded.push(padlen as u8);
        }
        proof {
            assert(padded@ =~= spec_pad(orig));
        }
        let ct = match aes256_cbc_encrypt(fk.as_slice(), header.iv.as_slice(),
            padded.as_slice()) {
            Some(v) => v,
            None => {
                let mut fk2 = fk;
                wipe_bytes(&mut fk2);
                return Err(V1KpdbError::WriteErr);
            },
        };
        let mut fk2 = fk;
        wipe_bytes(&mut fk2);
        wipe_bytes(&mut padded);
        Ok(ct)
    }
}

/// The view of an optional byte vector.
pub open spec fn spec_view_of(v: Option<Vec<u8>>) -> Option<Seq<u8>> {
    match v {
        Some(b) => Some(b@),
        None => None,
    }
}

/// How a key-factor argument of `save` changes a stored factor: an
/// absent argument keeps the factor, an empty buffer clears it, and a
/// non-empty buffer replaces it.
pub open spec fn factor_after(cur: Option<Seq<u8>>, change: Option<Vec<u8>>) -> Option<Seq<u8>> {
    match change {
        None => cur,
        Some(v) => if v@.len() == 0 {
            None
        } else {
            Some(v@)
        },
    }
}

/// The value of one hexadecimal digit byte.
fn hex_digit_val(b: u8) -> (r: u8)
    requires
        is_hex_digit(b),
    ensures
        r == hex_val(b),
        r < 16,
{
    if 0x30 <= b && b <= 0x39 {
        b - 0x30
    } else if 0x41 <= b && b <= 0x46 {
        b - 0x41 + 10
    } else {
        b - 0x61 + 10
    }
}

/// Whether two byte runs hold the same bytes.
pub fn bytes_eq(a: &[u8], b: &[u8]) -> (r: bool)
    ensures
        r == (a@ == b@),
{
    if a.len() != b.len() {
        proof {
            assert(a@.len() != b@.len());
        }
        return false;
    }
    let n = a.len();
    let mut i: usize = 0;
    while i < n
        invariant
            i <= n,
            n == a@.len() && n == b@.len(),
            forall|j: int| 0 <= j < i ==> a@[j] == b@[j],
        decreases n - i,
    {
        if a[i] != b[i] {
            return false;
        }
        i += 1;
    }
    proof {
        assert(a@ =~= b@);
    }
    true
}

/// Verifies and strips the PKCS#7 padding of `s`; a malformed
/// padding is a decryption failure.
pub fn unpad(s: Vec<u8>) -> (r: Result<Vec<u8>, V1KpdbError>)
    ensures
        r matches Ok(v) ==> spec_unpad(s@) == Some(v@),
        r is Err ==> spec_unpad(s@) is None && r == Err::<Vec<u8>, V1KpdbError>(
            V1KpdbError::DecryptErr,
        ),
{
    let n = s.len();
    if n == 0 || n % 16 != 0 {
        return Err(V1KpdbError::DecryptErr);
    }
    let padlen = s[n - 1] as usize;
    if padlen < 1 || padlen > 16 || padlen > n {
        return Err(V1KpdbError::DecryptErr);
    }
    let mut i: usize = n - padlen;
    while i < n
        invariant
            n == s@.len(),
            n - padlen <= i <= n,
            padlen == s@.last(),
            1 <= padlen <= 16 && padlen <= n,
            forall|j: int| n - padlen <= j < i ==> s@[j] == s@.last(),
        decreases n - i,
    {
        if s[i] as usize != padlen {
            return Err(V1KpdbError::DecryptErr);
        }
        i += 1;
    }
    let out = crate::header::copy_range(s.as_slice(), 0, n - padlen);
    proof {
        assert(s@.subrange(0, n - padlen) =~= s@.take(s@.len() - padlen));
    }
    let mut gone = s;
    wipe_bytes(&mut gone);
    Ok(out)
}

} // verus!
