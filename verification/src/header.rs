//! The fixed-layout 124-byte file header: parse, validate, serialize.
//!
//! All integer fields are little-endian; the seed, IV and hash fields
//! are raw byte runs.  Layout, in order: two magic signatures,
//! encryption flags, version, 16-byte final random seed, 16-byte IV,
//! group count, entry count, 32-byte content hash, 32-byte transform
//! seed, transform round count.

use vstd::prelude::*;

use crate::endian::{le_u32_at, le_u32_bytes, push_u32_le, read_u32_at};
use crate::endian::lemma_le_u32_round_trip;
use crate::error::V1KpdbError;

verus! {

/// The first magic signature every v1 database starts with.
pub const SIG1: u32 = 0x9AA2_D903;

/// The second magic signature.
pub const SIG2: u32 = 0xB54B_FB65;

/// The bit of the encryption flags that requests AES.
pub const ENC_FLAG_AES: u32 = 2;

/// The version word of the supported format.
pub const VERSION: u32 = 0x0003_0002;

/// Only the major and minor part of the version word is significant.
pub const VERSION_MASK: u32 = 0xFFFF_FF00;

/// The masked version every supported file carries.
pub const VERSION_MAJOR_MINOR: u32 = 0x0003_0000;

/// The byte length of the serialized header.
pub const HEADER_LEN: usize = 124;

/// The decoded header of a database file.
#[derive(Debug)]
pub struct V1Header {
    pub signature1: u32,
    pub signature2: u32,
    pub enc_flag: u32,
    pub version: u32,
    pub final_randomseed: Vec<u8>,
    pub iv: Vec<u8>,
    pub num_groups: u32,
    pub num_entries: u32,
    pub content_hash: Vec<u8>,
    pub transf_randomseed: Vec<u8>,
    pub key_transf_rounds: u32,
}

/// Copies `len` bytes of `s` starting at `start` into a fresh vector.
pub fn copy_range(s: &[u8], start: usize, len: usize) -> (r: Vec<u8>)
    requires
        start + len <= s@.len(),
    ensures
        r@ == s@.subrange(start as int, start + len),
{
    let slen: usize = s.len();
    let mut out: Vec<u8> = Vec::new();
    let mut i: usize = 0;
    while i < len
        invariant
            start + len <= s@.len(),
            s@.len() == slen,
            i <= len,
            out@ =~= s@.subrange(start as int, start + i),
        decreases len - i,
    {
        out.push(s[start + i]);
        assert(out@ =~= s@.subrange(start as int, start + i + 1));
        i += 1;
    }
    out
}

/// Appends every byte of `src` to `out`.
pub fn push_bytes(out: &mut Vec<u8>, src: &[u8])
    ensures
        final(out)@ == old(out)@ + src@,
{
    let mut i: usize = 0;
    while i < src.len()
        invariant
            i <= src@.len(),
            out@ =~= old(out)@ + src@.subrange(0, i as int),
        decreases src@.len() - i,
    {
        out.push(src[i]);
        assert(out@ =~= old(out)@ + src@.subrange(0, i + 1 as int));
        i += 1;
    }
    assert(out@ =~= old(out)@ + src@);
}

impl V1Header {
    /// The byte-run fields have the lengths the layout assigns them.
    pub open spec fn wf(self) -> bool {
        &&& self.final_randomseed@.len() == 16
        &&& self.iv@.len() == 16
        &&& self.content_hash@.len() == 32
        &&& self.transf_randomseed@.len() == 32
    }

    /// The 124 serialized bytes of `self`.
    pub open spec fn spec_bytes(self) -> Seq<u8> {
        le_u32_bytes(self.signature1) + le_u32_bytes(self.signature2) + le_u32_bytes(
            self.enc_flag,
        ) + le_u32_bytes(self.version) + self.final_randomseed@ + self.iv@ + le_u32_bytes(
            self.num_groups,
        ) + le_u32_bytes(self.num_entries) + self.content_hash@ + self.transf_randomseed@
            + le_u32_bytes(self.key_transf_rounds)
    }

    /// How a parsed header relates to the first 124 bytes of `b`.
    pub open spec fn parses_from(self, b: Seq<u8>) -> bool {
        &&& self.signature1 == le_u32_at(b, 0)
        &&& self.signature2 == le_u32_at(b, 4)
        &&& self.enc_flag == le_u32_at(b, 8)
        &&& self.version == le_u32_at(b, 12)
        &&& self.final_randomseed@ == b.subrange(16, 32)
        &&& self.iv@ == b.subrange(32, 48)
        &&& self.num_groups == le_u32_at(b, 48)
        &&& self.num_entries == le_u32_at(b, 52)
        &&& self.content_hash@ == b.subrange(56, 88)
        &&& self.transf_randomseed@ == b.subrange(88, 120)
        &&& self.key_transf_rounds == le_u32_at(b, 120)
    }

    /// A fresh header for a database that has never been saved: correct
    /// magic values, AES requested, zero seeds and counts, and the
    /// customary transform round count.
    pub fn new() -> (r: V1Header)
        ensures
            r.wf(),
            r.signature1 == SIG1,
            r.signature2 == SIG2,
            r.enc_flag == ENC_FLAG_AES,
            r.version == VERSION,
            r.num_groups == 0,
            r.num_entries == 0,
            r.key_transf_rounds == 50000,
    {
        let mut zero16a: Vec<u8> = Vec::new();
        let mut zero16b: Vec<u8> = Vec::new();
        let mut zero32a: Vec<u8> = Vec::new();
        let mut zero32b: Vec<u8> = Vec::new();
        let mut i: usize = 0;
        while i < 16
            invariant
                zero16a@.len() == i,
                zero16b@.len() == i,
                i <= 16,
            decreases 16 - i,
        {
            zero16a.push(0);
            zero16b.push(0);
            i += 1;
        }
        let mut k: usize = 0;
        while k < 32
            invariant
                zero32a@.len() == k,
                zero32b@.len() == k,
                k <= 32,
            decreases 32 - k,
        {
            zero32a.push(0);
            zero32b.push(0);
            k += 1;
        }
        V1Header {
            signature1: SIG1,
            signature2: SIG2,
            enc_flag: ENC_FLAG_AES,
            version: VERSION,
            final_randomseed: zero16a,
            iv: zero16b,
            num_groups: 0,
            num_entries: 0,
            content_hash: zero32a,
            transf_randomseed: zero32b,
            key_transf_rounds: 50000,
        }
    }

    /// Decodes the first 124 bytes of `raw`; a shorter input is a short
    /// read.  No validity checks happen here.
    pub fn parse(raw: &[u8]) -> (r: Result<V1Header, V1KpdbError>)
        ensures
            raw@.len() >= 124 ==> (r matches Ok(h) && h.parses_from(raw@) && h.wf()),
            raw@.len() < 124 ==> r == Err::<V1Header, V1KpdbError>(V1KpdbError::ReadErr),
    {
        if raw.len() < 124 {
            return Err(V1KpdbError::ReadErr);
        }
        let h = V1Header {
            signature1: read_u32_at(raw, 0),
            signature2: read_u32_at(raw, 4),
            enc_flag: read_u32_at(raw, 8),
            version: read_u32_at(raw, 12),
            final_randomseed: copy_range(raw, 16, 16),
            iv: copy_range(raw, 32, 16),
            num_groups: read_u32_at(raw, 48),
            num_entries: read_u32_at(raw, 52),
            content_hash: copy_range(raw, 56, 32),
            transf_randomseed: copy_range(raw, 88, 32),
            key_transf_rounds: read_u32_at(raw, 120),
        };
        Ok(h)
    }

    /// Serializes `self` into its 124-byte layout.
    pub fn serialize(&self) -> (r: Vec<u8>)
        requires
            self.wf(),
        ensures
            r@ == self.spec_bytes(),
            r@.len() == 124,
    {
        let mut out: Vec<u8> = Vec::new();
        push_u32_le(&mut out, self.signature1);
        push_u32_le(&mut out, self.signature2);
        push_u32_le(&mut out, self.enc_flag);
        push_u32_le(&mut out, self.version);
        push_bytes(&mut out, self.final_randomseed.as_slice());
        push_bytes(&mut out, self.iv.as_slice());
        push_u32_le(&mut out, self.num_groups);
        push_u32_le(&mut out, self.num_entries);
        push_bytes(&mut out, self.content_hash.as_slice());
        push_bytes(&mut out, self.transf_randomseed.as_slice());
        push_u32_le(&mut out, self.key_transf_rounds);
        out
    }

    /// Both magic signatures must match.
    pub fn check_signatures(&self) -> (r: Result<(), V1KpdbError>)
        ensures
            r is Ok <==> (self.signature1 == SIG1 && self.signature2 == SIG2),
            r is Err ==> r == Err::<(), V1KpdbError>(V1KpdbError::SignatureErr),
    {
        if self.signature1 != SIG1 || self.signature2 != SIG2 {
            return Err(V1KpdbError::SignatureErr);
        }
        Ok(())
    }

    /// The encryption flags must request AES.
    pub fn check_enc_flag(&self) -> (r: Result<(), V1KpdbError>)
        ensures
            r is Ok <==> self.enc_flag & ENC_FLAG_AES == ENC_FLAG_AES,
            r is Err ==> r == Err::<(), V1KpdbError>(V1KpdbError::EncFlagErr),
    {
        if self.enc_flag & ENC_FLAG_AES != ENC_FLAG_AES {
            return Err(V1KpdbError::EncFlagErr);
        }
        Ok(())
    }

    /// The major and minor part of the version word must match the
    /// supported format.
    pub fn check_version(&self) -> (r: Result<(), V1KpdbError>)
        ensures
            r is Ok <==> self.version & VERSION_MASK == VERSION_MAJOR_MINOR,
            r is Err ==> r == Err::<(), V1KpdbError>(V1KpdbError::VersionErr),
    {
        if self.version & VERSION_MASK != VERSION_MAJOR_MINOR {
            return Err(V1KpdbError::VersionErr);
        }
        Ok(())
    }
}

/// Serializing a well-formed header and decoding the result gives every
/// field back: the header codec is a bijection on its 124-byte layout.
#[verifier::rlimit(100)]
pub proof fn lemma_header_round_trip(h: V1Header)
    requires
        h.wf(),
    ensures
        h.parses_from(h.spec_bytes()),
        h.spec_bytes().len() == 124,
{
    let b = h.spec_bytes();
    lemma_le_u32_round_trip(h.signature1);
    lemma_le_u32_round_trip(h.signature2);
    lemma_le_u32_round_trip(h.enc_flag);
    lemma_le_u32_round_trip(h.version);
    lemma_le_u32_round_trip(h.num_groups);
    lemma_le_u32_round_trip(h.num_entries);
    lemma_le_u32_round_trip(h.key_transf_rounds);
    assert(b.subrange(16, 32) =~= h.final_randomseed@);
    assert(b.subrange(32, 48) =~= h.iv@);
    assert(b.subrange(56, 88) =~= h.content_hash@);
    assert(b.subrange(88, 120) =~= h.transf_randomseed@);
}

/// A header's 124 serialized bytes decode to the same fields even
/// when more bytes follow them: parsing reads only the fixed prefix.
pub proof fn lemma_header_parse_prefix(h: V1Header, rest: Seq<u8>)
    requires
        h.wf(),
    ensures
        h.parses_from(h.spec_bytes() + rest),
        (h.spec_bytes() + rest).len() == 124 + rest.len(),
{
    let b0 = h.spec_bytes();
    let b = b0 + rest;
    lemma_header_round_trip(h);
    assert(forall|i: int| 0 <= i < 124 ==> b[i] == b0[i]);
    assert(b.subrange(16, 32) =~= b0.subrange(16, 32));
    assert(b.subrange(32, 48) =~= b0.subrange(32, 48));
    assert(b.subrange(56, 88) =~= b0.subrange(56, 88));
    assert(b.subrange(88, 120) =~= b0.subrange(88, 120));
}

} // verus!
