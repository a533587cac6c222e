//! The database façade: load, save, and the tree mutators.
//!
//! A database owns its groups and entries in two ordered lists.  The
//! group list is a pre-order traversal of the group forest, so the
//! parent and child relations are carried by positions and levels
//! (see the tree module); entries point at their owning group through
//! its id.  The header's counters always equal the list lengths.

use vstd::prelude::*;

use crate::body::{
    body_bytes, entry_models, group_models, parse_entries, parse_groups, write_body,
};
use crate::crypter::{factor_after, spec_view_of, Crypter};
use crate::entry::V1Entry;
use crate::error::V1KpdbError;
use crate::group::{GroupModel, V1Group};
use crate::header::{copy_range, push_bytes, V1Header};
use crate::tree::{check_levels, find_group_index, levels_of, levels_wf};

verus! {

/// Group ids are unique and non-zero.
pub open spec fn ids_ok(gs: Seq<GroupModel>) -> bool {
    &&& forall|i: int| 0 <= i < gs.len() ==> (#[trigger] gs[i]).id != 0
    &&& forall|i: int, j: int| 0 <= i < j < gs.len() ==> gs[i].id != gs[j].id
}

/// The largest group id in the list, zero when the list is empty.
pub open spec fn max_group_id(gs: Seq<GroupModel>) -> u32
    decreases gs.len(),
{
    if gs.len() == 0 {
        0u32
    } else if gs.last().id > max_group_id(gs.drop_last()) {
        gs.last().id
    } else {
        max_group_id(gs.drop_last())
    }
}

/// No id in the list is above the maximum.
pub proof fn lemma_max_group_id(gs: Seq<GroupModel>)
    ensures
        forall|k: int| 0 <= k < gs.len() ==> (#[trigger] gs[k]).id <= max_group_id(gs),
    decreases gs.len(),
{
    if gs.len() > 0 {
        lemma_max_group_id(gs.drop_last());
        assert forall|k: int| 0 <= k < gs.len() implies (#[trigger] gs[k]).id <= max_group_id(
            gs,
        ) by {
            if k < gs.len() - 1 {
                assert(gs.drop_last()[k] == gs[k]);
            }
        }
    }
}

/// Some group in the list carries this id.
pub open spec fn has_group(gs: Seq<GroupModel>, id: u32) -> bool {
    exists|j: int| 0 <= j < gs.len() && (#[trigger] gs[j]).id == id
}

/// Every entry's owning group is in the list.
pub open spec fn entries_linked(gs: Seq<GroupModel>, es: Seq<crate::entry::EntryModel>) -> bool {
    forall|i: int| 0 <= i < es.len() ==> has_group(gs, (#[trigger] es[i]).group_id)
}

/// What holds of a decrypted plaintext body `pt` when `load`
/// succeeds: it is the verified unpadding of the decrypted
/// ciphertext, its hash matches the header, and parsing it yields
/// exactly the database's groups and entries.
pub open spec fn loaded_from(db: V1Kpdb, fk: Seq<u8>, ct: Seq<u8>, pt: Seq<u8>) -> bool {
    &&& crate::crypter::spec_unpad(crate::crypto::aes_cbc_decrypt_of(fk, db.header.iv@, ct))
        == Some(pt)
    &&& crate::crypto::sha256_of(pt) == db.header.content_hash@
    &&& (crate::body::spec_parse_groups(pt, 0, db.header.num_groups as int) matches Ok(g2)
        && g2.0 == group_models(db.groups@) && (crate::body::spec_parse_entries(
        pt,
        g2.1,
        db.header.num_entries as int,
    ) matches Ok(e2) && e2.0 == entry_models(db.entries@)))
}

/// Everything `save` guarantees on success: the state stays
/// well-formed with the same groups, entries and identifying header
/// fields; the returned bytes are the serialized header followed by
/// the encryption, under the freshly derived final key and IV, of
/// the padded body; and the new content hash is the hash of that
/// body.
pub open spec fn save_ok(prev: V1Kpdb, db: V1Kpdb, bytes: Seq<u8>) -> bool {
    let body = body_bytes(group_models(db.groups@), entry_models(db.entries@));
    let fk = crate::crypter::spec_final_key(
        db.crypter.composite_view(),
        db.header.transf_randomseed@,
        db.header.key_transf_rounds,
        db.header.final_randomseed@,
    );
    &&& db.wf()
    &&& group_models(db.groups@) == group_models(prev.groups@)
    &&& entry_models(db.entries@) == entry_models(prev.entries@)
    &&& db.header.signature1 == prev.header.signature1
    &&& db.header.signature2 == prev.header.signature2
    &&& db.header.enc_flag == prev.header.enc_flag
    &&& db.header.version == prev.header.version
    &&& db.header.num_groups == prev.header.num_groups
    &&& db.header.num_entries == prev.header.num_entries
    &&& db.header.content_hash@ == crate::crypto::sha256_of(body)
    &&& bytes == db.header.spec_bytes() + crate::crypto::aes_cbc_encrypt_of(
        fk,
        db.header.iv@,
        crate::crypter::spec_pad(body),
    )
    &&& crate::crypto::aes_cbc_decrypt_of(fk, db.header.iv@, bytes.subrange(124, bytes.len() as int))
        == crate::crypter::spec_pad(body)
}

/// On a failed load nothing observable changes: the lists, header
/// and path are untouched, and the key factors keep their values.
pub open spec fn load_err_unchanged(prev: V1Kpdb, db: V1Kpdb) -> bool {
    &&& db.groups == prev.groups
    &&& db.entries == prev.entries
    &&& db.header == prev.header
    &&& db.path == prev.path
    &&& db.password_view() == prev.password_view()
    &&& db.keyfile_view() == prev.keyfile_view()
    &&& prev.crypter.wf() ==> db.crypter.wf()
}

/// Everything `load` guarantees on success: the new state is
/// well-formed, its header is the one decoded from the first 124
/// bytes of `raw` and passes the signature, cipher-flag and version
/// checks, the key factors and the path are unchanged, and some
/// plaintext body ties the ciphertext to the parsed groups and
/// entries under the derived final key.
pub open spec fn load_ok(prev: V1Kpdb, db: V1Kpdb, raw: Seq<u8>) -> bool {
    let fk = crate::crypter::spec_final_key(
        prev.crypter.composite_view(),
        db.header.transf_randomseed@,
        db.header.key_transf_rounds,
        db.header.final_randomseed@,
    );
    let ct = raw.subrange(124, raw.len() as int);
    &&& db.wf()
    &&& db.header.parses_from(raw)
    &&& db.header.signature1 == crate::header::SIG1
    &&& db.header.signature2 == crate::header::SIG2
    &&& db.header.enc_flag & crate::header::ENC_FLAG_AES == crate::header::ENC_FLAG_AES
    &&& db.header.version & crate::header::VERSION_MASK == crate::header::VERSION_MAJOR_MINOR
    &&& db.password_view() == prev.password_view()
    &&& db.keyfile_view() == prev.keyfile_view()
    &&& db.path@ == prev.path@
    &&& (exists|pt: Seq<u8>| loaded_from(db, fk, ct, pt))
}

/// The plaintext body that `raw` determines under the database's
/// stored key factors: the ciphertext after the 124-byte header,
/// decrypted under the final key that the header's own seed fields
/// derive, with its padding verified and stripped.  `None` when the
/// padding is unsound.
pub open spec fn spec_plaintext_of(prev: V1Kpdb, raw: Seq<u8>) -> Option<Seq<u8>> {
    let fk = crate::crypter::spec_final_key(
        prev.crypter.composite_view(),
        raw.subrange(88, 120),
        crate::endian::le_u32_at(raw, 120) as u32,
        raw.subrange(16, 32),
    );
    crate::crypter::spec_unpad(
        crate::crypto::aes_cbc_decrypt_of(
            fk,
            raw.subrange(32, 48),
            raw.subrange(124, raw.len() as int),
        ),
    )
}

/// Whether the bytes of a file, once decrypted and parsed, describe
/// a group stream or entry links that the tree checks reject: the
/// level sequence is not a pre-order forest, a group id is zero or
/// repeated, or an entry points at no group.
pub open spec fn tree_rejected(prev: V1Kpdb, raw: Seq<u8>) -> bool {
    raw.len() >= 124 && match spec_plaintext_of(prev, raw) {
        Some(pt) => (crate::body::spec_parse_groups(
            pt,
            0,
            crate::endian::le_u32_at(raw, 48),
        ) matches Ok(g2) && (crate::body::spec_parse_entries(
            pt,
            g2.1,
            crate::endian::le_u32_at(raw, 52),
        ) matches Ok(e2) && !(levels_wf(levels_of(g2.0)) && ids_ok(g2.0) && entries_linked(
            g2.0,
            e2.0,
        )))),
        None => false,
    }
}

/// A KeePass v1 database: the decoded header, the ordered group and
/// entry lists, and the key material used to open and save it.
#[derive(Debug)]
pub struct V1Kpdb {
    /// Filepath of the database, kept for the caller; this crate
    /// itself never touches the filesystem.
    pub path: String,
    /// The decoded header.
    pub header: V1Header,
    /// The groups, in depth-first pre-order.
    pub groups: Vec<V1Group>,
    /// The entries, in file order.
    pub entries: Vec<V1Entry>,
    /// The key material used to open and save the database.
    pub crypter: Crypter,
}

impl V1Kpdb {
    /// The invariant every operation preserves: sound header with
    /// counters equal to the list lengths, a well-formed level
    /// sequence, unique non-zero group ids, every entry linked to a
    /// group, every record encodable, every secret buffer sound, and
    /// key material present.
    pub open spec fn wf(self) -> bool {
        &&& self.header.wf()
        &&& self.header.num_groups == self.groups@.len()
        &&& self.header.num_entries == self.entries@.len()
        &&& levels_wf(levels_of(group_models(self.groups@)))
        &&& ids_ok(group_models(self.groups@))
        &&& entries_linked(group_models(self.groups@), entry_models(self.entries@))
        &&& forall|i: int|
            0 <= i < self.groups@.len() ==> (#[trigger] self.groups@[i]).model().encodable()
        &&& forall|i: int|
            0 <= i < self.entries@.len() ==> (#[trigger] self.entries@[i]).model().encodable()
                && self.entries@[i].secret_wf()
        &&& self.crypter.wf()
    }

    /// The password factor currently held.
    pub open spec fn password_view(self) -> Option<Seq<u8>> {
        self.crypter.password_view()
    }

    /// The keyfile factor currently held.
    pub open spec fn keyfile_view(self) -> Option<Seq<u8>> {
        self.crypter.keyfile_view()
    }

    /// Creates an empty database bound to `path`, consuming the
    /// password and/or the contents of a keyfile; at least one of the
    /// two must be present.  Call `load` to decrypt and parse an
    /// existing file.
    pub fn new(path: String, password: Option<Vec<u8>>, keyfile: Option<Vec<u8>>) -> (r: Result<
        V1Kpdb,
        V1KpdbError,
    >)
        ensures
            r matches Ok(db) ==> db.wf() && db.groups@.len() == 0 && db.entries@.len() == 0
                && db.password_view() == spec_view_of(password) && db.keyfile_view()
                == spec_view_of(keyfile) && db.path@ == path@,
            r matches Ok(db) ==> db.header.signature1 == crate::header::SIG1
                && db.header.signature2 == crate::header::SIG2 && db.header.enc_flag
                == crate::header::ENC_FLAG_AES && db.header.version == crate::header::VERSION
                && db.header.num_groups == 0 && db.header.num_entries == 0
                && db.header.key_transf_rounds == 50000,
            r is Err <==> password is None && keyfile is None,
            r is Err ==> r == Err::<V1Kpdb, V1KpdbError>(V1KpdbError::EncFlagErr),
    {
        let crypter = match Crypter::new(password, keyfile) {
            Ok(c) => c,
            Err(e) => {
                return Err(e);
            },
        };
        Ok(
            V1Kpdb {
                path,
                header: V1Header::new(),
                groups: Vec::new(),
                entries: Vec::new(),
                crypter,
            },
        )
    }

    /// Decrypts and parses a whole database file, handed in as its
    /// raw bytes.  On success the database holds exactly what the
    /// file describes; on any failure it is left unchanged.  The
    /// header checks run in a fixed order, so the first failing one
    /// names the error; a tree error comes only from a body whose
    /// group stream or entry links the tree checks reject.
    #[verifier::rlimit(100)]
    pub fn load(&mut self, raw: Vec<u8>) -> (r: Result<(), V1KpdbError>)
        requires
            old(self).crypter.wf(),
        ensures
            r is Err ==> load_err_unchanged(*old(self), *final(self)),
            r == Err::<(), V1KpdbError>(V1KpdbError::ReadErr) <==> raw@.len() < 124,
            r == Err::<(), V1KpdbError>(V1KpdbError::SignatureErr) <==> raw@.len() >= 124 && !(
            crate::endian::le_u32_at(raw@, 0) == crate::header::SIG1 && crate::endian::le_u32_at(
                raw@,
                4,
            ) == crate::header::SIG2),
            r == Err::<(), V1KpdbError>(V1KpdbError::EncFlagErr) <==> raw@.len() >= 124
                && crate::endian::le_u32_at(raw@, 0) == crate::header::SIG1
                && crate::endian::le_u32_at(raw@, 4) == crate::header::SIG2 && (
            crate::endian::le_u32_at(raw@, 8) as u32) & crate::header::ENC_FLAG_AES
                != crate::header::ENC_FLAG_AES,
            r == Err::<(), V1KpdbError>(V1KpdbError::VersionErr) <==> raw@.len() >= 124
                && crate::endian::le_u32_at(raw@, 0) == crate::header::SIG1
                && crate::endian::le_u32_at(raw@, 4) == crate::header::SIG2 && (
            crate::endian::le_u32_at(raw@, 8) as u32) & crate::header::ENC_FLAG_AES
                == crate::header::ENC_FLAG_AES && (crate::endian::le_u32_at(raw@, 12) as u32)
                & crate::header::VERSION_MASK != crate::header::VERSION_MAJOR_MINOR,
            r == Err::<(), V1KpdbError>(V1KpdbError::TreeErr) ==> tree_rejected(
                *old(self),
                raw@,
            ),
            r matches Ok(()) ==> load_ok(*old(self), *final(self), raw@),
    {
        let header = match V1Header::parse(raw.as_slice()) {
            Ok(h) => h,
            Err(e) => {
                return Err(e);
            },
        };
        if let Err(e) = header.check_signatures() {
            return Err(e);
        }
        if let Err(e) = header.check_enc_flag() {
            return Err(e);
        }
        if let Err(e) = header.check_version() {
            return Err(e);
        }
        let encrypted = copy_range(raw.as_slice(), 124, raw.len() - 124);
        let ghost ctv = encrypted@;
        proof {
            assert(ctv =~= raw@.subrange(124, raw@.len() as int));
            assert(header.transf_randomseed@ =~= raw@.subrange(88, 120));
            assert(header.final_randomseed@ =~= raw@.subrange(16, 32));
            assert(header.iv@ =~= raw@.subrange(32, 48));
        }
        let plaintext = match self.crypter.decrypt_database(&header, encrypted) {
            Ok(p) => p,
            Err(e) => {
                return Err(e);
            },
        };
        proof {
            assert(spec_plaintext_of(*old(self), raw@) == Some(plaintext@));
        }
        let (groups, _levels, pos) = match parse_groups(plaintext.as_slice(), 0,
            header.num_groups) {
            Ok(t) => t,
            Err(e) => {
                proof {
                    crate::body::lemma_parse_groups_err_kind(
                        plaintext@,
                        0,
                        header.num_groups as int,
                    );
                }
                return Err(e);
            },
        };
        let (entries, _pos2) = match parse_entries(plaintext.as_slice(), pos, header.num_entries) {
            Ok(t) => t,
            Err(e) => {
                proof {
                    crate::body::lemma_parse_entries_err_kind(
                        plaintext@,
                        pos as int,
                        header.num_entries as int,
                    );
                }
                return Err(e);
            },
        };
        if let Err(e) = check_levels(&groups) {
            proof {
                assert(tree_rejected(*old(self), raw@));
            }
            return Err(e);
        }
        if let Err(e) = check_ids(&groups) {
            proof {
                assert(tree_rejected(*old(self), raw@));
            }
            return Err(e);
        }
        if let Err(e) = check_links(&groups, &entries) {
            proof {
                assert(tree_rejected(*old(self), raw@));
            }
            return Err(e);
        }
        self.header = header;
        self.groups = groups;
        self.entries = entries;
        proof {
            let db = *self;
            let fk = crate::crypter::spec_final_key(
                old(self).crypter.composite_view(),
                db.header.transf_randomseed@,
                db.header.key_transf_rounds,
                db.header.final_randomseed@,
            );
            assert(loaded_from(db, fk, ctv, plaintext@));
        }
        Ok(())
    }

    /// Serializes, encrypts and frames the database into the bytes of
    /// a file, re-randomising the final seed and the IV.  An empty
    /// password or keyfile argument clears that factor, a non-empty
    /// one replaces it, an absent one keeps it; when no factor would
    /// remain, nothing changes and the cipher-flag error is reported.
    /// The path is updated exactly when one is given and the save
    /// succeeds; the groups and entries are never touched.
    #[verifier::rlimit(100)]
    pub fn save(&mut self, path: Option<String>, password: Option<Vec<u8>>, keyfile: Option<
        Vec<u8>,
    >) -> (r: Result<Vec<u8>, V1KpdbError>)
        requires
            old(self).wf(),
        ensures
            final(self).wf(),
            final(self).groups == old(self).groups,
            final(self).entries == old(self).entries,
            r matches Ok(bytes) ==> save_ok(*old(self), *final(self), bytes@),
            r is Ok ==> final(self).path@ == (match path {
                Some(p) => p@,
                None => old(self).path@,
            }),
            r is Err ==> final(self).header == old(self).header && final(self).path == old(
                self,
            ).path,
            r == Err::<Vec<u8>, V1KpdbError>(V1KpdbError::EncFlagErr) <==> factor_after(
                old(self).password_view(),
                password,
            ) is None && factor_after(old(self).keyfile_view(), keyfile) is None,
            r == Err::<Vec<u8>, V1KpdbError>(V1KpdbError::EncFlagErr) ==> *final(self) == *old(
                self,
            ),
            r != Err::<Vec<u8>, V1KpdbError>(V1KpdbError::EncFlagErr) ==> ({
                &&& final(self).password_view() == factor_after(
                    old(self).password_view(),
                    password,
                )
                &&& final(self).keyfile_view() == factor_after(old(self).keyfile_view(), keyfile)
            }),
            r is Err ==> r == Err::<Vec<u8>, V1KpdbError>(V1KpdbError::EncFlagErr) || r == Err::<
                Vec<u8>,
                V1KpdbError,
            >(V1KpdbError::WriteErr),
            !(factor_after(old(self).password_view(), password) is None && factor_after(
                old(self).keyfile_view(),
                keyfile,
            ) is None) && body_bytes(
                group_models(old(self).groups@),
                entry_models(old(self).entries@),
            ).len() >= 0x3000_0000 ==> r == Err::<Vec<u8>, V1KpdbError>(V1KpdbError::WriteErr),
    {
        // Work out which factors would remain; an empty buffer clears
        // its factor.  Refuse before touching any state.
        let pw_change: Option<Option<Vec<u8>>> = match password {
            Some(p) => if p.len() == 0 {
                Some(None)
            } else {
                Some(Some(p))
            },
            None => None,
        };
        let kf_change: Option<Option<Vec<u8>>> = match keyfile {
            Some(k) => if k.len() == 0 {
                Some(None)
            } else {
                Some(Some(k))
            },
            None => None,
        };
        let pw_after = match &pw_change {
            Some(c) => c.is_some(),
            None => self.crypter.has_password(),
        };
        let kf_after = match &kf_change {
            Some(c) => c.is_some(),
            None => self.crypter.has_keyfile(),
        };
        if !pw_after && !kf_after {
            return Err(V1KpdbError::EncFlagErr);
        }
        if let Some(c) = pw_change {
            self.crypter.change_password(c);
        }
        if let Some(c) = kf_change {
            self.crypter.change_keyfile(c);
        }
        let body = write_body(&self.groups, &self.entries);
        if body.len() >= 0x3000_0000 {
            return Err(V1KpdbError::WriteErr);
        }
        let content_hash = Crypter::get_content_hash(&body);
        let header2 = V1Header {
            signature1: self.header.signature1,
            signature2: self.header.signature2,
            enc_flag: self.header.enc_flag,
            version: self.header.version,
            final_randomseed: crate::crypto::random_bytes(16),
            iv: crate::crypto::random_bytes(16),
            num_groups: self.header.num_groups,
            num_entries: self.header.num_entries,
            content_hash,
            transf_randomseed: copy_range(self.header.transf_randomseed.as_slice(), 0, 32),
            key_transf_rounds: self.header.key_transf_rounds,
        };
        proof {
            assert(self.header.transf_randomseed@.subrange(0, 32)
                =~= self.header.transf_randomseed@);
        }
        let out = match build_file(&mut self.crypter, &header2, body) {
            Ok(b) => b,
            Err(e) => {
                return Err(e);
            },
        };
        self.header = header2;
        if let Some(p) = path {
            self.path = p;
        }
        Ok(out)
    }

    /// Creates a group with a fresh id (exactly one above the current
    /// maximum), timestamps of now, and the given title, expiry, icon
    /// and parent.  A parent position past the group list names no
    /// group: nothing changes and the dangling-reference error is
    /// reported.  Otherwise the new group is inserted immediately
    /// after its parent — first among its children — or appended at
    /// top level; either way the pre-order invariant and the counters
    /// are kept.
    #[verifier::rlimit(100)]
    pub fn create_group(&mut self, title: Vec<u8>, expire: Option<crate::tstamp::TimeStamp>,
        image: Option<u32>, parent: Option<usize>) -> (r: Result<(), V1KpdbError>)
        requires
            old(self).wf(),
            old(self).groups@.len() < 0xFFFF_FFFF,
            forall|k: int|
                0 <= k < old(self).groups@.len() ==> (#[trigger] old(
                    self,
                ).groups@[k]).id < 0xFFFF_FFFF,
            title@.len() < 0xFFFF_FFFF,
            expire matches Some(t) ==> t.packable(),
            parent matches Some(p) ==> (p < old(self).groups@.len() ==> old(
                self,
            ).groups@[p as int].level < 0xFFFF),
        ensures
            r is Ok <==> (parent matches Some(p) ==> p < old(self).groups@.len()),
            r is Err ==> r == Err::<(), V1KpdbError>(V1KpdbError::WeakErr) && *final(self) == *old(
                self,
            ),
            r is Ok ==> ({
                let q: int = match parent {
                    Some(p) => p + 1,
                    None => old(self).groups@.len() as int,
                };
                let g = final(self).groups@[q].model();
                &&& final(self).wf()
                &&& final(self).entries == old(self).entries
                &&& final(self).path == old(self).path
                &&& final(self).crypter == old(self).crypter
                &&& final(self).header.num_groups == old(self).header.num_groups + 1
                &&& final(self).header.num_entries == old(self).header.num_entries
                &&& final(self).groups@.len() == old(self).groups@.len() + 1
                &&& final(self).groups@.remove(q) == old(self).groups@
                &&& g.title == title@
                &&& g.expire == expire_or_never(expire)
                &&& g.image == image_or_zero(image)
                &&& g.flags == 0
                &&& g.id == max_group_id(group_models(old(self).groups@)) + 1
                &&& (forall|k: int|
                    0 <= k < old(self).groups@.len() ==> (#[trigger] old(
                        self,
                    ).groups@[k]).id < g.id)
                &&& (match parent {
                    Some(p) => g.level == old(self).groups@[p as int].level + 1,
                    None => g.level == 0,
                })
            }),
    {
        if let Some(p) = parent {
            if p >= self.groups.len() {
                return Err(V1KpdbError::WeakErr);
            }
        }
        let ghost gs = group_models(self.groups@);
        let mut new_id: u32 = 1;
        let mut i: usize = 0;
        while i < self.groups.len()
            invariant
                i <= self.groups@.len(),
                self == old(self),
                gs == group_models(self.groups@),
                parent matches Some(p) ==> p < self.groups@.len(),
                forall|k: int|
                    0 <= k < self.groups@.len() ==> (#[trigger] self.groups@[k]).id < 0xFFFF_FFFF,
                new_id == max_group_id(gs.take(i as int)) + 1,
                forall|k: int| 0 <= k < i ==> (#[trigger] self.groups@[k]).id < new_id,
            decreases self.groups@.len() - i,
        {
            let id = self.groups[i].id;
            proof {
                assert(gs.take(i + 1).drop_last() =~= gs.take(i as int));
                assert(gs.take(i + 1).last() == gs[i as int]);
                assert(gs[i as int].id == self.groups@[i as int].id);
            }
            if id >= new_id {
                new_id = id + 1;
            }
            i += 1;
        }
        proof {
            assert(gs.take(self.groups@.len() as int) =~= gs);
            lemma_max_group_id(gs);
        }
        let mut g = V1Group::new();
        g.id = new_id;
        g.title = title;
        g.creation = crate::tstamp::now();
        g.last_mod = crate::tstamp::now();
        g.last_access = crate::tstamp::now();
        if let Some(t) = expire {
            g.expire = t;
        }
        if let Some(v) = image {
            g.image = v;
        }
        match parent {
            Some(p) => {
                g.level = self.groups[p].level + 1;
                let ghost gm = g.model();
                let ghost gval = g;
                self.groups.insert(p + 1, g);
                self.header.num_groups = self.header.num_groups + 1;
                proof {
                    old(self).groups@.insert_ensures(p as int + 1, gval);
                    let gsold = group_models(old(self).groups@);
                    let lsold = levels_of(gsold);
                    assert forall|k: int| 0 <= k < gsold.len() implies lsold[k] == (
                    #[trigger] gsold[k]).level by {}
                    if p as int + 1 < gsold.len() {
                        assert(lsold[p as int + 1] <= lsold[p as int] + 1);
                        assert(gsold[p as int + 1].level <= gm.level + 1);
                    }
                    lemma_wf_after_insert(*old(self), *self, gm, p as int + 1);
                    assert(self.groups@.remove(p + 1) =~= old(self).groups@);
                }
            },
            None => {
                g.level = 0;
                let ghost gm = g.model();
                let ghost gval = g;
                let q = self.groups.len();
                self.groups.push(g);
                self.header.num_groups = self.header.num_groups + 1;
                proof {
                    lemma_wf_after_insert(*old(self), *self, gm, q as int);
                    assert(self.groups@.remove(q as int) =~= old(self).groups@);
                }
            },
        }
        Ok(())
    }

    /// Creates an entry under the group at `group`: a fresh random
    /// UUID, the owning group's id, timestamps of now, and the given
    /// fields; absent strings are empty, the username and the
    /// password are consumed into obfuscated buffers.  The entry is
    /// appended and the counter kept.
    #[verifier::rlimit(100)]
    pub fn create_entry(&mut self, group: usize, title: Vec<u8>,
        expire: Option<crate::tstamp::TimeStamp>, image: Option<u32>, url: Option<Vec<u8>>,
        comment: Option<Vec<u8>>, username: Option<Vec<u8>>, password: Option<Vec<u8>>) -> (r:
        Result<(), V1KpdbError>)
        requires
            old(self).wf(),
            group < old(self).groups@.len(),
            old(self).entries@.len() < 0xFFFF_FFFF,
            title@.len() < 0xFFFF_FFFF,
            url matches Some(v) ==> v@.len() < 0xFFFF_FFFF,
            comment matches Some(v) ==> v@.len() < 0xFFFF_FFFF,
            username matches Some(v) ==> v@.len() < 0xFFFF_FFFF,
            password matches Some(v) ==> v@.len() < 0xFFFF_FFFF,
            expire matches Some(t) ==> t.packable(),
        ensures
            r is Ok,
            final(self).wf(),
            final(self).groups == old(self).groups,
            final(self).path == old(self).path,
            final(self).crypter == old(self).crypter,
            final(self).header.num_groups == old(self).header.num_groups,
            final(self).header.num_entries == old(self).header.num_entries + 1,
            final(self).entries@.len() == old(self).entries@.len() + 1,
            final(self).entries@.take(old(self).entries@.len() as int) == old(self).entries@,
            ({
                let e = final(self).entries@.last().model();
                &&& e.group_id == old(self).groups@[group as int].id
                &&& e.title == title@
                &&& e.url == bytes_or_empty(url)
                &&& e.comment == bytes_or_empty(comment)
                &&& e.username == bytes_or_empty(username)
                &&& e.password == bytes_or_empty(password)
                &&& e.expire == expire_or_never(expire)
                &&& e.image == image_or_zero(image)
                &&& e.uuid.len() == 16
            }),
    {
        let mut e = V1Entry::new();
        e.uuid = crate::crypto::random_bytes(16);
        e.group_id = self.groups[group].id;
        e.title = title;
        e.creation = crate::tstamp::now();
        e.last_mod = crate::tstamp::now();
        e.last_access = crate::tstamp::now();
        if let Some(t) = expire {
            e.expire = t;
        }
        if let Some(v) = image {
            e.image = v;
        }
        if let Some(v) = url {
            e.url = v;
        }
        if let Some(v) = comment {
            e.comment = v;
        }
        if let Some(v) = username {
            e.username = crate::secstr::SecureString::new(v);
        }
        if let Some(v) = password {
            e.password = crate::secstr::SecureString::new(v);
        }
        let ghost q = self.entries@.len() as int;
        self.entries.push(e);
        self.header.num_entries = self.header.num_entries + 1;
        proof {
            assert(self.entries@.take(q) =~= old(self).entries@);
            assert(entry_models(self.entries@)[q].group_id == group_models(self.groups@)[
                group as int].id);
            assert forall|i: int|
                0 <= i < entry_models(self.entries@).len() implies has_group(
                group_models(self.groups@),
                (#[trigger] entry_models(self.entries@)[i]).group_id,
            ) by {
                if i < q {
                    assert(entry_models(self.entries@)[i] == entry_models(old(self).entries@)[i]);
                    assert(has_group(
                        group_models(old(self).groups@),
                        entry_models(old(self).entries@)[i].group_id,
                    ));
                } else {
                    assert(group_models(self.groups@)[group as int].id == entry_models(
                        self.entries@,
                    )[i].group_id);
                    assert(has_group(
                        group_models(self.groups@),
                        entry_models(self.entries@)[i].group_id,
                    ));
                }
            }
        }
        Ok(())
    }

    /// Removes the entry at `index` from the database and from its
    /// group, wiping its secret buffers first; the counter is kept.
    /// An index past the list reports a dangling reference.
    pub fn remove_entry(&mut self, index: usize) -> (r: Result<(), V1KpdbError>)
        requires
            old(self).wf(),
        ensures
            r is Ok <==> index < old(self).entries@.len(),
            r is Err ==> r == Err::<(), V1KpdbError>(V1KpdbError::WeakErr) && *final(self) == *old(
                self,
            ),
            r is Ok ==> ({
                &&& final(self).wf()
                &&& final(self).entries@ == old(self).entries@.remove(index as int)
                &&& final(self).groups == old(self).groups
                &&& final(self).path == old(self).path
                &&& final(self).crypter == old(self).crypter
                &&& final(self).header.num_entries == old(self).header.num_entries - 1
                &&& final(self).header.num_groups == old(self).header.num_groups
            }),
    {
        if index >= self.entries.len() {
            return Err(V1KpdbError::WeakErr);
        }
        let mut e = self.entries.remove(index);
        e.username.zeroize();
        e.password.zeroize();
        self.header.num_entries = self.header.num_entries - 1;
        proof {
            assert forall|i: int|
                0 <= i < entry_models(self.entries@).len() implies has_group(
                group_models(self.groups@),
                (#[trigger] entry_models(self.entries@)[i]).group_id,
            ) by {
                let i0: int = if i < index { i } else { i + 1 };
                assert(old(self).entries@.remove(index as int)[i] == old(self).entries@[i0]);
                assert(entry_models(self.entries@)[i] == entry_models(old(self).entries@)[i0]);
                assert(has_group(
                    group_models(old(self).groups@),
                    entry_models(old(self).entries@)[i0].group_id,
                ));
            }
        }
        Ok(())
    }

    /// Removes the group at `index` together with its whole subtree
    /// and every entry owned by a removed group.  Secret buffers of
    /// removed entries are wiped before release; the counters are
    /// kept.  An index past the list reports a dangling reference.
    #[verifier::rlimit(100)]
    pub fn remove_group(&mut self, index: usize) -> (r: Result<(), V1KpdbError>)
        requires
            old(self).wf(),
        ensures
            r is Ok <==> index < old(self).groups@.len(),
            r is Err ==> r == Err::<(), V1KpdbError>(V1KpdbError::WeakErr) && *final(self) == *old(
                self,
            ),
            r is Ok ==> removed_group_ok(*old(self), *final(self), index as int),
    {
        if index >= self.groups.len() {
            return Err(V1KpdbError::WeakErr);
        }
        let ghost gs0 = self.groups@;
        let ghost es0 = self.entries@;
        let n = self.groups.len();
        let lvl = self.groups[index].level;
        // The subtree is the contiguous block of strictly deeper
        // groups that follows `index`.
        let mut end: usize = index + 1;
        while end < n
            invariant
                index < end <= n,
                n == self.groups@.len(),
                self == old(self),
                lvl == self.groups@[index as int].level,
                forall|k: int|
                    index < k < end ==> (#[trigger] self.groups@[k]).level > lvl,
            ensures
                index < end <= n,
                n == self.groups@.len(),
                self == old(self),
                lvl == self.groups@[index as int].level,
                forall|k: int|
                    index < k < end ==> (#[trigger] self.groups@[k]).level > lvl,
                end < n ==> self.groups@[end as int].level <= lvl,
            decreases n - end,
        {
            if self.groups[end].level <= lvl {
                break;
            }
            end += 1;
        }
        proof {
            let ls = levels_of(group_models(gs0));
            assert forall|k: int| 0 <= k < ls.len() implies ls[k] == (
            #[trigger] group_models(gs0)[k]).level by {}
            assert forall|k: int| 0 <= k < ls.len() implies group_models(gs0)[k].level == (
            #[trigger] gs0[k]).level by {}
            assert forall|k: int| index < k < end implies ls[k] > ls[index as int] by {
                assert(gs0[k].level > lvl);
            }
            if end < n {
                assert(gs0[end as int].level <= lvl);
            }
            lemma_subtree_end(ls, index as int, end as int);
        }
        // The ids of the groups about to go.
        let mut removed_ids: Vec<u32> = Vec::new();
        let mut k: usize = index;
        while k < end
            invariant
                index <= k <= end <= n,
                n == self.groups@.len(),
                self == old(self),
                removed_ids@.len() == k - index,
                forall|j: int|
                    0 <= j < removed_ids@.len() ==> removed_ids@[j] == (#[trigger] self.groups@[
                    index + j]).id,
            decreases end - k,
        {
            removed_ids.push(self.groups[k].id);
            k += 1;
        }
        // Remove the entries of removed groups, wiping their secrets.
        let ghost rem = group_models(gs0).subrange(index as int, end as int);
        proof {
            assert forall|id: u32| id_in(removed_ids@, id) implies has_group(rem, id) by {
                let j = choose|j: int| 0 <= j < removed_ids@.len() && removed_ids@[j] == id;
                assert(rem[j] == group_models(gs0)[index + j]);
                assert(group_models(gs0)[index + j].id == gs0[index + j].id);
                assert(rem[j].id == id);
            }
            assert forall|id: u32| has_group(rem, id) implies id_in(removed_ids@, id) by {
                let j = choose|j: int| 0 <= j < rem.len() && (#[trigger] rem[j]).id == id;
                assert(rem[j] == group_models(gs0)[index + j]);
                assert(group_models(gs0)[index + j].id == gs0[index + j].id);
                assert(removed_ids@[j] == rem[j].id);
            }
        }
        let mut kept: Vec<V1Entry> = Vec::new();
        let mut removed_entries: u32 = 0;
        let mut t: usize = 0;
        let total = self.entries.len();
        while t < total
            invariant
                t <= total,
                total == es0.len(),
                total <= 0xFFFF_FFFF,
                self.entries@ == es0,
                self.groups@ == gs0,
                self.header == old(self).header,
                self.path == old(self).path,
                self.crypter == old(self).crypter,
                forall|id: u32| id_in(removed_ids@, id) <==> has_group(rem, id),
                forall|j: int|
                    0 <= j < es0.len() ==> (#[trigger] es0[j]).model().encodable() && es0[
                    j].secret_wf(),
                removed_entries <= t,
                entry_models(kept@) == entry_models(es0.take(t as int)).filter(
                    |em: crate::entry::EntryModel| !has_group(rem, em.group_id),
                ),
                kept@.len() + removed_entries == t,
                forall|j: int|
                    0 <= j < kept@.len() ==> (#[trigger] kept@[j]).model().encodable() && kept@[
                    j].secret_wf(),
            decreases total - t,
        {
            let ghost kms = entry_models(kept@);
            let e = &self.entries[t];
            let is_removed = id_in_exec(&removed_ids, e.group_id);
            proof {
                reveal(Seq::filter);
                assert(es0.take(t + 1) =~= es0.take(t as int).push(es0[t as int]));
                assert(entry_models(es0.take(t + 1)) =~= entry_models(es0.take(t as int)).push(
                    es0[t as int].model(),
                ));
                assert(entry_models(es0.take(t + 1)).drop_last() =~= entry_models(
                    es0.take(t as int),
                ));
                assert(entry_models(es0.take(t + 1)).last() == es0[t as int].model());
            }
            if is_removed {
                removed_entries = removed_entries + 1;
            } else {
                let e2 = clone_entry(&self.entries[t]);
                kept.push(e2);
                proof {
                    assert(entry_models(kept@) =~= kms.push(es0[t as int].model()));
                }
            }
            t += 1;
        }
        proof {
            assert(es0.take(total as int) =~= es0);
        }
        // Wipe and drop the removed entries, then install the kept ones.
        let mut u: usize = 0;
        let en = self.entries.len();
        while u < en
            invariant
                u <= en,
                en == self.entries@.len(),
                self.groups@ == gs0,
                self.header == old(self).header,
                self.path == old(self).path,
                self.crypter == old(self).crypter,
            decreases en - u,
        {
            let p = &mut self.entries[u];
            p.username.zeroize();
            p.password.zeroize();
            u += 1;
        }
        let ghost keptv = kept@;
        core::mem::swap(&mut self.entries, &mut kept);
        proof {
            assert(self.entries@ == keptv);
        }
        // Remove the subtree block from the group list.
        let count = end - index;
        let mut c: usize = 0;
        while c < count
            invariant
                c <= count,
                count == end - index,
                index < end <= gs0.len(),
                self.entries@ == keptv,
                self.header == old(self).header,
                self.path == old(self).path,
                self.crypter == old(self).crypter,
                self.groups@ =~= gs0.subrange(0, index as int) + gs0.subrange(
                    index + c,
                    gs0.len() as int,
                ),
            decreases count - c,
        {
            let _removed = self.groups.remove(index);
            proof {
                assert(self.groups@ =~= gs0.subrange(0, index as int) + gs0.subrange(
                    index + c + 1,
                    gs0.len() as int,
                ));
            }
            c += 1;
        }
        self.header.num_groups = self.header.num_groups - (count as u32);
        self.header.num_entries = self.header.num_entries - removed_entries;
        proof {
            let gsold = group_models(gs0);
            assert forall|k: int| 0 <= k < gsold.len() implies (#[trigger] gsold[k]).level == gs0[
            k].level by {}
            assert forall|k: int|
                index < k < end implies (#[trigger] gsold[k]).level > gsold[index as int].level by {
                assert(gs0[k].level > lvl);
            }
            if end < gs0.len() {
                assert(gsold[end as int].level <= gsold[index as int].level);
            }
            lemma_wf_after_remove(*old(self), *self, index as int, end as int);
        }
        Ok(())
    }
}

/// Encrypts a plaintext body under the key that `header` determines
/// and frames it behind the serialized header: the bytes of a whole
/// database file.
fn build_file(crypter: &mut Crypter, header: &V1Header, body: Vec<u8>) -> (r: Result<
    Vec<u8>,
    V1KpdbError,
>)
    requires
        old(crypter).wf(),
        header.wf(),
        body@.len() < 0x3000_0000,
    ensures
        final(crypter).wf(),
        final(crypter).password_view() == old(crypter).password_view(),
        final(crypter).keyfile_view() == old(crypter).keyfile_view(),
        r matches Ok(bytes) ==> ({
            let fk = crate::crypter::spec_final_key(
                old(crypter).composite_view(),
                header.transf_randomseed@,
                header.key_transf_rounds,
                header.final_randomseed@,
            );
            &&& bytes@ == header.spec_bytes() + crate::crypto::aes_cbc_encrypt_of(
                fk,
                header.iv@,
                crate::crypter::spec_pad(body@),
            )
            &&& crate::crypto::aes_cbc_decrypt_of(
                fk,
                header.iv@,
                bytes@.subrange(124, bytes@.len() as int),
            ) == crate::crypter::spec_pad(body@)
            &&& bytes@.len() >= 124
        }),
        r is Err ==> r == Err::<Vec<u8>, V1KpdbError>(V1KpdbError::WriteErr),
{
    let ghost bodyv = body@;
    let encrypted = match crypter.encrypt_database(header, body) {
        Ok(ct) => ct,
        Err(e) => {
            return Err(e);
        },
    };
    let mut out = header.serialize();
    push_bytes(&mut out, encrypted.as_slice());
    proof {
        assert(out@.subrange(0, out@.len() as int) =~= out@);
        crate::body::lemma_split_prefix(out@, 0, header.spec_bytes(), encrypted@);
    }
    Ok(out)
}


/// The expiry a creation call means: the given one, or "never".
pub open spec fn expire_or_never(e: Option<crate::tstamp::TimeStamp>) -> crate::tstamp::TimeStamp {
    match e {
        Some(t) => t,
        None => crate::tstamp::TimeStamp {
            year: 2999,
            month: 12,
            day: 28,
            hour: 23,
            minute: 59,
            second: 59,
        },
    }
}

/// The icon a creation call means: the given one, or zero.
pub open spec fn image_or_zero(i: Option<u32>) -> u32 {
    match i {
        Some(v) => v,
        None => 0,
    }
}

/// The bytes an optional string argument means: absent is empty.
pub open spec fn bytes_or_empty(v: Option<Vec<u8>>) -> Seq<u8> {
    match v {
        Some(b) => b@,
        None => Seq::empty(),
    }
}


/// A well-formed level sequence stays well-formed when a level is
/// inserted that fits between its neighbours.
proof fn lemma_levels_wf_insert(ls: Seq<u16>, ls2: Seq<u16>, lvl: u16, q: int)
    requires
        levels_wf(ls),
        0 <= q <= ls.len(),
        ls2.len() == ls.len() + 1,
        q == 0 ==> lvl == 0,
        q > 0 ==> lvl <= ls[q - 1] + 1,
        q < ls.len() ==> ls[q] <= lvl + 1,
        forall|k: int| 0 <= k < q ==> ls2[k] == ls[k],
        ls2[q] == lvl,
        forall|k: int| q < k < ls2.len() ==> ls2[k] == ls[k - 1],
    ensures
        levels_wf(ls2),
{
    assert(ls2[0] == 0);
    assert forall|k: int| 0 < k < ls2.len() implies #[trigger] ls2[k] <= ls2[k - 1] + 1 by {
        if k < q {
            assert(ls2[k] == ls[k] && ls2[k - 1] == ls[k - 1]);
        } else if k == q {
            assert(ls2[k] == lvl);
        } else if k == q + 1 {
            assert(ls2[k] == ls[q] && ls2[k - 1] == lvl);
        } else {
            assert(ls2[k] == ls[k - 1] && ls2[k - 1] == ls[k - 2]);
        }
    }
}

/// Unique non-zero ids stay unique when a fresh id above all others
/// is inserted.
proof fn lemma_ids_ok_insert(gs: Seq<GroupModel>, gs2: Seq<GroupModel>, gm: GroupModel, q: int)
    requires
        ids_ok(gs),
        0 <= q <= gs.len(),
        gs2.len() == gs.len() + 1,
        gm.id != 0,
        forall|k: int| 0 <= k < gs.len() ==> (#[trigger] gs[k]).id < gm.id,
        forall|k: int| 0 <= k < q ==> gs2[k] == gs[k],
        gs2[q] == gm,
        forall|k: int| q < k < gs2.len() ==> gs2[k] == gs[k - 1],
    ensures
        ids_ok(gs2),
{
    assert forall|i: int| 0 <= i < gs2.len() implies (#[trigger] gs2[i]).id != 0 by {
        if i != q {
            let i0: int = if i < q { i } else { i - 1 };
            assert(gs2[i] == gs[i0]);
        }
    }
    assert forall|i: int, j: int| 0 <= i < j < gs2.len() implies gs2[i].id != gs2[j].id by {
        if i == q {
            assert(gs2[j] == gs[j - 1]);
        } else if j == q {
            assert(gs2[i] == gs[i]);
        } else {
            let i0: int = if i < q { i } else { i - 1 };
            let j0: int = if j < q { j } else { j - 1 };
            assert(gs2[i] == gs[i0] && gs2[j] == gs[j0]);
        }
    }
}

/// Entry links survive when the group list only grows.
proof fn lemma_linked_insert(
    gs: Seq<GroupModel>,
    gs2: Seq<GroupModel>,
    es: Seq<crate::entry::EntryModel>,
    q: int,
)
    requires
        entries_linked(gs, es),
        0 <= q <= gs.len(),
        gs2.len() == gs.len() + 1,
        forall|k: int| 0 <= k < q ==> gs2[k] == gs[k],
        forall|k: int| q < k < gs2.len() ==> gs2[k] == gs[k - 1],
    ensures
        entries_linked(gs2, es),
{
    assert forall|i: int| 0 <= i < es.len() implies has_group(gs2, (#[trigger] es[i]).group_id) by {
        assert(has_group(gs, es[i].group_id));
        let j0 = choose|j: int| 0 <= j < gs.len() && (#[trigger] gs[j]).id == es[i].group_id;
        if j0 < q {
            assert(gs2[j0] == gs[j0]);
            assert(gs2[j0].id == es[i].group_id);
        } else {
            assert(gs2[j0 + 1] == gs[j0]);
            assert(gs2[j0 + 1].id == es[i].group_id);
        }
    }
}

/// After inserting a fresh group right after its parent (or at the
/// end at top level), the database invariant still holds.
proof fn lemma_wf_after_insert(prev: V1Kpdb, db: V1Kpdb, gm: GroupModel, q: int)
    requires
        prev.wf(),
        db.groups@.len() == prev.groups@.len() + 1,
        0 <= q <= prev.groups@.len(),
        forall|k: int| 0 <= k < q ==> db.groups@[k] == prev.groups@[k],
        db.groups@[q].model() == gm,
        forall|k: int| q < k < db.groups@.len() ==> db.groups@[k] == prev.groups@[k - 1],
        db.entries == prev.entries,
        db.crypter == prev.crypter,
        db.header.wf(),
        db.header.num_groups == prev.header.num_groups + 1,
        db.header.num_entries == prev.header.num_entries,
        gm.encodable(),
        gm.id != 0,
        forall|k: int|
            0 <= k < prev.groups@.len() ==> (#[trigger] group_models(prev.groups@)[k]).id < gm.id,
        q == 0 ==> gm.level == 0,
        q > 0 ==> gm.level <= group_models(prev.groups@)[q - 1].level + 1,
        q < prev.groups@.len() ==> group_models(prev.groups@)[q].level <= gm.level + 1,
    ensures
        db.wf(),
{
    let gs = group_models(prev.groups@);
    let gs2 = group_models(db.groups@);
    assert(forall|k: int| 0 <= k < q ==> gs2[k] == gs[k]);
    assert(forall|k: int| q < k < gs2.len() ==> gs2[k] == gs[k - 1]);
    assert(gs2[q] == gm);
    lemma_levels_wf_insert(levels_of(gs), levels_of(gs2), gm.level, q);
    lemma_ids_ok_insert(gs, gs2, gm, q);
    lemma_linked_insert(gs, gs2, entry_models(db.entries@), q);
    assert forall|i: int|
        0 <= i < db.groups@.len() implies (#[trigger] db.groups@[i]).model().encodable() by {
        if i < q {
            assert(db.groups@[i] == prev.groups@[i]);
        } else if i > q {
            assert(db.groups@[i] == prev.groups@[i - 1]);
        }
    }
}


/// Whether `ids` holds `id`.
pub open spec fn id_in(ids: Seq<u32>, id: u32) -> bool {
    exists|j: int| 0 <= j < ids.len() && ids[j] == id
}

/// Decides `id_in`.
fn id_in_exec(ids: &Vec<u32>, id: u32) -> (r: bool)
    ensures
        r == id_in(ids@, id),
{
    let n = ids.len();
    let mut j: usize = 0;
    while j < n
        invariant
            j <= n,
            n == ids@.len(),
            forall|k: int| 0 <= k < j ==> ids@[k] != id,
        decreases n - j,
    {
        if ids[j] == id {
            return true;
        }
        j += 1;
    }
    false
}

/// A field-for-field copy of an entry; the username and the password
/// are re-obfuscated under fresh masks, so the model is unchanged.
fn clone_entry(e: &V1Entry) -> (r: V1Entry)
    requires
        e.model().encodable(),
        e.secret_wf(),
    ensures
        r.model() == e.model(),
        r.secret_wf(),
{
    let pw = e.password.plaintext_copy();
    let un = e.username.plaintext_copy();
    let r = V1Entry {
        uuid: crate::header::copy_range(e.uuid.as_slice(), 0, e.uuid.len()),
        group_id: e.group_id,
        image: e.image,
        title: crate::header::copy_range(e.title.as_slice(), 0, e.title.len()),
        url: crate::header::copy_range(e.url.as_slice(), 0, e.url.len()),
        username: crate::secstr::SecureString::new(un),
        password: crate::secstr::SecureString::new(pw),
        comment: crate::header::copy_range(e.comment.as_slice(), 0, e.comment.len()),
        binary_desc: crate::header::copy_range(e.binary_desc.as_slice(), 0, e.binary_desc.len()),
        creation: e.creation,
        last_mod: e.last_mod,
        last_access: e.last_access,
        expire: e.expire,
        binary: crate::header::copy_range(e.binary.as_slice(), 0, e.binary.len()),
    };
    proof {
        assert(r.uuid@ =~= e.uuid@);
        assert(r.title@ =~= e.title@);
        assert(r.url@ =~= e.url@);
        assert(r.comment@ =~= e.comment@);
        assert(r.binary_desc@ =~= e.binary_desc@);
        assert(r.binary@ =~= e.binary@);
        assert(r.model() =~= e.model());
    }
    r
}

/// What `remove_group` guarantees: the subtree block is gone from
/// the group list, exactly the entries of surviving groups remain,
/// in order, and the invariant holds again.
pub open spec fn removed_group_ok(prev: V1Kpdb, db: V1Kpdb, i: int) -> bool {
    let gs = group_models(prev.groups@);
    let ls = levels_of(gs);
    let end = spec_subtree_end(ls, i, i + 1);
    let rem = gs.subrange(i, end);
    &&& db.wf()
    &&& db.groups@ == prev.groups@.subrange(0, i) + prev.groups@.subrange(
        end,
        prev.groups@.len() as int,
    )
    &&& entry_models(db.entries@) == entry_models(prev.entries@).filter(
        |em: crate::entry::EntryModel| !has_group(rem, em.group_id),
    )
    &&& db.path == prev.path
    &&& db.crypter == prev.crypter
    &&& db.header.num_groups == prev.header.num_groups - (end - i)
    &&& db.header.num_entries == db.entries@.len()
}

/// The end of the subtree rooted at `i`: the first later index at or
/// above the root's level.
pub open spec fn spec_subtree_end(ls: Seq<u16>, i: int, j: int) -> int
    decreases ls.len() - j,
{
    if j < 0 || j >= ls.len() {
        ls.len() as int
    } else if ls[j] <= ls[i] {
        j
    } else {
        spec_subtree_end(ls, i, j + 1)
    }
}

/// The scan in `remove_group` lands on `spec_subtree_end`.
proof fn lemma_subtree_end(ls: Seq<u16>, i: int, end: int)
    requires
        0 <= i < end <= ls.len(),
        forall|k: int| i < k < end ==> ls[k] > ls[i],
        end < ls.len() ==> ls[end] <= ls[i],
    ensures
        spec_subtree_end(ls, i, i + 1) == end,
{
    lemma_subtree_end_scan(ls, i, i + 1, end);
}

/// Helper induction for `lemma_subtree_end`.
proof fn lemma_subtree_end_scan(ls: Seq<u16>, i: int, j: int, end: int)
    requires
        0 <= i < ls.len(),
        i < j <= end <= ls.len(),
        forall|k: int| j <= k < end ==> ls[k] > ls[i],
        end < ls.len() ==> ls[end] <= ls[i],
    ensures
        spec_subtree_end(ls, i, j) == end,
    decreases ls.len() - j,
{
    if j >= ls.len() {
    } else if ls[j] <= ls[i] {
    } else {
        lemma_subtree_end_scan(ls, i, j + 1, end);
    }
}

/// After removing a whole subtree block and the entries it owned,
/// the database invariant still holds.
#[verifier::rlimit(100)]
proof fn lemma_wf_after_remove(prev: V1Kpdb, db: V1Kpdb, i: int, end: int)
    requires
        prev.wf(),
        0 <= i < end <= prev.groups@.len(),
        forall|k: int|
            i < k < end ==> (#[trigger] group_models(prev.groups@)[k]).level > group_models(
                prev.groups@,
            )[i].level,
        end < prev.groups@.len() ==> group_models(prev.groups@)[end].level <= group_models(
            prev.groups@,
        )[i].level,
        db.groups@ == prev.groups@.subrange(0, i) + prev.groups@.subrange(
            end,
            prev.groups@.len() as int,
        ),
        entry_models(db.entries@) == entry_models(prev.entries@).filter(
            |em: crate::entry::EntryModel| !has_group(
                group_models(prev.groups@).subrange(i, end),
                em.group_id,
            ),
        ),
        forall|j: int|
            0 <= j < db.entries@.len() ==> (#[trigger] db.entries@[j]).model().encodable()
                && db.entries@[j].secret_wf(),
        db.header.wf(),
        db.header.num_groups == prev.header.num_groups - (end - i),
        db.header.num_entries == db.entries@.len(),
        db.crypter == prev.crypter,
    ensures
        db.wf(),
{
    let gs = group_models(prev.groups@);
    let gs2 = group_models(db.groups@);
    let ls = levels_of(gs);
    let ls2 = levels_of(gs2);
    let cut = end - i;
    assert(gs2.len() == gs.len() - cut);
    assert(forall|k: int| 0 <= k < i ==> gs2[k] == gs[k]);
    assert(forall|k: int| i <= k < gs2.len() ==> gs2[k] == gs[k + cut]);
    assert(levels_wf(ls2)) by {
        if ls2.len() > 0 {
            assert(ls2[0] == ls[if i == 0 { cut } else { 0int }]);
            if i == 0 {
                assert(ls[cut] <= ls[0]);
            }
            assert(ls2[0] == 0);
        }
        assert forall|k: int| 0 < k < ls2.len() implies #[trigger] ls2[k] <= ls2[k - 1] + 1 by {
            if k < i {
                assert(ls2[k] == ls[k] && ls2[k - 1] == ls[k - 1]);
            } else if k == i {
                assert(ls2[k] == ls[k + cut] && ls2[k - 1] == ls[k - 1]);
                assert(ls[k + cut] <= ls[i]);
                assert(ls[i] <= ls[i - 1] + 1);
            } else {
                assert(ls2[k] == ls[k + cut] && ls2[k - 1] == ls[k - 1 + cut]);
            }
        }
    }
    assert(ids_ok(gs2)) by {
        assert forall|k: int| 0 <= k < gs2.len() implies (#[trigger] gs2[k]).id != 0 by {
            let k0: int = if k < i { k } else { k + cut };
            assert(gs2[k] == gs[k0]);
        }
        assert forall|a: int, b: int| 0 <= a < b < gs2.len() implies gs2[a].id != gs2[b].id by {
            let a0: int = if a < i { a } else { a + cut };
            let b0: int = if b < i { b } else { b + cut };
            assert(gs2[a] == gs[a0] && gs2[b] == gs[b0]);
        }
    }
    let rem = gs.subrange(i, end);
    let pred = |em: crate::entry::EntryModel| !has_group(rem, em.group_id);
    assert(entries_linked(gs2, entry_models(db.entries@))) by {
        let es2 = entry_models(db.entries@);
        let es = entry_models(prev.entries@);
        assert forall|a: int|
            0 <= a < es2.len() implies has_group(gs2, (#[trigger] es2[a]).group_id) by {
            assert(es2.contains(es2[a]));
            es.lemma_filter_contains_rev(pred, es2[a]);
            es.lemma_filter_pred(pred, a);
            assert(es.contains(es2[a]));
            let a0 = choose|a0: int| 0 <= a0 < es.len() && es[a0] == es2[a];
            assert(has_group(gs, es[a0].group_id));
            let j = choose|j: int| 0 <= j < gs.len() && (#[trigger] gs[j]).id == es[a0].group_id;
            assert(pred(es2[a]));
            if i <= j < end {
                assert(rem[j - i] == gs[j]);
                assert(has_group(rem, es2[a].group_id));
                assert(false);
            }
            if j < i {
                assert(gs2[j].id == es2[a].group_id);
            } else {
                assert(gs2[j - cut].id == es2[a].group_id);
            }
        }
    }
    assert forall|k: int|
        0 <= k < db.groups@.len() implies (#[trigger] db.groups@[k]).model().encodable() by {
        let k0: int = if k < i { k } else { k + cut };
        assert(db.groups@[k] == prev.groups@[k0]);
    }
}

/// Round trip of save and load, stated over the plaintext pipeline:
/// for every run of groups and entries that the codec carries
/// faithfully (encodable records whose strings are valid UTF-8), the
/// padded body that save encrypts, once decrypted and unpadded by
/// load, parses back into exactly the same groups and entries.  The
/// cipher step in between returns the padded body intact by the
/// contract of the encryption primitive, and the content hash
/// matches because both sides hash the same body.
pub proof fn lemma_save_load_round_trip(
    gs: Seq<GroupModel>,
    es: Seq<crate::entry::EntryModel>,
)
    requires
        forall|i: int|
            0 <= i < gs.len() ==> crate::body::group_round_trippable(#[trigger] gs[i]),
        forall|i: int|
            0 <= i < es.len() ==> crate::body::entry_round_trippable(#[trigger] es[i]),
    ensures
        crate::crypter::spec_unpad(crate::crypter::spec_pad(body_bytes(gs, es))) == Some(
            body_bytes(gs, es),
        ),
        crate::body::spec_parse_groups(body_bytes(gs, es), 0, gs.len() as int) == Ok::<
            (Seq<GroupModel>, int),
            V1KpdbError,
        >((gs, crate::body::groups_bytes(gs).len() as int)),
        crate::body::spec_parse_entries(
            body_bytes(gs, es),
            crate::body::groups_bytes(gs).len() as int,
            es.len() as int,
        ) == Ok::<(Seq<crate::entry::EntryModel>, int), V1KpdbError>(
            (es, body_bytes(gs, es).len() as int),
        ),
{
    crate::crypter::lemma_pad_round_trip(body_bytes(gs, es));
    crate::body::lemma_body_round_trip(gs, es);
}

/// Round trip of save and load, stated over the contracts of the
/// database façade itself: whenever `save` succeeded on a database
/// whose strings are valid UTF-8, yielding the bytes of a file, and
/// `load` succeeded on those bytes in a database holding the same
/// key factors that the save left behind, then the loaded groups and
/// entries equal the saved ones, field by field; only the header's
/// fresh seeds, IV and content hash may differ.
pub proof fn lemma_database_round_trip(
    prev: V1Kpdb,
    saved: V1Kpdb,
    bytes: Seq<u8>,
    opener: V1Kpdb,
    loaded: V1Kpdb,
)
    requires
        prev.wf(),
        save_ok(prev, saved, bytes),
        opener.password_view() == saved.password_view(),
        opener.keyfile_view() == saved.keyfile_view(),
        load_ok(opener, loaded, bytes),
        forall|i: int|
            0 <= i < group_models(prev.groups@).len() ==> crate::body::group_round_trippable(
                #[trigger] group_models(prev.groups@)[i],
            ),
        forall|i: int|
            0 <= i < entry_models(prev.entries@).len() ==> crate::body::entry_round_trippable(
                #[trigger] entry_models(prev.entries@)[i],
            ),
    ensures
        group_models(loaded.groups@) == group_models(prev.groups@),
        entry_models(loaded.entries@) == entry_models(prev.entries@),
        loaded.header.num_groups == prev.header.num_groups,
        loaded.header.num_entries == prev.header.num_entries,
        loaded.header.signature1 == prev.header.signature1,
        loaded.header.signature2 == prev.header.signature2,
        loaded.header.enc_flag == prev.header.enc_flag,
        loaded.header.version == prev.header.version,
{
    let gs = group_models(prev.groups@);
    let es = entry_models(prev.entries@);
    let body = body_bytes(gs, es);
    let fk = crate::crypter::spec_final_key(
        saved.crypter.composite_view(),
        saved.header.transf_randomseed@,
        saved.header.key_transf_rounds,
        saved.header.final_randomseed@,
    );
    let enc = crate::crypto::aes_cbc_encrypt_of(
        fk,
        saved.header.iv@,
        crate::crypter::spec_pad(body),
    );
    // The file splits into the saved header's 124 bytes and the
    // ciphertext, so the loaded header carries the saved fields.
    crate::header::lemma_header_parse_prefix(saved.header, enc);
    assert(bytes == saved.header.spec_bytes() + enc);
    assert(saved.header.parses_from(bytes));
    assert(loaded.header.parses_from(bytes));
    assert(loaded.header.final_randomseed@ == saved.header.final_randomseed@);
    assert(loaded.header.iv@ == saved.header.iv@);
    assert(loaded.header.transf_randomseed@ == saved.header.transf_randomseed@);
    assert(loaded.header.key_transf_rounds == saved.header.key_transf_rounds);
    assert(loaded.header.num_groups == saved.header.num_groups);
    assert(loaded.header.num_entries == saved.header.num_entries);
    // Same factors, same header fields: the derived final keys agree.
    let fk2 = crate::crypter::spec_final_key(
        opener.crypter.composite_view(),
        loaded.header.transf_randomseed@,
        loaded.header.key_transf_rounds,
        loaded.header.final_randomseed@,
    );
    assert(opener.crypter.composite_view() == saved.crypter.composite_view());
    assert(fk2 == fk);
    // The ciphertext decrypts back to the padded body, whose padding
    // strips to the body itself.
    let ct = bytes.subrange(124, bytes.len() as int);
    crate::crypter::lemma_pad_round_trip(body);
    let pt = choose|pt: Seq<u8>| loaded_from(loaded, fk2, ct, pt);
    assert(loaded_from(loaded, fk2, ct, pt));
    assert(crate::crypto::aes_cbc_decrypt_of(fk, saved.header.iv@, ct)
        == crate::crypter::spec_pad(body));
    assert(Some(pt) == crate::crypter::spec_unpad(crate::crypter::spec_pad(body)));
    assert(pt == body);
    // Parsing the body gives back exactly the groups and entries the
    // save serialized.
    crate::body::lemma_body_round_trip(gs, es);
    assert(prev.header.num_groups == gs.len());
    assert(prev.header.num_entries == es.len());
    assert(crate::body::spec_parse_groups(pt, 0, loaded.header.num_groups as int) == Ok::<
        (Seq<GroupModel>, int),
        V1KpdbError,
    >((gs, crate::body::groups_bytes(gs).len() as int)));
    assert(group_models(loaded.groups@) == gs);
    assert(entry_models(loaded.entries@) == es);
}

/// Checks that every entry's owning group id occurs in the group
/// list.
pub fn check_links(groups: &Vec<V1Group>, entries: &Vec<V1Entry>) -> (r: Result<(), V1KpdbError>)
    ensures
        r is Ok <==> entries_linked(group_models(groups@), entry_models(entries@)),
        r is Err ==> r == Err::<(), V1KpdbError>(V1KpdbError::TreeErr),
{
    let n = entries.len();
    let mut k: usize = 0;
    while k < n
        invariant
            k <= n,
            n == entries@.len(),
            forall|i: int|
                0 <= i < k ==> has_group(
                    group_models(groups@),
                    (#[trigger] entry_models(entries@)[i]).group_id,
                ),
        decreases n - k,
    {
        match find_group_index(groups, entries[k].group_id) {
            Some(j) => {
                proof {
                    assert(group_models(groups@)[j as int].id == entry_models(entries@)[
                        k as int].group_id);
                    assert(has_group(
                        group_models(groups@),
                        entry_models(entries@)[k as int].group_id,
                    ));
                }
            },
            None => {
                proof {
                    assert forall|i: int| 0 <= i < group_models(groups@).len() implies (
                    #[trigger] group_models(groups@)[i]).id != entry_models(entries@)[
                        k as int].group_id by {
                        assert(groups@[i].id != entries@[k as int].group_id);
                    }
                    assert(!has_group(
                        group_models(groups@),
                        entry_models(entries@)[k as int].group_id,
                    ));
                    assert(!entries_linked(group_models(groups@), entry_models(entries@)));
                }
                return Err(V1KpdbError::TreeErr);
            },
        }
        k += 1;
    }
    Ok(())
}

/// Checks that group ids are unique and non-zero.
pub fn check_ids(groups: &Vec<V1Group>) -> (r: Result<(), V1KpdbError>)
    ensures
        r is Ok <==> ids_ok(group_models(groups@)),
        r is Err ==> r == Err::<(), V1KpdbError>(V1KpdbError::TreeErr),
{
    let ghost gs = group_models(groups@);
    let n = groups.len();
    let mut i: usize = 0;
    while i < n
        invariant
            i <= n,
            n == groups@.len(),
            gs == group_models(groups@),
            forall|k: int| 0 <= k < i ==> (#[trigger] gs[k]).id != 0,
            forall|k: int, l: int| 0 <= k < l < i ==> gs[k].id != gs[l].id,
        decreases n - i,
    {
        if groups[i].id == 0 {
            proof {
                assert(gs[i as int].id == 0);
            }
            return Err(V1KpdbError::TreeErr);
        }
        let mut j: usize = 0;
        while j < i
            invariant
                j <= i < n,
                n == groups@.len(),
                gs == group_models(groups@),
                forall|k: int| 0 <= k < j ==> gs[k].id != gs[i as int].id,
            decreases i - j,
        {
            if groups[j].id == groups[i].id {
                proof {
                    assert(gs[j as int].id == gs[i as int].id);
                }
                return Err(V1KpdbError::TreeErr);
            }
            j += 1;
        }
        i += 1;
    }
    Ok(())
}

} // verus!
