//! An entry: one credential record owned by a group.

use vstd::prelude::*;

use crate::secstr::SecureString;
use crate::tstamp::TimeStamp;

verus! {

/// The mathematical value of an entry, with the password as the
/// plaintext byte sequence behind its obfuscated buffer.
#[verifier::ext_equal]
pub struct EntryModel {
    pub uuid: Seq<u8>,
    pub group_id: u32,
    pub image: u32,
    pub title: Seq<u8>,
    pub url: Seq<u8>,
    pub username: Seq<u8>,
    pub password: Seq<u8>,
    pub comment: Seq<u8>,
    pub binary_desc: Seq<u8>,
    pub creation: TimeStamp,
    pub last_mod: TimeStamp,
    pub last_access: TimeStamp,
    pub expire: TimeStamp,
    pub binary: Seq<u8>,
}

/// An entry record of the database.
///
/// String fields hold the UTF-8 bytes without the trailing NUL of the
/// on-disk form; an absent optional field is the empty string, which
/// is how the on-disk format carries it.  The username and the
/// password are stored obfuscated and are only ever unlocked
/// briefly.
#[derive(Debug)]
pub struct V1Entry {
    /// 16 raw bytes identifying the entry.
    pub uuid: Vec<u8>,
    /// The id of the owning group.
    pub group_id: u32,
    pub image: u32,
    pub title: Vec<u8>,
    pub url: Vec<u8>,
    pub username: SecureString,
    pub password: SecureString,
    pub comment: Vec<u8>,
    pub binary_desc: Vec<u8>,
    pub creation: TimeStamp,
    pub last_mod: TimeStamp,
    pub last_access: TimeStamp,
    pub expire: TimeStamp,
    pub binary: Vec<u8>,
}

impl V1Entry {
    /// The mathematical value of this entry.
    pub open spec fn model(self) -> EntryModel {
        EntryModel {
            uuid: self.uuid@,
            group_id: self.group_id,
            image: self.image,
            title: self.title@,
            url: self.url@,
            username: self.username.plaintext(),
            password: self.password.plaintext(),
            comment: self.comment@,
            binary_desc: self.binary_desc@,
            creation: self.creation,
            last_mod: self.last_mod,
            last_access: self.last_access,
            expire: self.expire,
            binary: self.binary@,
        }
    }

    /// The obfuscated username and password buffers are well-formed
    /// and locked.
    pub open spec fn secret_wf(self) -> bool {
        &&& self.password.wf()
        &&& self.password.is_locked()
        &&& self.username.wf()
        &&& self.username.is_locked()
    }

    /// A blank entry with an all-zero UUID, zero timestamps except an
    /// expiry of "never", and every string empty.
    pub fn new() -> (r: V1Entry)
        ensures
            r.model() == EntryModel::blank(),
            r.secret_wf(),
    {
        let mut uuid: Vec<u8> = Vec::new();
        let mut i: usize = 0;
        while i < 16
            invariant
                uuid@.len() == i,
                i <= 16,
                forall|j: int| 0 <= j < i ==> uuid@[j] == 0,
            decreases 16 - i,
        {
            uuid.push(0);
            i += 1;
        }
        let r = V1Entry {
            uuid,
            group_id: 0,
            image: 0,
            title: Vec::new(),
            url: Vec::new(),
            username: SecureString::new(Vec::new()),
            password: SecureString::new(Vec::new()),
            comment: Vec::new(),
            binary_desc: Vec::new(),
            creation: TimeStamp::zero(),
            last_mod: TimeStamp::zero(),
            last_access: TimeStamp::zero(),
            expire: TimeStamp::never(),
            binary: Vec::new(),
        };
        proof {
            assert(r.uuid@ =~= Seq::new(16, |j: int| 0u8));
            assert(r.model().uuid =~= EntryModel::blank().uuid);
            assert(r.model().title =~= Seq::<u8>::empty());
            assert(r.model().url =~= Seq::<u8>::empty());
            assert(r.model().username =~= Seq::<u8>::empty());
            assert(r.model().password =~= Seq::<u8>::empty());
            assert(r.model().comment =~= Seq::<u8>::empty());
            assert(r.model().binary_desc =~= Seq::<u8>::empty());
            assert(r.model().binary =~= Seq::<u8>::empty());
        }
        r
    }
}

impl EntryModel {
    /// The state every parse of an entry record starts from.
    pub open spec fn blank() -> EntryModel {
        EntryModel {
            uuid: Seq::new(16, |j: int| 0u8),
            group_id: 0,
            image: 0,
            title: Seq::empty(),
            url: Seq::empty(),
            username: Seq::empty(),
            password: Seq::empty(),
            comment: Seq::empty(),
            binary_desc: Seq::empty(),
            creation: TimeStamp { year: 0, month: 0, day: 0, hour: 0, minute: 0, second: 0 },
            last_mod: TimeStamp { year: 0, month: 0, day: 0, hour: 0, minute: 0, second: 0 },
            last_access: TimeStamp { year: 0, month: 0, day: 0, hour: 0, minute: 0, second: 0 },
            expire: TimeStamp { year: 2999, month: 12, day: 28, hour: 23, minute: 59, second: 59 },
            binary: Seq::empty(),
        }
    }

    /// What the body codec can carry faithfully.
    pub open spec fn encodable(self) -> bool {
        &&& self.uuid.len() == 16
        &&& self.creation.packable()
        &&& self.last_mod.packable()
        &&& self.last_access.packable()
        &&& self.expire.packable()
        &&& self.title.len() < 0xFFFF_FFFF
        &&& self.url.len() < 0xFFFF_FFFF
        &&& self.username.len() < 0xFFFF_FFFF
        &&& self.password.len() < 0xFFFF_FFFF
        &&& self.comment.len() < 0xFFFF_FFFF
        &&& self.binary_desc.len() < 0xFFFF_FFFF
        &&& self.binary.len() < 0x1_0000_0000
    }
}

} // verus!
