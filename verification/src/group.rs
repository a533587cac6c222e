//! A group: a named node of the tree that owns entries.

use vstd::prelude::*;

use crate::tstamp::TimeStamp;

verus! {

/// The mathematical value of a group: what the codec and the tree
/// care about, with the title as a byte sequence.
#[verifier::ext_equal]
pub struct GroupModel {
    pub id: u32,
    pub title: Seq<u8>,
    pub creation: TimeStamp,
    pub last_mod: TimeStamp,
    pub last_access: TimeStamp,
    pub expire: TimeStamp,
    pub image: u32,
    pub level: u16,
    pub flags: u32,
}

/// A group record of the database.
///
/// `level` is the depth of the group in the tree, 0 for a top-level
/// group; the ordered group list of the database is a pre-order
/// traversal of the forest, so parent and children relations are fully
/// determined by positions and levels.
#[derive(Debug)]
pub struct V1Group {
    pub id: u32,
    /// UTF-8 bytes of the title, without the trailing NUL of the
    /// on-disk form.
    pub title: Vec<u8>,
    pub creation: TimeStamp,
    pub last_mod: TimeStamp,
    pub last_access: TimeStamp,
    pub expire: TimeStamp,
    pub image: u32,
    pub level: u16,
    pub flags: u32,
}

impl V1Group {
    /// The mathematical value of this group.
    pub open spec fn model(self) -> GroupModel {
        GroupModel {
            id: self.id,
            title: self.title@,
            creation: self.creation,
            last_mod: self.last_mod,
            last_access: self.last_access,
            expire: self.expire,
            image: self.image,
            level: self.level,
            flags: self.flags,
        }
    }

    /// A blank group: zero timestamps except an expiry of "never",
    /// as freshly created groups carry.
    pub fn new() -> (r: V1Group)
        ensures
            r.model() == GroupModel::blank(),
    {
        let r = V1Group {
            id: 0,
            title: Vec::new(),
            creation: TimeStamp::zero(),
            last_mod: TimeStamp::zero(),
            last_access: TimeStamp::zero(),
            expire: TimeStamp::never(),
            image: 0,
            level: 0,
            flags: 0,
        };
        proof {
            assert(r.title@ =~= Seq::<u8>::empty());
        }
        r
    }
}

impl GroupModel {
    /// The state every parse of a group record starts from.
    pub open spec fn blank() -> GroupModel {
        GroupModel {
            id: 0,
            title: Seq::empty(),
            creation: TimeStamp { year: 0, month: 0, day: 0, hour: 0, minute: 0, second: 0 },
            last_mod: TimeStamp { year: 0, month: 0, day: 0, hour: 0, minute: 0, second: 0 },
            last_access: TimeStamp { year: 0, month: 0, day: 0, hour: 0, minute: 0, second: 0 },
            expire: TimeStamp { year: 2999, month: 12, day: 28, hour: 23, minute: 59, second: 59 },
            image: 0,
            level: 0,
            flags: 0,
        }
    }

    /// What the body codec can carry faithfully: packable timestamps
    /// and a title whose on-disk form (one NUL appended) fits a 32-bit
    /// field size.
    pub open spec fn encodable(self) -> bool {
        &&& self.creation.packable()
        &&& self.last_mod.packable()
        &&& self.last_access.packable()
        &&& self.expire.packable()
        &&& self.title.len() < 0xFFFF_FFFF
    }
}

} // verus!
