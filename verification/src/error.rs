//! The failure taxonomy shared by every component of the library.

use vstd::prelude::*;

verus! {

/// Every fallible operation of the library reports one of these
/// discriminants; there is no error chaining, and no operating-system
/// detail is propagated.
#[derive(Clone, Copy, Debug, PartialEq, Eq, Structural)]
pub enum V1KpdbError {
    /// A file could not be opened or created.
    FileErr,
    /// A read ended before the expected number of bytes arrived.
    ReadErr,
    /// A write could not be completed.
    WriteErr,
    /// One of the two magic numbers at the start of the header is wrong.
    SignatureErr,
    /// The header's encryption flags do not request AES.
    EncFlagErr,
    /// The header's version word does not match the supported format.
    VersionErr,
    /// Decryption produced a body with an impossible shape.
    DecryptErr,
    /// The hash of the decrypted body does not match the header's hash.
    HashErr,
    /// A field carried a payload whose size does not fit its type.
    ConvertErr,
    /// A field's payload would extend beyond the end of the body.
    OffsetErr,
    /// The flat group stream does not describe a well-formed tree, or a
    /// reference points at no group.
    TreeErr,
    /// A keyfile could not be read.
    KeyfileErr,
    /// A back-reference dangled while removing a group or an entry.
    WeakErr,
}

} // verus!
