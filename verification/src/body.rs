//! The tag-length-value codec for the decrypted body.
//!
//! The body is `num_groups` group records followed by `num_entries`
//! entry records.  Each record is a run of fields — `field_type`
//! (u16, little-endian), `field_size` (u32, little-endian), then
//! `field_size` payload bytes — and ends with the field type 0xFFFF.
//! String payloads carry a trailing NUL on disk; the decoder strips
//! it, and replaces invalid UTF-8 with the empty string.  Unknown
//! field types are skipped by their size.

use vstd::prelude::*;

use crate::endian::{le_u16_at, le_u16_bytes, le_u32_at, le_u32_bytes, push_u16_le, push_u32_le};
use crate::endian::{read_u16_at, read_u32_at};
use crate::endian::{lemma_le_u16_round_trip, lemma_le_u32_round_trip};
use vstd::seq_lib::lemma_concat_associative;
use crate::entry::{EntryModel, V1Entry};
use crate::error::V1KpdbError;
use crate::group::{GroupModel, V1Group};
use crate::header::{copy_range, push_bytes};
use crate::secstr::{wipe_bytes, SecureString};
use crate::tstamp::{lemma_timestamp_pack_round_trip, TimeStamp};
use crate::utf8::{is_utf8, is_valid_utf8};

verus! {

/// The field type that ends a record.
pub const END_FIELD: u16 = 0xFFFF;

/// One on-disk field: type, size, payload.
pub open spec fn tlv(t: u16, p: Seq<u8>) -> Seq<u8> {
    le_u16_bytes(t) + le_u32_bytes(p.len() as u32) + p
}

/// The terminator field of every record.
pub open spec fn tlv_end() -> Seq<u8> {
    le_u16_bytes(END_FIELD) + le_u32_bytes(0)
}

/// The on-disk bytes of one group record: every field written in
/// type order, the title with its trailing NUL.
#[verifier::opaque]
pub open spec fn group_bytes(g: GroupModel) -> Seq<u8> {
    tlv(0x1, le_u32_bytes(g.id)) + tlv(0x2, g.title + seq![0u8]) + tlv(0x3, g.creation.spec_bytes())
        + tlv(0x4, g.last_mod.spec_bytes()) + tlv(0x5, g.last_access.spec_bytes()) + tlv(
        0x6,
        g.expire.spec_bytes(),
    ) + tlv(0x7, le_u32_bytes(g.image)) + tlv(0x8, le_u16_bytes(g.level)) + tlv(
        0x9,
        le_u32_bytes(g.flags),
    ) + tlv_end()
}

/// The first half of an entry record: identifiers and strings.
#[verifier::opaque]
pub open spec fn entry_bytes_front(e: EntryModel) -> Seq<u8> {
    tlv(0x1, e.uuid) + tlv(0x2, le_u32_bytes(e.group_id)) + tlv(0x3, le_u32_bytes(e.image)) + tlv(
        0x4,
        e.title + seq![0u8],
    ) + tlv(0x5, e.url + seq![0u8]) + tlv(0x6, e.username + seq![0u8]) + tlv(
        0x7,
        e.password + seq![0u8],
    ) + tlv(0x8, e.comment + seq![0u8])
}

/// The second half of an entry record: timestamps, the binary blob
/// and the terminator.
#[verifier::opaque]
pub open spec fn entry_bytes_back(e: EntryModel) -> Seq<u8> {
    tlv(0x9, e.creation.spec_bytes()) + tlv(0xA, e.last_mod.spec_bytes()) + tlv(
        0xB,
        e.last_access.spec_bytes(),
    ) + tlv(0xC, e.expire.spec_bytes()) + tlv(0xD, e.binary_desc + seq![0u8]) + tlv(0xE, e.binary)
        + tlv_end()
}

/// The on-disk bytes of one entry record: the full set of fields in
/// type order, empty strings still carrying their NUL.
#[verifier::opaque]
pub open spec fn entry_bytes(e: EntryModel) -> Seq<u8> {
    entry_bytes_front(e) + entry_bytes_back(e)
}

/// The concatenated records of a run of groups.
pub open spec fn groups_bytes(gs: Seq<GroupModel>) -> Seq<u8>
    decreases gs.len(),
{
    if gs.len() == 0 {
        Seq::empty()
    } else {
        group_bytes(gs[0]) + groups_bytes(gs.drop_first())
    }
}

/// The concatenated records of a run of entries.
pub open spec fn entries_bytes(es: Seq<EntryModel>) -> Seq<u8>
    decreases es.len(),
{
    if es.len() == 0 {
        Seq::empty()
    } else {
        entry_bytes(es[0]) + entries_bytes(es.drop_first())
    }
}

/// The whole plaintext body: group records then entry records.
pub open spec fn body_bytes(gs: Seq<GroupModel>, es: Seq<EntryModel>) -> Seq<u8> {
    groups_bytes(gs) + entries_bytes(es)
}

/// Appending one group to a run appends its record to the bytes.
#[verifier::rlimit(100)]
pub proof fn lemma_groups_bytes_snoc(gs: Seq<GroupModel>, i: int)
    requires
        0 <= i < gs.len(),
    ensures
        groups_bytes(gs.take(i + 1)) == groups_bytes(gs.take(i)) + group_bytes(gs[i]),
    decreases i,
{
    if i == 0 {
        assert(gs.take(1).drop_first() =~= Seq::<GroupModel>::empty());
        assert(gs.take(1)[0] == gs[0]);
        Seq::add_empty_right(group_bytes(gs[0]), groups_bytes(gs.take(1).drop_first()));
        Seq::add_empty_left(groups_bytes(gs.take(0)), group_bytes(gs[0]));
    } else {
        let tail = gs.drop_first();
        lemma_groups_bytes_snoc(tail, i - 1);
        assert(gs.take(i + 1).drop_first() =~= tail.take(i));
        assert(gs.take(i).drop_first() =~= tail.take(i - 1));
        assert(tail[i - 1] == gs[i]);
        assert(gs.take(i + 1)[0] == gs[0]);
        assert(gs.take(i)[0] == gs[0]);
        lemma_concat_associative(
            group_bytes(gs[0]),
            groups_bytes(tail.take(i - 1)),
            group_bytes(gs[i]),
        );
        assert(groups_bytes(gs.take(i + 1)) == group_bytes(gs[0]) + groups_bytes(tail.take(i)));
        assert(groups_bytes(gs.take(i)) == group_bytes(gs[0]) + groups_bytes(tail.take(i - 1)));
    }
}

/// Appending one entry to a run appends its record to the bytes.
#[verifier::rlimit(100)]
pub proof fn lemma_entries_bytes_snoc(es: Seq<EntryModel>, i: int)
    requires
        0 <= i < es.len(),
    ensures
        entries_bytes(es.take(i + 1)) == entries_bytes(es.take(i)) + entry_bytes(es[i]),
    decreases i,
{
    if i == 0 {
        assert(es.take(1).drop_first() =~= Seq::<EntryModel>::empty());
        assert(es.take(1)[0] == es[0]);
        Seq::add_empty_right(entry_bytes(es[0]), entries_bytes(es.take(1).drop_first()));
        Seq::add_empty_left(entries_bytes(es.take(0)), entry_bytes(es[0]));
    } else {
        let tail = es.drop_first();
        lemma_entries_bytes_snoc(tail, i - 1);
        assert(es.take(i + 1).drop_first() =~= tail.take(i));
        assert(es.take(i).drop_first() =~= tail.take(i - 1));
        assert(tail[i - 1] == es[i]);
        assert(es.take(i + 1)[0] == es[0]);
        assert(es.take(i)[0] == es[0]);
        lemma_concat_associative(
            entry_bytes(es[0]),
            entries_bytes(tail.take(i - 1)),
            entry_bytes(es[i]),
        );
        assert(entries_bytes(es.take(i + 1)) == entry_bytes(es[0]) + entries_bytes(tail.take(i)));
        assert(entries_bytes(es.take(i)) == entry_bytes(es[0]) + entries_bytes(tail.take(i - 1)));
    }
}

/// The models of a vector of groups.
pub open spec fn group_models(v: Seq<V1Group>) -> Seq<GroupModel> {
    v.map_values(|g: V1Group| g.model())
}

/// The models of a vector of entries.
pub open spec fn entry_models(v: Seq<V1Entry>) -> Seq<EntryModel> {
    v.map_values(|e: V1Entry| e.model())
}

/// Appends one field with a raw payload.
fn write_tlv(out: &mut Vec<u8>, t: u16, p: &[u8])
    requires
        p@.len() < 0x1_0000_0000,
    ensures
        final(out)@ == old(out)@ + tlv(t, p@),
{
    push_u16_le(out, t);
    push_u32_le(out, p.len() as u32);
    push_bytes(out, p);
    assert(out@ =~= old(out)@ + tlv(t, p@));
}

/// Appends one string field: the payload is the bytes plus one NUL,
/// and the size counts the NUL.
fn write_str_tlv(out: &mut Vec<u8>, t: u16, sbytes: &[u8])
    requires
        sbytes@.len() < 0xFFFF_FFFF,
    ensures
        final(out)@ == old(out)@ + tlv(t, sbytes@ + seq![0u8]),
{
    push_u16_le(out, t);
    push_u32_le(out, (sbytes.len() + 1) as u32);
    push_bytes(out, sbytes);
    out.push(0u8);
    assert((sbytes@ + seq![0u8]).len() as u32 == (sbytes@.len() + 1) as u32);
    assert(out@ =~= old(out)@ + tlv(t, sbytes@ + seq![0u8]));
}

/// Appends one packed timestamp field.
fn write_ts_tlv(out: &mut Vec<u8>, t: u16, ts: &TimeStamp)
    requires
        ts.packable(),
    ensures
        final(out)@ == old(out)@ + tlv(t, ts.spec_bytes()),
{
    push_u16_le(out, t);
    push_u32_le(out, 5);
    ts.pack_into(out);
    assert(ts.spec_bytes().len() as u32 == 5);
    assert(out@ =~= old(out)@ + tlv(t, ts.spec_bytes()));
}

/// Appends one u32 field.
fn write_u32_tlv(out: &mut Vec<u8>, t: u16, v: u32)
    ensures
        final(out)@ == old(out)@ + tlv(t, le_u32_bytes(v)),
{
    push_u16_le(out, t);
    push_u32_le(out, 4);
    push_u32_le(out, v);
    assert(le_u32_bytes(v).len() as u32 == 4);
    assert(out@ =~= old(out)@ + tlv(t, le_u32_bytes(v)));
}

/// Appends one u16 field.
fn write_u16_tlv(out: &mut Vec<u8>, t: u16, v: u16)
    ensures
        final(out)@ == old(out)@ + tlv(t, le_u16_bytes(v)),
{
    push_u16_le(out, t);
    push_u32_le(out, 2);
    push_u16_le(out, v);
    assert(le_u16_bytes(v).len() as u32 == 2);
    assert(out@ =~= old(out)@ + tlv(t, le_u16_bytes(v)));
}

/// Appends the record terminator.
fn write_end(out: &mut Vec<u8>)
    ensures
        final(out)@ == old(out)@ + tlv_end(),
{
    push_u16_le(out, END_FIELD);
    push_u32_le(out, 0);
    assert(out@ =~= old(out)@ + tlv_end());
}

/// Appends the full record of one group.
pub fn write_group(out: &mut Vec<u8>, g: &V1Group)
    requires
        g.model().encodable(),
    ensures
        final(out)@ == old(out)@ + group_bytes(g.model()),
{
    let ghost m = g.model();
    let ghost base = out@;
    write_u32_tlv(out, 0x1, g.id);
    let ghost p1 = tlv(0x1, le_u32_bytes(m.id));
    let ghost acc1 = p1;
    proof { assert(out@ == base + acc1); }
    write_str_tlv(out, 0x2, g.title.as_slice());
    let ghost p2 = tlv(0x2, m.title + seq![0u8]);
    let ghost acc2 = acc1 + p2;
    proof {
        lemma_concat_associative(base, acc1, p2);
        assert(out@ == base + acc2);
    }
    write_ts_tlv(out, 0x3, &g.creation);
    let ghost p3 = tlv(0x3, m.creation.spec_bytes());
    let ghost acc3 = acc2 + p3;
    proof {
        lemma_concat_associative(base, acc2, p3);
        assert(out@ == base + acc3);
    }
    write_ts_tlv(out, 0x4, &g.last_mod);
    let ghost p4 = tlv(0x4, m.last_mod.spec_bytes());
    let ghost acc4 = acc3 + p4;
    proof {
        lemma_concat_associative(base, acc3, p4);
        assert(out@ == base + acc4);
    }
    write_ts_tlv(out, 0x5, &g.last_access);
    let ghost p5 = tlv(0x5, m.last_access.spec_bytes());
    let ghost acc5 = acc4 + p5;
    proof {
        lemma_concat_associative(base, acc4, p5);
        assert(out@ == base + acc5);
    }
    write_ts_tlv(out, 0x6, &g.expire);
    let ghost p6 = tlv(0x6, m.expire.spec_bytes());
    let ghost acc6 = acc5 + p6;
    proof {
        lemma_concat_associative(base, acc5, p6);
        assert(out@ == base + acc6);
    }
    write_u32_tlv(out, 0x7, g.image);
    let ghost p7 = tlv(0x7, le_u32_bytes(m.image));
    let ghost acc7 = acc6 + p7;
    proof {
        lemma_concat_associative(base, acc6, p7);
        assert(out@ == base + acc7);
    }
    write_u16_tlv(out, 0x8, g.level);
    let ghost p8 = tlv(0x8, le_u16_bytes(m.level));
    let ghost acc8 = acc7 + p8;
    proof {
        lemma_concat_associative(base, acc7, p8);
        assert(out@ == base + acc8);
    }
    write_u32_tlv(out, 0x9, g.flags);
    let ghost p9 = tlv(0x9, le_u32_bytes(m.flags));
    let ghost acc9 = acc8 + p9;
    proof {
        lemma_concat_associative(base, acc8, p9);
        assert(out@ == base + acc9);
    }
    write_end(out);
    let ghost p10 = tlv_end();
    let ghost acc10 = acc9 + p10;
    proof {
        lemma_concat_associative(base, acc9, p10);
        assert(out@ == base + acc10);
    }
    proof {
        reveal(group_bytes);
        assert(acc10 == group_bytes(m));
    }
}

/// Appends the full record of one entry.  The username and the
/// password are unlocked into temporary buffers that are wiped
/// before returning.
pub fn write_entry(out: &mut Vec<u8>, e: &V1Entry)
    requires
        e.model().encodable(),
        e.secret_wf(),
    ensures
        final(out)@ == old(out)@ + entry_bytes(e.model()),
{
    let ghost m = e.model();
    let ghost base = out@;
    write_tlv(out, 0x1, e.uuid.as_slice());
    let ghost fp1 = tlv(0x1, m.uuid);
    let ghost facc1 = fp1;
    proof { assert(out@ == base + facc1); }
    write_u32_tlv(out, 0x2, e.group_id);
    let ghost fp2 = tlv(0x2, le_u32_bytes(m.group_id));
    let ghost facc2 = facc1 + fp2;
    proof {
        lemma_concat_associative(base, facc1, fp2);
        assert(out@ == base + facc2);
    }
    write_u32_tlv(out, 0x3, e.image);
    let ghost fp3 = tlv(0x3, le_u32_bytes(m.image));
    let ghost facc3 = facc2 + fp3;
    proof {
        lemma_concat_associative(base, facc2, fp3);
        assert(out@ == base + facc3);
    }
    write_str_tlv(out, 0x4, e.title.as_slice());
    let ghost fp4 = tlv(0x4, m.title + seq![0u8]);
    let ghost facc4 = facc3 + fp4;
    proof {
        lemma_concat_associative(base, facc3, fp4);
        assert(out@ == base + facc4);
    }
    write_str_tlv(out, 0x5, e.url.as_slice());
    let ghost fp5 = tlv(0x5, m.url + seq![0u8]);
    let ghost facc5 = facc4 + fp5;
    proof {
        lemma_concat_associative(base, facc4, fp5);
        assert(out@ == base + facc5);
    }
    let mut un = e.username.plaintext_copy();
    write_str_tlv(out, 0x6, un.as_slice());
    wipe_bytes(&mut un);
    let ghost fp6 = tlv(0x6, m.username + seq![0u8]);
    let ghost facc6 = facc5 + fp6;
    proof {
        lemma_concat_associative(base, facc5, fp6);
        assert(out@ == base + facc6);
    }
    let mut pw = e.password.plaintext_copy();
    write_str_tlv(out, 0x7, pw.as_slice());
    wipe_bytes(&mut pw);
    let ghost fp7 = tlv(0x7, m.password + seq![0u8]);
    let ghost facc7 = facc6 + fp7;
    proof {
        lemma_concat_associative(base, facc6, fp7);
        assert(out@ == base + facc7);
    }
    write_str_tlv(out, 0x8, e.comment.as_slice());
    let ghost fp8 = tlv(0x8, m.comment + seq![0u8]);
    let ghost facc8 = facc7 + fp8;
    proof {
        lemma_concat_associative(base, facc7, fp8);
        assert(out@ == base + facc8);
    }
    proof {
        reveal(entry_bytes_front);
        assert(facc8 == entry_bytes_front(m));
    }
    let ghost base2 = base + facc8;
    write_ts_tlv(out, 0x9, &e.creation);
    let ghost bp1 = tlv(0x9, m.creation.spec_bytes());
    let ghost bacc1 = bp1;
    proof { assert(out@ == base2 + bacc1); }
    write_ts_tlv(out, 0xA, &e.last_mod);
    let ghost bp2 = tlv(0xA, m.last_mod.spec_bytes());
    let ghost bacc2 = bacc1 + bp2;
    proof {
        lemma_concat_associative(base2, bacc1, bp2);
        assert(out@ == base2 + bacc2);
    }
    write_ts_tlv(out, 0xB, &e.last_access);
    let ghost bp3 = tlv(0xB, m.last_access.spec_bytes());
    let ghost bacc3 = bacc2 + bp3;
    proof {
        lemma_concat_associative(base2, bacc2, bp3);
        assert(out@ == base2 + bacc3);
    }
    write_ts_tlv(out, 0xC, &e.expire);
    let ghost bp4 = tlv(0xC, m.expire.spec_bytes());
    let ghost bacc4 = bacc3 + bp4;
    proof {
        lemma_concat_associative(base2, bacc3, bp4);
        assert(out@ == base2 + bacc4);
    }
    write_str_tlv(out, 0xD, e.binary_desc.as_slice());
    let ghost bp5 = tlv(0xD, m.binary_desc + seq![0u8]);
    let ghost bacc5 = bacc4 + bp5;
    proof {
        lemma_concat_associative(base2, bacc4, bp5);
        assert(out@ == base2 + bacc5);
    }
    write_tlv(out, 0xE, e.binary.as_slice());
    let ghost bp6 = tlv(0xE, m.binary);
    let ghost bacc6 = bacc5 + bp6;
    proof {
        lemma_concat_associative(base2, bacc5, bp6);
        assert(out@ == base2 + bacc6);
    }
    write_end(out);
    let ghost bp7 = tlv_end();
    let ghost bacc7 = bacc6 + bp7;
    proof {
        lemma_concat_associative(base2, bacc6, bp7);
        assert(out@ == base2 + bacc7);
    }
    proof {
        reveal(entry_bytes_back);
        reveal(entry_bytes);
        assert(bacc7 == entry_bytes_back(m));
        lemma_concat_associative(base, entry_bytes_front(m), entry_bytes_back(m));
        assert(out@ == base + entry_bytes(m));
    }
}

/// Serializes the whole body: every group record in list order, then
/// every entry record in list order.
#[verifier::rlimit(100)]
pub fn write_body(groups: &Vec<V1Group>, entries: &Vec<V1Entry>) -> (r: Vec<u8>)
    requires
        forall|i: int| 0 <= i < groups@.len() ==> (#[trigger] groups@[i]).model().encodable(),
        forall|i: int|
            0 <= i < entries@.len() ==> (#[trigger] entries@[i]).model().encodable()
                && entries@[i].secret_wf(),
    ensures
        r@ == body_bytes(group_models(groups@), entry_models(entries@)),
{
    let mut out: Vec<u8> = Vec::new();
    let ghost gms = group_models(groups@);
    let ghost ems = entry_models(entries@);
    let mut i: usize = 0;
    while i < groups.len()
        invariant
            i <= groups@.len(),
            gms == group_models(groups@),
            ems == entry_models(entries@),
            forall|k: int| 0 <= k < groups@.len() ==> (#[trigger] groups@[k]).model().encodable(),
            out@ == groups_bytes(gms.take(i as int)),
        decreases groups@.len() - i,
    {
        write_group(&mut out, &groups[i]);
        proof {
            lemma_groups_bytes_snoc(gms, i as int);
        }
        i += 1;
    }
    proof {
        assert(gms.take(groups@.len() as int) =~= gms);
        assert(groups_bytes(gms) + entries_bytes(ems.take(0)) =~= groups_bytes(gms));
    }
    let mut k: usize = 0;
    while k < entries.len()
        invariant
            k <= entries@.len(),
            gms == group_models(groups@),
            ems == entry_models(entries@),
            forall|j: int|
                0 <= j < entries@.len() ==> (#[trigger] entries@[j]).model().encodable()
                    && entries@[j].secret_wf(),
            out@ == groups_bytes(gms) + entries_bytes(ems.take(k as int)),
        decreases entries@.len() - k,
    {
        write_entry(&mut out, &entries[k]);
        proof {
            lemma_entries_bytes_snoc(ems, k as int);
        }
        k += 1;
    }
    proof {
        assert(ems.take(entries@.len() as int) =~= ems);
    }
    out
}

/// The decoded value of a string payload at `d[pstart..pend]`: the
/// trailing NUL is stripped, and invalid UTF-8 becomes the empty
/// string.
pub open spec fn decoded_string(d: Seq<u8>, pstart: int, pend: int) -> Seq<u8> {
    let raw = if pend > pstart {
        d.subrange(pstart, pend - 1)
    } else {
        Seq::<u8>::empty()
    };
    if is_utf8(raw) {
        raw
    } else {
        Seq::<u8>::empty()
    }
}

/// Parses the fields of one group record starting at `pos`, folding
/// them into `acc` until the terminator field.  A field header or
/// payload that runs past the end of `d` is an offset failure; a
/// fixed-size field with the wrong size is a conversion failure;
/// unknown field types are skipped.
pub open spec fn spec_parse_group_at(d: Seq<u8>, pos: int, acc: GroupModel) -> Result<
    (GroupModel, int),
    V1KpdbError,
>
    decreases d.len() - pos,
{
    if pos < 0 || pos + 6 > d.len() {
        Err(V1KpdbError::OffsetErr)
    } else {
        let t = le_u16_at(d, pos);
        let size = le_u32_at(d, pos + 2);
        let pstart = pos + 6;
        let pend = pstart + size;
        if pend > d.len() {
            Err(V1KpdbError::OffsetErr)
        } else if t == 0xFFFF {
            Ok((acc, pend))
        } else if t == 0x1 {
            if size == 4 {
                spec_parse_group_at(d, pend, GroupModel { id: le_u32_at(d, pstart) as u32, ..acc })
            } else {
                Err(V1KpdbError::ConvertErr)
            }
        } else if t == 0x2 {
            spec_parse_group_at(
                d,
                pend,
                GroupModel { title: decoded_string(d, pstart, pend), ..acc },
            )
        } else if t == 0x3 {
            if size == 5 {
                spec_parse_group_at(
                    d,
                    pend,
                    GroupModel { creation: TimeStamp::spec_of_bytes(d, pstart), ..acc },
                )
            } else {
                Err(V1KpdbError::ConvertErr)
            }
        } else if t == 0x4 {
            if size == 5 {
                spec_parse_group_at(
                    d,
                    pend,
                    GroupModel { last_mod: TimeStamp::spec_of_bytes(d, pstart), ..acc },
                )
            } else {
                Err(V1KpdbError::ConvertErr)
            }
        } else if t == 0x5 {
            if size == 5 {
                spec_parse_group_at(
                    d,
                    pend,
                    GroupModel { last_access: TimeStamp::spec_of_bytes(d, pstart), ..acc },
                )
            } else {
                Err(V1KpdbError::ConvertErr)
            }
        } else if t == 0x6 {
            if size == 5 {
                spec_parse_group_at(
                    d,
                    pend,
                    GroupModel { expire: TimeStamp::spec_of_bytes(d, pstart), ..acc },
                )
            } else {
                Err(V1KpdbError::ConvertErr)
            }
        } else if t == 0x7 {
            if size == 4 {
                spec_parse_group_at(
                    d,
                    pend,
                    GroupModel { image: le_u32_at(d, pstart) as u32, ..acc },
                )
            } else {
                Err(V1KpdbError::ConvertErr)
            }
        } else if t == 0x8 {
            if size == 2 {
                spec_parse_group_at(
                    d,
                    pend,
                    GroupModel { level: le_u16_at(d, pstart) as u16, ..acc },
                )
            } else {
                Err(V1KpdbError::ConvertErr)
            }
        } else if t == 0x9 {
            if size == 4 {
                spec_parse_group_at(
                    d,
                    pend,
                    GroupModel { flags: le_u32_at(d, pstart) as u32, ..acc },
                )
            } else {
                Err(V1KpdbError::ConvertErr)
            }
        } else {
            spec_parse_group_at(d, pend, acc)
        }
    }
}

/// Parses the fields of one entry record starting at `pos`, folding
/// them into `acc` until the terminator field.
pub open spec fn spec_parse_entry_at(d: Seq<u8>, pos: int, acc: EntryModel) -> Result<
    (EntryModel, int),
    V1KpdbError,
>
    decreases d.len() - pos,
{
    if pos < 0 || pos + 6 > d.len() {
        Err(V1KpdbError::OffsetErr)
    } else {
        let t = le_u16_at(d, pos);
        let size = le_u32_at(d, pos + 2);
        let pstart = pos + 6;
        let pend = pstart + size;
        if pend > d.len() {
            Err(V1KpdbError::OffsetErr)
        } else if t == 0xFFFF {
            Ok((acc, pend))
        } else if t == 0x1 {
            if size == 16 {
                spec_parse_entry_at(
                    d,
                    pend,
                    EntryModel { uuid: d.subrange(pstart, pend), ..acc },
                )
            } else {
                Err(V1KpdbError::ConvertErr)
            }
        } else if t == 0x2 {
            if size == 4 {
                spec_parse_entry_at(
                    d,
                    pend,
                    EntryModel { group_id: le_u32_at(d, pstart) as u32, ..acc },
                )
            } else {
                Err(V1KpdbError::ConvertErr)
            }
        } else if t == 0x3 {
            if size == 4 {
                spec_parse_entry_at(
                    d,
                    pend,
                    EntryModel { image: le_u32_at(d, pstart) as u32, ..acc },
                )
            } else {
                Err(V1KpdbError::ConvertErr)
            }
        } else if t == 0x4 {
            spec_parse_entry_at(
                d,
                pend,
                EntryModel { title: decoded_string(d, pstart, pend), ..acc },
            )
        } else if t == 0x5 {
            spec_parse_entry_at(d, pend, EntryModel { url: decoded_string(d, pstart, pend), ..acc })
        } else if t == 0x6 {
            spec_parse_entry_at(
                d,
                pend,
                EntryModel { username: decoded_string(d, pstart, pend), ..acc },
            )
        } else if t == 0x7 {
            spec_parse_entry_at(
                d,
                pend,
                EntryModel { password: decoded_string(d, pstart, pend), ..acc },
            )
        } else if t == 0x8 {
            spec_parse_entry_at(
                d,
                pend,
                EntryModel { comment: decoded_string(d, pstart, pend), ..acc },
            )
        } else if t == 0x9 {
            if size == 5 {
                spec_parse_entry_at(
                    d,
                    pend,
                    EntryModel { creation: TimeStamp::spec_of_bytes(d, pstart), ..acc },
                )
            } else {
                Err(V1KpdbError::ConvertErr)
            }
        } else if t == 0xA {
            if size == 5 {
                spec_parse_entry_at(
                    d,
                    pend,
                    EntryModel { last_mod: TimeStamp::spec_of_bytes(d, pstart), ..acc },
                )
            } else {
                Err(V1KpdbError::ConvertErr)
            }
        } else if t == 0xB {
            if size == 5 {
                spec_parse_entry_at(
                    d,
                    pend,
                    EntryModel { last_access: TimeStamp::spec_of_bytes(d, pstart), ..acc },
                )
            } else {
                Err(V1KpdbError::ConvertErr)
            }
        } else if t == 0xC {
            if size == 5 {
                spec_parse_entry_at(
                    d,
                    pend,
                    EntryModel { expire: TimeStamp::spec_of_bytes(d, pstart), ..acc },
                )
            } else {
                Err(V1KpdbError::ConvertErr)
            }
        } else if t == 0xD {
            spec_parse_entry_at(
                d,
                pend,
                EntryModel { binary_desc: decoded_string(d, pstart, pend), ..acc },
            )
        } else if t == 0xE {
            spec_parse_entry_at(
                d,
                pend,
                EntryModel { binary: d.subrange(pstart, pend), ..acc },
            )
        } else {
            spec_parse_entry_at(d, pend, acc)
        }
    }
}

/// Parses `n` group records starting at `pos`.
pub open spec fn spec_parse_groups(d: Seq<u8>, pos: int, n: int) -> Result<
    (Seq<GroupModel>, int),
    V1KpdbError,
>
    decreases n,
{
    if n <= 0 {
        Ok((Seq::empty(), pos))
    } else {
        match spec_parse_group_at(d, pos, GroupModel::blank()) {
            Err(e) => Err(e),
            Ok((g, p2)) => match spec_parse_groups(d, p2, n - 1) {
                Err(e) => Err(e),
                Ok((rest, p3)) => Ok((seq![g] + rest, p3)),
            },
        }
    }
}

/// Parses `n` entry records starting at `pos`.
pub open spec fn spec_parse_entries(d: Seq<u8>, pos: int, n: int) -> Result<
    (Seq<EntryModel>, int),
    V1KpdbError,
>
    decreases n,
{
    if n <= 0 {
        Ok((Seq::empty(), pos))
    } else {
        match spec_parse_entry_at(d, pos, EntryModel::blank()) {
            Err(e) => Err(e),
            Ok((g, p2)) => match spec_parse_entries(d, p2, n - 1) {
                Err(e) => Err(e),
                Ok((rest, p3)) => Ok((seq![g] + rest, p3)),
            },
        }
    }
}

/// A failed group-record parse reports an offset or conversion
/// failure and nothing else.
pub proof fn lemma_parse_group_at_err_kind(d: Seq<u8>, pos: int, acc: GroupModel)
    ensures
        spec_parse_group_at(d, pos, acc) is Err ==> spec_parse_group_at(d, pos, acc)->Err_0
            == V1KpdbError::OffsetErr || spec_parse_group_at(d, pos, acc)->Err_0
            == V1KpdbError::ConvertErr,
    decreases d.len() - pos,
{
    if pos < 0 || pos + 6 > d.len() {
    } else {
        let t = le_u16_at(d, pos);
        let size = le_u32_at(d, pos + 2);
        let pstart = pos + 6;
        let pend = pstart + size;
        if pend > d.len() {
        } else if t == 0xFFFF {
        } else if t == 0x1 {
            if size == 4 {
                lemma_parse_group_at_err_kind(
                    d,
                    pend,
                    GroupModel { id: le_u32_at(d, pstart) as u32, ..acc },
                );
            }
        } else if t == 0x2 {
            lemma_parse_group_at_err_kind(
                d,
                pend,
                GroupModel { title: decoded_string(d, pstart, pend), ..acc },
            );
        } else if t == 0x3 {
            if size == 5 {
                lemma_parse_group_at_err_kind(
                    d,
                    pend,
                    GroupModel { creation: TimeStamp::spec_of_bytes(d, pstart), ..acc },
                );
            }
        } else if t == 0x4 {
            if size == 5 {
                lemma_parse_group_at_err_kind(
                    d,
                    pend,
                    GroupModel { last_mod: TimeStamp::spec_of_bytes(d, pstart), ..acc },
                );
            }
        } else if t == 0x5 {
            if size == 5 {
                lemma_parse_group_at_err_kind(
                    d,
                    pend,
                    GroupModel { last_access: TimeStamp::spec_of_bytes(d, pstart), ..acc },
                );
            }
        } else if t == 0x6 {
            if size == 5 {
                lemma_parse_group_at_err_kind(
                    d,
                    pend,
                    GroupModel { expire: TimeStamp::spec_of_bytes(d, pstart), ..acc },
                );
            }
        } else if t == 0x7 {
            if size == 4 {
                lemma_parse_group_at_err_kind(
                    d,
                    pend,
                    GroupModel { image: le_u32_at(d, pstart) as u32, ..acc },
                );
            }
        } else if t == 0x8 {
            if size == 2 {
                lemma_parse_group_at_err_kind(
                    d,
                    pend,
                    GroupModel { level: le_u16_at(d, pstart) as u16, ..acc },
                );
            }
        } else if t == 0x9 {
            if size == 4 {
                lemma_parse_group_at_err_kind(
                    d,
                    pend,
                    GroupModel { flags: le_u32_at(d, pstart) as u32, ..acc },
                );
            }
        } else {
            lemma_parse_group_at_err_kind(d, pend, acc);
        }
    }
}

/// A failed entry-record parse reports an offset or conversion
/// failure and nothing else.
pub proof fn lemma_parse_entry_at_err_kind(d: Seq<u8>, pos: int, acc: EntryModel)
    ensures
        spec_parse_entry_at(d, pos, acc) is Err ==> spec_parse_entry_at(d, pos, acc)->Err_0
            == V1KpdbError::OffsetErr || spec_parse_entry_at(d, pos, acc)->Err_0
            == V1KpdbError::ConvertErr,
    decreases d.len() - pos,
{
    if pos < 0 || pos + 6 > d.len() {
    } else {
        let t = le_u16_at(d, pos);
        let size = le_u32_at(d, pos + 2);
        let pstart = pos + 6;
        let pend = pstart + size;
        if pend > d.len() {
        } else if t == 0xFFFF {
        } else if t == 0x1 {
            if size == 16 {
                lemma_parse_entry_at_err_kind(
                    d,
                    pend,
                    EntryModel { uuid: d.subrange(pstart, pend), ..acc },
                );
            }
        } else if t == 0x2 {
            if size == 4 {
                lemma_parse_entry_at_err_kind(
                    d,
                    pend,
                    EntryModel { group_id: le_u32_at(d, pstart) as u32, ..acc },
                );
            }
        } else if t == 0x3 {
            if size == 4 {
                lemma_parse_entry_at_err_kind(
                    d,
                    pend,
                    EntryModel { image: le_u32_at(d, pstart) as u32, ..acc },
                );
            }
        } else if t == 0x4 {
            lemma_parse_entry_at_err_kind(
                d,
                pend,
                EntryModel { title: decoded_string(d, pstart, pend), ..acc },
            );
        } else if t == 0x5 {
            lemma_parse_entry_at_err_kind(
                d,
                pend,
                EntryModel { url: decoded_string(d, pstart, pend), ..acc },
            );
        } else if t == 0x6 {
            lemma_parse_entry_at_err_kind(
                d,
                pend,
                EntryModel { username: decoded_string(d, pstart, pend), ..acc },
            );
        } else if t == 0x7 {
            lemma_parse_entry_at_err_kind(
                d,
                pend,
                EntryModel { password: decoded_string(d, pstart, pend), ..acc },
            );
        } else if t == 0x8 {
            lemma_parse_entry_at_err_kind(
                d,
                pend,
                EntryModel { comment: decoded_string(d, pstart, pend), ..acc },
            );
        } else if t == 0x9 {
            if size == 5 {
                lemma_parse_entry_at_err_kind(
                    d,
                    pend,
                    EntryModel { creation: TimeStamp::spec_of_bytes(d, pstart), ..acc },
                );
            }
        } else if t == 0xA {
            if size == 5 {
                lemma_parse_entry_at_err_kind(
                    d,
                    pend,
                    EntryModel { last_mod: TimeStamp::spec_of_bytes(d, pstart), ..acc },
                );
            }
        } else if t == 0xB {
            if size == 5 {
                lemma_parse_entry_at_err_kind(
                    d,
                    pend,
                    EntryModel { last_access: TimeStamp::spec_of_bytes(d, pstart), ..acc },
                );
            }
        } else if t == 0xC {
            if size == 5 {
                lemma_parse_entry_at_err_kind(
                    d,
                    pend,
                    EntryModel { expire: TimeStamp::spec_of_bytes(d, pstart), ..acc },
                );
            }
        } else if t == 0xD {
            lemma_parse_entry_at_err_kind(
                d,
                pend,
                EntryModel { binary_desc: decoded_string(d, pstart, pend), ..acc },
            );
        } else if t == 0xE {
            lemma_parse_entry_at_err_kind(
                d,
                pend,
                EntryModel { binary: d.subrange(pstart, pend), ..acc },
            );
        } else {
            lemma_parse_entry_at_err_kind(d, pend, acc);
        }
    }
}

/// A failed parse of a run of group records reports an offset or
/// conversion failure and nothing else.
pub proof fn lemma_parse_groups_err_kind(d: Seq<u8>, pos: int, n: int)
    ensures
        spec_parse_groups(d, pos, n) matches Err(e) ==> e == V1KpdbError::OffsetErr || e
            == V1KpdbError::ConvertErr,
    decreases n,
{
    if n <= 0 {
    } else {
        lemma_parse_group_at_err_kind(d, pos, GroupModel::blank());
        match spec_parse_group_at(d, pos, GroupModel::blank()) {
            Err(_) => {},
            Ok((_, p2)) => {
                lemma_parse_groups_err_kind(d, p2, n - 1);
            },
        }
    }
}

/// A failed parse of a run of entry records reports an offset or
/// conversion failure and nothing else.
pub proof fn lemma_parse_entries_err_kind(d: Seq<u8>, pos: int, n: int)
    ensures
        spec_parse_entries(d, pos, n) matches Err(e) ==> e == V1KpdbError::OffsetErr || e
            == V1KpdbError::ConvertErr,
    decreases n,
{
    if n <= 0 {
    } else {
        lemma_parse_entry_at_err_kind(d, pos, EntryModel::blank());
        match spec_parse_entry_at(d, pos, EntryModel::blank()) {
            Err(_) => {},
            Ok((_, p2)) => {
                lemma_parse_entries_err_kind(d, p2, n - 1);
            },
        }
    }
}

/// Parses one group record starting at `pos`, returning the group and
/// the position just past its terminator.
pub fn parse_group(d: &[u8], pos: usize) -> (r: Result<(V1Group, usize), V1KpdbError>)
    requires
        pos <= d@.len(),
    ensures
        r matches Ok(gp) ==> spec_parse_group_at(d@, pos as int, GroupModel::blank())
            == Ok::<(GroupModel, int), V1KpdbError>((gp.0.model(), gp.1 as int)),
        r matches Ok(gp) ==> gp.0.model().encodable() && pos < gp.1 <= d@.len(),
        r matches Err(e) ==> spec_parse_group_at(d@, pos as int, GroupModel::blank())
            == Err::<(GroupModel, int), V1KpdbError>(e),
{
    let n = d.len();
    let mut g = V1Group::new();
    let mut p: usize = pos;
    proof {
        assert(g.model() =~= GroupModel::blank());
    }
    loop
        invariant
            pos <= p <= n,
            n == d@.len(),
            g.model().encodable(),
            spec_parse_group_at(d@, pos as int, GroupModel::blank()) == spec_parse_group_at(
                d@,
                p as int,
                g.model(),
            ),
        decreases n - p,
    {
        let ghost m0 = g.model();
        if n - p < 6 {
            return Err(V1KpdbError::OffsetErr);
        }
        let t = read_u16_at(d, p);
        let size = read_u32_at(d, p + 2);
        let rem = n - (p + 6);
        if size as u64 > rem as u64 {
            return Err(V1KpdbError::OffsetErr);
        }
        let pstart = p + 6;
        let pend = pstart + size as usize;
        if t == 0xFFFF {
            return Ok((g, pend));
        } else if t == 0x1 {
            if size != 4 {
                return Err(V1KpdbError::ConvertErr);
            }
            g.id = read_u32_at(d, pstart);
        } else if t == 0x2 {
            let raw = if size >= 1 {
                copy_range(d, pstart, size as usize - 1)
            } else {
                Vec::new()
            };
            if is_valid_utf8(raw.as_slice()) {
                g.title = raw;
            } else {
                g.title = Vec::new();
            }
            proof {
                assert(g.title@ =~= decoded_string(d@, pstart as int, pend as int));
            }
        } else if t == 0x3 {
            if size != 5 {
                return Err(V1KpdbError::ConvertErr);
            }
            match TimeStamp::unpack(d, pstart) {
                Ok(ts) => { g.creation = ts; },
                Err(e) => {
                    proof { assert(false); }
                    return Err(e);
                },
            }
        } else if t == 0x4 {
            if size != 5 {
                return Err(V1KpdbError::ConvertErr);
            }
            match TimeStamp::unpack(d, pstart) {
                Ok(ts) => { g.last_mod = ts; },
                Err(e) => {
                    proof { assert(false); }
                    return Err(e);
                },
            }
        } else if t == 0x5 {
            if size != 5 {
                return Err(V1KpdbError::ConvertErr);
            }
            match TimeStamp::unpack(d, pstart) {
                Ok(ts) => { g.last_access = ts; },
                Err(e) => {
                    proof { assert(false); }
                    return Err(e);
                },
            }
        } else if t == 0x6 {
            if size != 5 {
                return Err(V1KpdbError::ConvertErr);
            }
            match TimeStamp::unpack(d, pstart) {
                Ok(ts) => { g.expire = ts; },
                Err(e) => {
                    proof { assert(false); }
                    return Err(e);
                },
            }
        } else if t == 0x7 {
            if size != 4 {
                return Err(V1KpdbError::ConvertErr);
            }
            g.image = read_u32_at(d, pstart);
        } else if t == 0x8 {
            if size != 2 {
                return Err(V1KpdbError::ConvertErr);
            }
            g.level = read_u16_at(d, pstart);
        } else if t == 0x9 {
            if size != 4 {
                return Err(V1KpdbError::ConvertErr);
            }
            g.flags = read_u32_at(d, pstart);
        }
        proof {
            assert(spec_parse_group_at(d@, p as int, m0) == spec_parse_group_at(
                d@,
                pend as int,
                g.model(),
            ));
        }
        p = pend;
    }
}

/// Parses one entry record starting at `pos`, returning the entry and
/// the position just past its terminator.  The decoded password is
/// moved straight into an obfuscated buffer.
pub fn parse_entry(d: &[u8], pos: usize) -> (r: Result<(V1Entry, usize), V1KpdbError>)
    requires
        pos <= d@.len(),
    ensures
        r matches Ok(ep) ==> spec_parse_entry_at(d@, pos as int, EntryModel::blank())
            == Ok::<(EntryModel, int), V1KpdbError>((ep.0.model(), ep.1 as int)),
        r matches Ok(ep) ==> ep.0.model().encodable() && ep.0.secret_wf() && pos < ep.1 <= d@.len(),
        r matches Err(err) ==> spec_parse_entry_at(d@, pos as int, EntryModel::blank())
            == Err::<(EntryModel, int), V1KpdbError>(err),
{
    let n = d.len();
    let mut e = V1Entry::new();
    let mut p: usize = pos;
    proof {
        assert(e.model() =~= EntryModel::blank());
    }
    loop
        invariant
            pos <= p <= n,
            n == d@.len(),
            e.model().encodable(),
            e.secret_wf(),
            spec_parse_entry_at(d@, pos as int, EntryModel::blank()) == spec_parse_entry_at(
                d@,
                p as int,
                e.model(),
            ),
        decreases n - p,
    {
        let ghost m0 = e.model();
        if n - p < 6 {
            return Err(V1KpdbError::OffsetErr);
        }
        let t = read_u16_at(d, p);
        let size = read_u32_at(d, p + 2);
        let rem = n - (p + 6);
        if size as u64 > rem as u64 {
            return Err(V1KpdbError::OffsetErr);
        }
        let pstart = p + 6;
        let pend = pstart + size as usize;
        if t == 0xFFFF {
            return Ok((e, pend));
        } else if t == 0x1 {
            if size != 16 {
                return Err(V1KpdbError::ConvertErr);
            }
            e.uuid = copy_range(d, pstart, 16);
        } else if t == 0x2 {
            if size != 4 {
                return Err(V1KpdbError::ConvertErr);
            }
            e.group_id = read_u32_at(d, pstart);
        } else if t == 0x3 {
            if size != 4 {
                return Err(V1KpdbError::ConvertErr);
            }
            e.image = read_u32_at(d, pstart);
        } else if t == 0x4 {
            let raw = if size >= 1 {
                copy_range(d, pstart, size as usize - 1)
            } else {
                Vec::new()
            };
            let decoded = if is_valid_utf8(raw.as_slice()) {
                raw
            } else {
                Vec::new()
            };
            proof {
                assert(decoded@ =~= decoded_string(d@, pstart as int, pend as int));
            }
            e.title = decoded;
        } else if t == 0x5 {
            let raw = if size >= 1 {
                copy_range(d, pstart, size as usize - 1)
            } else {
                Vec::new()
            };
            let decoded = if is_valid_utf8(raw.as_slice()) {
                raw
            } else {
                Vec::new()
            };
            proof {
                assert(decoded@ =~= decoded_string(d@, pstart as int, pend as int));
            }
            e.url = decoded;
        } else if t == 0x6 {
            let raw = if size >= 1 {
                copy_range(d, pstart, size as usize - 1)
            } else {
                Vec::new()
            };
            let decoded = if is_valid_utf8(raw.as_slice()) {
                raw
            } else {
                Vec::new()
            };
            proof {
                assert(decoded@ =~= decoded_string(d@, pstart as int, pend as int));
            }
            e.username = SecureString::new(decoded);
        } else if t == 0x7 {
            let raw = if size >= 1 {
                copy_range(d, pstart, size as usize - 1)
            } else {
                Vec::new()
            };
            let decoded = if is_valid_utf8(raw.as_slice()) {
                raw
            } else {
                Vec::new()
            };
            proof {
                assert(decoded@ =~= decoded_string(d@, pstart as int, pend as int));
            }
            e.password = SecureString::new(decoded);
        } else if t == 0x8 {
            let raw = if size >= 1 {
                copy_range(d, pstart, size as usize - 1)
            } else {
                Vec::new()
            };
            let decoded = if is_valid_utf8(raw.as_slice()) {
                raw
            } else {
                Vec::new()
            };
            proof {
                assert(decoded@ =~= decoded_string(d@, pstart as int, pend as int));
            }
            e.comment = decoded;
        } else if t == 0x9 {
            if size != 5 {
                return Err(V1KpdbError::ConvertErr);
            }
            match TimeStamp::unpack(d, pstart) {
                Ok(ts) => { e.creation = ts; },
                Err(err) => {
                    proof { assert(false); }
                    return Err(err);
                },
            }
        } else if t == 0xA {
            if size != 5 {
                return Err(V1KpdbError::ConvertErr);
            }
            match TimeStamp::unpack(d, pstart) {
                Ok(ts) => { e.last_mod = ts; },
                Err(err) => {
                    proof { assert(false); }
                    return Err(err);
                },
            }
        } else if t == 0xB {
            if size != 5 {
                return Err(V1KpdbError::ConvertErr);
            }
            match TimeStamp::unpack(d, pstart) {
                Ok(ts) => { e.last_access = ts; },
                Err(err) => {
                    proof { assert(false); }
                    return Err(err);
                },
            }
        } else if t == 0xC {
            if size != 5 {
                return Err(V1KpdbError::ConvertErr);
            }
            match TimeStamp::unpack(d, pstart) {
                Ok(ts) => { e.expire = ts; },
                Err(err) => {
                    proof { assert(false); }
                    return Err(err);
                },
            }
        } else if t == 0xD {
            let raw = if size >= 1 {
                copy_range(d, pstart, size as usize - 1)
            } else {
                Vec::new()
            };
            let decoded = if is_valid_utf8(raw.as_slice()) {
                raw
            } else {
                Vec::new()
            };
            proof {
                assert(decoded@ =~= decoded_string(d@, pstart as int, pend as int));
            }
            e.binary_desc = decoded;
        } else if t == 0xE {
            e.binary = copy_range(d, pstart, size as usize);
            proof {
                assert(e.binary@ =~= d@.subrange(pstart as int, pend as int));
            }
        }
        proof {
            assert(spec_parse_entry_at(d@, p as int, m0) == spec_parse_entry_at(
                d@,
                pend as int,
                e.model(),
            ));
        }
        p = pend;
    }
}

/// Parses `num` group records from `d` starting at `pos`: the groups,
/// their levels in order, and the position just past the last record.
pub fn parse_groups(d: &[u8], pos: usize, num: u32) -> (r: Result<
    (Vec<V1Group>, Vec<u16>, usize),
    V1KpdbError,
>)
    requires
        pos <= d@.len(),
    ensures
        r matches Ok(t) ==> spec_parse_groups(d@, pos as int, num as int) == Ok::<
            (Seq<GroupModel>, int),
            V1KpdbError,
        >((group_models(t.0@), t.2 as int)),
        r matches Ok(t) ==> t.0@.len() == num && t.1@.len() == num && pos <= t.2 <= d@.len(),
        r matches Ok(t) ==> forall|i: int|
            0 <= i < t.0@.len() ==> (#[trigger] t.0@[i]).model().encodable() && t.1@[i]
                == t.0@[i].level,
        r matches Err(e) ==> spec_parse_groups(d@, pos as int, num as int) == Err::<
            (Seq<GroupModel>, int),
            V1KpdbError,
        >(e),
{
    let mut groups: Vec<V1Group> = Vec::new();
    let mut levels: Vec<u16> = Vec::new();
    let mut p: usize = pos;
    let mut k: u32 = 0;
    while k < num
        invariant
            k <= num,
            pos <= p <= d@.len(),
            groups@.len() == k,
            levels@.len() == k,
            forall|i: int|
                0 <= i < groups@.len() ==> (#[trigger] groups@[i]).model().encodable() && levels@[i]
                    == groups@[i].level,
            spec_parse_groups(d@, pos as int, num as int) == (match spec_parse_groups(
                d@,
                p as int,
                num - k,
            ) {
                Ok((rest, q)) => Ok::<(Seq<GroupModel>, int), V1KpdbError>(
                    (group_models(groups@) + rest, q),
                ),
                Err(e) => Err(e),
            }),
        decreases num - k,
    {
        match parse_group(d, p) {
            Err(e) => {
                return Err(e);
            },
            Ok(gp) => {
                let (g, p2) = gp;
                let ghost old_models = group_models(groups@);
                levels.push(g.level);
                groups.push(g);
                proof {
                    assert(group_models(groups@) =~= old_models + seq![g.model()]);
                    match spec_parse_groups(d@, p2 as int, num - k - 1) {
                        Ok((rest, q)) => {
                            assert(old_models + (seq![g.model()] + rest) =~= (old_models + seq![
                                g.model(),
                            ]) + rest);
                        },
                        Err(_) => {},
                    }
                }
                p = p2;
                k = k + 1;
            },
        }
    }
    proof {
        assert(group_models(groups@) + Seq::<GroupModel>::empty() =~= group_models(groups@));
    }
    Ok((groups, levels, p))
}

/// Parses `num` entry records from `d` starting at `pos`: the entries
/// and the position just past the last record.
pub fn parse_entries(d: &[u8], pos: usize, num: u32) -> (r: Result<
    (Vec<V1Entry>, usize),
    V1KpdbError,
>)
    requires
        pos <= d@.len(),
    ensures
        r matches Ok(t) ==> spec_parse_entries(d@, pos as int, num as int) == Ok::<
            (Seq<EntryModel>, int),
            V1KpdbError,
        >((entry_models(t.0@), t.1 as int)),
        r matches Ok(t) ==> t.0@.len() == num && pos <= t.1 <= d@.len(),
        r matches Ok(t) ==> forall|i: int|
            0 <= i < t.0@.len() ==> (#[trigger] t.0@[i]).model().encodable()
                && t.0@[i].secret_wf(),
        r matches Err(e) ==> spec_parse_entries(d@, pos as int, num as int) == Err::<
            (Seq<EntryModel>, int),
            V1KpdbError,
        >(e),
{
    let mut entries: Vec<V1Entry> = Vec::new();
    let mut p: usize = pos;
    let mut k: u32 = 0;
    while k < num
        invariant
            k <= num,
            pos <= p <= d@.len(),
            entries@.len() == k,
            forall|i: int|
                0 <= i < entries@.len() ==> (#[trigger] entries@[i]).model().encodable()
                    && entries@[i].secret_wf(),
            spec_parse_entries(d@, pos as int, num as int) == (match spec_parse_entries(
                d@,
                p as int,
                num - k,
            ) {
                Ok((rest, q)) => Ok::<(Seq<EntryModel>, int), V1KpdbError>(
                    (entry_models(entries@) + rest, q),
                ),
                Err(e) => Err(e),
            }),
        decreases num - k,
    {
        match parse_entry(d, p) {
            Err(e) => {
                return Err(e);
            },
            Ok(ep) => {
                let (en, p2) = ep;
                let ghost old_models = entry_models(entries@);
                entries.push(en);
                proof {
                    assert(entry_models(entries@) =~= old_models + seq![en.model()]);
                    match spec_parse_entries(d@, p2 as int, num - k - 1) {
                        Ok((rest, q)) => {
                            assert(old_models + (seq![en.model()] + rest) =~= (old_models + seq![
                                en.model(),
                            ]) + rest);
                        },
                        Err(_) => {},
                    }
                }
                p = p2;
                k = k + 1;
            },
        }
    }
    proof {
        assert(entry_models(entries@) + Seq::<EntryModel>::empty() =~= entry_models(entries@));
    }
    Ok((entries, p))
}


/// What the codec carries back unchanged: an encodable record whose
/// string fields are valid UTF-8 (the decoder replaces invalid UTF-8
/// with the empty string, so only such records round-trip).
pub open spec fn group_round_trippable(g: GroupModel) -> bool {
    g.encodable() && is_utf8(g.title)
}

/// The entry counterpart of `group_round_trippable`.
pub open spec fn entry_round_trippable(e: EntryModel) -> bool {
    &&& e.encodable()
    &&& is_utf8(e.title)
    &&& is_utf8(e.url)
    &&& is_utf8(e.username)
    &&& is_utf8(e.password)
    &&& is_utf8(e.comment)
    &&& is_utf8(e.binary_desc)
}

/// Reading a field whose bytes are `tlv(t, p)` recovers the type, the
/// size and the payload.
proof fn lemma_tlv_step(d: Seq<u8>, pos: int, t: u16, p: Seq<u8>)
    requires
        0 <= pos,
        p.len() < 0x1_0000_0000,
        pos + 6 + p.len() <= d.len(),
        d.subrange(pos, pos + 6 + p.len()) == tlv(t, p),
    ensures
        le_u16_at(d, pos) == t,
        le_u32_at(d, pos + 2) == p.len(),
        d.subrange(pos + 6, pos + 6 + p.len()) == p,
{
    let sub = d.subrange(pos, pos + 6 + p.len());
    let hd = le_u16_bytes(t);
    let sz = le_u32_bytes(p.len() as u32);
    lemma_le_u16_round_trip(t);
    lemma_le_u32_round_trip(p.len() as u32);
    assert(hd.len() == 2 && sz.len() == 4);
    assert forall|k: int| 0 <= k < 6 + p.len() implies d[pos + k] == sub[k] by {}
    assert(sub[0] == hd[0] && sub[1] == hd[1]);
    assert(sub[2] == sz[0] && sub[3] == sz[1] && sub[4] == sz[2] && sub[5] == sz[3]);
    assert(le_u16_at(d, pos) == le_u16_at(hd, 0));
    assert(d[pos + 2] == sz[0]);
    assert(d[pos + 2 + 1] == sz[1]);
    assert(d[pos + 2 + 2] == sz[2]);
    assert(d[pos + 2 + 3] == sz[3]);
    assert(le_u32_at(d, pos + 2) == d[pos + 2] as int + 0x100 * (d[pos + 2 + 1] as int) + 0x1_0000
        * (d[pos + 2 + 2] as int) + 0x100_0000 * (d[pos + 2 + 3] as int));
    assert(le_u32_at(sz, 0) == sz[0] as int + 0x100 * (sz[1] as int) + 0x1_0000 * (sz[2] as int)
        + 0x100_0000 * (sz[3] as int));
    assert(le_u32_at(d, pos + 2) == le_u32_at(sz, 0));
    assert forall|j: int| 0 <= j < p.len() implies d.subrange(pos + 6, pos + 6 + p.len())[j]
        == p[j] by {
        assert(sub[6 + j] == p[j]);
        assert(sub[6 + j] == d[pos + (6 + j)]);
        assert(d.subrange(pos + 6, pos + 6 + p.len())[j] == d[pos + 6 + j]);
    }
    assert(d.subrange(pos + 6, pos + 6 + p.len()) =~= p);
}


/// If the bytes of `d` at `pos` are the concatenation `a + b`, then
/// `a` and `b` lie at their respective offsets.
pub proof fn lemma_split_prefix(d: Seq<u8>, pos: int, a: Seq<u8>, b: Seq<u8>)
    requires
        0 <= pos,
        pos + a.len() + b.len() <= d.len(),
        d.subrange(pos, pos + a.len() + b.len()) == a + b,
    ensures
        d.subrange(pos, pos + a.len()) == a,
        d.subrange(pos + a.len(), pos + a.len() + b.len()) == b,
{
    let whole = d.subrange(pos, pos + a.len() + b.len());
    assert forall|j: int| 0 <= j < a.len() implies d.subrange(pos, pos + a.len())[j] == a[j] by {
        assert(whole[j] == (a + b)[j]);
        assert(whole[j] == d[pos + j]);
        assert(d.subrange(pos, pos + a.len())[j] == d[pos + j]);
    }
    assert(d.subrange(pos, pos + a.len()) =~= a);
    assert forall|j: int| 0 <= j < b.len() implies d.subrange(
        pos + a.len(),
        pos + a.len() + b.len(),
    )[j] == b[j] by {
        assert(whole[a.len() + j] == (a + b)[a.len() + j]);
        assert(whole[a.len() + j] == d[pos + (a.len() + j)]);
        assert(d.subrange(pos + a.len(), pos + a.len() + b.len())[j] == d[pos + a.len() + j]);
    }
    assert(d.subrange(pos + a.len(), pos + a.len() + b.len()) =~= b);
}

/// If the five bytes at `pstart` are the packing of a packable
/// timestamp, decoding there gives the timestamp back.
proof fn lemma_ts_at(d: Seq<u8>, pstart: int, ts: TimeStamp)
    requires
        ts.packable(),
        0 <= pstart,
        pstart + 5 <= d.len(),
        d.subrange(pstart, pstart + 5) == ts.spec_bytes(),
    ensures
        TimeStamp::spec_of_bytes(d, pstart) == ts,
{
    let sub = d.subrange(pstart, pstart + 5);
    lemma_timestamp_pack_round_trip(ts);
    assert(d[pstart] == sub[0] && d[pstart + 1] == sub[1] && d[pstart + 2] == sub[2] && d[pstart
        + 3] == sub[3] && d[pstart + 4] == sub[4]);
    assert(TimeStamp::spec_of_bytes(d, pstart) == TimeStamp::spec_of_bytes(ts.spec_bytes(), 0));
}

/// One parse step: the group id field.
proof fn lemma_group_step_id(d: Seq<u8>, pos: int, acc: GroupModel, v: u32)
    requires
        0 <= pos,
        pos + 10 <= d.len(),
        d.subrange(pos, pos + 10) == tlv(0x1, le_u32_bytes(v)),
    ensures
        spec_parse_group_at(d, pos, acc) == spec_parse_group_at(
            d,
            pos + 10,
            GroupModel { id: v, ..acc },
        ),
{
    lemma_tlv_step(d, pos, 0x1, le_u32_bytes(v));
    lemma_le_u32_round_trip(v);
    assert(le_u32_at(d, pos + 6) == v);
}

/// One parse step: the group image field.
proof fn lemma_group_step_image(d: Seq<u8>, pos: int, acc: GroupModel, v: u32)
    requires
        0 <= pos,
        pos + 10 <= d.len(),
        d.subrange(pos, pos + 10) == tlv(0x7, le_u32_bytes(v)),
    ensures
        spec_parse_group_at(d, pos, acc) == spec_parse_group_at(
            d,
            pos + 10,
            GroupModel { image: v, ..acc },
        ),
{
    lemma_tlv_step(d, pos, 0x7, le_u32_bytes(v));
    lemma_le_u32_round_trip(v);
    assert(le_u32_at(d, pos + 6) == v);
}

/// One parse step: the group flags field.
proof fn lemma_group_step_flags(d: Seq<u8>, pos: int, acc: GroupModel, v: u32)
    requires
        0 <= pos,
        pos + 10 <= d.len(),
        d.subrange(pos, pos + 10) == tlv(0x9, le_u32_bytes(v)),
    ensures
        spec_parse_group_at(d, pos, acc) == spec_parse_group_at(
            d,
            pos + 10,
            GroupModel { flags: v, ..acc },
        ),
{
    lemma_tlv_step(d, pos, 0x9, le_u32_bytes(v));
    lemma_le_u32_round_trip(v);
    assert(le_u32_at(d, pos + 6) == v);
}

/// One parse step: the group level field.
proof fn lemma_group_step_level(d: Seq<u8>, pos: int, acc: GroupModel, v: u16)
    requires
        0 <= pos,
        pos + 8 <= d.len(),
        d.subrange(pos, pos + 8) == tlv(0x8, le_u16_bytes(v)),
    ensures
        spec_parse_group_at(d, pos, acc) == spec_parse_group_at(
            d,
            pos + 8,
            GroupModel { level: v, ..acc },
        ),
{
    lemma_tlv_step(d, pos, 0x8, le_u16_bytes(v));
    lemma_le_u16_round_trip(v);
    assert(le_u16_at(d, pos + 6) == v);
}

/// One parse step: the group title field.
proof fn lemma_group_step_title(d: Seq<u8>, pos: int, acc: GroupModel, v: Seq<u8>)
    requires
        0 <= pos,
        v.len() < 0xFFFF_FFFF,
        is_utf8(v),
        pos + 6 + v.len() + 1 <= d.len(),
        d.subrange(pos, pos + 6 + v.len() + 1) == tlv(0x2, v + seq![0u8]),
    ensures
        spec_parse_group_at(d, pos, acc) == spec_parse_group_at(
            d,
            pos + 6 + v.len() + 1,
            GroupModel { title: v, ..acc },
        ),
{
    assert((v + seq![0u8]).len() == v.len() + 1);
    lemma_tlv_step(d, pos, 0x2, v + seq![0u8]);
    assert(d.subrange(pos + 6, pos + 6 + v.len() + 1 - 1) =~= v);
    assert(decoded_string(d, pos + 6, pos + 6 + v.len() + 1) == v);
}

/// One parse step: the group creation timestamp.
proof fn lemma_group_step_creation(d: Seq<u8>, pos: int, acc: GroupModel, v: TimeStamp)
    requires
        0 <= pos,
        v.packable(),
        pos + 11 <= d.len(),
        d.subrange(pos, pos + 11) == tlv(0x3, v.spec_bytes()),
    ensures
        spec_parse_group_at(d, pos, acc) == spec_parse_group_at(
            d,
            pos + 11,
            GroupModel { creation: v, ..acc },
        ),
{
    lemma_tlv_step(d, pos, 0x3, v.spec_bytes());
    lemma_ts_at(d, pos + 6, v);
}

/// One parse step: the group last_mod timestamp.
proof fn lemma_group_step_last_mod(d: Seq<u8>, pos: int, acc: GroupModel, v: TimeStamp)
    requires
        0 <= pos,
        v.packable(),
        pos + 11 <= d.len(),
        d.subrange(pos, pos + 11) == tlv(0x4, v.spec_bytes()),
    ensures
        spec_parse_group_at(d, pos, acc) == spec_parse_group_at(
            d,
            pos + 11,
            GroupModel { last_mod: v, ..acc },
        ),
{
    lemma_tlv_step(d, pos, 0x4, v.spec_bytes());
    lemma_ts_at(d, pos + 6, v);
}

/// One parse step: the group last_access timestamp.
proof fn lemma_group_step_last_access(d: Seq<u8>, pos: int, acc: GroupModel, v: TimeStamp)
    requires
        0 <= pos,
        v.packable(),
        pos + 11 <= d.len(),
        d.subrange(pos, pos + 11) == tlv(0x5, v.spec_bytes()),
    ensures
        spec_parse_group_at(d, pos, acc) == spec_parse_group_at(
            d,
            pos + 11,
            GroupModel { last_access: v, ..acc },
        ),
{
    lemma_tlv_step(d, pos, 0x5, v.spec_bytes());
    lemma_ts_at(d, pos + 6, v);
}

/// One parse step: the group expire timestamp.
proof fn lemma_group_step_expire(d: Seq<u8>, pos: int, acc: GroupModel, v: TimeStamp)
    requires
        0 <= pos,
        v.packable(),
        pos + 11 <= d.len(),
        d.subrange(pos, pos + 11) == tlv(0x6, v.spec_bytes()),
    ensures
        spec_parse_group_at(d, pos, acc) == spec_parse_group_at(
            d,
            pos + 11,
            GroupModel { expire: v, ..acc },
        ),
{
    lemma_tlv_step(d, pos, 0x6, v.spec_bytes());
    lemma_ts_at(d, pos + 6, v);
}

/// One parse step: the terminator ends the group record.
proof fn lemma_group_step_end(d: Seq<u8>, pos: int, acc: GroupModel)
    requires
        0 <= pos,
        pos + 6 <= d.len(),
        d.subrange(pos, pos + 6) == tlv_end(),
    ensures
        spec_parse_group_at(d, pos, acc) == Ok::<(GroupModel, int), V1KpdbError>((acc, pos + 6)),
{
    assert(tlv_end() =~= tlv(0xFFFFu16, Seq::<u8>::empty()));
    lemma_tlv_step(d, pos, 0xFFFFu16, Seq::<u8>::empty());
}

/// Parsing the encoded record of a round-trippable group from any
/// position where its bytes lie gives the group back.
#[verifier::rlimit(100)]
#[verifier::spinoff_prover]
pub proof fn lemma_parse_group_of_bytes(d: Seq<u8>, pos: int, g: GroupModel)
    requires
        group_round_trippable(g),
        0 <= pos,
        pos + group_bytes(g).len() <= d.len(),
        d.subrange(pos, pos + group_bytes(g).len()) == group_bytes(g),
    ensures
        spec_parse_group_at(d, pos, GroupModel::blank()) == Ok::<(GroupModel, int), V1KpdbError>(
            (g, pos + group_bytes(g).len()),
        ),
{
    reveal(group_bytes);
    let p1 = tlv(0x1, le_u32_bytes(g.id));
    let p2 = tlv(0x2, g.title + seq![0u8]);
    let p3 = tlv(0x3, g.creation.spec_bytes());
    let p4 = tlv(0x4, g.last_mod.spec_bytes());
    let p5 = tlv(0x5, g.last_access.spec_bytes());
    let p6 = tlv(0x6, g.expire.spec_bytes());
    let p7 = tlv(0x7, le_u32_bytes(g.image));
    let p8 = tlv(0x8, le_u16_bytes(g.level));
    let p9 = tlv(0x9, le_u32_bytes(g.flags));
    let p10 = tlv_end();
    let acc1 = p1;
    let acc2 = acc1 + p2;
    let acc3 = acc2 + p3;
    let acc4 = acc3 + p4;
    let acc5 = acc4 + p5;
    let acc6 = acc5 + p6;
    let acc7 = acc6 + p7;
    let acc8 = acc7 + p8;
    let acc9 = acc8 + p9;
    let acc10 = acc9 + p10;
    assert(acc10 == group_bytes(g));
    lemma_split_prefix(d, pos, acc9, p10);
    lemma_split_prefix(d, pos, acc8, p9);
    lemma_split_prefix(d, pos, acc7, p8);
    lemma_split_prefix(d, pos, acc6, p7);
    lemma_split_prefix(d, pos, acc5, p6);
    lemma_split_prefix(d, pos, acc4, p5);
    lemma_split_prefix(d, pos, acc3, p4);
    lemma_split_prefix(d, pos, acc2, p3);
    lemma_split_prefix(d, pos, acc1, p2);
    let m0 = GroupModel::blank();
    lemma_group_step_id(d, pos, m0, g.id);
    let m1 = GroupModel { id: g.id, ..m0 };
    lemma_group_step_title(d, pos + acc1.len(), m1, g.title);
    let m2 = GroupModel { title: g.title, ..m1 };
    lemma_group_step_creation(d, pos + acc2.len(), m2, g.creation);
    let m3 = GroupModel { creation: g.creation, ..m2 };
    lemma_group_step_last_mod(d, pos + acc3.len(), m3, g.last_mod);
    let m4 = GroupModel { last_mod: g.last_mod, ..m3 };
    lemma_group_step_last_access(d, pos + acc4.len(), m4, g.last_access);
    let m5 = GroupModel { last_access: g.last_access, ..m4 };
    lemma_group_step_expire(d, pos + acc5.len(), m5, g.expire);
    let m6 = GroupModel { expire: g.expire, ..m5 };
    lemma_group_step_image(d, pos + acc6.len(), m6, g.image);
    let m7 = GroupModel { image: g.image, ..m6 };
    lemma_group_step_level(d, pos + acc7.len(), m7, g.level);
    let m8 = GroupModel { level: g.level, ..m7 };
    lemma_group_step_flags(d, pos + acc8.len(), m8, g.flags);
    let m9 = GroupModel { flags: g.flags, ..m8 };
    lemma_group_step_end(d, pos + acc9.len(), m9);
    assert(m9 =~= g);
}

/// One parse step: the title field.
proof fn lemma_entry_step_title(d: Seq<u8>, pos: int, acc: EntryModel, v: Seq<u8>)
    requires
        0 <= pos,
        v.len() < 0xFFFF_FFFF,
        is_utf8(v),
        pos + 6 + v.len() + 1 <= d.len(),
        d.subrange(pos, pos + 6 + v.len() + 1) == tlv(0x4, v + seq![0u8]),
    ensures
        spec_parse_entry_at(d, pos, acc) == spec_parse_entry_at(
            d,
            pos + 6 + v.len() + 1,
            EntryModel { title: v, ..acc },
        ),
{
    assert((v + seq![0u8]).len() == v.len() + 1);
    lemma_tlv_step(d, pos, 0x4, v + seq![0u8]);
    assert(d.subrange(pos + 6, pos + 6 + v.len() + 1 - 1) =~= v);
    assert(decoded_string(d, pos + 6, pos + 6 + v.len() + 1) == v);
}

/// One parse step: the url field.
proof fn lemma_entry_step_url(d: Seq<u8>, pos: int, acc: EntryModel, v: Seq<u8>)
    requires
        0 <= pos,
        v.len() < 0xFFFF_FFFF,
        is_utf8(v),
        pos + 6 + v.len() + 1 <= d.len(),
        d.subrange(pos, pos + 6 + v.len() + 1) == tlv(0x5, v + seq![0u8]),
    ensures
        spec_parse_entry_at(d, pos, acc) == spec_parse_entry_at(
            d,
            pos + 6 + v.len() + 1,
            EntryModel { url: v, ..acc },
        ),
{
    assert((v + seq![0u8]).len() == v.len() + 1);
    lemma_tlv_step(d, pos, 0x5, v + seq![0u8]);
    assert(d.subrange(pos + 6, pos + 6 + v.len() + 1 - 1) =~= v);
    assert(decoded_string(d, pos + 6, pos + 6 + v.len() + 1) == v);
}

/// One parse step: the username field.
proof fn lemma_entry_step_username(d: Seq<u8>, pos: int, acc: EntryModel, v: Seq<u8>)
    requires
        0 <= pos,
        v.len() < 0xFFFF_FFFF,
        is_utf8(v),
        pos + 6 + v.len() + 1 <= d.len(),
        d.subrange(pos, pos + 6 + v.len() + 1) == tlv(0x6, v + seq![0u8]),
    ensures
        spec_parse_entry_at(d, pos, acc) == spec_parse_entry_at(
            d,
            pos + 6 + v.len() + 1,
            EntryModel { username: v, ..acc },
        ),
{
    assert((v + seq![0u8]).len() == v.len() + 1);
    lemma_tlv_step(d, pos, 0x6, v + seq![0u8]);
    assert(d.subrange(pos + 6, pos + 6 + v.len() + 1 - 1) =~= v);
    assert(decoded_string(d, pos + 6, pos + 6 + v.len() + 1) == v);
}

/// One parse step: the password field.
proof fn lemma_entry_step_password(d: Seq<u8>, pos: int, acc: EntryModel, v: Seq<u8>)
    requires
        0 <= pos,
        v.len() < 0xFFFF_FFFF,
        is_utf8(v),
        pos + 6 + v.len() + 1 <= d.len(),
        d.subrange(pos, pos + 6 + v.len() + 1) == tlv(0x7, v + seq![0u8]),
    ensures
        spec_parse_entry_at(d, pos, acc) == spec_parse_entry_at(
            d,
            pos + 6 + v.len() + 1,
            EntryModel { password: v, ..acc },
        ),
{
    assert((v + seq![0u8]).len() == v.len() + 1);
    lemma_tlv_step(d, pos, 0x7, v + seq![0u8]);
    assert(d.subrange(pos + 6, pos + 6 + v.len() + 1 - 1) =~= v);
    assert(decoded_string(d, pos + 6, pos + 6 + v.len() + 1) == v);
}

/// One parse step: the comment field.
proof fn lemma_entry_step_comment(d: Seq<u8>, pos: int, acc: EntryModel, v: Seq<u8>)
    requires
        0 <= pos,
        v.len() < 0xFFFF_FFFF,
        is_utf8(v),
        pos + 6 + v.len() + 1 <= d.len(),
        d.subrange(pos, pos + 6 + v.len() + 1) == tlv(0x8, v + seq![0u8]),
    ensures
        spec_parse_entry_at(d, pos, acc) == spec_parse_entry_at(
            d,
            pos + 6 + v.len() + 1,
            EntryModel { comment: v, ..acc },
        ),
{
    assert((v + seq![0u8]).len() == v.len() + 1);
    lemma_tlv_step(d, pos, 0x8, v + seq![0u8]);
    assert(d.subrange(pos + 6, pos + 6 + v.len() + 1 - 1) =~= v);
    assert(decoded_string(d, pos + 6, pos + 6 + v.len() + 1) == v);
}

/// One parse step: the binary_desc field.
proof fn lemma_entry_step_binary_desc(d: Seq<u8>, pos: int, acc: EntryModel, v: Seq<u8>)
    requires
        0 <= pos,
        v.len() < 0xFFFF_FFFF,
        is_utf8(v),
        pos + 6 + v.len() + 1 <= d.len(),
        d.subrange(pos, pos + 6 + v.len() + 1) == tlv(0xD, v + seq![0u8]),
    ensures
        spec_parse_entry_at(d, pos, acc) == spec_parse_entry_at(
            d,
            pos + 6 + v.len() + 1,
            EntryModel { binary_desc: v, ..acc },
        ),
{
    assert((v + seq![0u8]).len() == v.len() + 1);
    lemma_tlv_step(d, pos, 0xD, v + seq![0u8]);
    assert(d.subrange(pos + 6, pos + 6 + v.len() + 1 - 1) =~= v);
    assert(decoded_string(d, pos + 6, pos + 6 + v.len() + 1) == v);
}

/// One parse step: the group_id field.
proof fn lemma_entry_step_group_id(d: Seq<u8>, pos: int, acc: EntryModel, v: u32)
    requires
        0 <= pos,
        pos + 10 <= d.len(),
        d.subrange(pos, pos + 10) == tlv(0x2, le_u32_bytes(v)),
    ensures
        spec_parse_entry_at(d, pos, acc) == spec_parse_entry_at(
            d,
            pos + 10,
            EntryModel { group_id: v, ..acc },
        ),
{
    lemma_tlv_step(d, pos, 0x2, le_u32_bytes(v));
    lemma_le_u32_round_trip(v);
    assert(le_u32_at(d, pos + 6) == v);
}

/// One parse step: the image field.
proof fn lemma_entry_step_image(d: Seq<u8>, pos: int, acc: EntryModel, v: u32)
    requires
        0 <= pos,
        pos + 10 <= d.len(),
        d.subrange(pos, pos + 10) == tlv(0x3, le_u32_bytes(v)),
    ensures
        spec_parse_entry_at(d, pos, acc) == spec_parse_entry_at(
            d,
            pos + 10,
            EntryModel { image: v, ..acc },
        ),
{
    lemma_tlv_step(d, pos, 0x3, le_u32_bytes(v));
    lemma_le_u32_round_trip(v);
    assert(le_u32_at(d, pos + 6) == v);
}

/// One parse step: the creation timestamp.
proof fn lemma_entry_step_creation(d: Seq<u8>, pos: int, acc: EntryModel, v: TimeStamp)
    requires
        0 <= pos,
        v.packable(),
        pos + 11 <= d.len(),
        d.subrange(pos, pos + 11) == tlv(0x9, v.spec_bytes()),
    ensures
        spec_parse_entry_at(d, pos, acc) == spec_parse_entry_at(
            d,
            pos + 11,
            EntryModel { creation: v, ..acc },
        ),
{
    lemma_tlv_step(d, pos, 0x9, v.spec_bytes());
    lemma_ts_at(d, pos + 6, v);
}

/// One parse step: the last_mod timestamp.
proof fn lemma_entry_step_last_mod(d: Seq<u8>, pos: int, acc: EntryModel, v: TimeStamp)
    requires
        0 <= pos,
        v.packable(),
        pos + 11 <= d.len(),
        d.subrange(pos, pos + 11) == tlv(0xA, v.spec_bytes()),
    ensures
        spec_parse_entry_at(d, pos, acc) == spec_parse_entry_at(
            d,
            pos + 11,
            EntryModel { last_mod: v, ..acc },
        ),
{
    lemma_tlv_step(d, pos, 0xA, v.spec_bytes());
    lemma_ts_at(d, pos + 6, v);
}

/// One parse step: the last_access timestamp.
proof fn lemma_entry_step_last_access(d: Seq<u8>, pos: int, acc: EntryModel, v: TimeStamp)
    requires
        0 <= pos,
        v.packable(),
        pos + 11 <= d.len(),
        d.subrange(pos, pos + 11) == tlv(0xB, v.spec_bytes()),
    ensures
        spec_parse_entry_at(d, pos, acc) == spec_parse_entry_at(
            d,
            pos + 11,
            EntryModel { last_access: v, ..acc },
        ),
{
    lemma_tlv_step(d, pos, 0xB, v.spec_bytes());
    lemma_ts_at(d, pos + 6, v);
}

/// One parse step: the expire timestamp.
proof fn lemma_entry_step_expire(d: Seq<u8>, pos: int, acc: EntryModel, v: TimeStamp)
    requires
        0 <= pos,
        v.packable(),
        pos + 11 <= d.len(),
        d.subrange(pos, pos + 11) == tlv(0xC, v.spec_bytes()),
    ensures
        spec_parse_entry_at(d, pos, acc) == spec_parse_entry_at(
            d,
            pos + 11,
            EntryModel { expire: v, ..acc },
        ),
{
    lemma_tlv_step(d, pos, 0xC, v.spec_bytes());
    lemma_ts_at(d, pos + 6, v);
}

/// One parse step: the uuid field.
proof fn lemma_entry_step_uuid(d: Seq<u8>, pos: int, acc: EntryModel, v: Seq<u8>)
    requires
        0 <= pos,
        v.len() == 16,
        pos + 22 <= d.len(),
        d.subrange(pos, pos + 22) == tlv(0x1, v),
    ensures
        spec_parse_entry_at(d, pos, acc) == spec_parse_entry_at(
            d,
            pos + 22,
            EntryModel { uuid: v, ..acc },
        ),
{
    lemma_tlv_step(d, pos, 0x1, v);
}

/// One parse step: the binary field.
proof fn lemma_entry_step_binary(d: Seq<u8>, pos: int, acc: EntryModel, v: Seq<u8>)
    requires
        0 <= pos,
        v.len() < 0x1_0000_0000,
        pos + 6 + v.len() <= d.len(),
        d.subrange(pos, pos + 6 + v.len()) == tlv(0xE, v),
    ensures
        spec_parse_entry_at(d, pos, acc) == spec_parse_entry_at(
            d,
            pos + 6 + v.len(),
            EntryModel { binary: v, ..acc },
        ),
{
    lemma_tlv_step(d, pos, 0xE, v);
}

/// One parse step: the terminator ends the entry record.
proof fn lemma_entry_step_end(d: Seq<u8>, pos: int, acc: EntryModel)
    requires
        0 <= pos,
        pos + 6 <= d.len(),
        d.subrange(pos, pos + 6) == tlv_end(),
    ensures
        spec_parse_entry_at(d, pos, acc) == Ok::<(EntryModel, int), V1KpdbError>(
            (acc, pos + 6),
        ),
{
    assert(tlv_end() =~= tlv(0xFFFFu16, Seq::<u8>::empty()));
    lemma_tlv_step(d, pos, 0xFFFFu16, Seq::<u8>::empty());
}

/// The accumulator state after the first half of an entry record
/// has been parsed.
pub open spec fn entry_front_model(e: EntryModel) -> EntryModel {
    EntryModel {
        uuid: e.uuid,
        group_id: e.group_id,
        image: e.image,
        title: e.title,
        url: e.url,
        username: e.username,
        password: e.password,
        comment: e.comment,
        ..EntryModel::blank()
    }
}

/// The accumulator state after the identifier quarter of an entry
/// record.
pub open spec fn entry_q1_model(e: EntryModel) -> EntryModel {
    EntryModel {
        uuid: e.uuid,
        group_id: e.group_id,
        image: e.image,
        title: e.title,
        ..EntryModel::blank()
    }
}

/// The accumulator state after the timestamp quarter of an entry
/// record.
pub open spec fn entry_q3_model(e: EntryModel) -> EntryModel {
    EntryModel {
        creation: e.creation,
        last_mod: e.last_mod,
        last_access: e.last_access,
        expire: e.expire,
        ..entry_front_model(e)
    }
}

/// The bytes of the identifier quarter of an entry record.
#[verifier::opaque]
pub open spec fn entry_q1_bytes(e: EntryModel) -> Seq<u8> {
    tlv(0x1, e.uuid) + tlv(0x2, le_u32_bytes(e.group_id)) + tlv(0x3, le_u32_bytes(e.image)) + tlv(
        0x4,
        e.title + seq![0u8],
    )
}

/// The bytes of the timestamp quarter of an entry record.
#[verifier::opaque]
pub open spec fn entry_q3_bytes(e: EntryModel) -> Seq<u8> {
    tlv(0x9, e.creation.spec_bytes()) + tlv(0xA, e.last_mod.spec_bytes()) + tlv(
        0xB,
        e.last_access.spec_bytes(),
    ) + tlv(0xC, e.expire.spec_bytes())
}

#[verifier::rlimit(100)]
proof fn lemma_parse_entry_q1(d: Seq<u8>, pos: int, e: EntryModel)
    requires
        entry_round_trippable(e),
        0 <= pos,
        pos + entry_bytes(e).len() <= d.len(),
        d.subrange(pos, pos + entry_bytes(e).len()) == entry_bytes(e),
    ensures
        spec_parse_entry_at(d, pos, EntryModel::blank()) == spec_parse_entry_at(d, pos + entry_q1_bytes(e).len(), entry_q1_model(e)),
{
    reveal(entry_bytes);
    reveal(entry_bytes_front);
    reveal(entry_q1_bytes);
    lemma_split_prefix(d, pos, entry_bytes_front(e), entry_bytes_back(e));
    let pos0 = pos;
    let p1 = tlv(0x1, e.uuid);
    let p2 = tlv(0x2, le_u32_bytes(e.group_id));
    let p3 = tlv(0x3, le_u32_bytes(e.image));
    let p4 = tlv(0x4, e.title + seq![0u8]);
    let p5 = tlv(0x5, e.url + seq![0u8]);
    let p6 = tlv(0x6, e.username + seq![0u8]);
    let p7 = tlv(0x7, e.password + seq![0u8]);
    let p8 = tlv(0x8, e.comment + seq![0u8]);
    let acc1 = p1;
    let acc2 = acc1 + p2;
    let acc3 = acc2 + p3;
    let acc4 = acc3 + p4;
    let acc5 = acc4 + p5;
    let acc6 = acc5 + p6;
    let acc7 = acc6 + p7;
    let acc8 = acc7 + p8;
    assert(acc8 == entry_bytes_front(e));
    lemma_split_prefix(d, pos0, acc7, p8);
    lemma_split_prefix(d, pos0, acc6, p7);
    lemma_split_prefix(d, pos0, acc5, p6);
    lemma_split_prefix(d, pos0, acc4, p5);
    lemma_split_prefix(d, pos0, acc3, p4);
    lemma_split_prefix(d, pos0, acc2, p3);
    lemma_split_prefix(d, pos0, acc1, p2);
    let m0 = EntryModel::blank() ;
    lemma_entry_step_uuid(d, pos0, m0, e.uuid);
    let m1 = EntryModel { uuid: e.uuid, ..m0 };
    lemma_entry_step_group_id(d, pos0 + acc1.len(), m1, e.group_id);
    let m2 = EntryModel { group_id: e.group_id, ..m1 };
    lemma_entry_step_image(d, pos0 + acc2.len(), m2, e.image);
    let m3 = EntryModel { image: e.image, ..m2 };
    lemma_entry_step_title(d, pos0 + acc3.len(), m3, e.title);
    let m4 = EntryModel { title: e.title, ..m3 };
    assert(m4 =~= entry_q1_model(e));
    assert(pos0 + acc4.len() == pos + entry_q1_bytes(e).len());
}

#[verifier::rlimit(100)]
proof fn lemma_parse_entry_q2(d: Seq<u8>, pos: int, e: EntryModel)
    requires
        entry_round_trippable(e),
        0 <= pos,
        pos + entry_bytes(e).len() <= d.len(),
        d.subrange(pos, pos + entry_bytes(e).len()) == entry_bytes(e),
    ensures
        spec_parse_entry_at(d, pos + entry_q1_bytes(e).len(), entry_q1_model(e)) == spec_parse_entry_at(d, pos + entry_bytes_front(e).len(), entry_front_model(e)),
{
    reveal(entry_bytes);
    reveal(entry_bytes_front);
    reveal(entry_q1_bytes);
    lemma_split_prefix(d, pos, entry_bytes_front(e), entry_bytes_back(e));
    let pos0 = pos;
    let p1 = tlv(0x1, e.uuid);
    let p2 = tlv(0x2, le_u32_bytes(e.group_id));
    let p3 = tlv(0x3, le_u32_bytes(e.image));
    let p4 = tlv(0x4, e.title + seq![0u8]);
    let p5 = tlv(0x5, e.url + seq![0u8]);
    let p6 = tlv(0x6, e.username + seq![0u8]);
    let p7 = tlv(0x7, e.password + seq![0u8]);
    let p8 = tlv(0x8, e.comment + seq![0u8]);
    let acc1 = p1;
    let acc2 = acc1 + p2;
    let acc3 = acc2 + p3;
    let acc4 = acc3 + p4;
    let acc5 = acc4 + p5;
    let acc6 = acc5 + p6;
    let acc7 = acc6 + p7;
    let acc8 = acc7 + p8;
    assert(acc8 == entry_bytes_front(e));
    lemma_split_prefix(d, pos0, acc7, p8);
    lemma_split_prefix(d, pos0, acc6, p7);
    lemma_split_prefix(d, pos0, acc5, p6);
    lemma_split_prefix(d, pos0, acc4, p5);
    lemma_split_prefix(d, pos0, acc3, p4);
    lemma_split_prefix(d, pos0, acc2, p3);
    lemma_split_prefix(d, pos0, acc1, p2);
    let m0 = entry_q1_model(e) ;
    assert(pos0 + acc4.len() == pos + entry_q1_bytes(e).len());
    lemma_entry_step_url(d, pos0 + acc4.len(), m0, e.url);
    let m1 = EntryModel { url: e.url, ..m0 };
    lemma_entry_step_username(d, pos0 + acc5.len(), m1, e.username);
    let m2 = EntryModel { username: e.username, ..m1 };
    lemma_entry_step_password(d, pos0 + acc6.len(), m2, e.password);
    let m3 = EntryModel { password: e.password, ..m2 };
    lemma_entry_step_comment(d, pos0 + acc7.len(), m3, e.comment);
    let m4 = EntryModel { comment: e.comment, ..m3 };
    assert(m4 =~= entry_front_model(e));
    assert(pos0 + acc8.len() == pos + entry_bytes_front(e).len());
}

#[verifier::rlimit(100)]
proof fn lemma_parse_entry_q3(d: Seq<u8>, pos: int, e: EntryModel)
    requires
        entry_round_trippable(e),
        0 <= pos,
        pos + entry_bytes(e).len() <= d.len(),
        d.subrange(pos, pos + entry_bytes(e).len()) == entry_bytes(e),
    ensures
        spec_parse_entry_at(d, pos + entry_bytes_front(e).len(), entry_front_model(e)) == spec_parse_entry_at(d, pos + entry_bytes_front(e).len() + entry_q3_bytes(e).len(), entry_q3_model(e)),
{
    reveal(entry_bytes);
    reveal(entry_bytes_back);
    reveal(entry_q3_bytes);
    lemma_split_prefix(d, pos, entry_bytes_front(e), entry_bytes_back(e));
    let pos0 = pos + entry_bytes_front(e).len();
    let p1 = tlv(0x9, e.creation.spec_bytes());
    let p2 = tlv(0xA, e.last_mod.spec_bytes());
    let p3 = tlv(0xB, e.last_access.spec_bytes());
    let p4 = tlv(0xC, e.expire.spec_bytes());
    let p5 = tlv(0xD, e.binary_desc + seq![0u8]);
    let p6 = tlv(0xE, e.binary);
    let p7 = tlv_end();
    assert(tlv_end() =~= tlv(0xFFFFu16, Seq::<u8>::empty()));
    let acc1 = p1;
    let acc2 = acc1 + p2;
    let acc3 = acc2 + p3;
    let acc4 = acc3 + p4;
    let acc5 = acc4 + p5;
    let acc6 = acc5 + p6;
    let acc7 = acc6 + p7;
    assert(acc7 == entry_bytes_back(e));
    lemma_split_prefix(d, pos0, acc6, p7);
    lemma_split_prefix(d, pos0, acc5, p6);
    lemma_split_prefix(d, pos0, acc4, p5);
    lemma_split_prefix(d, pos0, acc3, p4);
    lemma_split_prefix(d, pos0, acc2, p3);
    lemma_split_prefix(d, pos0, acc1, p2);
    let m0 = entry_front_model(e) ;
    lemma_entry_step_creation(d, pos0, m0, e.creation);
    let m1 = EntryModel { creation: e.creation, ..m0 };
    lemma_entry_step_last_mod(d, pos0 + acc1.len(), m1, e.last_mod);
    let m2 = EntryModel { last_mod: e.last_mod, ..m1 };
    lemma_entry_step_last_access(d, pos0 + acc2.len(), m2, e.last_access);
    let m3 = EntryModel { last_access: e.last_access, ..m2 };
    lemma_entry_step_expire(d, pos0 + acc3.len(), m3, e.expire);
    let m4 = EntryModel { expire: e.expire, ..m3 };
    assert(m4 =~= entry_q3_model(e));
    assert(pos0 + acc4.len() == pos + entry_bytes_front(e).len() + entry_q3_bytes(e).len());
}

#[verifier::rlimit(100)]
proof fn lemma_parse_entry_q4(d: Seq<u8>, pos: int, e: EntryModel)
    requires
        entry_round_trippable(e),
        0 <= pos,
        pos + entry_bytes(e).len() <= d.len(),
        d.subrange(pos, pos + entry_bytes(e).len()) == entry_bytes(e),
    ensures
        spec_parse_entry_at(d, pos + entry_bytes_front(e).len() + entry_q3_bytes(e).len(), entry_q3_model(e)) == Ok::<(EntryModel, int), V1KpdbError>((e, pos + entry_bytes(e).len())),
{
    reveal(entry_bytes);
    reveal(entry_bytes_back);
    reveal(entry_q3_bytes);
    lemma_split_prefix(d, pos, entry_bytes_front(e), entry_bytes_back(e));
    let pos0 = pos + entry_bytes_front(e).len();
    let p1 = tlv(0x9, e.creation.spec_bytes());
    let p2 = tlv(0xA, e.last_mod.spec_bytes());
    let p3 = tlv(0xB, e.last_access.spec_bytes());
    let p4 = tlv(0xC, e.expire.spec_bytes());
    let p5 = tlv(0xD, e.binary_desc + seq![0u8]);
    let p6 = tlv(0xE, e.binary);
    let p7 = tlv_end();
    assert(tlv_end() =~= tlv(0xFFFFu16, Seq::<u8>::empty()));
    let acc1 = p1;
    let acc2 = acc1 + p2;
    let acc3 = acc2 + p3;
    let acc4 = acc3 + p4;
    let acc5 = acc4 + p5;
    let acc6 = acc5 + p6;
    let acc7 = acc6 + p7;
    assert(acc7 == entry_bytes_back(e));
    lemma_split_prefix(d, pos0, acc6, p7);
    lemma_split_prefix(d, pos0, acc5, p6);
    lemma_split_prefix(d, pos0, acc4, p5);
    lemma_split_prefix(d, pos0, acc3, p4);
    lemma_split_prefix(d, pos0, acc2, p3);
    lemma_split_prefix(d, pos0, acc1, p2);
    let m0 = entry_q3_model(e) ;
    assert(pos0 + acc4.len() == pos + entry_bytes_front(e).len() + entry_q3_bytes(e).len());
    lemma_entry_step_binary_desc(d, pos0 + acc4.len(), m0, e.binary_desc);
    let m1 = EntryModel { binary_desc: e.binary_desc, ..m0 };
    lemma_entry_step_binary(d, pos0 + acc5.len(), m1, e.binary);
    let m2 = EntryModel { binary: e.binary, ..m1 };
    lemma_entry_step_end(d, pos0 + acc6.len(), m2);
    assert(m2 =~= e);
    assert(pos0 + acc7.len() == pos + entry_bytes(e).len());
}

/// Parsing the first half of an encoded entry record fills in the
/// identifier and string fields.
proof fn lemma_parse_entry_front(d: Seq<u8>, pos: int, e: EntryModel)
    requires
        entry_round_trippable(e),
        0 <= pos,
        pos + entry_bytes(e).len() <= d.len(),
        d.subrange(pos, pos + entry_bytes(e).len()) == entry_bytes(e),
    ensures
        spec_parse_entry_at(d, pos, EntryModel::blank()) == spec_parse_entry_at(
            d,
            pos + entry_bytes_front(e).len(),
            entry_front_model(e),
        ),
{
    lemma_parse_entry_q1(d, pos, e);
    lemma_parse_entry_q2(d, pos, e);
}

/// Parsing the second half of an encoded entry record fills in the
/// timestamps and the binary blob and reaches the terminator.
proof fn lemma_parse_entry_back(d: Seq<u8>, pos: int, e: EntryModel)
    requires
        entry_round_trippable(e),
        0 <= pos,
        pos + entry_bytes(e).len() <= d.len(),
        d.subrange(pos, pos + entry_bytes(e).len()) == entry_bytes(e),
    ensures
        spec_parse_entry_at(d, pos + entry_bytes_front(e).len(), entry_front_model(e))
            == Ok::<(EntryModel, int), V1KpdbError>((e, pos + entry_bytes(e).len())),
{
    lemma_parse_entry_q3(d, pos, e);
    lemma_parse_entry_q4(d, pos, e);
}

/// Parsing the encoded record of a round-trippable entry from any
/// position where its bytes lie gives the entry back.
pub proof fn lemma_parse_entry_of_bytes(d: Seq<u8>, pos: int, e: EntryModel)
    requires
        entry_round_trippable(e),
        0 <= pos,
        pos + entry_bytes(e).len() <= d.len(),
        d.subrange(pos, pos + entry_bytes(e).len()) == entry_bytes(e),
    ensures
        spec_parse_entry_at(d, pos, EntryModel::blank()) == Ok::<
            (EntryModel, int),
            V1KpdbError,
        >((e, pos + entry_bytes(e).len())),
{
    lemma_parse_entry_front(d, pos, e);
    lemma_parse_entry_back(d, pos, e);
}


/// One unfolding of the group-records recursion.
proof fn lemma_parse_groups_cons(d: Seq<u8>, pos: int, n: int, g0: GroupModel, p2: int)
    requires
        n >= 1,
        spec_parse_group_at(d, pos, GroupModel::blank()) == Ok::<(GroupModel, int), V1KpdbError>(
            (g0, p2),
        ),
    ensures
        spec_parse_groups(d, pos, n) == (match spec_parse_groups(d, p2, n - 1) {
            Ok((rest, p3)) => Ok::<(Seq<GroupModel>, int), V1KpdbError>((seq![g0] + rest, p3)),
            Err(e) => Err(e),
        }),
{
}

/// One unfolding of the entry-records recursion.
proof fn lemma_parse_entries_cons(d: Seq<u8>, pos: int, n: int, e0: EntryModel, p2: int)
    requires
        n >= 1,
        spec_parse_entry_at(d, pos, EntryModel::blank()) == Ok::<(EntryModel, int), V1KpdbError>(
            (e0, p2),
        ),
    ensures
        spec_parse_entries(d, pos, n) == (match spec_parse_entries(d, p2, n - 1) {
            Ok((rest, p3)) => Ok::<(Seq<EntryModel>, int), V1KpdbError>((seq![e0] + rest, p3)),
            Err(e) => Err(e),
        }),
{
}

/// Parsing a run of encoded group records gives the groups back.
#[verifier::rlimit(100)]
#[verifier::spinoff_prover]
pub proof fn lemma_parse_groups_of_bytes(d: Seq<u8>, pos: int, gs: Seq<GroupModel>)
    requires
        forall|i: int| 0 <= i < gs.len() ==> group_round_trippable(#[trigger] gs[i]),
        0 <= pos,
        pos + groups_bytes(gs).len() <= d.len(),
        d.subrange(pos, pos + groups_bytes(gs).len()) == groups_bytes(gs),
    ensures
        spec_parse_groups(d, pos, gs.len() as int) == Ok::<(Seq<GroupModel>, int), V1KpdbError>(
            (gs, pos + groups_bytes(gs).len()),
        ),
    decreases gs.len(),
{
    if gs.len() == 0 {
        assert(Seq::<GroupModel>::empty() =~= gs);
    } else {
        let tail = gs.drop_first();
        lemma_split_prefix(d, pos, group_bytes(gs[0]), groups_bytes(tail));
        lemma_parse_group_of_bytes(d, pos, gs[0]);
        assert forall|i: int| 0 <= i < tail.len() implies group_round_trippable(
            #[trigger] tail[i],
        ) by {
            assert(tail[i] == gs[i + 1]);
        }
        lemma_parse_groups_of_bytes(d, pos + group_bytes(gs[0]).len(), tail);
        lemma_parse_groups_cons(
            d,
            pos,
            gs.len() as int,
            gs[0],
            pos + group_bytes(gs[0]).len(),
        );
        assert(seq![gs[0]] + tail =~= gs);
    }
}

/// Parsing a run of encoded entry records gives the entries back.
#[verifier::rlimit(100)]
#[verifier::spinoff_prover]
pub proof fn lemma_parse_entries_of_bytes(d: Seq<u8>, pos: int, es: Seq<EntryModel>)
    requires
        forall|i: int| 0 <= i < es.len() ==> entry_round_trippable(#[trigger] es[i]),
        0 <= pos,
        pos + entries_bytes(es).len() <= d.len(),
        d.subrange(pos, pos + entries_bytes(es).len()) == entries_bytes(es),
    ensures
        spec_parse_entries(d, pos, es.len() as int) == Ok::<(Seq<EntryModel>, int), V1KpdbError>(
            (es, pos + entries_bytes(es).len()),
        ),
    decreases es.len(),
{
    if es.len() == 0 {
        assert(Seq::<EntryModel>::empty() =~= es);
    } else {
        let tail = es.drop_first();
        lemma_split_prefix(d, pos, entry_bytes(es[0]), entries_bytes(tail));
        lemma_parse_entry_of_bytes(d, pos, es[0]);
        assert forall|i: int| 0 <= i < tail.len() implies entry_round_trippable(
            #[trigger] tail[i],
        ) by {
            assert(tail[i] == es[i + 1]);
        }
        lemma_parse_entries_of_bytes(d, pos + entry_bytes(es[0]).len(), tail);
        lemma_parse_entries_cons(
            d,
            pos,
            es.len() as int,
            es[0],
            pos + entry_bytes(es[0]).len(),
        );
        assert(seq![es[0]] + tail =~= es);
    }
}

/// Round trip of the body codec: parsing the serialized body of any
/// run of round-trippable groups and entries gives exactly those
/// groups and entries back, the groups ending where the entries
/// begin and the entries ending at the end of the body.
#[verifier::rlimit(100)]
#[verifier::spinoff_prover]
pub proof fn lemma_body_round_trip(gs: Seq<GroupModel>, es: Seq<EntryModel>)
    requires
        forall|i: int| 0 <= i < gs.len() ==> group_round_trippable(#[trigger] gs[i]),
        forall|i: int| 0 <= i < es.len() ==> entry_round_trippable(#[trigger] es[i]),
    ensures
        spec_parse_groups(body_bytes(gs, es), 0, gs.len() as int) == Ok::<
            (Seq<GroupModel>, int),
            V1KpdbError,
        >((gs, groups_bytes(gs).len() as int)),
        spec_parse_entries(body_bytes(gs, es), groups_bytes(gs).len() as int, es.len() as int)
            == Ok::<(Seq<EntryModel>, int), V1KpdbError>(
            (es, body_bytes(gs, es).len() as int),
        ),
{
    let body = body_bytes(gs, es);
    assert(body.subrange(0, body.len() as int) =~= body);
    lemma_split_prefix(body, 0, groups_bytes(gs), entries_bytes(es));
    lemma_parse_groups_of_bytes(body, 0, gs);
    lemma_parse_entries_of_bytes(body, groups_bytes(gs).len() as int, es);
}

} // verus!
