use v1kpdb::body::{parse_entry, parse_group, write_entry, write_group};
use v1kpdb::crypter::{unpad, Crypter};
use v1kpdb::endian::{push_u16_le, push_u32_le, slice_to_u16, slice_to_u32};
use v1kpdb::entry::V1Entry;
use v1kpdb::error::V1KpdbError;
use v1kpdb::group::V1Group;
use v1kpdb::header::V1Header;
use v1kpdb::secstr::SecureString;
use v1kpdb::tstamp::TimeStamp;
use v1kpdb::utf8::is_valid_utf8;

#[test]
fn little_endian_decode() {
    assert_eq!(slice_to_u32(&[0x78, 0x56, 0x34, 0x12]).unwrap(), 0x12345678);
    assert_eq!(slice_to_u16(&[0xCD, 0xAB]).unwrap(), 0xABCD);
    assert_eq!(slice_to_u32(&[1, 2, 3]), Err(V1KpdbError::ConvertErr));
    let mut out = Vec::new();
    push_u32_le(&mut out, 0x12345678);
    assert_eq!(out, vec![0x78, 0x56, 0x34, 0x12]);
    let mut out2 = Vec::new();
    push_u16_le(&mut out2, 0xABCD);
    assert_eq!(out2, vec![0xCD, 0xAB]);
}

#[test]
fn timestamp_round_trip() {
    let t = TimeStamp { year: 2014, month: 2, day: 26, hour: 23, minute: 59, second: 59 };
    let mut packed = Vec::new();
    t.pack_into(&mut packed);
    assert_eq!(packed.len(), 5);
    let back = TimeStamp::unpack(&packed, 0).unwrap();
    assert_eq!(back, t);

    let z = TimeStamp::zero();
    let mut pz = Vec::new();
    z.pack_into(&mut pz);
    assert_eq!(pz, vec![0, 0, 0, 0, 0]);
    assert_eq!(TimeStamp::unpack(&pz, 0).unwrap(), z);

    let never = TimeStamp::never();
    assert_eq!(never.year, 2999);
    assert_eq!(never.month, 12);
    assert_eq!(never.day, 28);
    let mut pn = Vec::new();
    never.pack_into(&mut pn);
    assert_eq!(TimeStamp::unpack(&pn, 0).unwrap(), never);

    assert_eq!(TimeStamp::unpack(&[1, 2, 3], 0), Err(V1KpdbError::ConvertErr));
}

#[test]
fn secure_string_locks_and_wipes() {
    let mut s = SecureString::new(b"test".to_vec());
    assert_eq!(s.byte_len(), 4);
    s.unlock();
    assert_eq!(s.unlocked_bytes().as_slice(), b"test");
    s.delete();
    assert_eq!(s.plaintext_copy(), b"test".to_vec());
    s.zeroize();
    assert_eq!(s.plaintext_copy(), vec![0u8; 4]);
}

#[test]
fn utf8_checker() {
    assert!(is_valid_utf8(b""));
    assert!(is_valid_utf8(b"plain ascii"));
    assert!(is_valid_utf8("grüße 日本語".as_bytes()));
    assert!(!is_valid_utf8(&[0xFF]));
    assert!(!is_valid_utf8(&[0xC0, 0x80]));
    assert!(!is_valid_utf8(&[0xE0, 0x80, 0x80]));
    assert!(!is_valid_utf8(&[0xED, 0xA0, 0x80]));
    assert!(!is_valid_utf8(&[0xC2]));
}

fn sample_header() -> V1Header {
    let mut h = V1Header::new();
    h.final_randomseed = vec![0xB0; 16];
    h.iv = vec![0x15; 16];
    h.num_groups = 2;
    h.num_entries = 1;
    h.content_hash = vec![0xCB; 32];
    h.transf_randomseed = vec![0x69; 32];
    h.key_transf_rounds = 150000;
    h
}

#[test]
fn header_round_trip_and_checks() {
    let h = sample_header();
    let raw = h.serialize();
    assert_eq!(raw.len(), 124);
    let back = V1Header::parse(&raw).unwrap();
    assert_eq!(back.signature1, 0x9AA2_D903);
    assert_eq!(back.signature2, 0xB54B_FB65);
    assert_eq!(back.enc_flag & 2, 2);
    assert_eq!(back.version, 0x0003_0002);
    assert_eq!(back.num_groups, 2);
    assert_eq!(back.num_entries, 1);
    assert_eq!(back.key_transf_rounds, 150000);
    assert_eq!(back.final_randomseed[0], 0xB0);
    assert_eq!(back.iv[0], 0x15);
    assert_eq!(back.content_hash[0], 0xCB);
    assert_eq!(back.transf_randomseed[15], 0x69);
    assert!(back.check_signatures().is_ok());
    assert!(back.check_enc_flag().is_ok());
    assert!(back.check_version().is_ok());

    assert!(matches!(V1Header::parse(&raw[..100]), Err(V1KpdbError::ReadErr)));

    let mut bad = back;
    bad.signature1 = 1;
    assert_eq!(bad.check_signatures(), Err(V1KpdbError::SignatureErr));
    bad.signature1 = 0x9AA2_D903;
    bad.enc_flag = 4;
    assert_eq!(bad.check_enc_flag(), Err(V1KpdbError::EncFlagErr));
    bad.enc_flag = 2;
    bad.version = 0x0004_0002;
    assert_eq!(bad.check_version(), Err(V1KpdbError::VersionErr));
    bad.version = 0x0003_0004;
    assert!(bad.check_version().is_ok());
}

#[test]
fn group_record_round_trip() {
    let g = V1Group {
        id: 7,
        title: b"Internet".to_vec(),
        creation: TimeStamp { year: 2014, month: 2, day: 26, hour: 1, minute: 2, second: 3 },
        last_mod: TimeStamp::zero(),
        last_access: TimeStamp::zero(),
        expire: TimeStamp::never(),
        image: 1,
        level: 0,
        flags: 0,
    };
    let mut raw = Vec::new();
    write_group(&mut raw, &g);
    let (back, pos) = parse_group(&raw, 0).unwrap();
    assert_eq!(pos, raw.len());
    assert_eq!(back.id, 7);
    assert_eq!(back.title, b"Internet".to_vec());
    assert_eq!(back.creation.year, 2014);
    assert_eq!(back.creation.month, 2);
    assert_eq!(back.creation.day, 26);
    assert_eq!(back.image, 1);
    assert_eq!(back.level, 0);
    assert_eq!(back.expire, TimeStamp::never());
}

#[test]
fn entry_record_round_trip() {
    let e = V1Entry {
        uuid: (0..16).collect(),
        group_id: 7,
        image: 1,
        title: b"foo".to_vec(),
        url: b"http://example.test".to_vec(),
        username: SecureString::new(b"user".to_vec()),
        password: SecureString::new(b"DLE\"H<JZ|E".to_vec()),
        comment: b"a comment".to_vec(),
        binary_desc: Vec::new(),
        creation: TimeStamp { year: 2014, month: 2, day: 26, hour: 0, minute: 0, second: 0 },
        last_mod: TimeStamp::zero(),
        last_access: TimeStamp::zero(),
        expire: TimeStamp::never(),
        binary: vec![1, 2, 3],
    };
    let mut raw = Vec::new();
    write_entry(&mut raw, &e);
    let (mut back, pos) = parse_entry(&raw, 0).unwrap();
    assert_eq!(pos, raw.len());
    assert_eq!(back.uuid, (0..16).collect::<Vec<u8>>());
    assert_eq!(back.group_id, 7);
    assert_eq!(back.title, b"foo".to_vec());
    assert_eq!(back.url, b"http://example.test".to_vec());
    assert_eq!(back.username.plaintext_copy(), b"user".to_vec());
    assert_eq!(back.comment, b"a comment".to_vec());
    assert_eq!(back.binary, vec![1, 2, 3]);
    assert_eq!(back.creation.year, 2014);
    back.password.unlock();
    assert_eq!(back.password.unlocked_bytes().as_slice(), b"DLE\"H<JZ|E");
    back.password.lock();
}

#[test]
fn parser_tolerates_unknown_fields_and_rejects_bad_sizes() {
    // An unknown field type is skipped by its size.
    let mut raw = Vec::new();
    push_u16_le(&mut raw, 0x00F0);
    push_u32_le(&mut raw, 3);
    raw.extend_from_slice(&[9, 9, 9]);
    push_u16_le(&mut raw, 0x0001);
    push_u32_le(&mut raw, 4);
    push_u32_le(&mut raw, 42);
    push_u16_le(&mut raw, 0xFFFF);
    push_u32_le(&mut raw, 0);
    let (g, _) = parse_group(&raw, 0).unwrap();
    assert_eq!(g.id, 42);

    // A title that is not UTF-8 decodes as the empty string.
    let mut raw2 = Vec::new();
    push_u16_le(&mut raw2, 0x0002);
    push_u32_le(&mut raw2, 2);
    raw2.extend_from_slice(&[0xFF, 0x00]);
    push_u16_le(&mut raw2, 0xFFFF);
    push_u32_le(&mut raw2, 0);
    let (g2, _) = parse_group(&raw2, 0).unwrap();
    assert_eq!(g2.title, Vec::<u8>::new());

    // A u32 field with the wrong size is a conversion failure.
    let mut raw3 = Vec::new();
    push_u16_le(&mut raw3, 0x0001);
    push_u32_le(&mut raw3, 3);
    raw3.extend_from_slice(&[1, 2, 3]);
    assert_eq!(parse_group(&raw3, 0).unwrap_err(), V1KpdbError::ConvertErr);

    // A payload running past the end is an offset failure.
    let mut raw4 = Vec::new();
    push_u16_le(&mut raw4, 0x0001);
    push_u32_le(&mut raw4, 40);
    raw4.extend_from_slice(&[1, 2, 3]);
    assert_eq!(parse_group(&raw4, 0).unwrap_err(), V1KpdbError::OffsetErr);

    // A truncated field header is an offset failure too.
    assert_eq!(parse_group(&[0x01, 0x00], 0).unwrap_err(), V1KpdbError::OffsetErr);
}

#[test]
fn pkcs7_unpad() {
    let mut v = b"0123456789ABCDE".to_vec();
    v.push(1);
    assert_eq!(unpad(v).unwrap(), b"0123456789ABCDE".to_vec());
    assert_eq!(unpad(vec![16u8; 16]).unwrap(), Vec::<u8>::new());
    assert_eq!(unpad(vec![0u8; 16]).unwrap_err(), V1KpdbError::DecryptErr);
    let mut bad = vec![7u8; 16];
    bad[14] = 9;
    assert_eq!(unpad(bad).unwrap_err(), V1KpdbError::DecryptErr);
    assert_eq!(unpad(vec![1u8; 15]).unwrap_err(), V1KpdbError::DecryptErr);
}

#[test]
fn content_hash_is_sha256() {
    // The SHA-256 digest of the empty input, as its specification
    // publishes it.
    let h = Crypter::get_content_hash(&Vec::new());
    let expected: [u8; 32] = [
        0xe3, 0xb0, 0xc4, 0x42, 0x98, 0xfc, 0x1c, 0x14, 0x9a, 0xfb, 0xf4, 0xc8, 0x99, 0x6f, 0xb9,
        0x24, 0x27, 0xae, 0x41, 0xe4, 0x64, 0x9b, 0x93, 0x4c, 0xa4, 0x95, 0x99, 0x1b, 0x78, 0x52,
        0xb8, 0x55,
    ];
    assert_eq!(h, expected.to_vec());
}
