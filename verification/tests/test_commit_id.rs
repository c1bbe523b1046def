use branchless::commit_id::CommitId;

#[test]
fn short_id_is_the_first_eight_digits() {
    assert_eq!(CommitId(0xf777ecc9, 1, 2, 3, 4).short_id(), "f777ecc9");
    assert_eq!(CommitId(0x0000000a, 0, 0, 0, 0).short_id(), "0000000a");
    assert_eq!(CommitId(0, 0, 0, 0, 0).short_id(), "00000000");
    assert_eq!(CommitId(0xffffffff, 0, 0, 0, 0).short_id(), "ffffffff");
}

#[test]
fn hex_has_forty_digits() {
    assert_eq!(
        CommitId(0xf777ecc9, 0xb0db5ed3, 0x72d2615f, 0x96d1c37a, 0x00000001).to_hex(),
        "f777ecc9b0db5ed372d2615f96d1c37a00000001"
    );
}

#[test]
fn from_hex_reads_both_cases() {
    assert_eq!(
        CommitId::from_hex("f777ecc9b0db5ed372d2615f96d1c37a00000001"),
        Some(CommitId(
            0xf777ecc9, 0xb0db5ed3, 0x72d2615f, 0x96d1c37a, 0x00000001
        ))
    );
    assert_eq!(
        CommitId::from_hex("F777ECC9B0DB5ED372D2615F96D1C37A00000001"),
        Some(CommitId(
            0xf777ecc9, 0xb0db5ed3, 0x72d2615f, 0x96d1c37a, 0x00000001
        ))
    );
}

#[test]
fn from_hex_refuses_other_text() {
    assert_eq!(CommitId::from_hex(""), None);
    assert_eq!(CommitId::from_hex("f777ecc9"), None);
    assert_eq!(
        CommitId::from_hex("f777ecc9b0db5ed372d2615f96d1c37a0000000"),
        None
    );
    assert_eq!(
        CommitId::from_hex("f777ecc9b0db5ed372d2615f96d1c37a000000011"),
        None
    );
    assert_eq!(
        CommitId::from_hex("g777ecc9b0db5ed372d2615f96d1c37a00000001"),
        None
    );
    assert_eq!(
        CommitId::from_hex("f777ecc9b0db5ed372d2615f96d1c37a0000000 "),
        None
    );
}

#[test]
fn hex_round_trip() {
    let id = CommitId(0x01234567, 0x89abcdef, 0xfedcba98, 0x76543210, 0xdeadbeef);
    assert_eq!(CommitId::from_hex(&id.to_hex()), Some(id));
}

#[test]
fn order_is_that_of_the_numbers() {
    let a = CommitId(1, 0, 0, 0, 9);
    let b = CommitId(1, 0, 0, 1, 0);
    let c = CommitId(2, 0, 0, 0, 0);
    assert!(a.precedes(&b));
    assert!(b.precedes(&c));
    assert!(a.precedes(&c));
    assert!(!b.precedes(&a));
    assert!(!a.precedes(&a));
}
