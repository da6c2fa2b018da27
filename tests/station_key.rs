use onebrc::station_key::to_key;

#[test]
fn key_is_deterministic() {
    let name = b"Rio de Janeiro";
    assert_eq!(to_key(name), to_key(name));
    assert_eq!(to_key(b"Oslo"), to_key(b"Oslo"));
}

#[test]
fn short_name_packs_bytes_little_endian_xor_length() {
    assert_eq!(to_key(b""), 0);
    assert_eq!(to_key(b"A"), 0x41 ^ 1);
    assert_eq!(to_key(b"Paris"), 0x73_69_72_61_50 ^ 5);
    assert_eq!(to_key(b"abcdefgh"), 0x68_67_66_65_64_63_62_61 ^ 8);
}

#[test]
fn long_name_uses_first_eight_bytes() {
    assert_eq!(to_key(b"abcdefghij"), 0x68_67_66_65_64_63_62_61 ^ 10);
}

#[test]
fn equal_length_names_sharing_eight_bytes_collide() {
    assert_eq!(to_key(b"Saint-Petersburg"), to_key(b"Saint-PeXXXXXXXX"));
    assert_eq!(to_key(b"abcdefghX"), to_key(b"abcdefghY"));
}

#[test]
fn different_lengths_do_not_collide_on_prefix() {
    assert_ne!(to_key(b"abcdefghX"), to_key(b"abcdefghXY"));
    assert_ne!(to_key(b"Bern"), to_key(b"Berne"));
}
