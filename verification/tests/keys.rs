use mut_set::key::LookupKey;

#[test]
fn unsigned_keys_are_the_values() {
    assert_eq!(0u8.key(), 0);
    assert_eq!(255u8.key(), 255);
    assert_eq!(65535u16.key(), 65535);
    assert_eq!(7u32.key(), 7);
    assert_eq!(u32::MAX.key(), 4294967295);
    assert_eq!(u64::MAX.key(), u64::MAX);
    assert_eq!(12usize.key(), 12);
}

#[test]
fn signed_keys_are_biased() {
    assert_eq!(0i32.key(), 9223372036854775808);
    assert_eq!(1i32.key(), 9223372036854775809);
    assert_eq!((-1i32).key(), 9223372036854775807);
    assert_eq!(i64::MIN.key(), 0);
    assert_eq!(i64::MAX.key(), u64::MAX);
    assert_eq!(i8::MIN.key(), 9223372036854775808 - 128);
    assert_eq!(i16::MAX.key(), 9223372036854775808 + 32767);
    assert_eq!((-5isize).key(), 9223372036854775803);
}

#[test]
fn signed_keys_tell_values_apart() {
    let mut seen = Vec::new();
    for x in i8::MIN..=i8::MAX {
        let k = x.key();
        assert!(!seen.contains(&k));
        seen.push(k);
    }
    assert_eq!(seen.len(), 256);
}
