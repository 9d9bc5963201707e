use parcel_build::bytes::hex16;
use parcel_build::intern::Interner;

#[test]
fn equal_values_share_a_handle() {
    let mut i = Interner::new();
    let a = i.intern(b"src/a.js");
    let b = i.intern(b"src/b.js");
    let a2 = i.intern(b"src/a.js");
    assert_eq!(a, 2);
    assert_eq!(b, 3);
    assert_eq!(a, a2);
    assert_ne!(a, b);
    assert_eq!(i.len(), 2);
    assert_eq!(i.get(a), Some(&b"src/a.js"[..]));
    assert_eq!(i.get(1), None);
    assert_eq!(i.get(4), None);
}

#[test]
fn empty_value_interns() {
    let mut i = Interner::new();
    let e = i.intern(b"");
    assert_eq!(i.intern(b""), e);
    assert_ne!(e, 1);
}

#[test]
fn reset_empties_the_table() {
    let mut i = Interner::new();
    i.intern(b"x");
    i.intern(b"y");
    i.reset();
    assert_eq!(i.len(), 0);
    assert_eq!(i.intern(b"y"), 2);
}

#[test]
fn hex_is_sixteen_lower_case_digits() {
    assert_eq!(hex16(0xff), b"00000000000000ff".to_vec());
    assert_eq!(hex16(0x0123_4567_89ab_cdef), b"0123456789abcdef".to_vec());
    assert_eq!(hex16(u64::MAX), b"ffffffffffffffff".to_vec());
}
