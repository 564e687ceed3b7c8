use thesia::tuple_hasher::TupleIntHasher;

#[test]
fn tuple_int_hasher_works() {
    let mut h1 = TupleIntHasher::<(u8, usize)>::default();
    h1.write_u8(1);
    h1.write_usize(42);
    assert_eq!(2u64.pow(16) + 42, h1.finish());

    let mut h2 = TupleIntHasher::<(u16, usize)>::default();
    h2.write_u16(2);
    h2.write_usize(42);
    assert_eq!(2u64.pow(17) + 42, h2.finish());

    let mut h3 = TupleIntHasher::<(u32, usize)>::default();
    h3.write_u32(4);
    h3.write_usize(42);
    assert_eq!(2u64.pow(18) + 42, h3.finish());

    let mut h4 = TupleIntHasher::<(u64, usize)>::default();
    h4.write_u64(8);
    h4.write_usize(42);
    assert_eq!(2u64.pow(19) + 42, h4.finish());

    let mut h5 = TupleIntHasher::<(usize, usize)>::default();
    h5.write_usize(16);
    h5.write_usize(42);
    assert_eq!(2u64.pow(20) + 42, h5.finish());

    let mut h6 = TupleIntHasher::<(i8, isize)>::default();
    h6.write_i8(32);
    h6.write_isize(42);
    assert_eq!(2u64.pow(21) + 42, h6.finish());

    let mut h7 = TupleIntHasher::<(i16, isize)>::default();
    h7.write_i16(64);
    h7.write_isize(42);
    assert_eq!(2u64.pow(22) + 42, h7.finish());

    let mut h8 = TupleIntHasher::<(i32, isize)>::default();
    h8.write_i32(128);
    h8.write_isize(42);
    assert_eq!(2u64.pow(23) + 42, h8.finish());

    let mut h9 = TupleIntHasher::<(i64, isize)>::default();
    h9.write_i64(256);
    h9.write_isize(42);
    assert_eq!(2u64.pow(24) + 42, h9.finish());

    let mut h10 = TupleIntHasher::<(isize, isize)>::default();
    h10.write_isize(512);
    h10.write_isize(42);
    assert_eq!(2u64.pow(25) + 42, h10.finish());
}

#[test]
fn tuple_int_hasher_packs_a_pair_of_ids() {
    let mut h = TupleIntHasher::<(usize, usize)>::default();
    h.write_usize(3);
    h.write_usize(1);
    assert_eq!(3 * 65536 + 1, h.finish());
    let mut g = TupleIntHasher::<(usize, usize)>::default();
    g.write_usize(1);
    g.write_usize(3);
    assert_ne!(h.finish(), g.finish());
}

#[test]
fn tuple_int_hasher_takes_negative_numbers_as_their_bits() {
    let mut h = TupleIntHasher::<(i8, isize)>::default();
    h.write_i8(-1);
    assert_eq!(u64::MAX, h.finish());
}

#[test]
fn four_small_integers_hash_to_their_packing() {
    let mut h = TupleIntHasher::<(u16, u16, u16, u16)>::default();
    for x in [0xabcdu16, 0x0123, 0xffff, 7] {
        h.write_u16(x);
    }
    assert_eq!(h.finish(), 0xabcd_0123_ffff_0007);
    let mut g = TupleIntHasher::<(u16, u16, u16, u16)>::default();
    for x in [0xabcdu16, 0x0123, 0xfffe, 7] {
        g.write_u16(x);
    }
    assert_ne!(g.finish(), h.finish());
}
