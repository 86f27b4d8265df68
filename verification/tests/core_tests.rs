use inarybay::bvec::BVec;
use inarybay::error::SchemaError;
use inarybay::node_int::{decode_int, encode_int, int_code, int_type, IntCode, IntType};
use inarybay::scope::Endian;
use inarybay::range::{RangeAlloc, RangeAllocSingle, Ranges};
use inarybay::traverse::traverse;

fn pos(plan: &[(usize, bool)], step: (usize, bool)) -> usize {
    plan.iter().position(|s| *s == step).expect("step missing")
}

#[test]
fn traverse_visits_dependencies_first() {
    // 0 depends on 1 and 2, 1 depends on 2, 3 is unreachable
    let deps = vec![vec![1, 2], vec![2], vec![], vec![0]];
    let plan = traverse(&deps, &vec![0], &vec![false; 4]);
    assert_eq!(plan.iter().filter(|s| s.1).count(), 3);
    assert!(pos(&plan, (2, true)) < pos(&plan, (1, true)));
    assert!(pos(&plan, (1, true)) < pos(&plan, (0, true)));
    assert!(!plan.contains(&(3, true)));
}

#[test]
fn traverse_preparation_steps_come_first() {
    let deps = vec![vec![1], vec![], vec![]];
    let plan = traverse(&deps, &vec![0, 2], &vec![true, false, true]);
    // Each reachable node asking for a preparation step gets one, before its main step
    assert!(pos(&plan, (0, false)) < pos(&plan, (0, true)));
    assert!(pos(&plan, (2, false)) < pos(&plan, (2, true)));
    assert!(!plan.contains(&(1, false)));
    assert_eq!(plan.len(), 5);
}

#[test]
fn traverse_roots_taken_last_first() {
    let deps = vec![vec![], vec![], vec![]];
    let plan = traverse(&deps, &vec![0, 1, 2], &vec![false; 3]);
    assert_eq!(plan, vec![(2, true), (1, true), (0, true)]);
}

#[test]
fn traverse_survives_cycles() {
    let deps = vec![vec![1], vec![0]];
    let plan = traverse(&deps, &vec![0], &vec![false; 2]);
    assert_eq!(plan.iter().filter(|s| s.1).count(), 2);
}

#[test]
fn traverse_shared_dependency_once() {
    let deps = vec![vec![2], vec![2], vec![]];
    let plan = traverse(&deps, &vec![0, 1], &vec![false; 3]);
    assert_eq!(plan.iter().filter(|s| **s == (2, true)).count(), 1);
    assert!(pos(&plan, (2, true)) < pos(&plan, (0, true)));
    assert!(pos(&plan, (2, true)) < pos(&plan, (1, true)));
}

#[test]
fn int_types() {
    let t = |bytes, bits, signed| int_type(BVec { bytes, bits }, signed);
    assert_eq!(t(0, 1, false), Ok(IntType { signed: false, rust_bits: 8 }));
    assert_eq!(t(1, 0, true), Ok(IntType { signed: true, rust_bits: 8 }));
    assert_eq!(t(2, 0, false), Ok(IntType { signed: false, rust_bits: 16 }));
    assert_eq!(t(3, 0, true), Ok(IntType { signed: true, rust_bits: 32 }));
    assert_eq!(t(5, 0, false), Ok(IntType { signed: false, rust_bits: 64 }));
    assert_eq!(t(8, 0, false), Ok(IntType { signed: false, rust_bits: 64 }));
    assert_eq!(t(8, 1, false), Err(SchemaError::IntTooWide));
    assert_eq!(t(9, 0, false), Err(SchemaError::IntTooWide));
}

#[test]
fn int_codes() {
    let z = BVec { bytes: 0, bits: 0 };
    assert_eq!(int_code(BVec { bytes: 2, bits: 3 }, BVec { bytes: 0, bits: 4 }, 1), Ok(IntCode::Bits { byte: 2, shift: 3, mask: 15 }));
    assert_eq!(int_code(BVec { bytes: 0, bits: 6 }, BVec { bytes: 0, bits: 3 }, 1), Err(SchemaError::BitFieldCrossesByte));
    assert_eq!(int_code(BVec { bytes: 1, bits: 0 }, BVec { bytes: 3, bits: 0 }, 4), Ok(IntCode::Bytes { start: 1, len: 3, pad_to: Some(4) }));
    assert_eq!(int_code(z, BVec { bytes: 2, bits: 0 }, 2), Ok(IntCode::Bytes { start: 0, len: 2, pad_to: None }));
    assert_eq!(int_code(BVec { bytes: 0, bits: 1 }, BVec { bytes: 2, bits: 0 }, 2), Err(SchemaError::IntNotByteAligned));
    assert_eq!(int_code(z, BVec { bytes: 1, bits: 1 }, 2), Err(SchemaError::IntPartialByte));
    assert_eq!(int_code(z, BVec { bytes: 0, bits: 8 }, 1), Err(SchemaError::ExcessBitsTooLarge));
    assert_eq!(int_code(z, BVec { bytes: 1, bits: 8 }, 2), Err(SchemaError::ExcessBitsTooLarge));
    assert_eq!(int_code(BVec { bytes: 0, bits: 8 }, z, 1), Err(SchemaError::ExcessBitsTooLarge));
    assert_eq!(int_code(z, BVec { bytes: 0, bits: 7 }, 1), Ok(IntCode::Bits { byte: 0, shift: 0, mask: 127 }));
}

fn names(pairs: &[(&str, &str)]) -> Vec<(String, String)> {
    pairs.iter().map(|(a, b)| (a.to_string(), b.to_string())).collect()
}

#[test]
fn ranges_split_front_to_back() {
    let mut r = Ranges::new();
    let whole = r.new_range(7, 2);
    assert_eq!(r.serial[whole], 7);
    let a = r.subrange(whole, &vec![], 0, 0, 5).unwrap();
    let b = r.subrange(whole, &vec![], 0, 1, 0).unwrap();
    match r.allocs[a] {
        RangeAlloc::Unset(p) => assert_eq!(p, RangeAllocSingle { start: BVec { bytes: 0, bits: 0 }, avail: BVec { bytes: 0, bits: 5 } }),
        _ => panic!("expected a fresh range"),
    }
    match r.allocs[b] {
        RangeAlloc::Unset(p) => assert_eq!(p, RangeAllocSingle { start: BVec { bytes: 0, bits: 5 }, avail: BVec { bytes: 1, bits: 0 } }),
        _ => panic!("expected a fresh range"),
    }
    // 3 bits are left
    assert_eq!(r.subrange(whole, &vec![], 0, 0, 4), Err(SchemaError::RangeTooSmall));
    let rest = r.take_all(whole, &vec![], 0).unwrap();
    assert_eq!(rest, RangeAllocSingle { start: BVec { bytes: 1, bits: 5 }, avail: BVec { bytes: 0, bits: 3 } });
    assert_eq!(r.take_all(whole, &vec![], 0), Err(SchemaError::RangeExhausted));
}

#[test]
fn ranges_used_from_enum_variants() {
    let mut r = Ranges::new();
    let whole = r.new_range(3, 1);
    let x = names(&[("E", "X")]);
    let y = names(&[("E", "Y")]);
    // Each variant gets its own copy of the remaining range
    assert_eq!(r.subrange(whole, &x, 1, 0, 3), Ok(1));
    assert_eq!(r.subrange(whole, &x, 1, 0, 5), Ok(2));
    match &r.allocs[2] {
        RangeAlloc::Unset(p) => assert_eq!(p, &RangeAllocSingle { start: BVec { bytes: 0, bits: 3 }, avail: BVec { bytes: 0, bits: 5 } }),
        _ => panic!("expected a fresh range"),
    }
    assert_eq!(r.take_all(whole, &x, 1), Err(SchemaError::RangeExhausted));
    assert_eq!(r.take_all(whole, &y, 2).unwrap().avail, BVec { bytes: 1, bits: 0 });
    assert_eq!(r.take_all(whole, &y, 2), Err(SchemaError::RangeExhausted));
    assert_eq!(r.take_all(whole, &names(&[("F", "X")]), 4), Err(SchemaError::RangeUsedByOtherEnum));
    assert_eq!(r.take_all(whole, &vec![], 0), Err(SchemaError::RangeUsedElsewhere));
}

#[test]
fn local_range_cant_be_used_by_enum() {
    let mut r = Ranges::new();
    let whole = r.new_range(3, 2);
    assert!(r.subrange(whole, &vec![], 0, 1, 0).is_ok());
    assert_eq!(r.take_all(whole, &names(&[("E", "X")]), 1), Err(SchemaError::RangeUsedElsewhere));
}

#[test]
fn int_bytes_round_trip_big_endian() {
    let code = int_code(BVec { bytes: 0, bits: 0 }, BVec { bytes: 2, bits: 0 }, 2).unwrap();
    let mut buf = vec![0u8; 2];
    encode_int(code, Endian::Big, &mut buf, -2);
    assert_eq!(buf, vec![0xff, 0xfe]);
    assert_eq!(decode_int(code, Endian::Big, true, &buf), -2);
    assert_eq!(decode_int(code, Endian::Big, false, &buf), 0xfffe);
    encode_int(code, Endian::Little, &mut buf, 0x1234);
    assert_eq!(buf, vec![0x34, 0x12]);
    assert_eq!(decode_int(code, Endian::Little, false, &buf), 0x1234);
}

#[test]
fn int_padded_field_widens_by_sign() {
    // three bytes at offset 1, held in a four byte integer
    let code = int_code(BVec { bytes: 1, bits: 0 }, BVec { bytes: 3, bits: 0 }, 4).unwrap();
    let mut buf = vec![0xaau8; 5];
    encode_int(code, Endian::Little, &mut buf, -5);
    assert_eq!(buf, vec![0xaa, 0xfb, 0xff, 0xff, 0xaa]);
    assert_eq!(decode_int(code, Endian::Little, true, &buf), -5);
    encode_int(code, Endian::Big, &mut buf, 0x123456);
    assert_eq!(buf, vec![0xaa, 0x12, 0x34, 0x56, 0xaa]);
    assert_eq!(decode_int(code, Endian::Big, false, &buf), 0x123456);
    // an unsigned field is zero-extended, so its top bit is no sign
    encode_int(code, Endian::Big, &mut buf, 0x800000);
    assert_eq!(buf, vec![0xaa, 0x80, 0x00, 0x00, 0xaa]);
    assert_eq!(decode_int(code, Endian::Big, false, &buf), 8388608);
    assert_eq!(decode_int(code, Endian::Big, true, &buf), -8388608);
    encode_int(code, Endian::Little, &mut buf, 0xfffffe);
    assert_eq!(decode_int(code, Endian::Little, false, &buf), 0xfffffe);
}

#[test]
fn int_bit_fields_share_a_byte() {
    let high = int_code(BVec { bytes: 0, bits: 3 }, BVec { bytes: 0, bits: 4 }, 1).unwrap();
    let low = int_code(BVec { bytes: 0, bits: 0 }, BVec { bytes: 0, bits: 3 }, 1).unwrap();
    let mut buf = vec![0u8; 1];
    encode_int(high, Endian::Big, &mut buf, 9);
    assert_eq!(buf, vec![0x48]);
    encode_int(low, Endian::Big, &mut buf, 5);
    assert_eq!(buf, vec![0x4d]);
    assert_eq!(decode_int(high, Endian::Big, false, &buf), 9);
    assert_eq!(decode_int(low, Endian::Big, false, &buf), 5);
    let whole = int_code(BVec { bytes: 0, bits: 0 }, BVec { bytes: 1, bits: 0 }, 1).unwrap();
    encode_int(whole, Endian::Big, &mut buf, -1);
    assert_eq!(buf, vec![0xff]);
    assert_eq!(decode_int(whole, Endian::Big, true, &buf), -1);
    assert_eq!(decode_int(whole, Endian::Big, false, &buf), 255);
}

#[test]
fn ranges_nested_enum_levels() {
    let mut r = Ranges::new();
    let whole = r.new_range(3, 2);
    let ax = names(&[("E1", "A"), ("E2", "X")]);
    let ay = names(&[("E1", "A"), ("E2", "Y")]);
    // Sibling variants of the inner enum each start from the same copy
    assert_eq!(r.subrange(whole, &ax, 1, 1, 0), Ok(1));
    assert_eq!(r.subrange(whole, &ay, 2, 1, 0), Ok(2));
    let start = |r: &Ranges, i: usize| match &r.allocs[i] {
        RangeAlloc::Unset(p) => p.start,
        _ => panic!("expected a fresh range"),
    };
    assert_eq!(start(&r, 1), BVec { bytes: 0, bits: 0 });
    assert_eq!(start(&r, 2), BVec { bytes: 0, bits: 0 });
    // Each continues from its own claims
    assert_eq!(r.subrange(whole, &ax, 1, 1, 0), Ok(3));
    assert_eq!(start(&r, 3), BVec { bytes: 1, bits: 0 });
    // Variant A's copy is split by E2: A itself can't claim from it, nor can
    // another enum nested in A
    assert_eq!(r.take_all(whole, &names(&[("E1", "A")]), 4), Err(SchemaError::RangeUsedElsewhere));
    assert_eq!(r.take_all(whole, &names(&[("E1", "A"), ("F", "Z")]), 5), Err(SchemaError::RangeUsedByOtherEnum));
    // Another variant of the outer enum starts from the whole range
    assert_eq!(r.take_all(whole, &names(&[("E1", "B")]), 6).unwrap().avail, BVec { bytes: 2, bits: 0 });
}

#[test]
fn ranges_local_level_refuses_nested_enum() {
    let mut r = Ranges::new();
    let whole = r.new_range(3, 1);
    // Variant A uses its copy itself
    assert_eq!(r.subrange(whole, &names(&[("E1", "A")]), 1, 0, 3), Ok(1));
    // so an enum nested in A can't use it
    assert_eq!(r.subrange(whole, &names(&[("E1", "A"), ("E2", "X")]), 2, 0, 1), Err(SchemaError::RangeUsedElsewhere));
    // but A goes on where it stopped
    assert_eq!(r.subrange(whole, &names(&[("E1", "A")]), 1, 0, 5), Ok(2));
}
