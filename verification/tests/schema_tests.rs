use inarybay::bvec::BVec;
use inarybay::error::SchemaError;
use inarybay::node_int::{IntCode, IntType};
use inarybay::range::{RangeAlloc, RangeAllocSingle};
use inarybay::schema::{GenerateConfig, NodeKind, Schema};
use inarybay::scope::{Endian, NodeObj, Scope};

fn s(x: &str) -> String {
    x.to_string()
}

fn config() -> GenerateConfig {
    GenerateConfig { read: true, write: true, sync_: true, async_: true, low_heap: false }
}

/// A schema with one top level scope `root` holding an object `obj` of type
/// `T1` as its rust root.
fn root_with_obj() -> (Schema, Scope, NodeObj) {
    let mut sc = inarybay::new();
    let scope = sc.scope(&s("root"), &s("")).unwrap();
    let obj = scope.object(&mut sc, &s("obj"), &s("T1")).unwrap();
    scope.rust_root(&mut sc, obj.node).unwrap();
    (sc, scope, obj)
}

/// Position of the main step of `node` in a plan.
fn main_step(plan: &[(usize, bool)], node: usize) -> usize {
    plan.iter().position(|st| *st == (node, true)).expect("node not in plan")
}

fn check_plans(sc: &Schema, scope: Scope) {
    let read = sc.plan_read(scope.index).unwrap();
    let write = sc.plan_write(scope.index).unwrap();
    // Every node's dependencies come before it
    for (i, st) in read.iter().enumerate() {
        if st.1 {
            for d in sc.gather_read_deps(st.0) {
                assert!(main_step(&read, d) < i);
            }
        }
    }
    for (i, st) in write.iter().enumerate() {
        if st.1 {
            for d in sc.gather_write_deps(st.0) {
                assert!(main_step(&write, d) < i);
            }
        }
    }
    // A fixed range sets up its buffer before the nodes that fill it write
    for (p, st) in write.iter().enumerate() {
        if !st.1 {
            for d in sc.gather_write_deps(st.0) {
                let fillers_only_here = (0..sc.nodes.len()).filter(|&x| sc.gather_write_deps(x).contains(&d)).count() == 1;
                if fillers_only_here {
                    assert!(p < main_step(&write, d));
                }
            }
        }
    }
}

#[test]
fn fixed_bytes_scenario() {
    let (mut sc, scope, obj) = root_with_obj();
    let range = scope.fixed_range(&mut sc, &s("range0"), 4).unwrap();
    let f = scope.bytes(&mut sc, &s("f_val"), range).unwrap();
    obj.field(&mut sc, &s("f"), f).unwrap();
    assert_eq!(sc.nodes[f].kind, NodeKind::FixedBytes { start: 0, len: 4 });
    assert_eq!(sc.generate(&config()), Ok(()));
    check_plans(&sc, scope);
    let read = sc.plan_read(scope.index).unwrap();
    assert!(main_step(&read, f) < main_step(&read, obj.node));
}

#[test]
fn int_singlebyte_scenario() {
    let (mut sc, scope, obj) = root_with_obj();
    let range = scope.fixed_range(&mut sc, &s("range0"), 1).unwrap();
    let f = scope.int_(&mut sc, &s("f_val"), range, Endian::Little, false).unwrap();
    obj.field(&mut sc, &s("f"), f).unwrap();
    assert_eq!(
        sc.nodes[f].kind,
        NodeKind::Int {
            code: IntCode::Bytes { start: 0, len: 1, pad_to: None },
            int_type: IntType { signed: false, rust_bits: 8 },
            endian: Endian::Little,
        }
    );
    assert_eq!(sc.generate(&config()), Ok(()));
    check_plans(&sc, scope);
}

#[test]
fn align_refuses_zero_alignment() {
    let (mut sc, scope, _obj) = root_with_obj();
    let before = sc.nodes.len();
    assert_eq!(scope.align(&mut sc, &s("align"), 0, 0), Err(SchemaError::ZeroAlignment));
    assert_eq!(sc.nodes.len(), before);
    assert_eq!(scope.align(&mut sc, &s("align"), 0, 1), Ok(()));
}

#[test]
fn new_schema_is_empty() {
    let sc = inarybay::new();
    assert!(sc.nodes.is_empty() && sc.scopes.is_empty() && sc.top_scopes.is_empty());
    assert!(sc.imports.is_empty() && sc.mods.is_empty() && sc.type_attrs.is_empty());
    assert!(sc.ranges.allocs.is_empty() && sc.ranges.levels.is_empty());
    assert!(!sc.reader_buffered);
}

#[test]
fn int_multibyte_npo2_scenario() {
    let (mut sc, scope, obj) = root_with_obj();
    let range = scope.fixed_range(&mut sc, &s("range0"), 3).unwrap();
    let f = scope.int_(&mut sc, &s("f_val"), range, Endian::Big, true).unwrap();
    obj.field(&mut sc, &s("f"), f).unwrap();
    assert_eq!(
        sc.nodes[f].kind,
        NodeKind::Int {
            code: IntCode::Bytes { start: 0, len: 3, pad_to: Some(4) },
            int_type: IntType { signed: true, rust_bits: 32 },
            endian: Endian::Big,
        }
    );
    assert_eq!(sc.generate(&config()), Ok(()));
}

#[test]
fn int_multibyte_le_scenario() {
    let (mut sc, scope, obj) = root_with_obj();
    let range = scope.fixed_range(&mut sc, &s("range0"), 4).unwrap();
    let f = scope.int_(&mut sc, &s("f_val"), range, Endian::Little, true).unwrap();
    obj.field(&mut sc, &s("f"), f).unwrap();
    assert_eq!(
        sc.nodes[f].kind,
        NodeKind::Int {
            code: IntCode::Bytes { start: 0, len: 4, pad_to: None },
            int_type: IntType { signed: true, rust_bits: 32 },
            endian: Endian::Little,
        }
    );
}

#[test]
fn bitfield_multiple_scenario() {
    let (mut sc, scope, obj) = root_with_obj();
    let bitfield = scope.fixed_range(&mut sc, &s("range0"), 1).unwrap();
    let r1 = scope.subrange(&mut sc, bitfield, 0, 3).unwrap();
    let f = scope.int_(&mut sc, &s("f_val"), r1, Endian::Little, false).unwrap();
    obj.field(&mut sc, &s("f"), f).unwrap();
    let r2 = scope.subrange(&mut sc, bitfield, 0, 5).unwrap();
    let g = scope.int_(&mut sc, &s("g_val"), r2, Endian::Little, false).unwrap();
    obj.field(&mut sc, &s("g"), g).unwrap();
    assert_eq!(
        sc.nodes[f].kind,
        NodeKind::Int {
            code: IntCode::Bits { byte: 0, shift: 0, mask: 7 },
            int_type: IntType { signed: false, rust_bits: 8 },
            endian: Endian::Little,
        }
    );
    assert_eq!(
        sc.nodes[g].kind,
        NodeKind::Int {
            code: IntCode::Bits { byte: 0, shift: 3, mask: 31 },
            int_type: IntType { signed: false, rust_bits: 8 },
            endian: Endian::Little,
        }
    );
    // The bit field is full now
    assert_eq!(scope.subrange(&mut sc, bitfield, 0, 1), Err(SchemaError::RangeTooSmall));
    assert_eq!(sc.generate(&config()), Ok(()));
    check_plans(&sc, scope);
}

#[test]
fn const_int_scenario() {
    let (mut sc, scope, _obj) = root_with_obj();
    let range = scope.fixed_range(&mut sc, &s("range0"), 4).unwrap();
    let i = scope.int_(&mut sc, &s("range0_int"), range, Endian::Little, true).unwrap();
    assert_eq!(scope.const_(&mut sc, &s("range0_magic"), i, &s("33i32")), Ok(()));
    let c = sc.nodes.len() - 1;
    assert_eq!(sc.nodes[c].kind, NodeKind::Const);
    assert_eq!(sc.node_text[c], "33i32");
    // The constant is read after the int
    let read = sc.plan_read(scope.index).unwrap();
    assert!(main_step(&read, i) < main_step(&read, c));
    check_plans(&sc, scope);
}

#[test]
fn bool_scenario() {
    let (mut sc, scope, obj) = root_with_obj();
    let range = scope.fixed_range(&mut sc, &s("range0"), 1).unwrap();
    let i = scope.int_(&mut sc, &s("f_val"), range, Endian::Little, false).unwrap();
    let b = scope.bool(&mut sc, &s("f_val_bool"), i).unwrap();
    obj.field(&mut sc, &s("f"), b).unwrap();
    assert_eq!(sc.nodes[b].kind, NodeKind::Custom);
    assert_eq!(sc.node_text[b], "bool");
    assert_eq!(sc.generate(&config()), Ok(()));
    check_plans(&sc, scope);
}

#[test]
fn float_scenario() {
    let (mut sc, scope, obj) = root_with_obj();
    let range = scope.fixed_range(&mut sc, &s("range0"), 8).unwrap();
    let f = scope.float(&mut sc, &s("f_val"), range, Endian::Little).unwrap();
    obj.field(&mut sc, &s("f"), f).unwrap();
    assert_eq!(sc.node_text[f], "f64");
    assert_eq!(sc.node_ids[f - 1], "f_val__bytes");
    assert_eq!(sc.nodes[f - 1].kind, NodeKind::FixedBytes { start: 0, len: 8 });
    assert_eq!(sc.generate(&config()), Ok(()));
}

#[test]
fn float_width_must_be_4_or_8() {
    let (mut sc, scope, _obj) = root_with_obj();
    let range = scope.fixed_range(&mut sc, &s("range0"), 4).unwrap();
    let f = scope.float(&mut sc, &s("f32_val"), range, Endian::Big).unwrap();
    assert_eq!(sc.node_text[f], "f32");
    let range = scope.fixed_range(&mut sc, &s("range1"), 2).unwrap();
    let nodes = sc.nodes.len();
    assert_eq!(scope.float(&mut sc, &s("f16_val"), range, Endian::Big), Err(SchemaError::UnsupportedFloatWidth));
    // nothing was added, and the range is still free
    assert_eq!(sc.nodes.len(), nodes);
    assert!(scope.bytes(&mut sc, &s("raw"), range).is_ok());
}

#[test]
fn align_scenario() {
    let (mut sc, scope, obj) = root_with_obj();
    let r0 = scope.fixed_range(&mut sc, &s("range0"), 1).unwrap();
    let g = scope.int_(&mut sc, &s("g_val"), r0, Endian::Little, false).unwrap();
    obj.field(&mut sc, &s("f"), g).unwrap();
    assert_eq!(scope.align(&mut sc, &s("align"), 1, 4), Ok(()));
    let align = sc.nodes.len() - 1;
    assert_eq!(sc.nodes[align].kind, NodeKind::Align { shift: 1, alignment: 4 });
    let r1 = scope.fixed_range(&mut sc, &s("range1"), 1).unwrap();
    let f = scope.int_(&mut sc, &s("f_val"), r1, Endian::Little, false).unwrap();
    obj.field(&mut sc, &s("g"), f).unwrap();
    // The range after the alignment comes after it
    let range1 = sc.ranges.serial[r1.index];
    assert_eq!(sc.nodes[range1].serial_before, Some(align));
    assert_eq!(sc.generate(&config()), Ok(()));
    check_plans(&sc, scope);
}

#[test]
fn delimited_bytes_scenario() {
    let (mut sc, scope, obj) = root_with_obj();
    assert!(!sc.reader_buffered);
    let g = scope.delimited_bytes(&mut sc, &s("g_val"), b"\n\n").unwrap();
    obj.field(&mut sc, &s("g"), g).unwrap();
    let r0 = scope.fixed_range(&mut sc, &s("range0"), 4).unwrap();
    let f = scope.bytes(&mut sc, &s("f_val"), r0).unwrap();
    obj.field(&mut sc, &s("f"), f).unwrap();
    assert!(sc.reader_buffered);
    assert_eq!(sc.delimiters.last().unwrap().1, b"\n\n".to_vec());
    assert_eq!(sc.generate(&config()), Ok(()));
    check_plans(&sc, scope);
}

#[test]
fn dynamic_bytes_scenario() {
    let (mut sc, scope, obj) = root_with_obj();
    let r0 = scope.fixed_range(&mut sc, &s("range0"), 1).unwrap();
    let len = scope.int_(&mut sc, &s("f_len"), r0, Endian::Little, false).unwrap();
    let f = scope.dynamic_bytes(&mut sc, &s("f_val"), len).unwrap();
    obj.field(&mut sc, &s("f"), f).unwrap();
    assert_eq!(sc.nodes[f].kind, NodeKind::DynamicBytes);
    // The length is written from the bytes, and the bytes fill their segment
    assert_eq!(sc.nodes[len].rust, Some(f));
    let seg = sc.nodes[f].segment.unwrap();
    assert_eq!(sc.nodes[seg].kind, NodeKind::SerialSegment);
    assert_eq!(sc.nodes[seg].rust, Some(f));
    let write = sc.plan_write(scope.index).unwrap();
    assert!(main_step(&write, f) < main_step(&write, len));
    assert!(main_step(&write, f) < main_step(&write, seg));
    assert_eq!(sc.generate(&config()), Ok(()));
    let read = sc.plan_read(scope.index).unwrap();
    assert!(main_step(&read, len) < main_step(&read, f));
    check_plans(&sc, scope);
}

#[test]
fn remaining_bytes_scenario() {
    let (mut sc, scope, obj) = root_with_obj();
    let r0 = scope.fixed_range(&mut sc, &s("range0"), 4).unwrap();
    let f = scope.bytes(&mut sc, &s("f_val"), r0).unwrap();
    obj.field(&mut sc, &s("f"), f).unwrap();
    let g = scope.remaining_bytes(&mut sc, &s("g_val")).unwrap();
    obj.field(&mut sc, &s("g"), g).unwrap();
    assert_eq!(sc.nodes[g].kind, NodeKind::RemainingBytes);
    assert_eq!(sc.generate(&config()), Ok(()));
    check_plans(&sc, scope);
}

#[test]
fn dynamic_array_scenario() {
    let (mut sc, scope, obj) = root_with_obj();
    let r0 = scope.fixed_range(&mut sc, &s("range0"), 1).unwrap();
    let len = scope.int_(&mut sc, &s("thrusters_len"), r0, Endian::Little, false).unwrap();
    let (arr, arr_scope) = scope.dynamic_array(&mut sc, &s("thrusters_val"), len).unwrap();
    let arr_obj = arr_scope.object(&mut sc, &s("thrusters_obj"), &s("Thrusters")).unwrap();
    arr_scope.rust_root(&mut sc, arr_obj.node).unwrap();
    let r1 = arr_scope.fixed_range(&mut sc, &s("range1"), 1).unwrap();
    let f = arr_scope.int_(&mut sc, &s("f_val"), r1, Endian::Little, true).unwrap();
    arr_obj.field(&mut sc, &s("f"), f).unwrap();
    obj.field(&mut sc, &s("thrusters"), arr).unwrap();
    assert_eq!(sc.scope_ids[arr_scope.index], "thrusters_val__scope");
    assert_eq!(sc.generate(&config()), Ok(()));
    check_plans(&sc, scope);
    check_plans(&sc, arr_scope);
    // Ids of the element scope don't clash with the outer scope's
    let r2 = arr_scope.fixed_range(&mut sc, &s("range0"), 1);
    assert!(r2.is_ok());
}

#[test]
fn array_elements_cant_use_outer_values() {
    let (mut sc, scope, _obj) = root_with_obj();
    let r0 = scope.fixed_range(&mut sc, &s("range0"), 2).unwrap();
    let len = scope.int_(&mut sc, &s("len"), r0, Endian::Little, false).unwrap();
    let (_arr, arr_scope) = scope.dynamic_array(&mut sc, &s("arr"), len).unwrap();
    let outer = scope.fixed_range(&mut sc, &s("outer"), 1).unwrap();
    assert_eq!(
        arr_scope.int_(&mut sc, &s("inner"), outer, Endian::Little, false),
        Err(SchemaError::NotInContainingScope)
    );
}

fn enum_schema(default_variant: bool, external: bool) -> (Schema, Scope, usize) {
    let mut sc = inarybay::new();
    let scope = sc.scope(&s("root"), &s("")).unwrap();
    let r0 = scope.fixed_range(&mut sc, &s("range0"), 1).unwrap();
    let tag = scope.int_(&mut sc, &s("august_tag"), r0, Endian::Little, false).unwrap();
    let shared = scope.fixed_range(&mut sc, &s("shared0"), 1).unwrap();
    let e = scope.enum_(&mut sc, &s("august_val"), tag, &s("August")).unwrap();
    {
        let nov = e.variant(&mut sc, &s("var_nov"), &s("November"), &s("0u8")).unwrap();
        let obj = nov.object(&mut sc, &s("nov_obj"), &s("November")).unwrap();
        let range = if external { shared } else { nov.fixed_range(&mut sc, &s("range1"), 1).unwrap() };
        let f = nov.int_(&mut sc, &s("f_val1"), range, Endian::Little, true).unwrap();
        obj.field(&mut sc, &s("f"), f).unwrap();
        nov.rust_root(&mut sc, obj.node).unwrap();
    }
    if default_variant {
        let (dec, dummy) = e.default(&mut sc, &s("var_dec"), &s("December")).unwrap();
        let obj = dec.object(&mut sc, &s("dec_obj"), &s("December")).unwrap();
        obj.field(&mut sc, &s("what"), dummy).unwrap();
        dec.rust_root(&mut sc, obj.node).unwrap();
    } else {
        let dec = e.variant(&mut sc, &s("var_dec"), &s("December"), &s("1u8")).unwrap();
        let obj = dec.object(&mut sc, &s("dec_obj"), &s("December")).unwrap();
        let range = if external { shared } else { dec.fixed_range(&mut sc, &s("range1"), 1).unwrap() };
        let f = dec.int_(&mut sc, &s("f_val2"), range, Endian::Little, true).unwrap();
        obj.field(&mut sc, &s("f"), f).unwrap();
        dec.rust_root(&mut sc, obj.node).unwrap();
    }
    let obj = scope.object(&mut sc, &s("obj"), &s("T1")).unwrap();
    scope.rust_root(&mut sc, obj.node).unwrap();
    obj.field(&mut sc, &s("august"), e.node).unwrap();
    (sc, scope, e.node)
}

#[test]
fn enum_scenario() {
    let (sc, scope, e) = enum_schema(false, false);
    assert_eq!(sc.nodes[e].kind, NodeKind::Enum);
    assert_eq!(sc.node_text[e], "August");
    assert_eq!(sc.generate(&config()), Ok(()));
    check_plans(&sc, scope);
    for v in &sc.variants {
        check_plans(&sc, Scope { index: v.element });
    }
}

#[test]
fn enum_default_scenario() {
    let (sc, scope, e) = enum_schema(true, false);
    let default = sc.variants.iter().find(|v| v.enum_node == e && v.default_tag.is_some()).unwrap();
    let dummy = default.default_tag.unwrap();
    assert_eq!(sc.nodes[dummy].kind, NodeKind::EnumDummy);
    assert_eq!(sc.node_ids[dummy], "var_dec__tag");
    // The dummy's value is written back through its field
    assert!(sc.nodes[dummy].rust.is_some());
    assert_eq!(sc.generate(&config()), Ok(()));
    check_plans(&sc, scope);
    check_plans(&sc, Scope { index: default.element });
}

#[test]
fn enum_external_deps_scenario() {
    let (sc, scope, e) = enum_schema(false, true);
    assert_eq!(sc.generate(&config()), Ok(()));
    // The shared range is read before the enum, which depends on it
    let shared_node = sc.node_ids.iter().position(|x| x == "shared0").unwrap();
    assert!(sc.external_deps.contains(&(e, shared_node)));
    let read = sc.plan_read(scope.index).unwrap();
    assert!(main_step(&read, shared_node) < main_step(&read, e));
    // Both variants' scopes have external dependencies
    for v in &sc.variants {
        assert!(sc.scopes[v.element].has_external_deps);
    }
    check_plans(&sc, scope);
}

fn range_part(sc: &Schema, r: inarybay::scope::Range) -> RangeAllocSingle {
    match &sc.ranges.allocs[r.index] {
        RangeAlloc::Unset(p) => *p,
        _ => panic!("expected a fresh range"),
    }
}

#[test]
fn enum_variant_subdivides_shared_range() {
    let mut sc = inarybay::new();
    let scope = sc.scope(&s("root"), &s("")).unwrap();
    let r0 = scope.fixed_range(&mut sc, &s("range0"), 1).unwrap();
    let tag = scope.int_(&mut sc, &s("tag"), r0, Endian::Little, false).unwrap();
    let shared = scope.fixed_range(&mut sc, &s("shared"), 2).unwrap();
    let e = scope.enum_(&mut sc, &s("e"), tag, &s("E")).unwrap();
    let a = e.variant(&mut sc, &s("var_a"), &s("A"), &s("0u8")).unwrap();
    let first = a.subrange(&mut sc, shared, 1, 0).unwrap();
    let second = a.subrange(&mut sc, shared, 1, 0).unwrap();
    assert_eq!(range_part(&sc, first), RangeAllocSingle { start: BVec { bytes: 0, bits: 0 }, avail: BVec { bytes: 1, bits: 0 } });
    assert_eq!(range_part(&sc, second), RangeAllocSingle { start: BVec { bytes: 1, bits: 0 }, avail: BVec { bytes: 1, bits: 0 } });
    assert_eq!(a.subrange(&mut sc, shared, 1, 0), Err(SchemaError::RangeTooSmall));
    // Another variant starts from the whole range again
    let b = e.variant(&mut sc, &s("var_b"), &s("B"), &s("1u8")).unwrap();
    let other = b.subrange(&mut sc, shared, 0, 3).unwrap();
    assert_eq!(range_part(&sc, other), RangeAllocSingle { start: BVec { bytes: 0, bits: 0 }, avail: BVec { bytes: 0, bits: 3 } });
    // The enclosing scope can't use the range anymore
    assert_eq!(scope.subrange(&mut sc, shared, 1, 0), Err(SchemaError::RangeUsedElsewhere));
    // Another enum can't use it either
    let e2 = scope.enum_(&mut sc, &s("e2"), tag, &s("E2"));
    // the tag is already connected to the first enum
    assert_eq!(e2.err(), Some(SchemaError::RustAlreadyConnected));
}

#[test]
fn string_scenario() {
    let (mut sc, scope, obj) = root_with_obj();
    let g = scope.remaining_bytes(&mut sc, &s("g_val")).unwrap();
    let st = scope.string_utf8(&mut sc, &s("g_str"), g).unwrap();
    obj.field(&mut sc, &s("g"), st).unwrap();
    assert_eq!(sc.node_text[st], "String");
    assert_eq!(sc.generate(&config()), Ok(()));
    check_plans(&sc, scope);
}

#[test]
fn versioned_example_scenario() {
    let mut sc = inarybay::new();
    let scope = sc.scope(&s("scope"), &s("")).unwrap();
    let r = scope.fixed_range(&mut sc, &s("version_bytes"), 2).unwrap();
    let version = scope.int_(&mut sc, &s("version_int"), r, Endian::Big, false).unwrap();
    let body = scope.remaining_bytes(&mut sc, &s("data_bytes")).unwrap();
    let object = scope.object(&mut sc, &s("obj"), &s("Versioned")).unwrap();
    object.field(&mut sc, &s("version"), version).unwrap();
    object.field(&mut sc, &s("body"), body).unwrap();
    scope.rust_root(&mut sc, object.node).unwrap();
    assert_eq!(sc.generate(&config()), Ok(()));
    check_plans(&sc, scope);
}

// ## Errors
#[test]
fn ids_are_unique_in_a_scope() {
    let (mut sc, scope, _obj) = root_with_obj();
    assert!(scope.fixed_range(&mut sc, &s("a"), 1).is_ok());
    assert_eq!(scope.fixed_range(&mut sc, &s("a"), 1).err(), Some(SchemaError::IdTaken));
    // The segment's name is taken too
    assert_eq!(scope.remaining_bytes(&mut sc, &s("a__serial_seg")), Err(SchemaError::IdTaken));
    // The scope's own id and serial root are taken
    assert_eq!(scope.remaining_bytes(&mut sc, &s("root")), Err(SchemaError::IdTaken));
    assert_eq!(scope.remaining_bytes(&mut sc, &s("root__serial")), Err(SchemaError::IdTaken));
}

#[test]
fn ids_are_unique_across_enum_levels() {
    let mut sc = inarybay::new();
    let scope = sc.scope(&s("root"), &s("")).unwrap();
    let r0 = scope.fixed_range(&mut sc, &s("range0"), 1).unwrap();
    let tag = scope.int_(&mut sc, &s("tag"), r0, Endian::Little, false).unwrap();
    let e = scope.enum_(&mut sc, &s("e"), tag, &s("E")).unwrap();
    let v = e.variant(&mut sc, &s("var_a"), &s("A"), &s("0u8")).unwrap();
    // A variant escapes to the enclosing scope, so its ids are taken there too
    assert_eq!(v.fixed_range(&mut sc, &s("range0"), 1).err(), Some(SchemaError::IdTaken));
    assert!(v.fixed_range(&mut sc, &s("range1"), 1).is_ok());
}

#[test]
fn ids_must_be_identifiers() {
    let (mut sc, scope, _obj) = root_with_obj();
    assert_eq!(scope.remaining_bytes(&mut sc, &s("fn")), Err(SchemaError::InvalidIdent));
    assert_eq!(scope.remaining_bytes(&mut sc, &s("1abc")), Err(SchemaError::InvalidIdent));
    assert_eq!(scope.object(&mut sc, &s("o"), &s("not a name")).err(), Some(SchemaError::InvalidIdent));
    assert_eq!(sc.scope(&s("has space"), &s("p")).err(), Some(SchemaError::InvalidIdent));
}

#[test]
fn top_level_prefixes_are_unique() {
    let mut sc = inarybay::new();
    assert!(sc.scope(&s("a"), &s("x")).is_ok());
    assert_eq!(sc.scope(&s("b"), &s("x")).err(), Some(SchemaError::PrefixNotUnique));
    assert!(sc.scope(&s("c"), &s("y")).is_ok());
    assert_eq!(sc.top_scopes.len(), 2);
}

#[test]
fn range_claim_errors() {
    let (mut sc, scope, _obj) = root_with_obj();
    let r = scope.fixed_range(&mut sc, &s("range0"), 2).unwrap();
    assert_eq!(scope.subrange(&mut sc, r, 0, 9), Err(SchemaError::ExcessBitsTooLarge));
    assert_eq!(scope.subrange(&mut sc, r, 3, 0), Err(SchemaError::RangeTooSmall));
    let bits = scope.subrange(&mut sc, r, 0, 3).unwrap();
    // A byte array must start on a byte and be whole bytes
    let rest = scope.subrange(&mut sc, r, 1, 0).unwrap();
    assert_eq!(scope.bytes(&mut sc, &s("b0"), rest), Err(SchemaError::NotByteAligned));
    assert_eq!(scope.bytes(&mut sc, &s("b1"), bits), Err(SchemaError::NotWholeBytes));
    let _ = scope.int_(&mut sc, &s("i0"), bits, Endian::Little, false).unwrap();
    assert_eq!(scope.int_(&mut sc, &s("i1"), bits, Endian::Little, false), Err(SchemaError::RangeExhausted));
}

#[test]
fn int_shape_errors() {
    let (mut sc, scope, _obj) = root_with_obj();
    let wide = scope.fixed_range(&mut sc, &s("wide"), 9).unwrap();
    assert_eq!(scope.int_(&mut sc, &s("w"), wide, Endian::Little, false), Err(SchemaError::IntTooWide));
    let r = scope.fixed_range(&mut sc, &s("r"), 3).unwrap();
    let _skip = scope.subrange(&mut sc, r, 0, 6).unwrap();
    let crossing = scope.subrange(&mut sc, r, 0, 4).unwrap();
    assert_eq!(scope.int_(&mut sc, &s("c"), crossing, Endian::Little, false), Err(SchemaError::BitFieldCrossesByte));
    let unaligned = scope.subrange(&mut sc, r, 1, 0).unwrap();
    assert_eq!(scope.int_(&mut sc, &s("u"), unaligned, Endian::Little, false), Err(SchemaError::IntNotByteAligned));
    let r2 = scope.fixed_range(&mut sc, &s("r2"), 2).unwrap();
    let partial = scope.subrange(&mut sc, r2, 1, 3).unwrap();
    assert_eq!(scope.int_(&mut sc, &s("p"), partial, Endian::Little, false), Err(SchemaError::IntPartialByte));
}

#[test]
fn rust_side_connects_once() {
    let (mut sc, scope, obj) = root_with_obj();
    let r = scope.fixed_range(&mut sc, &s("range0"), 1).unwrap();
    let i = scope.int_(&mut sc, &s("i"), r, Endian::Little, false).unwrap();
    obj.field(&mut sc, &s("f"), i).unwrap();
    assert_eq!(obj.field(&mut sc, &s("g"), i), Err(SchemaError::RustAlreadyConnected));
    assert_eq!(scope.bool(&mut sc, &s("b"), i), Err(SchemaError::RustAlreadyConnected));
}

#[test]
fn rust_root_once() {
    let (mut sc, scope, obj) = root_with_obj();
    assert_eq!(scope.rust_root(&mut sc, obj.node), Err(SchemaError::RustRootAlreadyDefined));
    let other = sc.scope(&s("other"), &s("o")).unwrap();
    assert_eq!(other.get_rust_root(&sc), Err(SchemaError::NoRustRoot));
    assert_eq!(sc.plan_read(other.index), Err(SchemaError::NoRustRoot));
    assert_eq!(sc.plan_write(other.index), Err(SchemaError::NoRustRoot));
    assert_eq!(sc.generate(&config()), Err(SchemaError::NoRustRoot));
}

#[test]
fn wrong_node_kinds() {
    let (mut sc, scope, obj) = root_with_obj();
    let g = scope.remaining_bytes(&mut sc, &s("g")).unwrap();
    assert_eq!(scope.dynamic_bytes(&mut sc, &s("d"), g), Err(SchemaError::WrongNodeKind));
    assert_eq!(scope.dynamic_array(&mut sc, &s("a"), g).err(), Some(SchemaError::WrongNodeKind));
    assert_eq!(obj.field(&mut sc, &s("o"), obj.node), Err(SchemaError::WrongNodeKind));
}

#[test]
fn custom_type_must_be_a_path() {
    let (mut sc, scope, _obj) = root_with_obj();
    let g = scope.remaining_bytes(&mut sc, &s("g")).unwrap();
    assert_eq!(scope.custom(&mut sc, &s("c"), &s("not a type!"), &vec![g]), Err(SchemaError::InvalidRustType));
    let c = scope.custom(&mut sc, &s("c"), &s("my::Type"), &vec![g]).unwrap();
    assert_eq!(sc.node_text[c], "my::Type");
    assert_eq!(sc.links.last().unwrap().user, c);
    assert_eq!(sc.links.last().unwrap().primary, g);
}

#[test]
fn custom_with_no_inputs_and_repeated_input() {
    let (mut sc, scope, _obj) = root_with_obj();
    let none = scope.custom(&mut sc, &s("c0"), &s("u8"), &vec![]).unwrap();
    assert_eq!(sc.nodes[none].kind, NodeKind::Custom);
    let g = scope.remaining_bytes(&mut sc, &s("g")).unwrap();
    let c = scope.custom(&mut sc, &s("c1"), &s("Thing"), &vec![g, g]).unwrap();
    assert_eq!(sc.links.iter().filter(|l| l.user == c).count(), 2);
}

#[test]
fn default_variant_once() {
    let mut sc = inarybay::new();
    let scope = sc.scope(&s("root"), &s("")).unwrap();
    let r0 = scope.fixed_range(&mut sc, &s("range0"), 1).unwrap();
    let tag = scope.int_(&mut sc, &s("tag"), r0, Endian::Little, false).unwrap();
    let e = scope.enum_(&mut sc, &s("e"), tag, &s("E")).unwrap();
    assert!(e.default(&mut sc, &s("d1"), &s("D1")).is_ok());
    assert_eq!(e.default(&mut sc, &s("d2"), &s("D2")).err(), Some(SchemaError::DefaultVariantAlreadySet));
}

#[test]
fn const_lifted_through_enum() {
    let mut sc = inarybay::new();
    let scope = sc.scope(&s("root"), &s("")).unwrap();
    let r0 = scope.fixed_range(&mut sc, &s("range0"), 1).unwrap();
    let tag = scope.int_(&mut sc, &s("tag"), r0, Endian::Little, false).unwrap();
    let r1 = scope.fixed_range(&mut sc, &s("range1"), 1).unwrap();
    let outer = scope.int_(&mut sc, &s("outer"), r1, Endian::Little, false).unwrap();
    let e = scope.enum_(&mut sc, &s("e"), tag, &s("E")).unwrap();
    let v = e.variant(&mut sc, &s("var_a"), &s("A"), &s("0u8")).unwrap();
    // A value of the enclosing scope is lifted through the enum
    assert_eq!(v.const_(&mut sc, &s("k"), outer, &s("1u8")), Ok(()));
    let k = sc.node_ids.iter().position(|x| x == "k").unwrap();
    assert_eq!(sc.nodes[k].kind, NodeKind::Const);
    assert_eq!(sc.nodes[outer].rust, Some(e.node));
    assert!(sc.external_deps.contains(&(e.node, outer)));
    let link = sc.links.last().unwrap();
    assert_eq!((link.user, link.primary), (k, outer));
    assert!(link.redirect.is_some());
    // The value now feeds the enum, so the enclosing scope can't take it again
    assert_eq!(scope.const_(&mut sc, &s("k2"), outer, &s("1u8")), Err(SchemaError::RustAlreadyConnected));
    // A value of the constant's own scope
    let r2 = scope.fixed_range(&mut sc, &s("range2"), 1).unwrap();
    let own = scope.int_(&mut sc, &s("own"), r2, Endian::Little, false).unwrap();
    assert_eq!(scope.const_(&mut sc, &s("k3"), own, &s("1u8")), Ok(()));
    assert_eq!(scope.const_(&mut sc, &s("k3"), own, &s("1u8")), Err(SchemaError::IdTaken));
}

// ## Definitions
fn two_objects(second_field_bytes: usize, second_name: &str) -> Schema {
    let mut sc = inarybay::new();
    let a = sc.scope(&s("a"), &s("a")).unwrap();
    let oa = a.object(&mut sc, &s("obj"), &s("T")).unwrap();
    let r = a.fixed_range(&mut sc, &s("r"), 4).unwrap();
    let f = a.bytes(&mut sc, &s("f_val"), r).unwrap();
    oa.field(&mut sc, &s("f"), f).unwrap();
    a.rust_root(&mut sc, oa.node).unwrap();
    let b = sc.scope(&s("b"), &s("b")).unwrap();
    let ob = b.object(&mut sc, &s("obj"), &s("T")).unwrap();
    let r = b.fixed_range(&mut sc, &s("r"), second_field_bytes).unwrap();
    let f = b.bytes(&mut sc, &s("f_val"), r).unwrap();
    ob.field(&mut sc, &s(second_name), f).unwrap();
    b.rust_root(&mut sc, ob.node).unwrap();
    sc
}

#[test]
fn consistent_definitions() {
    let sc = two_objects(4, "f");
    assert_eq!(sc.check_definitions(), Ok(()));
    assert_eq!(sc.generate(&config()), Ok(()));
}

#[test]
fn definitions_with_other_field_types() {
    let sc = two_objects(8, "f");
    assert_eq!(sc.check_definitions(), Err(SchemaError::InconsistentDefinitions));
    assert_eq!(sc.generate(&config()), Err(SchemaError::InconsistentDefinitions));
}

#[test]
fn definitions_with_other_field_names() {
    let sc = two_objects(4, "g");
    assert_eq!(sc.check_definitions(), Err(SchemaError::InconsistentDefinitions));
}

#[test]
fn enum_definitions_must_agree() {
    // Two enums named August, one with a default variant
    let mut sc = inarybay::new();
    let scope = sc.scope(&s("root"), &s("")).unwrap();
    let mk = |sc: &mut Schema, id: &str, with_default: bool| {
        let r = scope.fixed_range(sc, &s(&format!("{}_range", id)), 1).unwrap();
        let tag = scope.int_(sc, &s(&format!("{}_tag", id)), r, Endian::Little, false).unwrap();
        let e = scope.enum_(sc, &s(id), tag, &s("August")).unwrap();
        let v = e.variant(sc, &s(&format!("{}_nov", id)), &s("November"), &s("0u8")).unwrap();
        let o = v.object(sc, &s(&format!("{}_nov_obj", id)), &s("November")).unwrap();
        v.rust_root(sc, o.node).unwrap();
        if with_default {
            let (d, _dummy) = e.default(sc, &s(&format!("{}_dec", id)), &s("December")).unwrap();
            let o = d.object(sc, &s(&format!("{}_dec_obj", id)), &s("December")).unwrap();
            d.rust_root(sc, o.node).unwrap();
        }
    };
    mk(&mut sc, "e1", false);
    mk(&mut sc, "e2", false);
    assert_eq!(sc.check_definitions(), Ok(()));
    mk(&mut sc, "e3", true);
    assert_eq!(sc.check_definitions(), Err(SchemaError::InconsistentDefinitions));
}

#[test]
fn variant_without_rust_root() {
    let mut sc = inarybay::new();
    let scope = sc.scope(&s("root"), &s("")).unwrap();
    let r = scope.fixed_range(&mut sc, &s("r"), 1).unwrap();
    let tag = scope.int_(&mut sc, &s("tag"), r, Endian::Little, false).unwrap();
    let e = scope.enum_(&mut sc, &s("e"), tag, &s("E")).unwrap();
    let _v = e.variant(&mut sc, &s("v"), &s("V"), &s("0u8")).unwrap();
    assert_eq!(sc.check_definitions(), Err(SchemaError::NoRustRoot));
}

#[test]
fn type_keys() {
    let (mut sc, scope, _obj) = root_with_obj();
    let r = scope.fixed_range(&mut sc, &s("r"), 2).unwrap();
    let i = scope.int_(&mut sc, &s("i"), r, Endian::Little, true).unwrap();
    let k = sc.type_key(i, 10).ok().unwrap();
    assert_eq!(k.depth, 0);
    match k.base {
        inarybay::definitions::TypeBase::Text(t) => assert_eq!(t, "i16"),
        _ => panic!("expected a named type"),
    }
    let g = scope.remaining_bytes(&mut sc, &s("g")).unwrap();
    let k = sc.type_key(g, 10).ok().unwrap();
    assert_eq!(k.depth, 1);
    // A range has no value of its own
    let range_node = sc.ranges.serial[r.index];
    assert_eq!(sc.type_key(range_node, 10).err(), Some(SchemaError::UnknownType));
}

#[test]
fn bvec_arithmetic() {
    let a = BVec { bytes: 1, bits: 5 };
    let b = BVec { bytes: 0, bits: 6 };
    let sum = a.add(b);
    assert_eq!(sum, BVec { bytes: 2, bits: 3 });
    assert_eq!(sum.sub(b), a);
    assert_eq!(a.sub(b), BVec { bytes: 0, bits: 7 });
    assert!(a.gt(&b));
    assert!(!b.gt(&a));
    assert!(BVec::zero().is_zero());
    assert_eq!(BVec::bytes(4), BVec { bytes: 4, bits: 0 });
}

#[test]
fn declared_variables() {
    let (mut sc, scope, obj) = root_with_obj();
    let r = scope.fixed_range(&mut sc, &s("range0"), 1).unwrap();
    let i = scope.int_(&mut sc, &s("i"), r, Endian::Little, false).unwrap();
    obj.field(&mut sc, &s("f"), i).unwrap();
    let read = sc.declared_nodes(scope.index, false);
    let write = sc.declared_nodes(scope.index, true);
    // The object is declared for reading; when writing it is the argument
    assert!(read.contains(&obj.node));
    assert!(!write.contains(&obj.node));
    assert!(read.contains(&i) && write.contains(&i));
    // Field names name no variable
    assert_eq!(read.len(), write.len() + 1);
}

#[test]
fn imports_and_mods() {
    let mut sc = inarybay::new();
    sc.add_import(s("use std::io;"));
    sc.add_import(s("use std::fmt;"));
    sc.add_import(s("use std::io;"));
    sc.add_import(s("use std::collections::HashMap;"));
    // once per text, in text order
    assert_eq!(sc.imports, vec![s("use std::collections::HashMap;"), s("use std::fmt;"), s("use std::io;")]);
    assert_eq!(sc.add_mod(s("extra")), Ok(()));
    assert_eq!(sc.add_mod(s("not valid")), Err(SchemaError::InvalidIdent));
    assert_eq!(sc.mods, vec![s("extra")]);
}

#[test]
fn type_attrs_recorded() {
    let (mut sc, _scope, obj) = root_with_obj();
    obj.add_type_attrs(&mut sc, s("#[derive(Clone)]"));
    assert_eq!(sc.type_attrs, vec![(obj.node, s("#[derive(Clone)]"))]);
}

#[test]
fn type_definitions_enums_then_structs_by_name() {
    let mut sc = inarybay::new();
    let a = sc.scope(&s("a"), &s("a")).unwrap();
    let zed = a.object(&mut sc, &s("zed"), &s("Zed")).unwrap();
    let r0 = a.fixed_range(&mut sc, &s("range0"), 1).unwrap();
    let tag = a.int_(&mut sc, &s("tag"), r0, Endian::Little, false).unwrap();
    let e = a.enum_(&mut sc, &s("e"), tag, &s("Kind")).unwrap();
    let alpha = a.object(&mut sc, &s("alpha"), &s("Alpha")).unwrap();
    let again = a.object(&mut sc, &s("again"), &s("Zed")).unwrap();
    let defs = sc.type_definitions();
    assert_eq!(defs, vec![e.node, alpha.node, zed.node]);
    assert!(!defs.contains(&again.node));
}

#[test]
fn config_methods_in_order() {
    let c = GenerateConfig { read: true, write: true, sync_: true, async_: true, low_heap: false };
    let m: Vec<(bool, bool)> = c.methods().iter().map(|m| (m.async_, m.write)).collect();
    assert_eq!(m, vec![(false, false), (false, true), (true, false), (true, true)]);
    let c = GenerateConfig { read: false, write: true, sync_: false, async_: true, low_heap: false };
    let m: Vec<(bool, bool)> = c.methods().iter().map(|m| (m.async_, m.write)).collect();
    assert_eq!(m, vec![(true, true)]);
}
