//! Tests of packed tagged unions.

use mysolver::bitsum::layout::{
    bits_mask, ceil_log2, to_snake_case, BitsAttr, EnumDecl, FieldDecl, FieldsDecl, ParsedBitsum,
    VariantDecl,
};
use mysolver::bitsum::names::{
    binding_name, body_name, macro_reexport_vis, width_assertion, DeclaredVisibility, MacroExport,
};

const NOP: usize = 0;
const IMM: usize = 1;
const ADD: usize = 2;

fn field(name: &str, bits: u32) -> FieldDecl {
    FieldDecl { name: name.to_string(), ty: Some("u8".to_string()), bits: BitsAttr::Bits(bits) }
}

fn instr_decl() -> EnumDecl {
    EnumDecl {
        name: "Instr".to_string(),
        variants: vec![
            VariantDecl { name: "Nop".to_string(), fields: FieldsDecl::Unit },
            VariantDecl {
                name: "Imm".to_string(),
                fields: FieldsDecl::Named(vec![field("dst", 5), field("value", 8)]),
            },
            VariantDecl {
                name: "Add".to_string(),
                fields: FieldsDecl::Named(vec![field("dst", 5), field("lhs", 5), field("rhs", 5)]),
            },
        ],
    }
}

fn instr() -> ParsedBitsum {
    ParsedBitsum::parse(&Some("u32".to_string()), &instr_decl()).expect("valid layout")
}

fn make(layout: &ParsedBitsum, variant: usize, values: &[u128]) -> u128 {
    layout.construct(variant, &values.to_vec()).expect("values fit")
}

#[test]
fn constructors_pack_expected_bits() {
    let layout = instr();
    assert_eq!(make(&layout, NOP, &[]), 0);
    assert_eq!(make(&layout, IMM, &[3, 0xaa]), 1 | (3 << 2) | (0xaa << 7));
    assert_eq!(make(&layout, ADD, &[1, 2, 3]), 2 | (1 << 2) | (2 << 7) | (3 << 12));
}

#[test]
fn from_bits_accepts_valid_encoding() {
    let layout = instr();
    let bits = layout.from_bits(1 | (3 << 2) | (0xaa << 7));
    assert_eq!(bits, Some(make(&layout, IMM, &[3, 0xaa])));
}

#[test]
fn from_bits_rejects_unknown_tag_values() {
    assert_eq!(instr().from_bits(3), None);
}

#[test]
fn from_bits_rejects_reserved_payload_bits() {
    assert_eq!(instr().from_bits(1 << 2), None);
}

#[test]
fn from_bits_unchecked_preserves_valid_encoding() {
    let layout = instr();
    assert_eq!(layout.tag(2 | (1 << 2) | (2 << 7) | (3 << 12)), ADD);
}

#[test]
fn constructors_reject_values_that_do_not_fit() {
    let result = instr().construct(IMM, &vec![32, 0]);
    assert!(result.is_err());
}

#[test]
fn match_macro_dispatches_and_binds_fields() {
    let layout = instr();
    let decoded = match layout.decode(make(&layout, IMM, &[7, 9])) {
        (NOP, _) => 0,
        (IMM, fields) => fields[0] + fields[1],
        (_, fields) => fields[0] + fields[1] + fields[2],
    };
    assert_eq!(decoded, 16);
}

#[test]
fn if_let_macro_matches_and_binds_fields() {
    let layout = instr();
    let decoded = match layout.if_let(IMM, make(&layout, IMM, &[4, 6])) {
        Some(fields) => fields[0] + fields[1],
        None => u128::MAX,
    };
    assert_eq!(decoded, 10);
}

#[test]
fn if_let_macro_runs_else_for_tag_mismatch() {
    let layout = instr();
    let matched = layout.if_let(ADD, make(&layout, NOP, &[])).is_some();
    assert!(!matched);
}

#[test]
fn while_let_macro_rechecks_the_scrutinee() {
    let layout = instr();
    let values =
        [make(&layout, IMM, &[1, 10]), make(&layout, IMM, &[2, 11]), make(&layout, NOP, &[])];
    let mut index = 0usize;
    let mut sum = 0u128;
    while let Some(fields) = layout.if_let(IMM, values[index]) {
        sum += fields[0] + fields[1];
        index += 1;
    }
    assert_eq!(sum, 24);
    assert_eq!(index, 2);
}

#[test]
fn matches_macro_supports_patterns_and_guards() {
    let layout = instr();
    let add = layout.if_let(ADD, make(&layout, ADD, &[3, 3, 7]));
    assert!(matches!(add, Some(fields) if fields[0] == 3 && fields[1] == 3));
    assert!(layout.if_let(ADD, make(&layout, IMM, &[2, 9])).is_none());
}

#[test]
fn generated_macros_are_hygienic() {
    let layout = instr();
    let __bitsum_instr = 100u128;
    let __bitsum_bits = 200u128;
    let __bitsum_pat_imm_dst = 300u128;
    let total = match layout.decode(make(&layout, IMM, &[5, 6])) {
        (NOP, _) => 0,
        (IMM, fields) => {
            let __bitsum_bits = fields[0];
            let __bitsum_pat_imm_value = fields[1];
            __bitsum_instr + __bitsum_bits + __bitsum_pat_imm_value
        }
        (_, fields) => fields[0] + fields[1] + fields[2],
    };
    assert_eq!(total, 111);
    assert_eq!(__bitsum_bits, 200);
    assert_eq!(__bitsum_pat_imm_dst, 300);
}

#[test]
fn rejected_values_name_their_field() {
    let error = instr().construct(IMM, &vec![32, 0]).unwrap_err();
    assert!(error.contains("dst"), "{error}");
}

#[test]
fn every_encoding_decodes_to_its_values() {
    let layout = instr();
    for dst in 0..32u128 {
        let bits = make(&layout, IMM, &[dst, 255 - dst]);
        assert_eq!(layout.decode(bits), (IMM, vec![dst, 255 - dst]));
        assert_eq!(layout.from_bits(bits), Some(bits));
    }
}

#[test]
fn layout_helpers_compute_exact_values() {
    assert_eq!(ceil_log2(1), 0);
    assert_eq!(ceil_log2(3), 2);
    assert_eq!(ceil_log2(4), 2);
    assert_eq!(bits_mask(5), 31);
    assert_eq!(bits_mask(128), u128::MAX);
    assert_eq!(to_snake_case("LoadImm"), "load_imm");
    let layout = instr();
    assert_eq!(layout.tag_width, 2);
    assert_eq!(layout.variants[IMM].constructor, "imm");
    assert_eq!(layout.variants[IMM].valid_mask, 0x7fff);
}

#[test]
fn invalid_declarations_are_rejected() {
    let missing = EnumDecl { name: "E".to_string(), variants: vec![] };
    assert!(ParsedBitsum::parse(&Some("u8".to_string()), &missing).is_err());
    assert!(ParsedBitsum::parse(&Some("i8".to_string()), &instr_decl()).is_err());
    assert!(ParsedBitsum::parse(&Some("u8".to_string()), &instr_decl()).is_err());
    assert!(ParsedBitsum::parse(&None, &instr_decl()).is_err());
    let mut unnamed = instr_decl();
    unnamed.variants[1].fields = FieldsDecl::Unnamed;
    assert!(ParsedBitsum::parse(&Some("u32".to_string()), &unnamed).is_err());
    let mut zero = instr_decl();
    zero.variants[1].fields = FieldsDecl::Named(vec![field("dst", 0)]);
    assert!(ParsedBitsum::parse(&Some("u32".to_string()), &zero).is_err());
    let mut absent = instr_decl();
    absent.variants[1].fields = FieldsDecl::Named(vec![FieldDecl {
        name: "dst".to_string(),
        ty: Some("u8".to_string()),
        bits: BitsAttr::Missing,
    }]);
    assert_eq!(
        ParsedBitsum::parse(&Some("u32".to_string()), &absent),
        Err("missing `#[bits(...)]` attribute".to_string())
    );
}

#[test]
fn generated_names_are_built_from_variants_and_fields() {
    let layout = instr();
    let imm = &layout.variants[IMM];
    assert_eq!(binding_name("if_let", imm, &imm.fields[1]), "__bitsum_pat_if_let_imm_value");
    assert_eq!(body_name(imm), "__bitsum_body_imm");
    assert_eq!(
        width_assertion(&imm.fields[0]),
        Some("field `dst` exceeds its declared width of 5 bits".to_string())
    );
    assert_eq!(layout.match_macro, "match_instr");
    assert_eq!(macro_reexport_vis(DeclaredVisibility::Public), MacroExport::Crate);
    assert_eq!(macro_reexport_vis(DeclaredVisibility::Restricted), MacroExport::AsDeclared);
    assert_eq!(macro_reexport_vis(DeclaredVisibility::Inherited), MacroExport::Hidden);
}
