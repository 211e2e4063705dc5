use seam_core::{
    Field, IntType, IntWidth, ObjectType, Presence, Schema, Type, UnionType, Variant,
};

#[test]
fn integer_ranges_are_exact_at_the_edges() {
    let u64t = IntType { width: IntWidth::W64, signed: false };
    assert_eq!(u64t.range(), (0, i128::from(u64::MAX)));

    let i32t = IntType { width: IntWidth::W32, signed: true };
    assert_eq!(i32t.range(), (i128::from(i32::MIN), i128::from(i32::MAX)));

    let u8t = IntType { width: IntWidth::W8, signed: false };
    assert_eq!(u8t.range(), (0, 255));
}

#[test]
fn only_64_bit_integers_need_bigint_in_js() {
    assert!(IntType { width: IntWidth::W32, signed: true }.fits_js_number());
    assert!(!IntType { width: IntWidth::W64, signed: false }.fits_js_number());
}

#[test]
fn presence_axes_are_independent() {
    assert_eq!(Presence::optional_nullable(), Presence { optional: true, nullable: true });
    assert_ne!(Presence::optional(), Presence::nullable());
}

#[test]
fn every_integer_type_has_its_range_and_name() {
    let all = [
        (IntWidth::W8, true, "i8", i128::from(i8::MIN), i128::from(i8::MAX)),
        (IntWidth::W16, true, "i16", i128::from(i16::MIN), i128::from(i16::MAX)),
        (IntWidth::W32, true, "i32", i128::from(i32::MIN), i128::from(i32::MAX)),
        (IntWidth::W64, true, "i64", i128::from(i64::MIN), i128::from(i64::MAX)),
        (IntWidth::W8, false, "u8", 0, i128::from(u8::MAX)),
        (IntWidth::W16, false, "u16", 0, i128::from(u16::MAX)),
        (IntWidth::W32, false, "u32", 0, i128::from(u32::MAX)),
        (IntWidth::W64, false, "u64", 0, i128::from(u64::MAX)),
    ];
    for (width, signed, name, min, max) in all {
        let t = IntType { width, signed };
        assert_eq!(t.name(), name);
        assert_eq!(t.range(), (min, max));
        assert_eq!(t.fits_js_number(), width != IntWidth::W64);
    }
}

#[test]
fn the_four_presences_are_distinct() {
    let all = [
        Presence::required(),
        Presence::nullable(),
        Presence::optional(),
        Presence::optional_nullable(),
    ];
    assert_eq!(all[0], Presence { optional: false, nullable: false });
    assert_eq!(all[1], Presence { optional: false, nullable: true });
    assert_eq!(all[2], Presence { optional: true, nullable: false });
    for i in 0..4 {
        for j in 0..4 {
            assert_eq!(all[i] == all[j], i == j);
        }
    }
}

#[test]
fn type_kinds_name_what_a_payload_must_be() {
    assert_eq!(Type::Bool.kind(), "bool");
    assert_eq!(Type::Int(IntType { width: IntWidth::W8, signed: true }).kind(), "integer");
    assert_eq!(Type::Float.kind(), "float");
    assert_eq!(Type::String.kind(), "string");
    assert_eq!(Type::Date.kind(), "date");
    assert_eq!(Type::DateTime.kind(), "datetime");
    assert_eq!(Type::Enum(vec![]).kind(), "enum");
    assert_eq!(Type::Array { item: Box::new(Type::Bool), item_nullable: false }.kind(), "array");
    assert_eq!(Type::Object(Box::new(ObjectType::default())).kind(), "object");
    assert_eq!(Type::Ref("X".into()).kind(), "object");
}

fn field(name: &str) -> Field {
    Field { name: name.into(), ty: Type::Bool, presence: Presence::required(), rules: vec![] }
}

#[test]
fn lookups_find_the_first_declaration() {
    let a = ObjectType { name: "A".into(), fields: vec![field("x"), field("y")], deny_unknown_fields: true };
    assert_eq!(a.field("y").map(|f| f.name.as_str()), Some("y"));
    assert!(a.field("z").is_none());

    let u = UnionType {
        name: "U".into(),
        tag: "t".into(),
        variants: vec![
            Variant { tag: "a".into(), schema_name: "A".into() },
            Variant { tag: "b".into(), schema_name: "B".into() },
        ],
    };
    assert_eq!(u.variant("b").map(|v| v.schema_name.as_str()), Some("B"));
    assert!(u.variant("c").is_none());

    let schema = Schema { types: vec![a], unions: vec![u] };
    assert!(schema.get("A").is_some());
    assert!(schema.get("U").is_none());
    assert!(schema.union("U").is_some());
    assert!(schema.union("A").is_none());
    assert!(schema.declares("A"));
    assert!(schema.declares("U"));
    assert!(!schema.declares("B"));
}
