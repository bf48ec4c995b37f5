use mclog_capture::{int_array_to_uuid, LogLevel, LogMessage, McLogError, Nbt, NbtCompound};
use uuid::Uuid;

fn compound(entries: Vec<(&str, Nbt)>) -> NbtCompound {
    let mut c = NbtCompound::new();
    for (k, v) in entries {
        c.insert(k.to_string(), v);
    }
    c
}

fn keys(c: &NbtCompound) -> Vec<String> {
    c.keys()
}

fn s(v: &str) -> Nbt {
    Nbt::String(v.to_string())
}

const UUID_INTS: [i32; 4] = [-256617240, 730549736, -1446282306, -1252097036];

fn entity() -> Nbt {
    Nbt::Compound(compound(vec![
        ("data", Nbt::Compound(NbtCompound::new())),
        ("type", s("minecraft:strider")),
        ("uuid", Nbt::IntArray(UUID_INTS.to_vec())),
    ]))
}

/// The compound of the strider log in the readme, in the order the game writes it.
fn strider_fields() -> Vec<(&'static str, Nbt)> {
    vec![
        ("dimension", s("minecraft:the_nether")),
        ("entity", entity()),
        ("function", s("")),
        ("level", s("info")),
        ("message", Nbt::Int(8)),
        (
            "pos",
            Nbt::List(vec![
                Nbt::Double((-226.51687942973177f64).to_bits()),
                Nbt::Double(31.5f64.to_bits()),
                Nbt::Double((-207.3884943716344f64).to_bits()),
            ]),
        ),
        (
            "rotation",
            Nbt::List(vec![Nbt::Float(194.03525f32.to_bits()), Nbt::Float(0.0f32.to_bits())]),
        ),
        ("tick", Nbt::Int(168195)),
    ]
}

fn strider_uuid() -> Uuid {
    let mut bytes = [0u8; 16];
    for (i, x) in UUID_INTS.iter().enumerate() {
        bytes[4 * i..4 * i + 4].copy_from_slice(&x.to_be_bytes());
    }
    Uuid::from_bytes(bytes)
}

fn expect_strider(m: &LogMessage) {
    assert_eq!(m.dimension, "minecraft:the_nether");
    assert_eq!(m.function, "");
    assert_eq!(m.level, LogLevel::Info);
    assert_eq!(m.message, Nbt::Int(8));
    assert_eq!(f64::from_bits(m.pos[0]), -226.51687942973177);
    assert_eq!(f64::from_bits(m.pos[1]), 31.5);
    assert_eq!(f64::from_bits(m.pos[2]), -207.3884943716344);
    assert_eq!(f32::from_bits(m.rotation[0]), 194.03525);
    assert_eq!(f32::from_bits(m.rotation[1]), 0.0);
    assert_eq!(m.tick, 168195);
    assert_eq!(m.entity.entity_type, "minecraft:strider");
    assert!(m.entity.data.is_empty());
    assert_eq!(m.entity.uuid, strider_uuid());
}

#[test]
fn decodes_the_readme_log() {
    let m = LogMessage::from_snbt(Nbt::Compound(compound(strider_fields()))).unwrap();
    expect_strider(&m);
}

#[test]
fn decoding_does_not_depend_on_field_order() {
    let mut fields = strider_fields();
    fields.reverse();
    fields.swap(1, 5);
    let m = LogMessage::from_snbt(Nbt::Compound(compound(fields))).unwrap();
    expect_strider(&m);
}

#[test]
fn extra_fields_are_ignored() {
    let mut fields = strider_fields();
    fields.insert(3, ("extra", s("ignored")));
    let m = LogMessage::from_snbt(Nbt::Compound(compound(fields))).unwrap();
    expect_strider(&m);
}

#[test]
fn uuid_ints_are_big_endian() {
    let u = int_array_to_uuid([1, 2, 3, 4]);
    assert_eq!(
        u.as_bytes(),
        &[0, 0, 0, 1, 0, 0, 0, 2, 0, 0, 0, 3, 0, 0, 0, 4]
    );
    let u = int_array_to_uuid([-1, 0x01020304, i32::MIN, 0]);
    assert_eq!(
        u.as_bytes(),
        &[0xFF, 0xFF, 0xFF, 0xFF, 1, 2, 3, 4, 0x80, 0, 0, 0, 0, 0, 0, 0]
    );
    assert_eq!(
        int_array_to_uuid(UUID_INTS).to_string(),
        "f0b454e8-2b8b-4de8-a9cb-7bbeb55e83f4"
    );
}

#[test]
fn empty_uuid_array_is_nil() {
    let mut fields = strider_fields();
    fields[1] = (
        "entity",
        Nbt::Compound(compound(vec![
            ("data", Nbt::Compound(compound(vec![("hp", Nbt::Float(20.0f32.to_bits()))]))),
            ("type", s("minecraft:pig")),
            ("uuid", Nbt::IntArray(vec![])),
        ])),
    );
    let m = LogMessage::from_snbt(Nbt::Compound(compound(fields))).unwrap();
    assert_eq!(m.entity.uuid, Uuid::nil());
    assert_eq!(m.entity.entity_type, "minecraft:pig");
    assert_eq!(m.entity.data.get("hp"), Some(&Nbt::Float(20.0f32.to_bits())));
}

#[test]
fn short_lists_default_to_zero() {
    let mut fields = strider_fields();
    fields[5] = ("pos", Nbt::List(vec![Nbt::Double(1.5f64.to_bits())]));
    fields[6] = ("rotation", Nbt::List(vec![]));
    let m = LogMessage::from_snbt(Nbt::Compound(compound(fields))).unwrap();
    assert_eq!(m.pos, [1.5f64.to_bits(), 0, 0]);
    assert_eq!(m.rotation, [0, 0]);
}

#[test]
fn a_non_compound_is_refused() {
    match LogMessage::from_snbt(Nbt::Int(3)) {
        Err(McLogError::MismatchedType(t, v)) => {
            assert_eq!(t, "compound");
            assert_eq!(v, Nbt::Int(3));
        }
        other => panic!("unexpected {other:?}"),
    }
}

#[test]
fn a_missing_field_carries_what_is_left() {
    let c = compound(vec![
        ("tick", Nbt::Int(1)),
        ("function", s("f")),
        ("x", Nbt::Int(7)),
        ("y", Nbt::Int(9)),
    ]);
    match LogMessage::from_snbt(Nbt::Compound(c)) {
        Err(McLogError::MissingField(f, rest)) => {
            assert_eq!(f, "dimension");
            assert_eq!(keys(&rest), vec!["y", "x"]);
        }
        other => panic!("unexpected {other:?}"),
    }
}

#[test]
fn missing_tick_is_reported_first() {
    let mut fields = strider_fields();
    fields.pop();
    match LogMessage::from_snbt(Nbt::Compound(compound(fields))) {
        Err(McLogError::MissingField(f, rest)) => {
            assert_eq!(f, "tick");
            assert_eq!(rest.len(), 7);
        }
        other => panic!("unexpected {other:?}"),
    }
}

#[test]
fn a_field_of_the_wrong_type_is_refused() {
    let mut fields = strider_fields();
    fields[7] = ("tick", s("soon"));
    match LogMessage::from_snbt(Nbt::Compound(compound(fields))) {
        Err(McLogError::MismatchedType(t, v)) => {
            assert_eq!(t, "int");
            assert_eq!(v, s("soon"));
        }
        other => panic!("unexpected {other:?}"),
    }
}

#[test]
fn an_unknown_level_is_refused() {
    let mut fields = strider_fields();
    fields[3] = ("level", s("loud"));
    match LogMessage::from_snbt(Nbt::Compound(compound(fields))) {
        Err(McLogError::UnknownLevel(l)) => assert_eq!(l, "loud"),
        other => panic!("unexpected {other:?}"),
    }
}

#[test]
fn a_non_string_type_is_refused() {
    let mut fields = strider_fields();
    fields[1] = (
        "entity",
        Nbt::Compound(compound(vec![
            ("data", Nbt::Compound(NbtCompound::new())),
            ("type", Nbt::Int(4)),
            ("uuid", Nbt::IntArray(UUID_INTS.to_vec())),
        ])),
    );
    match LogMessage::from_snbt(Nbt::Compound(compound(fields))) {
        Err(McLogError::MismatchedType(t, v)) => {
            assert_eq!(t, "string");
            assert_eq!(v, Nbt::Int(4));
        }
        other => panic!("unexpected {other:?}"),
    }
}

#[test]
fn a_missing_entity_field_carries_the_entity() {
    let mut fields = strider_fields();
    fields[1] = ("entity", Nbt::Compound(compound(vec![("type", s("minecraft:pig"))])));
    match LogMessage::from_snbt(Nbt::Compound(compound(fields))) {
        Err(McLogError::MissingField(f, rest)) => {
            assert_eq!(f, "data");
            assert_eq!(keys(&rest), vec!["type"]);
        }
        other => panic!("unexpected {other:?}"),
    }
}

#[test]
fn a_position_that_is_not_a_list_is_refused() {
    let mut fields = strider_fields();
    fields[5] = ("pos", s("here"));
    match LogMessage::from_snbt(Nbt::Compound(compound(fields))) {
        Err(McLogError::MismatchedType(t, v)) => {
            assert_eq!(t, "list");
            assert_eq!(v, s("here"));
        }
        other => panic!("unexpected {other:?}"),
    }
}

#[test]
fn different_uuid_ints_give_different_uuids() {
    assert_ne!(int_array_to_uuid([1, 2, 3, 4]), int_array_to_uuid([1, 2, 3, 5]));
    assert_ne!(int_array_to_uuid([0, 0, 0, 0]), int_array_to_uuid([-1, 0, 0, 0]));
    assert_eq!(int_array_to_uuid([7, 8, 9, 10]), int_array_to_uuid([7, 8, 9, 10]));
}

#[test]
fn extra_entity_fields_are_ignored() {
    let mut fields = strider_fields();
    fields[1] = (
        "entity",
        Nbt::Compound(compound(vec![
            ("data", Nbt::Compound(NbtCompound::new())),
            ("Health", Nbt::Float(20.0f32.to_bits())),
            ("type", s("minecraft:strider")),
            ("uuid", Nbt::IntArray(UUID_INTS.to_vec())),
        ])),
    );
    let m = LogMessage::from_snbt(Nbt::Compound(compound(fields))).unwrap();
    expect_strider(&m);
}
