use mclog_capture::{
    escape_line, parse_log_line, snbt_returns_x, try_parse_log_line, McLogError, LOG_IDENTIFIER,
};
use vanity_nbt::snbt::from_snbt;

const README_LINE: &str = r#"[03:40:03] [Server thread/INFO]: Test log (at BlockPos{x=0, y=0, z=0}): {dimension:"minecraft:the_nether",entity:{data:{},type:"minecraft:strider",uuid:[I;-256617240,730549736,-1446282306,-1252097036]},function:"",level:"info",message:8,pos:[-226.51687942973177d,31.5d,-207.3884943716344d],rotation:[194.03525f,0.0f],tick:168195}"#;

/// Texts on which the parser comes back, with a value or an error.
const RETURNING: [&str; 24] = [
    "-",
    "[B ;",
    "{a: 1}",
    "{a 1}",
    "{}",
    "{ }",
    "{",
    "[]",
    "[1b, 2s, 3, 4L]",
    "[B; 1b, 2b]",
    "[I; 1, 2s, 3b]",
    "[L; 1L, 2]",
    "[B; 1]",
    "619s",
    ".6F",
    "false",
    "'some words'",
    "{key: bool(9), \"data\": [75.f, 99L, 'unique'], bytes: [B; true, 0b]}",
    "{a: 'x\\ny'}",
    "{\"k\\\"e\": 1}",
    "uuid(\"853c80ef-3c37-49fd-aa49-938b674adae6\")",
    "uuid(\"not a uuid\")",
    "{a: 300b}",
    "0x1F",
];

#[test]
fn returning_texts_are_accepted_and_do_not_panic() {
    for text in RETURNING {
        assert!(snbt_returns_x(text), "{text}");
        let _ = from_snbt(text);
    }
}

#[test]
fn the_readme_payload_is_accepted() {
    let payload = &README_LINE[72..];
    assert!(snbt_returns_x(payload));
    assert!(from_snbt(payload).is_ok());
}

#[test]
fn blank_text_is_refused() {
    assert!(!snbt_returns_x(""));
    assert!(!snbt_returns_x("   "));
    assert!(!snbt_returns_x("{a:   "));
}

#[test]
fn reading_past_the_end_is_refused() {
    assert!(!snbt_returns_x("["));
    assert!(!snbt_returns_x("[B"));
    assert!(!snbt_returns_x("[B "));
}

#[test]
fn empty_and_non_numeric_primitives_are_refused() {
    assert!(!snbt_returns_x("{a:}"));
    assert!(!snbt_returns_x("bool(x)"));
    assert!(!snbt_returns_x("bool("));
    assert!(!snbt_returns_x("[B; x]"));
}

#[test]
fn bad_escapes_are_refused() {
    assert!(!snbt_returns_x("'a\\q'"));
    assert!(!snbt_returns_x("{'a\\q': 1}"));
}

#[test]
fn non_ascii_text_is_refused() {
    assert!(!snbt_returns_x("{a: 'é'}"));
}

#[test]
fn a_line_with_an_empty_payload_is_not_parsed() {
    assert!(try_parse_log_line(&README_LINE[..72], LOG_IDENTIFIER).is_none());
}

#[test]
fn a_line_with_an_unclosed_compound_is_invalid() {
    let r = try_parse_log_line(&README_LINE[..73], LOG_IDENTIFIER);
    assert!(matches!(r, Some(Err(McLogError::InvalidSnbt(_)))));
}

#[test]
fn a_whole_line_is_parsed() {
    let r = try_parse_log_line(README_LINE, LOG_IDENTIFIER);
    assert!(matches!(r, Some(Ok(Some(_)))));
    assert!(matches!(
        try_parse_log_line("no log here", LOG_IDENTIFIER),
        Some(Ok(None))
    ));
}

#[test]
fn a_rotation_that_is_not_floats_is_not_decoded() {
    let line = README_LINE.replace("rotation:[194.03525f,0.0f]", "rotation:[194.03525f,90]");
    assert!(try_parse_log_line(&line, LOG_IDENTIFIER).is_none());
}

#[test]
fn a_position_that_is_not_doubles_is_not_decoded() {
    let line = README_LINE.replace("pos:[-226.51687942973177d,", "pos:[1.0f,");
    assert!(try_parse_log_line(&line, LOG_IDENTIFIER).is_none());
}

#[test]
fn a_short_uuid_array_is_not_decoded() {
    let line = README_LINE.replace(
        "uuid:[I;-256617240,730549736,-1446282306,-1252097036]",
        "uuid:[I;1,2]",
    );
    assert!(try_parse_log_line(&line, LOG_IDENTIFIER).is_none());
    let line = README_LINE.replace(
        "uuid:[I;-256617240,730549736,-1446282306,-1252097036]",
        "uuid:[I;]",
    );
    assert!(matches!(try_parse_log_line(&line, LOG_IDENTIFIER), Some(Ok(Some(_)))));
}

#[test]
fn a_non_string_type_is_an_error_not_a_stop() {
    let line = README_LINE.replace("type:\"minecraft:strider\"", "type:7");
    match try_parse_log_line(&line, LOG_IDENTIFIER) {
        Some(Err(McLogError::MismatchedType(t, _))) => assert_eq!(t, "string"),
        other => panic!("unexpected {other:?}"),
    }
}

#[test]
fn an_invalid_payload_carries_the_parser_error() {
    let expected = from_snbt("{").unwrap_err();
    match parse_log_line(&README_LINE[..73], LOG_IDENTIFIER) {
        Err(McLogError::InvalidSnbt(e)) => assert_eq!(e, expected),
        other => panic!("unexpected {other:?}"),
    }
}

#[test]
fn a_line_and_its_escaped_form_fail_alike() {
    let raw = format!("{}{{é", &README_LINE[..72]);
    let escaped = escape_line(&raw);
    let expected = from_snbt("{\\u00E9").unwrap_err();
    for line in [raw.as_str(), escaped.as_str()] {
        match parse_log_line(line, LOG_IDENTIFIER) {
            Err(McLogError::InvalidSnbt(e)) => assert_eq!(e, expected),
            other => panic!("unexpected {other:?}"),
        }
    }
}

#[test]
fn uuid_operations_take_each_form_of_uuid() {
    for text in [
        "uuid(\"853c80ef-3c37-49fd-aa49-938b674adae6\")",
        "uuid(\"853c80ef3c3749fdaa49938b674adae6\")",
        "uuid(\"{853c80ef-3c37-49fd-aa49-938b674adae6}\")",
        "uuid(\"URN:uuid:853c80ef-3c37-49fd-aa49-938b674adae6\")",
    ] {
        assert!(snbt_returns_x(text), "{text}");
        assert!(from_snbt(text).is_ok(), "{text}");
    }
    assert!(from_snbt("uuid(\"853c80ef-3c37-49fd-aa49\")").is_err());
}
