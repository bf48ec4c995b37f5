use mclog_capture::{escape_line, parse_log_line, LogLevel, McLogError, Nbt, LOG_IDENTIFIER};

const README_LINE: &str = r#"[03:40:03] [Server thread/INFO]: Test log (at BlockPos{x=0, y=0, z=0}): {dimension:"minecraft:the_nether",entity:{data:{},type:"minecraft:strider",uuid:[I;-256617240,730549736,-1446282306,-1252097036]},function:"",level:"info",message:8,pos:[-226.51687942973177d,31.5d,-207.3884943716344d],rotation:[194.03525f,0.0f],tick:168195}"#;

const PREFIX: &str = "[03:40:03] [Server thread/INFO]: ";

#[test]
fn ascii_is_left_alone() {
    assert_eq!(escape_line("plain {text} 123"), "plain {text} 123");
    assert_eq!(escape_line(""), "");
}

#[test]
fn non_ascii_is_escaped_with_four_or_more_hex_digits() {
    assert_eq!(escape_line("é"), "\\u00E9");
    assert_eq!(escape_line("a\u{E000}b"), "a\\uE000b");
    assert_eq!(escape_line("\u{F8FF}"), "\\uF8FF");
    assert_eq!(escape_line("😀"), "\\u1F600");
    assert_eq!(escape_line("\u{10FFFF}"), "\\u10FFFF");
    assert_eq!(escape_line("\u{7F}\u{80}"), "\u{7F}\\u0080");
    assert!(escape_line("ünïcödé ☃").is_ascii());
}

#[test]
fn decodes_the_readme_line() {
    let m = parse_log_line(README_LINE, LOG_IDENTIFIER).unwrap().unwrap();
    assert_eq!(m.dimension, "minecraft:the_nether");
    assert_eq!(m.level, LogLevel::Info);
    assert_eq!(m.message, Nbt::Int(8));
    assert_eq!(m.tick, 168195);
    assert_eq!(f64::from_bits(m.pos[0]), -226.51687942973177);
    assert_eq!(f64::from_bits(m.pos[1]), 31.5);
    assert_eq!(f32::from_bits(m.rotation[0]), 194.03525);
    assert_eq!(m.entity.entity_type, "minecraft:strider");
    assert_eq!(
        m.entity.uuid.to_string(),
        "f0b454e8-2b8b-4de8-a9cb-7bbeb55e83f4"
    );
}

#[test]
fn other_lines_are_skipped() {
    let line = "[03:40:03] [Server thread/INFO]: Done (3.2s)! For help, type \"help\"";
    assert!(matches!(parse_log_line(line, LOG_IDENTIFIER), Ok(None)));
    assert!(matches!(parse_log_line("", LOG_IDENTIFIER), Ok(None)));
    assert!(matches!(parse_log_line(README_LINE, "Other id"), Ok(None)));
}

#[test]
fn a_line_just_long_enough_for_the_identifier_is_needed() {
    // exactly 32 + 8 characters: the identifier cannot fit
    let line = format!("{}Test lo", PREFIX);
    assert_eq!(line.len(), 40);
    assert!(matches!(parse_log_line(&line, LOG_IDENTIFIER), Ok(None)));
}

#[test]
fn escaping_shifts_the_identifier() {
    let line = format!("é{}", &README_LINE[1..]);
    assert!(matches!(parse_log_line(&line, LOG_IDENTIFIER), Ok(None)));
}

#[test]
fn a_line_that_ends_before_the_payload_is_refused() {
    let line = format!("{}Test log (at BlockPos{{x=0}})", PREFIX);
    match parse_log_line(&line, LOG_IDENTIFIER) {
        Err(McLogError::NotEnoughForSnbtStart(s)) => assert_eq!(s, line),
        other => panic!("unexpected {other:?}"),
    }
}

#[test]
fn a_payload_that_is_not_snbt_is_refused() {
    let line = format!("{}Test log (at BlockPos{{x=0, y=0, z=0}}): {{a 1}}", PREFIX);
    assert!(matches!(
        parse_log_line(&line, LOG_IDENTIFIER),
        Err(McLogError::InvalidSnbt(_))
    ));
}

#[test]
fn a_payload_that_is_not_a_log_is_refused() {
    let line = format!("{}Test log (at BlockPos{{x=0, y=0, z=0}}): {{tick:3}}", PREFIX);
    match parse_log_line(&line, LOG_IDENTIFIER) {
        Err(McLogError::MissingField(f, _)) => assert_eq!(f, "function"),
        other => panic!("unexpected {other:?}"),
    }
}

#[test]
fn an_escaped_line_reads_like_the_line() {
    let line = format!("{}é", README_LINE);
    let escaped = escape_line(&line);
    assert_eq!(escape_line(&escaped), escaped);
    let short = format!("é{}", &README_LINE[1..72]);
    let a = parse_log_line(&short, LOG_IDENTIFIER);
    let b = parse_log_line(&escape_line(&short), LOG_IDENTIFIER);
    assert!(matches!((a, b), (Ok(None), Ok(None))));
    let readme = parse_log_line(README_LINE, LOG_IDENTIFIER).unwrap().unwrap();
    let again = parse_log_line(&escape_line(README_LINE), LOG_IDENTIFIER).unwrap().unwrap();
    assert_eq!(readme.tick, again.tick);
    assert_eq!(readme.dimension, again.dimension);
}
