//! Capture and decode the log lines that the `mclog` datapack writes into a
//! Minecraft `latest.log`.
//!
//! A log line carries, after the game's own prefix, an identifier and an SNBT
//! compound with the log's fields. [`parse_log_line`] escapes a raw line,
//! finds the identifier and decodes the payload with
//! [`LogMessage::from_snbt`]; [`WatchState`] holds the decisions of a watcher
//! that follows the file as the game writes to it.

mod error;
mod level;
mod line;
mod message;
mod nbt;
mod scan;
mod snbt;
mod watch;

pub use error::{McLogError, McLogErrorView};
pub use level::{
    law_level_names_round_trip, spec_level_from_name, spec_level_name, spec_tracing_level,
    spec_tracing_level_parse, LogLevel,
};
pub use line::{
    escape_char, escape_line, found, hex_code, hex_digit, hex_digits, hex_width, ident_found,
    law_escape_line_concat, law_line_shape_of_escaped_line, law_escaped_line_decodes_alike, law_escape_spells_the_code_point,
    law_a_log_line_holds_the_identifier, law_the_payload_is_the_rest_of_the_line, hex_number, upper_hex_value, is_upper_hex, line_returns, spec_parse_log_line, law_escape_line_keeps_ascii, law_escape_line_is_ascii,
    line_parts, line_result_view, needs_escape, nibble, parse_log_line, snbt_start,
    spec_escape_line, spec_line_shape, spec_parse_snbt, try_parse_log_line, LineParts, LineShape,
    LOG_PRE_IDENT, LOG_SUF_IDENT,
};
pub use scan::snbt_returns_x;
pub use snbt::{
    entry_is_read, entry_value, law_a_read_entry_then_brace_closes_the_compound,
    law_a_read_entry_then_comma_goes_on, law_a_read_item_then_bracket_closes_the_list,
    law_a_read_item_then_comma_goes_on, snbt_returns, uuid_text_ok,
};
pub use message::{
    be_byte, be_bytes, double_at, float_at, int_array_to_uuid, is_first_non_double,
    is_first_non_float, decode_returns, stands_for_panic, law_be_bytes_encode,
    law_unknown_entity_fields_are_ignored, law_unknown_fields_are_ignored,
    law_rotation_reads_yaw_and_pitch, law_position_reads_three_coordinates, law_decode_reads_fields_by_name, result_view,
    spec_decode_entity, spec_decode_log, spec_decode_rest, spec_from_snbt, spec_position,
    spec_rotation, spec_take_compound, spec_take_field, spec_take_int, spec_take_int_array,
    spec_take_list, spec_take_string, spec_uuid_bytes, spec_uuid_from_bytes, spec_uuid_ints,
    string_field, LogEntity, LogEntityView, LogMessage, LogMessageView,
};
pub use nbt::{
    compound_entries, has_key, is_first_key_index, key_index, keys_distinct, law_insert_then_get,
    law_swap_remove_keeps_keys_distinct, law_swap_remove_keeps_other_keys,
    law_swap_remove_takes_the_key, lemma_key_index_absent, lemma_key_index_distinct, spec_get,
    spec_insert, spec_insert_all, spec_swap_remove, Nbt, NbtCompound,
};
pub use watch::{
    is_nearest_minecraft, law_step_moves_forward, minecraft_ancestor, spec_duration_from_millis,
    spec_step, step_fits, WatchAction, WatchConfig, WatchEvent, WatchState, LOG_IDENTIFIER,
    MINECRAFT_DIR,
};
