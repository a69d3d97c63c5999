//! Decoding of combat-event log lines: a small cell grammar, fixed-arity
//! event records and the line framing around them.
#![allow(non_snake_case)]

pub mod text;
pub mod cell;
pub mod event;
pub mod line;

pub use cell::{
    LogCell, LogError, is_valid_emote, is_valid_unwrapped, is_valid_wrapped, parse_array,
    parse_float, parse_integer, parse_log_cell, parse_multi_power, parse_number, parse_string,
};
pub use event::{
    LogEmote, LogRow, LogSpellCastSuccess, LogSpellDamage, LogSpellHeal, parse_emote_line,
    parse_log_csv, parse_spell_cast_success_line, parse_spell_damage_line, parse_spell_heal_line,
};
pub use line::{LineOutcome, LogEventDateTime, Parser, classify_line, parse_date_time, parse_line};
