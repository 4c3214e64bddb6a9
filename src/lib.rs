//! Speech-oriented text normalization with an exact correspondence between
//! positions in the original text and positions in the normalized text.
//!
//! An ordered table of rules ([`Cleaner`]) rewrites a text for speaking. Each
//! rule application is a partition of its input into pieces, and the
//! boundaries between pieces are carried through every rule, so that each
//! boundary of the normalized text is tied to one of the original text.
pub mod chars;
pub mod cleaner;
pub mod clipboard;
pub mod config;
pub mod engine;
pub mod laws;
pub mod offsets;
pub mod pieces;
pub mod prefix;
pub mod settings;
pub mod status;
pub mod wide;

pub use chars::{utf16_len, utf8_len};
pub use cleaner::Cleaner;
pub use clipboard::{what_on_clipboard_seq_num, ClipboardPoll};
pub use config::{parse_rule, rule_table, ConfigError};
pub use engine::{clean_text, clean_text_string};
pub use offsets::{
    clean_iter, clean_text_u16idx_in, clean_text_u16idx_out, clean_text_u8idx_in,
    clean_text_u8idx_out, input_range_u16, test_does_not_lose_segments,
};
pub use settings::{Settings, DEFAULT_RATE};
pub use status::{StatusUtil, VoiceStatus};
pub use wide::ToWide;
