//! Parsers for shell history files.
//!
//! Every shell writes its history to disk in its own dialect. This crate
//! turns those dialects into a single [`HistoryEntry`] shape so callers
//! don't have to special-case bash vs zsh themselves, and writes entries
//! back out in each dialect.
//!
//! Each reader states what it returns through a mathematical model of the
//! text: `text::lines_of` splits it into lines, and each dialect's module
//! states which entries those lines hold (`bash::spec_parse_bash`,
//! `zsh::spec_parse_zsh`, `fish::spec_parse_fish`).

pub mod bash;
pub mod entry;
pub mod fish;
pub mod format;
pub mod num;
pub mod text;
pub mod zsh;

pub use bash::{iter as iter_bash, parse as parse_bash, write as write_bash, BashHistory};
pub use entry::HistoryEntry;
pub use fish::{iter as iter_fish, parse as parse_fish, write as write_fish, FishHistory};
pub use format::{detect, iter_auto, parse_auto, AutoHistory, HistoryFormat};
pub use zsh::{
    iter as iter_zsh_extended, parse as parse_zsh_extended, write as write_zsh_extended,
    ZshHistory,
};
