//! A troll's hunting record: which elves it has slain, how often, and the
//! score those kills are worth.
//!
//! [`elf::Elf`] is the quarry, valued by race and role. [`troll::Troll`] is the
//! hunter; each of its operations is specified against [`tally::Tally`], the
//! mathematical record of its kills.

pub mod elf;
pub mod tally;
pub mod troll;
