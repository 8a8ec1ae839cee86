//! What a search was asked for.

use vstd::prelude::*;

verus! {

/// How the pattern text is read.
#[derive(Clone, Copy, Debug, PartialEq, Eq, Structural)]
pub enum RegexMode {
    /// The text stands for itself (`-F`).
    Fixed,
    /// POSIX basic regular expressions (`-G`).
    Basic,
    /// POSIX extended regular expressions (`-E`).
    Extended,
    /// Perl-compatible regular expressions (`-P`).
    Perl,
}

/// The settings of one search.
#[derive(Clone, Copy, Debug)]
pub struct Config<'a> {
    /// The patterns, any of which may match.
    pub patterns: &'a [String],
    /// The syntax in which every pattern is written.
    pub regex_mode: RegexMode,
    /// Letters match whatever their case (`-i`).
    pub ignore_case: bool,
    /// Lines end in a NUL byte, so that a newline is ordinary data (`-z`).
    pub null_data: bool,
    /// Only matches that span the whole line count (`-x`).
    pub line_regexp: bool,
    /// Only matches that no word character touches count (`-w`).
    pub word_regexp: bool,
    /// Lines that do not match are the ones wanted (`-v`).
    pub invert_match: bool,
}

} // verus!
