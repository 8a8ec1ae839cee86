//! Line matching for a `grep`-like tool: given a set of patterns and the
//! settings of a search, decide whether a line is wanted and where its matches
//! are.

pub mod alike_laws;
pub mod compiled_laws;
pub mod config;
pub mod engine;
pub mod error;
pub mod finder;
pub mod finite;
pub mod laws;
pub mod listing;
pub mod literal;
pub mod literal_engine;
pub mod literal_laws;
pub mod matcher;
pub mod merge;
pub mod onig_engine;
pub mod onig_laws;
pub mod oniguruma;
pub mod order_laws;
pub mod plain_laws;
pub mod reading_laws;
pub mod repeat;
pub mod search_laws;
pub mod set_laws;
pub mod utf8_laws;

pub use config::{Config, RegexMode};
pub use engine::{Engine, Span};
pub use error::{CompileError, EngineError, MatchError};
pub use literal::plain_literal;
pub use matcher::Matcher;
