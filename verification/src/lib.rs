//! Collapses the indented call-graph text written by a sampling profiler
//! into folded stacks: one line per unique call path, each carrying the
//! aggregate number of samples observed on exactly that path.
//!
//! The engine is split into small verified pieces:
//! - [`strutil`]: character-level searching, trimming and decimal parsing
//!   on `&str`, each tied to a spec function over `Seq<char>`;
//! - [`demangle`]: the narrow fix-up that strips a trailing hash from a
//!   partially demangled symbol name;
//! - [`occurrences`]: the accumulating map from folded-stack key to its
//!   total sample count;
//! - [`sample`]: the stack-building state machine, field parser, section
//!   scanner and applicability detector.

pub mod demangle;
pub mod occurrences;
pub mod sample;
pub mod strutil;
