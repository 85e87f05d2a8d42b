//! Line-oriented template expansion for project scaffolding, together with an
//! option-compatibility resolver.
//!
//! The expander is a small preprocessor over template text: nested
//! `IF`/`ELIF`/`ELSE`/`ENDIF` regions driven by a tiny boolean expression
//! language over a single predicate (`option(name)`), single-shot token
//! replacement (`REPLACE`), and file-level inclusion and renaming directives
//! (`INCLUDEFILE`, `INCLUDE_AS`).
//!
//! The resolver validates a caller-supplied selection of option names against
//! a tree-shaped option catalog and a target platform, collecting every
//! violation instead of stopping at the first.

pub mod block;
pub mod bytes;
pub mod expr;
pub mod options;
pub mod resolver;
pub mod vcs;
pub mod template;

pub use block::BlockKind;
