//! A compiler core for a minimal character-based language: a lexer that
//! resolves nested loop boundaries into matched id pairs, a peephole
//! optimizer that rewrites the token sequence to a fixpoint, and a
//! profile-driven assembly text generator.

pub mod lex;
pub mod names;
pub mod optimise;
pub mod profile;
pub mod strutil;
