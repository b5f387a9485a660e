//! Source positions for language tooling: byte offsets ([`BytePos`]),
//! half-open byte ranges ([`Span`]), resolved line/column coordinates
//! ([`LineCol`]), values tagged with their span ([`Spanned`]), and the
//! per-source [`LineIndex`] that maps between offsets and coordinates over
//! UTF-8 text with `\n` and `\r\n` line endings.
#![allow(unused_imports)]

pub mod index;
pub mod line_col;
pub mod lines;
pub mod pos;
pub mod span;
pub mod spanned;
pub mod text;

pub use index::LineIndex;
pub use line_col::LineCol;
pub use pos::BytePos;
pub use span::Span;
pub use spanned::Spanned;
