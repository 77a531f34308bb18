//! Alignment of two tokenizations of the same, possibly noisy, text.
//!
//! Tokens are compared character by character after normalization. The
//! character-level correspondence is a shortest edit script between the two
//! normalized texts; token alignments and spans in an original text are
//! projections of that correspondence through the token boundaries.
//!
//! * [`get_alignments`] aligns the tokens of two tokenizations.
//! * [`get_charmap`] aligns the characters of two texts.
//! * [`get_original_spans`] finds the span of each token in the text that
//!   the tokens were derived from.
//!
//! The projections are proved. Three things are taken from elsewhere and
//! believed: the edit script, which the crate `seqdiff` computes (see
//! [`edit`]), and the lowercasing and the compatibility decomposition of a
//! text, which the standard library and the crate `unicode-normalization`
//! compute (see [`text`]).

pub mod alignment;
pub mod charmap;
pub mod edit;
pub mod spans;
pub mod text;
pub mod tokens;

pub use alignment::{get_alignment, get_alignments, Alignment};
pub use charmap::{get_charmap, CharMap};
pub use spans::{get_original_spans, resolve_span, resolve_spans};
pub use text::{join, normalize};
pub use tokens::{get_char2token, get_span_indices};
