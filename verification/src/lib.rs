//! Rewrites the text of every paragraph of an HTML fragment to upper or
//! lower case, and leaves the markup and all other text as they are.
//!
//! A fragment is parsed into a [`dom::Document`], an owned tree of
//! elements, text and comments, in which [`select`] finds elements by
//! their tag. [`transform::apply_case`] selects the paragraph elements of
//! that tree and rewrites the text below each of them;
//! [`transform::render_body`] writes what the body then holds.
//! [`transform::transform`] is the whole way from markup to markup.
//!
//! What is proved, and what is taken on trust:
//!
//! - Every function that walks or changes a tree has a contract that says
//!   exactly which tree comes out. [`case::cased`] is the transform as a
//!   mathematical function, and [`laws`] holds what follows from it.
//! - Parsing and writing markup are the work of kuchikiki, and the case
//!   mapping is that of the standard library. Their results are named in
//!   [`markup`] and [`text`] and not described further. What the standard
//!   library takes for white space is written out in [`text`]. The small
//!   functions there that make these calls are the only code that is not
//!   verified.

pub mod case;
pub mod dom;
pub mod error;
pub mod laws;
pub mod markup;
pub mod passes;
pub mod select;
pub mod text;
pub mod transform;
