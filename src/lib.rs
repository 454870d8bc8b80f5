//! Cascade and block layout core of a small browser engine.
//!
//! - [`css`]: values, selectors and rulesets as the stylesheet parser gives them.
//! - [`dom`]: the document tree as the document parser gives it.
//! - [`style`]: the cascade, from a document tree and rulesets to a styled tree.
//! - [`properties`]: padding, margins and borders read from a style map.
//! - [`layout`]: the box tree and its geometry.
//! - [`parsing`]: quoted strings of the stylesheet grammar.
//! - [`px`] and [`text`]: saturating pixel arithmetic and string comparisons.
pub mod css;
pub mod dom;
pub mod layout;
pub mod parsing;
pub mod properties;
pub mod px;
pub mod style;
pub mod text;
