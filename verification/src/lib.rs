//! A reader of JSON texts.
//!
//! A text is cut into tokens ([`lexer`]), which are read as a value ([`parser`]). Numbers and strings
//! get their meaning in [`number`] and [`token`]; floating-point numbers are rounded in [`double`],
//! with the natural numbers of any size of [`natural`]. What can be wrong with a text is told in
//! [`error`], and values are in [`value`]. Each function states what it gives over a model of its
//! arguments: a text is a sequence of characters, and a value a `JsonModel`.
//!
//! The other modules say what follows for whole texts. [`document`] defines what a JSON document is
//! and shows that its tokens are read as its value, [`layout`] that they are found in a text whatever
//! whitespace stands between them, and [`soundness`] that nothing else is read where every brace and
//! bracket is closed. [`order`] shows where in the text the tokens stand, [`structure`] how deep
//! values nest and what objects and arrays hold, [`scalars`] that integers and strings are read back
//! from how they are written, and [`writing`] that whole values are. [`literals`] says what numbers are
//! worth by their digits, [`strings`] what characters stand for however they are written, [`words`]
//! which words there are, [`faults`] where reading goes wrong and how that is told, [`messages`] how
//! errors are told in words, and [`comparison`] when values are equal.

pub mod comparison;
pub mod document;
pub mod double;
pub mod error;
pub mod faults;
pub mod layout;
pub mod lexer;
pub mod literals;
pub mod messages;
pub mod natural;
pub mod number;
pub mod order;
pub mod parser;
pub mod scalars;
pub mod soundness;
pub mod strings;
pub mod structure;
pub mod text;
pub mod token;
pub mod value;
pub mod words;
pub mod writing;

pub use double::Double;
pub use error::JsonError;
pub use parser::Reading;
pub use token::{Token, TokenType};
pub use value::{JsonObject, JsonValue};
