//! Parsing of URL-encoded query strings.
//!
//! Two results are offered: the ordered list of raw key/value pairs
//! ([`parse_query_string`]) and a typed object in which repeated keys are
//! gathered into arrays and each value is given the most specific type that
//! its text denotes ([`parse_query_string_to_json`]).
//!
//! A query string is refused as a whole where it is not UTF-8, and nowhere
//! else: a segment whose key or value does not percent-decode to UTF-8 is
//! kept as it stands, as a key with the empty value. A number with a
//! fraction or an exponent is kept as its decimal literal; which double is
//! nearest to it is left to the caller. A literal too large for a double
//! is no number and stays a string.

pub mod coerce;
pub mod decode;
pub mod escape;
pub mod finite;
pub mod json;
pub mod magnitude;
pub mod number;
pub mod query_string;
pub mod segment;
pub mod text;
pub mod value;

pub use coerce::Coercer;
pub use query_string::{parse_query_string, parse_query_string_to_json, DecodeError};
pub use value::TypedValue;
