//! Wire codec for a small slice of an exchange's public WebSocket API:
//! subscription requests and responses, and the trade-tick event.
//!
//! Each message type maps between a strongly typed in-memory record and a
//! compact JSON wire text. Encoding is exact — fixed key order, no
//! whitespace, strings escaped as the wire expects — and proved to produce
//! precisely that text. Decoding accepts the wire grammar (members in any
//! order, surrounding whitespace, each recognized key at most once) and is
//! proved to return, for every input, exactly the value or the
//! [`error::DecodeError`] that its specification names. Encoding followed
//! by decoding is proved to give the record back.
//!
//! There is no network I/O and no connection state here: callers hand in
//! wire text and take back typed values, or the other way round.
//!
//! - [`request`]: the subscription request, its builder and its codec
//! - [`response`]: the subscription response, with the null-versus-empty
//!   `result` distinction
//! - [`trade`]: the trade tick, keyed by single-letter wire tags
//! - [`decimal`]: exact decimal numbers for the price and quantity strings
//! - [`coerce`]: the reusable string-or-boolean decode strategy
//! - [`error`]: the decode error taxonomy
//! - [`jstring`], [`value`], [`scan`], [`text`]: the JSON string, token
//!   and scanning layer the codecs are built on

pub mod coerce;
pub mod decimal;
pub mod error;
pub mod jstring;
pub mod request;
pub mod response;
pub mod scan;
pub mod text;
pub mod trade;
pub mod value;
