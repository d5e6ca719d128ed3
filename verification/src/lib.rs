//! An interactive currency-conversion client library.
//!
//! The library holds the request/response pipeline of the client: classifying
//! the outcome of an HTTP fetch, decoding the JSON rate document into a
//! [`parser::RateMapping`], parsing user input, building request URLs, and
//! formatting conversion results. Network and console I/O stay outside; the
//! library takes their outcomes as plain values.

pub mod api;
pub mod config;
pub mod currency_converter;
pub mod decimal;
pub mod parser;
