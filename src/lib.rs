//! A probe engine for game and application endpoints: a small scripting
//! language that describes request/response exchanges, with verified
//! packet framing, response parsing, script parsing and label rendering.

// Text, numbers and wire encodings.
pub mod text;
pub mod number;
pub mod lexicon;
pub mod codec;

// Values and the variable table.
pub mod value;
pub mod vars;

// The script language: its structure and parser, and the code sub-language.
pub mod packet_parser;
pub mod code;

// Building requests, reading responses, and their agreement.
pub mod builder;
pub mod response;
pub mod roundtrip;
pub mod http;

// Running code blocks, rendering output, and running a probe.
pub mod interp;
pub mod output;
pub mod probe;

// The single-packet format, stored records and metrics helpers.
pub mod packet;
pub mod models;
pub mod db;
pub mod metrics;
