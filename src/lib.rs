//! Extraction of UDP datagram records from the line-per-field JSON text that
//! a packet capture exporter writes, without a JSON parser: a state machine
//! over lines that tracks five fields and emits a record per payload.
pub mod extractor;
pub mod lemmas;
pub mod numeric;
pub mod text;
