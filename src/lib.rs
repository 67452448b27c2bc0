//! Protocol core of a minimal HTTP/1.x endpoint: an incremental request
//! parser that tolerates arbitrary chunk boundaries, and a response encoder.
pub mod encoder;
pub mod external;
pub mod message;
pub mod parser;
pub mod properties;
