//! A DNS message codec and forwarding resolver core.
//!
//! Wire-format encoding and decoding of headers, questions and answers
//! (including compressed names), the message transformations used to answer
//! locally or to forward, and the state machine that merges forwarded answers.
pub mod answer;
pub mod bytes;
pub mod forward;
pub mod header;
pub mod labels;
pub mod message;
pub mod question;
pub mod types;

pub use answer::Answer;
pub use forward::Forwarding;
pub use header::Header;
pub use labels::{decode_name, encode_name, LabelDecompression};
pub use message::Message;
pub use question::Question;
pub use types::{QClass, QRIndicator, QType, WireError};
