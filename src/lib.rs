//! A calculator protocol over a byte stream: tag-length-value frames,
//! arithmetic operations on signed bytes, answers that carry a running
//! accumulator, and the per-connection session that ties them together.

pub mod answer;
pub mod operation;
pub mod session;
pub mod text;
pub mod tlv;

pub use answer::{Answer, AnswerOrder, InvalidOperation, Numberi64, TCPLibError};
pub use operation::{BinomialOperationData, MonomialOperationData, Operation, OperationError};
pub use session::Session;
pub use tlv::{Tlv, TlvError, TlvIterator, TlvType};
