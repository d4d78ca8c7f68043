//! Reliability engine of a datagram streaming protocol: wire codec, sender
//! window with selective and timeout retransmission, and receiver reorder
//! buffer with delayed in-order playout.
pub mod seqnum;
pub mod codec;
pub mod sender;
pub mod receiver;
pub mod packet;
pub mod clock;
