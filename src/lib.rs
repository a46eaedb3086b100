//! A client library for the mux session protocol: a framed, tagged and
//! multiplexed binary transport that carries opaque payloads between peers
//! over one duplex byte stream.
//!
//! The wire codec turns messages into bytes and back, and the session state
//! machine decides how replies are routed to the callers that wait for them.
mod bytes;
pub mod codec;
mod dtab;
mod error;
mod message;
pub mod session;
pub mod types;

pub use dtab::{Dentry, DentryView, Dtab};
pub use error::{Error, ErrorKind};
pub use message::{
    Contexts, Duration, FrameView, Headers, Init, InitView, Message, MessageFrame, MessageView,
    Rdispatch, RdispatchView, Rerr, Rmsg, RmsgView, Tag, Tdiscarded, Tdispatch, TdispatchView,
    Tlease, Treq, TreqView, MAX_TAG,
};
