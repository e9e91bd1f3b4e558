//! What the parts of the program tell each other.
use vstd::prelude::*;

use crate::keyfile::{FalconKeyfile, FalconKeyfileView};

verus! {

#[derive(Debug)]
pub enum Message {
    /// Sent when we received a callback
    CallbackReceived { callback: String },
    /// Sent whenever a new key file has been read
    KeyfileRead { key_file: FalconKeyfile },
}

/// A message, as plain values.
pub enum MessageView {
    CallbackReceived(Seq<char>),
    KeyfileRead(FalconKeyfileView),
}

impl View for Message {
    type V = MessageView;

    open spec fn view(&self) -> MessageView {
        match self {
            Message::CallbackReceived { callback } => MessageView::CallbackReceived(callback@),
            Message::KeyfileRead { key_file } => MessageView::KeyfileRead(key_file@),
        }
    }
}

} // verus!
