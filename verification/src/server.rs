//! What a datagram that arrives asks for.
use vstd::prelude::*;

use crate::messages::Message;
use crate::text::{chars_of, string_from_chars, trim, trimmed};

verus! {

/// The message that a datagram with the text `text` carries: the callback
/// named by the text without surrounding whitespace, where that is not empty.
pub fn message_from_datagram(text: &str) -> (r: Option<Message>)
    ensures
        match r {
            Some(Message::CallbackReceived { callback }) => trim(text@).len() > 0 && callback@
                == trim(text@),
            Some(Message::KeyfileRead { .. }) => false,
            None => trim(text@).len() == 0,
        },
{
    let chars = chars_of(text);
    let name = trimmed(&chars);
    if name.len() > 0 {
        Some(Message::CallbackReceived { callback: string_from_chars(&name) })
    } else {
        None
    }
}

} // verus!
