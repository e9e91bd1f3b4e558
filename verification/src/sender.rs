//! Deciding what to do with the callbacks that arrive, by the key file last
//! read.
use vstd::prelude::*;

use crate::keyfile::{description, Callback, CallbackView, FalconKeyfile, FalconKeyfileView};
use crate::messages::{Message, MessageView};

verus! {

/// What to do about a message.
#[derive(Debug)]
pub enum SenderAction {
    /// Strike the keys of this callback.
    Invoke(Callback),
    /// The key file binds no callback of this name.
    UnknownCallback(String),
    /// Nothing: no key file has been read yet.
    Ignore,
    /// A key file was taken up; this line describes it.
    KeyfileLoaded(String),
}

/// An action, as plain values.
pub enum SenderActionView {
    Invoke(CallbackView),
    UnknownCallback(Seq<char>),
    Ignore,
    KeyfileLoaded(Seq<char>),
}

impl View for SenderAction {
    type V = SenderActionView;

    open spec fn view(&self) -> SenderActionView {
        match self {
            SenderAction::Invoke(c) => SenderActionView::Invoke(c@),
            SenderAction::UnknownCallback(name) => SenderActionView::UnknownCallback(name@),
            SenderAction::Ignore => SenderActionView::Ignore,
            SenderAction::KeyfileLoaded(line) => SenderActionView::KeyfileLoaded(line@),
        }
    }
}

/// The key file held after `message` arrives where `held` was held: a key
/// file that arrives replaces the one held.
pub open spec fn next_key_file(held: Option<FalconKeyfileView>, message: MessageView) -> Option<
    FalconKeyfileView,
> {
    match message {
        MessageView::CallbackReceived(_) => held,
        MessageView::KeyfileRead(k) => Some(k),
    }
}

/// What is done about `message` where `held` is the key file held: a
/// callback is struck where the key file binds its name, reported unknown
/// where it does not, and passed over where no key file is held yet; a key
/// file that arrives is described.
pub open spec fn action_for(held: Option<FalconKeyfileView>, message: MessageView) -> SenderActionView {
    match message {
        MessageView::CallbackReceived(name) => match held {
            None => SenderActionView::Ignore,
            Some(k) => if k.callbacks.dom().contains(name) {
                SenderActionView::Invoke(k.callbacks[name])
            } else {
                SenderActionView::UnknownCallback(name)
            },
        },
        MessageView::KeyfileRead(k) => SenderActionView::KeyfileLoaded(description(k)),
    }
}

/// A callback that arrives after a key file is struck as that key file binds
/// it, or reported unknown where the key file does not bind it, whatever key
/// file was held before.
pub proof fn lemma_callbacks_follow_last_key_file(
    held: Option<FalconKeyfileView>,
    key_file: FalconKeyfileView,
    name: Seq<char>,
)
    ensures
        ({
            let after = next_key_file(held, MessageView::KeyfileRead(key_file));
            action_for(after, MessageView::CallbackReceived(name)) == if key_file.callbacks.dom().contains(
                name,
            ) {
                SenderActionView::Invoke(key_file.callbacks[name])
            } else {
                SenderActionView::UnknownCallback(name)
            }
        }),
{
}

/// A callback that arrives leaves the key file held as it was.
pub proof fn lemma_callbacks_keep_key_file(held: Option<FalconKeyfileView>, name: Seq<char>)
    ensures
        next_key_file(held, MessageView::CallbackReceived(name)) == held,
{
}

/// Turns the callbacks that arrive into keystrokes, by the key file that was
/// read last.
pub struct CallbackSender {
    key_file: Option<FalconKeyfile>,
}

impl View for CallbackSender {
    type V = Option<FalconKeyfileView>;

    closed spec fn view(&self) -> Option<FalconKeyfileView> {
        match self.key_file {
            Some(k) => Some(k@),
            None => None,
        }
    }
}

impl CallbackSender {
    /// A sender that knows no key file yet.
    pub fn new() -> (r: CallbackSender)
        ensures
            r@ is None,
    {
        CallbackSender { key_file: None }
    }

    /// Takes in one message: a key file replaces the one held; a callback is
    /// looked up in the key file held.
    pub fn handle_message(&mut self, message: Message) -> (action: SenderAction)
        ensures
            final(self)@ == next_key_file(old(self)@, message@),
            action@ == action_for(old(self)@, message@),
    {
        match message {
            Message::CallbackReceived { callback } => {
                match &self.key_file {
                    None => SenderAction::Ignore,
                    Some(kf) => match kf.callback(callback.as_str()) {
                        Some(c) => SenderAction::Invoke(c),
                        None => SenderAction::UnknownCallback(callback),
                    },
                }
            },
            Message::KeyfileRead { key_file } => {
                let line = key_file.describe();
                self.key_file = Some(key_file);
                SenderAction::KeyfileLoaded(line)
            },
        }
    }
}

} // verus!
