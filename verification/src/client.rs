//! The client-side view of the conversation.
//!
//! A client keeps the chat lines it has decoded, in arrival order, and
//! the most recent video frame; presentation of either is left entirely
//! to the rendering layer.

use vstd::prelude::*;
use crate::codec::{parse_msg, ser_msg};
use crate::message::{KimchiMessage, MsgV};

verus! {

/// The decoded state of one chat session: the message log and the latest
/// peer video frame's raw bytes.
pub struct Chat {
    pub messages: Vec<KimchiMessage>,
    pub video: Option<Vec<u8>>,
}

impl Chat {
    /// A session with nothing received yet.
    pub fn new() -> (c: Chat)
        ensures
            c.messages@.len() == 0,
            c.video is None,
    {
        Chat { messages: Vec::new(), video: None }
    }

    /// Apply one inbound frame: a video frame replaces the picture, any
    /// other message is appended to the log, and a frame that does not
    /// decode is ignored without ending the session.
    pub fn apply_frame(&mut self, frame: &str)
        ensures
            match parse_msg(frame@) {
                Some(m) => match m {
                    MsgV::Video { user, data } => final(self).messages == old(self).messages && (
                    final(self).video matches Some(v) && v@ == data),
                    _ => final(self).messages.deep_view() == old(self).messages.deep_view().push(m)
                        && final(self).video == old(self).video,
                },
                None => *final(self) == *old(self),
            },
    {
        let ghost pre_msgs = self.messages.deep_view();
        match KimchiMessage::from_str(frame) {
            Some(m) => match m {
                KimchiMessage::Video { user: _, data } => {
                    self.video = Some(data);
                },
                other => {
                    self.messages.push(other);
                    proof {
                        assert(self.messages.deep_view() =~= pre_msgs.push(
                            self.messages@[self.messages@.len() - 1].deep_view(),
                        ));
                    }
                },
            },
            None => {},
        }
    }

    /// Compose this user's own chat line: the line joins the sender's own
    /// log at once, and the encoded frame comes back for the wire.
    pub fn send_public(&mut self, user: &String, text: &String) -> (r: String)
        ensures
            final(self).video == old(self).video,
            final(self).messages.deep_view() == old(self).messages.deep_view().push(
                MsgV::Public { user: user@, message: text@ },
            ),
            r@ == ser_msg(MsgV::Public { user: user@, message: text@ }),
    {
        let ghost pre_msgs = self.messages.deep_view();
        let m = KimchiMessage::Public { user: user.clone(), message: text.clone() };
        self.messages.push(m.clone());
        proof {
            assert(self.messages.deep_view() =~= pre_msgs.push(
                self.messages@[self.messages@.len() - 1].deep_view(),
            ));
        }
        match KimchiMessage::to_str(&m) {
            Some(s) => s,
            None => String::new(),
        }
    }
}

} // verus!
