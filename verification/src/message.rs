//! The chat event carried on the wire, as a closed tagged union.
//!
//! Every variant carries the `user` label the sender chose for itself; the
//! relay passes it through unchecked. Values are immutable once built and
//! cross the wire as self-contained frames.

use vstd::prelude::*;

verus! {

/// The mathematical value of a message: the variant together with the
/// contents of its fields.
pub enum MsgV {
    Joined { user: Seq<char> },
    Public { user: Seq<char>, message: Seq<char> },
    Private { user: Seq<char>, to_user: Seq<char>, message: Seq<char> },
    Video { user: Seq<char>, data: Seq<u8> },
}

/// One chat event.
///
/// `Joined` announces a display name, `Public` is a chat line for all,
/// `Private` is addressed to one recipient (the relay still broadcasts it
/// to everyone), and `Video` carries one encoded image frame as an opaque
/// byte payload.
#[derive(Debug)]
pub enum KimchiMessage {
    Joined { user: String },
    Public { user: String, message: String },
    Private { user: String, to_user: String, message: String },
    Video { user: String, data: Vec<u8> },
}

impl View for KimchiMessage {
    type V = MsgV;

    open spec fn view(&self) -> MsgV {
        match self {
            KimchiMessage::Joined { user } => MsgV::Joined { user: user@ },
            KimchiMessage::Public { user, message } => MsgV::Public {
                user: user@,
                message: message@,
            },
            KimchiMessage::Private { user, to_user, message } => MsgV::Private {
                user: user@,
                to_user: to_user@,
                message: message@,
            },
            KimchiMessage::Video { user, data } => MsgV::Video { user: user@, data: data@ },
        }
    }
}

impl DeepView for KimchiMessage {
    type V = MsgV;

    open spec fn deep_view(&self) -> MsgV {
        self.view()
    }
}

impl Clone for KimchiMessage {
    /// A clone denotes the same message value.
    fn clone(&self) -> (r: Self)
        ensures
            r@ == self@,
    {
        match self {
            KimchiMessage::Joined { user } => KimchiMessage::Joined { user: user.clone() },
            KimchiMessage::Public { user, message } => KimchiMessage::Public {
                user: user.clone(),
                message: message.clone(),
            },
            KimchiMessage::Private { user, to_user, message } => KimchiMessage::Private {
                user: user.clone(),
                to_user: to_user.clone(),
                message: message.clone(),
            },
            KimchiMessage::Video { user, data } => KimchiMessage::Video {
                user: user.clone(),
                data: clone_bytes(data),
            },
        }
    }
}

/// Byte-for-byte copy of a payload.
fn clone_bytes(data: &Vec<u8>) -> (r: Vec<u8>)
    ensures
        r@ == data@,
{
    let mut r: Vec<u8> = Vec::new();
    let mut i: usize = 0;
    while i < data.len()
        invariant
            i <= data.len(),
            r@ == data@.take(i as int),
        decreases data.len() - i,
    {
        r.push(data[i]);
        proof {
            assert(data@.take(i + 1 as int) =~= data@.take(i as int).push(data@[i as int]));
        }
        i = i + 1;
    }
    proof {
        assert(data@.take(data.len() as int) =~= data@);
    }
    r
}

/// Byte-for-byte equality of two payloads.
fn bytes_eq(a: &Vec<u8>, b: &Vec<u8>) -> (r: bool)
    ensures
        r == (a@ == b@),
{
    if a.len() != b.len() {
        return false;
    }
    let mut i: usize = 0;
    while i < a.len()
        invariant
            i <= a.len(),
            a@.len() == b@.len(),
            forall|j: int| 0 <= j < i ==> a@[j] == b@[j],
        decreases a.len() - i,
    {
        if a[i] != b[i] {
            return false;
        }
        i = i + 1;
    }
    proof {
        assert(a@ =~= b@);
    }
    true
}

impl PartialEq for KimchiMessage {
    /// Two messages are equal when they are the same variant with equal
    /// field contents.
    fn eq(&self, other: &Self) -> (r: bool) {
        let r = match (self, other) {
            (KimchiMessage::Joined { user: u1 }, KimchiMessage::Joined { user: u2 }) => *u1 == *u2,
            (
                KimchiMessage::Public { user: u1, message: m1 },
                KimchiMessage::Public { user: u2, message: m2 },
            ) => *u1 == *u2 && *m1 == *m2,
            (
                KimchiMessage::Private { user: u1, to_user: t1, message: m1 },
                KimchiMessage::Private { user: u2, to_user: t2, message: m2 },
            ) => *u1 == *u2 && *t1 == *t2 && *m1 == *m2,
            (
                KimchiMessage::Video { user: u1, data: d1 },
                KimchiMessage::Video { user: u2, data: d2 },
            ) => *u1 == *u2 && bytes_eq(d1, d2),
            _ => false,
        };
        proof {
            assert(r == (self@ == other@));
        }
        r
    }
}

impl vstd::std_specs::cmp::PartialEqSpecImpl for KimchiMessage {
    open spec fn obeys_eq_spec() -> bool {
        true
    }

    open spec fn eq_spec(&self, other: &Self) -> bool {
        self@ == other@
    }
}

} // verus!
