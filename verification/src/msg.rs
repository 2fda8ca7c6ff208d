//! The protocol envelope: one complete message with its tagged payload,
//! and the mathematical views the contracts are stated over.

use vstd::prelude::*;

verus! {

/// The tagged content of a message body, identifying the message intent.
///
/// `Init` and `Generate` are requests this node answers; `InitOk` and
/// `GenerateOk` are the acknowledgments it sends (and accepts silently
/// when they arrive as input).
#[derive(Debug)]
pub enum Payload {
    Generate,
    GenerateOk { id: usize },
    Init { node_id: String, node_ids: Vec<String> },
    InitOk,
}

/// The body of a message: a payload plus the two correlation fields.
///
/// `msg_id` is present on requests that expect a reply; `in_reply_to`, when
/// present, equals the `msg_id` of the message being answered. An absent
/// field is distinct from a present zero.
#[derive(Debug)]
pub struct Body {
    pub payload: Payload,
    pub msg_id: Option<usize>,
    pub in_reply_to: Option<usize>,
}

/// One complete protocol message: source, destination, body.
#[derive(Debug)]
pub struct Message {
    pub src: String,
    pub dest: String,
    pub body: Body,
}

/// Mathematical model of a [`Payload`]: strings become character sequences.
pub enum PayloadView {
    Generate,
    GenerateOk { id: usize },
    Init { node_id: Seq<char>, node_ids: Seq<Seq<char>> },
    InitOk,
}

/// Mathematical model of a [`Body`].
pub struct BodyView {
    pub payload: PayloadView,
    pub msg_id: Option<usize>,
    pub in_reply_to: Option<usize>,
}

/// Mathematical model of a [`Message`].
pub struct MessageView {
    pub src: Seq<char>,
    pub dest: Seq<char>,
    pub body: BodyView,
}

impl View for Payload {
    type V = PayloadView;

    open spec fn view(&self) -> PayloadView {
        match self {
            Payload::Generate => PayloadView::Generate,
            Payload::GenerateOk { id } => PayloadView::GenerateOk { id: *id },
            Payload::Init { node_id, node_ids } => PayloadView::Init {
                node_id: node_id@,
                node_ids: node_ids.deep_view(),
            },
            Payload::InitOk => PayloadView::InitOk,
        }
    }
}

impl View for Body {
    type V = BodyView;

    open spec fn view(&self) -> BodyView {
        BodyView { payload: self.payload@, msg_id: self.msg_id, in_reply_to: self.in_reply_to }
    }
}

impl View for Message {
    type V = MessageView;

    open spec fn view(&self) -> MessageView {
        MessageView { src: self.src@, dest: self.dest@, body: self.body@ }
    }
}

/// The reply that answers request `req` with payload `p`: source and
/// destination swapped, no `msg_id` of its own, `in_reply_to` echoing the
/// request's `msg_id`.
pub open spec fn reply_view(req: MessageView, p: PayloadView) -> MessageView {
    MessageView {
        src: req.dest,
        dest: req.src,
        body: BodyView { payload: p, msg_id: None, in_reply_to: req.body.msg_id },
    }
}

} // verus!
