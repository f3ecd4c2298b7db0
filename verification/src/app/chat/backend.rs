use vstd::prelude::*;

use std::sync::mpsc;

verus! {

/// Who a wire message is attributed to, as the backend service names it.
#[derive(Debug, Clone, Copy, PartialEq, Eq, Structural)]
pub enum Role {
    User,
    Assistant,
}

/// One message of the context sent with a request, or carried by a
/// response fragment.
pub struct Message {
    pub role: Role,
    pub content: String,
}

/// Abstract value of a wire [`Message`].
#[verifier::ext_equal]
pub struct MessageView {
    pub role: Role,
    pub content: Seq<char>,
}

impl View for Message {
    type V = MessageView;

    open spec fn view(&self) -> MessageView {
        MessageView { role: self.role, content: self.content@ }
    }
}

/// One outbound request: the model to address and the full context.
pub struct ChatRequest {
    pub model: String,
    pub messages: Vec<Message>,
}

/// Abstract value of a [`ChatRequest`].
#[verifier::ext_equal]
pub struct RequestView {
    pub model: Seq<char>,
    pub messages: Seq<MessageView>,
}

impl View for ChatRequest {
    type V = RequestView;

    open spec fn view(&self) -> RequestView {
        RequestView { model: self.model@, messages: self.messages@.map_values(|m: Message| m@) }
    }
}

/// One incremental fragment of a streamed reply; the last one of a stream
/// carries `done == true`.
pub struct ChatResponse {
    pub model: String,
    pub message: Message,
    pub done: bool,
}

/// Abstract value of a [`ChatResponse`].
#[verifier::ext_equal]
pub struct ResponseView {
    pub model: Seq<char>,
    pub message: MessageView,
    pub done: bool,
}

impl View for ChatResponse {
    type V = ResponseView;

    open spec fn view(&self) -> ResponseView {
        ResponseView { model: self.model@, message: self.message@, done: self.done }
    }
}

/// What one non-blocking read of a session's response channel yielded.
pub enum RecvOutcome {
    /// A fragment was waiting.
    Fragment(ChatResponse),
    /// Nothing has arrived yet.
    Empty,
    /// Every sender is gone; no further fragment can come.
    Disconnected,
}

/// Abstract value of a [`RecvOutcome`].
#[verifier::ext_equal]
pub enum DrainEvent {
    Fragment(ResponseView),
    Empty,
    Disconnected,
}

impl View for RecvOutcome {
    type V = DrainEvent;

    open spec fn view(&self) -> DrainEvent {
        match self {
            RecvOutcome::Fragment(r) => DrainEvent::Fragment(r@),
            RecvOutcome::Empty => DrainEvent::Empty,
            RecvOutcome::Disconnected => DrainEvent::Disconnected,
        }
    }
}

#[verifier::external_type_specification]
#[verifier::external_body]
#[verifier::reject_recursive_types(T)]
pub struct ExSender<T>(mpsc::Sender<T>);

#[verifier::external_type_specification]
#[verifier::external_body]
#[verifier::reject_recursive_types(T)]
pub struct ExReceiver<T>(mpsc::Receiver<T>);

/// Relies on `std::sync::mpsc::channel`: returns a freshly connected
/// sender/receiver pair. Nothing further is assumed of the pair.
#[verifier::external_body]
pub(crate) fn response_channel() -> (mpsc::Sender<ChatResponse>, mpsc::Receiver<ChatResponse>) {
    mpsc::channel()
}

/// Relies on `std::sync::mpsc::Sender::clone`: the clone feeds the same
/// queue as the sender it was cloned from. Nothing is assumed of the
/// result.
#[verifier::external_body]
pub(crate) fn clone_sender(s: &mpsc::Sender<ChatResponse>) -> mpsc::Sender<ChatResponse> {
    s.clone()
}

/// Relies on `std::sync::mpsc::Sender::send`: hands the pair to whatever
/// holds the receiving end without blocking. A send to a channel whose
/// receiver is gone does nothing.
#[verifier::external_body]
pub(crate) fn dispatch_request(
    handle: &mpsc::Sender<(mpsc::Sender<ChatResponse>, ChatRequest)>,
    sender: mpsc::Sender<ChatResponse>,
    request: ChatRequest,
) {
    let _ = handle.send((sender, request));
}

/// Relies on `std::sync::mpsc::Receiver::try_recv`: returns a queued value
/// if one is ready, `Empty` if none is, and `Disconnected` once every
/// sender is gone. Which of the three comes back depends on the workers,
/// so nothing is assumed of the result.
#[verifier::external_body]
pub(crate) fn try_recv_response(r: &mpsc::Receiver<ChatResponse>) -> RecvOutcome {
    match r.try_recv() {
        Ok(v) => RecvOutcome::Fragment(v),
        Err(mpsc::TryRecvError::Empty) => RecvOutcome::Empty,
        Err(mpsc::TryRecvError::Disconnected) => RecvOutcome::Disconnected,
    }
}

} // verus!
