use vstd::prelude::*;

use std::sync::mpsc;

pub mod backend;

use backend::ChatRequest;
use backend::ChatResponse;
use backend::DrainEvent;
use backend::RecvOutcome;
use backend::RequestView;
use backend::ResponseView;
use backend::Role;

verus! {

/// Who wrote a transcript entry.
#[derive(Debug, Clone, Copy, PartialEq, Eq, Structural)]
pub enum Author {
    User,
    Bot,
}

/// One transcript entry.
pub struct Message {
    pub author: Author,
    pub content: String,
}

/// Abstract value of a transcript [`Message`].
#[verifier::ext_equal]
pub struct MessageView {
    pub author: Author,
    pub content: Seq<char>,
}

impl View for Message {
    type V = MessageView;

    open spec fn view(&self) -> MessageView {
        MessageView { author: self.author, content: self.content@ }
    }
}

impl Message {
    pub fn new(author: Author, content: &str) -> (m: Message)
        ensures
            m@ == (MessageView { author, content: content@ }),
    {
        Message { author, content: String::from_str(content) }
    }
}

/// One named session: its transcript, its two state flags, and the
/// channel pair its streamed response fragments arrive on.
pub struct Chat {
    pub name: String,
    pub messages: Vec<Message>,
    pub locked: bool,
    pub triggered: bool,
    pub channel: (mpsc::Sender<ChatResponse>, mpsc::Receiver<ChatResponse>),
}

/// Abstract state of a [`Chat`]. The channel pair is opaque and has no
/// abstract value.
#[verifier::ext_equal]
pub struct ChatView {
    pub name: Seq<char>,
    pub messages: Seq<MessageView>,
    pub locked: bool,
    pub triggered: bool,
}

/// The abstract transcripts of a sequence of sessions.
pub open spec fn chat_views(s: Seq<Chat>) -> Seq<ChatView> {
    s.map_values(|c: Chat| c@)
}

impl View for Chat {
    type V = ChatView;

    open spec fn view(&self) -> ChatView {
        ChatView {
            name: self.name@,
            messages: self.messages@.map_values(|m: Message| m@),
            locked: self.locked,
            triggered: self.triggered,
        }
    }
}

/// How a transcript author is named on the wire.
pub open spec fn role_of(a: Author) -> Role {
    match a {
        Author::User => Role::User,
        Author::Bot => Role::Assistant,
    }
}

/// The transcript author a wire role stands for.
pub open spec fn author_of(r: Role) -> Author {
    match r {
        Role::User => Author::User,
        Role::Assistant => Author::Bot,
    }
}

/// The request a session emits: its name as the model, and its whole
/// transcript as the context, in order.
pub open spec fn request_of(c: ChatView) -> RequestView {
    RequestView {
        model: c.name,
        messages: c.messages.map_values(
            |m: MessageView| (backend::MessageView { role: role_of(m.author), content: m.content }),
        ),
    }
}

/// The transcript read back out of a request through the role mapping.
pub open spec fn transcript_of(r: RequestView) -> Seq<MessageView> {
    r.messages.map_values(
        |m: backend::MessageView| (MessageView { author: author_of(m.role), content: m.content }),
    )
}

/// Law: serializing a transcript into a request and mapping the roles
/// back preserves order and content verbatim.
pub proof fn lemma_request_round_trip(c: ChatView)
    ensures
        transcript_of(request_of(c)) == c.messages,
{
    assert(transcript_of(request_of(c)) =~= c.messages);
}

/// The trigger phase of one tick: a triggered session clears the flag,
/// locks, and emits exactly one request snapshot; any other session is
/// left alone.
pub open spec fn trigger_step(c: ChatView) -> (ChatView, Option<RequestView>) {
    if c.triggered {
        (ChatView { triggered: false, locked: true, ..c }, Some(request_of(c)))
    } else {
        (c, None)
    }
}

/// Merging one fragment's content: appended to the trailing bot message
/// if there is one, otherwise opening a new bot message.
pub open spec fn merge_fragment(msgs: Seq<MessageView>, content: Seq<char>) -> Seq<MessageView> {
    if msgs.len() > 0 && msgs.last().author == Author::Bot {
        msgs.update(
            msgs.len() - 1,
            MessageView { author: Author::Bot, content: msgs.last().content + content },
        )
    } else {
        msgs.push(MessageView { author: Author::Bot, content })
    }
}

/// The drain phase of one tick, given what the one non-blocking channel
/// read yielded: a fragment is merged and `locked` follows its `done`
/// flag; a disconnect unlocks; nothing arriving changes nothing.
pub open spec fn drain_step(c: ChatView, e: DrainEvent) -> ChatView {
    match e {
        DrainEvent::Empty => c,
        DrainEvent::Disconnected => ChatView { locked: false, ..c },
        DrainEvent::Fragment(r) => ChatView {
            locked: !r.done,
            messages: merge_fragment(c.messages, r.message.content),
            ..c
        },
    }
}

/// One whole per-session tick: the trigger phase, then, if the session is
/// then locked, the drain phase.
pub open spec fn chat_tick(c: ChatView, e: DrainEvent) -> ChatView {
    let t = trigger_step(c).0;
    if t.locked {
        drain_step(t, e)
    } else {
        t
    }
}

/// A session with `text` appended as a user message and the trigger set,
/// unless the session is locked, in which case the line is dropped for it
/// entirely.
pub open spec fn message_step(c: ChatView, text: Seq<char>) -> ChatView {
    if c.locked {
        c
    } else {
        ChatView {
            messages: c.messages.push(MessageView { author: Author::User, content: text }),
            triggered: true,
            ..c
        }
    }
}

/// Law: two fragments fed to a locked session whose transcript does not
/// end in a bot message coalesce into exactly one new bot message holding
/// the concatenated content; a final fragment leaves the session unlocked.
pub proof fn lemma_stream_coalesces(c: ChatView, r1: ResponseView, r2: ResponseView)
    requires
        c.locked,
        c.messages.len() == 0 || c.messages.last().author == Author::User,
        !r1.done,
        r2.done,
    ensures
        ({
            let c2 = drain_step(drain_step(c, DrainEvent::Fragment(r1)), DrainEvent::Fragment(r2));
            &&& c2.messages == c.messages.push(
                MessageView {
                    author: Author::Bot,
                    content: r1.message.content + r2.message.content,
                },
            )
            &&& !c2.locked
            &&& c2.name == c.name
            &&& c2.triggered == c.triggered
        }),
{
    let c1 = drain_step(c, DrainEvent::Fragment(r1));
    let c2 = drain_step(c1, DrainEvent::Fragment(r2));
    assert(c1.messages == c.messages.push(
        MessageView { author: Author::Bot, content: r1.message.content },
    ));
    assert(c2.messages =~= c.messages.push(
        MessageView { author: Author::Bot, content: r1.message.content + r2.message.content },
    ));
}

/// Law: a user message appended to an idle session triggers it, and the
/// next tick's trigger phase clears the flag, locks the session, and
/// emits exactly one request: the snapshot of the transcript with the
/// new message.
pub proof fn lemma_message_triggers_request(c: ChatView, text: Seq<char>)
    requires
        !c.locked,
        !c.triggered,
    ensures
        ({
            let c1 = message_step(c, text);
            &&& c1.triggered
            &&& trigger_step(c1).0.triggered == false
            &&& trigger_step(c1).0.locked
            &&& trigger_step(c1).1 == Some(request_of(c1))
        }),
{
}

impl Chat {
    /// A fresh idle session with the given name, an empty transcript, and
    /// its own new response channel.
    pub fn new(name: &str) -> (c: Chat)
        ensures
            c@ == (ChatView {
                name: name@,
                messages: Seq::empty(),
                locked: false,
                triggered: false,
            }),
    {
        let c = Chat {
            name: String::from_str(name),
            messages: Vec::new(),
            locked: false,
            triggered: false,
            channel: backend::response_channel(),
        };
        proof {
            assert(c@.messages =~= Seq::<MessageView>::empty());
        }
        c
    }

    /// The request snapshot of the current transcript.
    pub fn construct_request(&self) -> (r: ChatRequest)
        ensures
            r@ == request_of(self@),
    {
        let mut messages: Vec<backend::Message> = Vec::new();
        let mut i: usize = 0;
        while i < self.messages.len()
            invariant
                i <= self.messages@.len(),
                messages@.len() == i,
                forall|j: int|
                    0 <= j < i ==> #[trigger] messages@[j]@ == request_of(self@).messages[j],
            decreases self.messages@.len() - i,
        {
            let m = &self.messages[i];
            let role = match m.author {
                Author::User => Role::User,
                Author::Bot => Role::Assistant,
            };
            proof {
                assert(role == role_of(m@.author));
            }
            let ghost before = messages@;
            messages.push(backend::Message { role, content: m.content.clone() });
            proof {
                assert(request_of(self@).messages[i as int] == (backend::MessageView {
                    role: role_of(self@.messages[i as int].author),
                    content: self@.messages[i as int].content,
                }));
                assert forall|j: int|
                    0 <= j < i + 1 implies #[trigger] messages@[j]@ == request_of(
                    self@,
                ).messages[j] by {
                    if j < i {
                        assert(messages@[j] == before[j]);
                    } else {
                        assert(messages@[j]@ == (backend::MessageView {
                            role: role_of(m@.author),
                            content: m@.content,
                        }));
                    }
                }
            }
            i += 1;
        }
        let r = ChatRequest { model: self.name.clone(), messages };
        proof {
            assert(r@.messages =~= request_of(self@).messages);
            assert(r@ =~= request_of(self@));
        }
        r
    }

    /// The trigger phase: if and only if the session was triggered, the
    /// flag is cleared, the session locks, and the one request snapshot
    /// is returned for dispatch.
    pub fn take_request(&mut self) -> (r: Option<ChatRequest>)
        ensures
            final(self)@ == trigger_step(old(self)@).0,
            match r {
                Some(req) => trigger_step(old(self)@).1 == Some(req@),
                None => trigger_step(old(self)@).1 is None,
            },
    {
        if self.triggered {
            self.triggered = false;
            self.locked = true;
            let req = self.construct_request();
            proof {
                assert(request_of(self@) =~= request_of(old(self)@));
            }
            Some(req)
        } else {
            None
        }
    }

    /// The drain phase, applied to whatever one non-blocking read of the
    /// response channel yielded.
    pub fn apply_recv(&mut self, o: RecvOutcome)
        ensures
            final(self)@ == drain_step(old(self)@, o@),
    {
        match o {
            RecvOutcome::Empty => {},
            RecvOutcome::Disconnected => {
                self.locked = false;
            },
            RecvOutcome::Fragment(resp) => {
                self.locked = !resp.done;
                let n = self.messages.len();
                if n > 0 && self.messages[n - 1].author == Author::Bot {
                    let mut last = self.messages.pop().unwrap();
                    last.content.append(resp.message.content.as_str());
                    self.messages.push(last);
                    proof {
                        assert(self@.messages =~= merge_fragment(
                            old(self)@.messages,
                            resp.message.content@,
                        ));
                    }
                } else {
                    self.messages.push(Message { author: Author::Bot, content: resp.message.content });
                    proof {
                        assert(self@.messages =~= merge_fragment(
                            old(self)@.messages,
                            resp.message.content@,
                        ));
                    }
                }
            },
        }
    }

    /// One tick of this session: emit the request if triggered, then, if
    /// locked, drain one fragment. The returned ghost event says what the
    /// channel read yielded.
    pub fn reconsile(
        &mut self,
        request_handle: &mpsc::Sender<(mpsc::Sender<ChatResponse>, ChatRequest)>,
    ) -> (e: Ghost<DrainEvent>)
        ensures
            final(self)@ == chat_tick(old(self)@, e@),
    {
        let req = self.take_request();
        if let Some(request) = req {
            let sender = backend::clone_sender(&self.channel.0);
            backend::dispatch_request(request_handle, sender, request);
        }
        if self.locked {
            let o = backend::try_recv_response(&self.channel.1);
            let ghost ev = o@;
            self.apply_recv(o);
            Ghost(ev)
        } else {
            Ghost(DrainEvent::Empty)
        }
    }

    /// Empty the transcript, reset both flags, and swap in a brand-new
    /// response channel, so that a worker still writing to the old one
    /// goes unobserved.
    pub fn clear(&mut self)
        ensures
            final(self)@ == (ChatView {
                name: old(self)@.name,
                messages: Seq::empty(),
                locked: false,
                triggered: false,
            }),
    {
        self.messages.clear();
        self.triggered = false;
        self.locked = false;
        self.channel = backend::response_channel();
        proof {
            assert(self@.messages =~= Seq::<MessageView>::empty());
        }
    }

    /// Apply one typed line to this session: appended and triggering when
    /// the session is idle, dropped entirely when it is locked.
    pub fn apply_message(&mut self, text: &str)
        ensures
            final(self)@ == message_step(old(self)@, text@),
    {
        if !self.locked {
            self.messages.push(Message::new(Author::User, text));
            self.triggered = true;
            proof {
                assert(self@.messages =~= message_step(old(self)@, text@).messages);
            }
        }
    }
}

} // verus!
