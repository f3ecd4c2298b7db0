use std::sync::mpsc;

use chattui::app::chat::Author;
use chattui::app::chat::Chat;
use chattui::app::chat::Message;
use chattui::app::chat::backend::ChatResponse;
use chattui::app::chat::backend::RecvOutcome;
use chattui::app::chat::backend::Role;

fn fragment(content: &str, done: bool) -> ChatResponse {
    ChatResponse {
        model: "bot1".to_string(),
        message: chattui::app::chat::backend::Message {
            role: Role::Assistant,
            content: content.to_string(),
        },
        done,
    }
}

#[test]
fn new_chat_is_idle() {
    let c = Chat::new("bot1");
    assert_eq!(c.name, "bot1");
    assert!(c.messages.is_empty());
    assert!(!c.locked);
    assert!(!c.triggered);
}

#[test]
fn message_triggers_idle_session() {
    let mut c = Chat::new("bot1");
    c.apply_message("hello");
    assert!(c.triggered);
    assert!(!c.locked);
    assert_eq!(c.messages.len(), 1);
    assert!(c.messages[0].author == Author::User);
    assert_eq!(c.messages[0].content, "hello");
}

#[test]
fn message_to_locked_session_is_dropped() {
    let mut c = Chat::new("bot1");
    c.locked = true;
    c.apply_message("hello");
    assert!(!c.triggered);
    assert!(c.messages.is_empty());
}

#[test]
fn take_request_emits_snapshot_once() {
    let mut c = Chat::new("bot1");
    c.apply_message("hello");
    let req = c.take_request().expect("a triggered session emits a request");
    assert!(!c.triggered);
    assert!(c.locked);
    assert_eq!(req.model, "bot1");
    assert_eq!(req.messages.len(), 1);
    assert!(req.messages[0].role == Role::User);
    assert_eq!(req.messages[0].content, "hello");
    // The flag fired exactly once.
    assert!(c.take_request().is_none());
}

#[test]
fn reconsile_dispatches_exactly_one_request() {
    let (tx, rx) = mpsc::channel();
    let mut c = Chat::new("bot1");
    c.apply_message("hello");
    let _ = c.reconsile(&tx);
    let (_sender, req) = rx.try_recv().expect("one request is dispatched");
    assert_eq!(req.model, "bot1");
    assert!(rx.try_recv().is_err());
    // The next tick, still locked with nothing arrived, dispatches nothing.
    let _ = c.reconsile(&tx);
    assert!(rx.try_recv().is_err());
    assert!(c.locked);
}

#[test]
fn fragments_coalesce_into_one_bot_message() {
    let mut c = Chat::new("bot1");
    c.messages.push(Message::new(Author::User, "hello"));
    c.locked = true;
    c.apply_recv(RecvOutcome::Fragment(fragment("Hel", false)));
    assert!(c.locked);
    assert_eq!(c.messages.len(), 2);
    c.apply_recv(RecvOutcome::Fragment(fragment("lo", true)));
    assert!(!c.locked);
    assert_eq!(c.messages.len(), 2);
    assert!(c.messages[1].author == Author::Bot);
    assert_eq!(c.messages[1].content, "Hello");
}

#[test]
fn empty_final_fragment_is_tolerated() {
    let mut c = Chat::new("bot1");
    c.messages.push(Message::new(Author::User, "hello"));
    c.locked = true;
    c.apply_recv(RecvOutcome::Fragment(fragment("Hi", false)));
    c.apply_recv(RecvOutcome::Fragment(fragment("", true)));
    assert!(!c.locked);
    assert_eq!(c.messages.len(), 2);
    assert_eq!(c.messages[1].content, "Hi");
}

#[test]
fn empty_read_changes_nothing() {
    let mut c = Chat::new("bot1");
    c.messages.push(Message::new(Author::User, "hello"));
    c.locked = true;
    c.apply_recv(RecvOutcome::Empty);
    assert!(c.locked);
    assert_eq!(c.messages.len(), 1);
}

#[test]
fn disconnect_unlocks_and_keeps_partial_answer() {
    let mut c = Chat::new("bot1");
    c.messages.push(Message::new(Author::User, "hello"));
    c.locked = true;
    c.apply_recv(RecvOutcome::Fragment(fragment("par", false)));
    c.apply_recv(RecvOutcome::Disconnected);
    assert!(!c.locked);
    assert_eq!(c.messages.len(), 2);
    assert_eq!(c.messages[1].content, "par");
}

#[test]
fn streamed_fragments_arrive_through_the_channel() {
    let (tx, _rx) = mpsc::channel();
    let mut c = Chat::new("bot1");
    c.apply_message("hello");
    let _ = c.reconsile(&tx);
    assert!(c.locked);
    c.channel.0.send(fragment("Hel", false)).unwrap();
    c.channel.0.send(fragment("lo", true)).unwrap();
    let _ = c.reconsile(&tx);
    let _ = c.reconsile(&tx);
    assert!(!c.locked);
    assert_eq!(c.messages.len(), 2);
    assert_eq!(c.messages[1].content, "Hello");
}

#[test]
fn clear_resets_and_orphans_the_old_channel() {
    let (tx, _rx) = mpsc::channel();
    let mut c = Chat::new("bot1");
    c.apply_message("hello");
    let _ = c.reconsile(&tx);
    assert!(c.locked);
    let old_sender = c.channel.0.clone();
    c.clear();
    assert!(c.messages.is_empty());
    assert!(!c.locked);
    assert!(!c.triggered);
    assert_eq!(c.name, "bot1");
    // A worker still holding the old sender writes into the void: the old
    // receiver is gone, and even a locked tick on the fresh channel sees
    // nothing of it.
    assert!(old_sender.send(fragment("ghost", true)).is_err());
    c.locked = true;
    let _ = c.reconsile(&tx);
    assert!(c.messages.is_empty());
}

#[test]
fn request_round_trips_through_role_mapping() {
    let mut c = Chat::new("bot1");
    c.messages.push(Message::new(Author::User, "question"));
    c.messages.push(Message::new(Author::Bot, "answer"));
    c.messages.push(Message::new(Author::User, "follow-up"));
    let req = c.construct_request();
    assert_eq!(req.model, "bot1");
    let back: Vec<Message> = req
        .messages
        .iter()
        .map(|m| {
            Message::new(
                match m.role {
                    Role::User => Author::User,
                    Role::Assistant => Author::Bot,
                },
                &m.content,
            )
        })
        .collect();
    assert_eq!(back.len(), c.messages.len());
    for (orig, round) in c.messages.iter().zip(back.iter()) {
        assert!(orig.author == round.author);
        assert_eq!(orig.content, round.content);
    }
}
