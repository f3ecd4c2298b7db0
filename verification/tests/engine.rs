use std::sync::mpsc;

use chattui::app::App;
use chattui::app::chat::Author;
use chattui::app::chat::backend::ChatResponse;
use chattui::app::chat::backend::Role;

fn fragment(model: &str, content: &str, done: bool) -> ChatResponse {
    ChatResponse {
        model: model.to_string(),
        message: chattui::app::chat::backend::Message {
            role: Role::Assistant,
            content: content.to_string(),
        },
        done,
    }
}

#[test]
fn create_then_delete_leaves_no_session() {
    let (tx, _rx) = mpsc::channel();
    let mut app = App::new();
    app.push_line("/create foo".to_string());
    let _ = app.reconsile(&tx);
    assert_eq!(app.chats.len(), 1);
    app.push_line("/delete foo".to_string());
    let _ = app.reconsile(&tx);
    assert!(app.chats.iter().all(|c| c.name != "foo"));
    assert!(app.chats.is_empty());
}

#[test]
fn delete_skips_locked_session() {
    let (tx, _rx) = mpsc::channel();
    let mut app = App::new();
    app.push_line("/create foo".to_string());
    let _ = app.reconsile(&tx);
    app.chats[0].locked = true;
    app.chats[0]
        .messages
        .push(chattui::app::chat::Message::new(Author::User, "kept"));
    app.push_line("/delete foo".to_string());
    let _ = app.reconsile(&tx);
    assert_eq!(app.chats.len(), 1);
    assert_eq!(app.chats[0].name, "foo");
    assert!(app.chats[0].locked);
    assert_eq!(app.chats[0].messages.len(), 1);
    assert_eq!(app.chats[0].messages[0].content, "kept");
}

#[test]
fn duplicate_names_coexist() {
    let (tx, _rx) = mpsc::channel();
    let mut app = App::new();
    app.push_line("/create foo".to_string());
    let _ = app.reconsile(&tx);
    app.push_line("/create foo".to_string());
    let _ = app.reconsile(&tx);
    assert_eq!(app.chats.len(), 2);
}

#[test]
fn exit_command_requests_exit() {
    let (tx, _rx) = mpsc::channel();
    let mut app = App::new();
    app.push_line("/exit".to_string());
    assert!(!app.exit);
    let _ = app.reconsile(&tx);
    assert!(app.exit);
}

#[test]
fn create_without_name_records_error() {
    let (tx, _rx) = mpsc::channel();
    let mut app = App::new();
    app.push_line("/create".to_string());
    let _ = app.reconsile(&tx);
    assert!(app.chats.is_empty());
    assert_eq!(app.errors, vec!["Chat name is required".to_string()]);
}

#[test]
fn delete_without_name_records_error() {
    let (tx, _rx) = mpsc::channel();
    let mut app = App::new();
    app.push_line("/delete".to_string());
    let _ = app.reconsile(&tx);
    assert_eq!(app.errors, vec!["Chat name is required".to_string()]);
}

#[test]
fn parse_failure_records_diagnostic_and_drops_line() {
    let (tx, _rx) = mpsc::channel();
    let mut app = App::new();
    app.push_line("/bogus".to_string());
    let _ = app.reconsile(&tx);
    assert!(app.chats.is_empty());
    assert_eq!(
        app.errors,
        vec!["parse error at 1: expected a command name".to_string()]
    );
}

#[test]
fn message_goes_to_every_unlocked_session() {
    let (tx, _rx) = mpsc::channel();
    let mut app = App::new();
    app.push_line("/create a".to_string());
    let _ = app.reconsile(&tx);
    app.push_line("/create b".to_string());
    let _ = app.reconsile(&tx);
    app.chats[1].locked = true;
    app.push_line("shared".to_string());
    let _ = app.reconsile(&tx);
    assert_eq!(app.chats[0].messages.len(), 1);
    assert_eq!(app.chats[0].messages[0].content, "shared");
    assert!(app.chats[1].messages.is_empty());
}

#[test]
fn brainwash_clears_every_session() {
    let (tx, _rx) = mpsc::channel();
    let mut app = App::new();
    app.push_line("/create a".to_string());
    let _ = app.reconsile(&tx);
    app.push_line("hello".to_string());
    let _ = app.reconsile(&tx);
    assert!(app.chats[0].locked);
    assert_eq!(app.chats[0].messages.len(), 1);
    app.push_line("/brainwash".to_string());
    let _ = app.reconsile(&tx);
    assert!(app.chats[0].messages.is_empty());
    assert!(!app.chats[0].locked);
    assert!(!app.chats[0].triggered);
    assert_eq!(app.chats[0].name, "a");
}

#[test]
fn full_scenario_one_exchange() {
    let (tx, rx) = mpsc::channel();
    let mut app = App::new();

    app.push_line("/create bot1".to_string());
    let _ = app.reconsile(&tx);

    app.push_line("hello".to_string());
    let _ = app.reconsile(&tx);

    // The tick that applied the message also dispatched exactly one
    // request carrying the transcript.
    let (worker_sender, req) = rx.try_recv().expect("one request dispatched");
    assert!(rx.try_recv().is_err());
    assert_eq!(req.model, "bot1");
    assert_eq!(req.messages.len(), 1);
    assert!(req.messages[0].role == Role::User);
    assert_eq!(req.messages[0].content, "hello");
    assert!(app.chats[0].locked);

    // The worker streams two fragments back.
    worker_sender.send(fragment("bot1", "Hel", false)).unwrap();
    worker_sender.send(fragment("bot1", "lo", true)).unwrap();

    let _ = app.reconsile(&tx);
    let _ = app.reconsile(&tx);

    assert_eq!(app.chats.len(), 1);
    assert_eq!(app.chats[0].name, "bot1");
    assert!(!app.chats[0].locked);
    let msgs = &app.chats[0].messages;
    assert_eq!(msgs.len(), 2);
    assert!(msgs[0].author == Author::User);
    assert_eq!(msgs[0].content, "hello");
    assert!(msgs[1].author == Author::Bot);
    assert_eq!(msgs[1].content, "Hello");
    // No further request went out for the streamed answer.
    assert!(rx.try_recv().is_err());
}
