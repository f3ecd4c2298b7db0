use vstd::prelude::*;

use std::collections::VecDeque;

pub mod chat;
pub mod reconsile;

use crate::config::Config;
use crate::config::ConfigView;
use crate::config::default_config;
use chat::Chat;
use chat::ChatView;
use chat::chat_views;

verus! {

/// The foreground state: the sessions, the queue of submitted input
/// lines, the recorded diagnostics, and whether an exit was requested.
pub struct App {
    pub chats: Vec<Chat>,
    pub buffer: VecDeque<String>,
    pub errors: Vec<String>,
    pub exit: bool,
    pub config: Config,
}

/// Abstract state of the [`App`].
#[verifier::ext_equal]
pub struct AppView {
    pub chats: Seq<ChatView>,
    pub buffer: Seq<Seq<char>>,
    pub errors: Seq<Seq<char>>,
    pub exit: bool,
    pub config: ConfigView,
}

/// The abstract values of a sequence of strings.
pub open spec fn str_views(s: Seq<String>) -> Seq<Seq<char>> {
    s.map_values(|x: String| x@)
}

impl View for App {
    type V = AppView;

    open spec fn view(&self) -> AppView {
        AppView {
            chats: chat_views(self.chats@),
            buffer: str_views(self.buffer@),
            errors: str_views(self.errors@),
            exit: self.exit,
            config: self.config@,
        }
    }
}

impl App {
    /// A fresh client: no sessions, nothing queued, nothing recorded, the
    /// default configuration.
    pub fn new() -> (a: App)
        ensures
            a@ == (AppView {
                chats: Seq::empty(),
                buffer: Seq::empty(),
                errors: Seq::empty(),
                exit: false,
                config: default_config(),
            }),
    {
        let a = App {
            chats: Vec::new(),
            buffer: VecDeque::new(),
            errors: Vec::new(),
            exit: false,
            config: Config::default(),
        };
        proof {
            assert(a@.chats =~= Seq::<ChatView>::empty());
            assert(a@.buffer =~= Seq::<Seq<char>>::empty());
            assert(a@.errors =~= Seq::<Seq<char>>::empty());
        }
        a
    }

    /// Queue one submitted input line for the next ticks.
    pub fn push_line(&mut self, line: String)
        ensures
            final(self)@ == (AppView { buffer: old(self)@.buffer.push(line@), ..old(self)@ }),
    {
        self.buffer.push_back(line);
        proof {
            assert(self@.buffer =~= old(self)@.buffer.push(line@));
            assert(self@ =~= (AppView { buffer: old(self)@.buffer.push(line@), ..old(self)@ }));
        }
    }
}

} // verus!
