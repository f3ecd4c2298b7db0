use vstd::prelude::*;

use std::sync::mpsc;

use super::App;
use super::AppView;
use super::str_views;
use super::chat::Chat;
use super::chat::ChatView;
use super::chat::chat_views;
use super::chat::chat_tick;
use super::chat::message_step;
use super::chat::backend::ChatRequest;
use super::chat::backend::ChatResponse;
use super::chat::backend::DrainEvent;
use crate::decimal::append_dec;
use crate::decimal::dec_of;

verus! {

/// The closed set of slash commands.
#[derive(Debug, Clone, Copy, PartialEq, Eq, Structural)]
pub enum Command {
    Exit,
    CreateChat,
    DeleteChat,
    Clear,
}

/// One parsed input line: a command with its arguments, or a free-form
/// message.
#[derive(Debug)]
pub enum Entry {
    Command { command: Command, args: Vec<String> },
    Message { message: String },
}

/// Abstract value of an [`Entry`].
#[verifier::ext_equal]
pub enum EntryView {
    Command { command: Command, args: Seq<Seq<char>> },
    Message { message: Seq<char> },
}

impl View for Entry {
    type V = EntryView;

    open spec fn view(&self) -> EntryView {
        match self {
            Entry::Command { command, args } => EntryView::Command {
                command: *command,
                args: str_views(args@),
            },
            Entry::Message { message } => EntryView::Message { message: message@ },
        }
    }
}

/// What the parser was looking for at the point where it gave up.
#[derive(Debug, Clone, Copy, PartialEq, Eq, Structural)]
pub enum Expected {
    CommandWord,
    Argument,
    Separator,
}

/// A parse failure: the character position reached and what was expected
/// there.
#[derive(Debug, Clone, Copy, PartialEq, Eq, Structural)]
pub struct ParseErr {
    pub pos: usize,
    pub expected: Expected,
}

/// Abstract value of a [`ParseErr`].
#[verifier::ext_equal]
pub struct ErrView {
    pub pos: int,
    pub expected: Expected,
}

impl View for ParseErr {
    type V = ErrView;

    open spec fn view(&self) -> ErrView {
        ErrView { pos: self.pos as int, expected: self.expected }
    }
}

/// A character an argument may contain unescaped: ASCII alphanumeric.
pub open spec fn is_plain_char(c: char) -> bool {
    ||| (97 <= c as u32 && c as u32 <= 122)
    ||| (65 <= c as u32 && c as u32 <= 90)
    ||| (48 <= c as u32 && c as u32 <= 57)
}

/// A character a backslash may escape inside an argument.
pub open spec fn is_escapable(c: char) -> bool {
    c == '"' || c == '\\' || c == ' '
}

/// How many characters the argument starting at `i` spans: the longest
/// run of plain characters and backslash-escape pairs.
pub open spec fn arg_len(s: Seq<char>, i: int) -> int
    decreases s.len() - i,
{
    if 0 <= i && i < s.len() && is_plain_char(s[i]) {
        1 + arg_len(s, i + 1)
    } else if 0 <= i && i + 1 < s.len() && s[i] == '\\' && is_escapable(s[i + 1]) {
        2 + arg_len(s, i + 2)
    } else {
        0
    }
}

pub proof fn lemma_arg_len_bounds(s: Seq<char>, i: int)
    requires
        0 <= i <= s.len(),
    ensures
        0 <= arg_len(s, i),
        i + arg_len(s, i) <= s.len(),
    decreases s.len() - i,
{
    if 0 <= i && i < s.len() && is_plain_char(s[i]) {
        lemma_arg_len_bounds(s, i + 1);
    } else if 0 <= i && i + 1 < s.len() && s[i] == '\\' && is_escapable(s[i + 1]) {
        lemma_arg_len_bounds(s, i + 2);
    }
}

/// The argument list starting at position `i`: arguments separated by
/// single spaces, running to the end of the line, each non-empty.
pub open spec fn spec_args(s: Seq<char>, i: int) -> Result<Seq<Seq<char>>, ErrView>
    decreases s.len() - i,
{
    let n = arg_len(s, i);
    if n <= 0 {
        Err(ErrView { pos: i, expected: Expected::Argument })
    } else if i + n >= s.len() {
        Ok(seq![s.subrange(i, i + n)])
    } else if s[i + n] == ' ' {
        match spec_args(s, i + n + 1) {
            Ok(rest) => Ok(seq![s.subrange(i, i + n)] + rest),
            Err(e) => Err(e),
        }
    } else {
        Err(ErrView { pos: i + n, expected: Expected::Separator })
    }
}

/// The command word right after the leading slash, and the position just
/// past it.
pub open spec fn command_word(s: Seq<char>) -> Option<(Command, int)> {
    if s.len() >= 5 && s.subrange(1, 5) == "exit"@ {
        Some((Command::Exit, 5))
    } else if s.len() >= 7 && s.subrange(1, 7) == "create"@ {
        Some((Command::CreateChat, 7))
    } else if s.len() >= 7 && s.subrange(1, 7) == "delete"@ {
        Some((Command::DeleteChat, 7))
    } else if s.len() >= 10 && s.subrange(1, 10) == "brainwash"@ {
        Some((Command::Clear, 10))
    } else {
        None
    }
}

/// The grammar of one input line. A line not opening with `'/'` is a
/// message, taken whole. After a `'/'` there is no falling back: the line
/// must be a known command word followed either by nothing or by a space
/// and the argument list, all of it consumed.
pub open spec fn spec_parse(s: Seq<char>) -> Result<EntryView, ErrView> {
    if s.len() == 0 || s[0] != '/' {
        Ok(EntryView::Message { message: s })
    } else {
        match command_word(s) {
            None => Err(ErrView { pos: 1, expected: Expected::CommandWord }),
            Some((command, end)) => {
                if s.len() == end {
                    Ok(EntryView::Command { command, args: Seq::empty() })
                } else if s[end] == ' ' {
                    match spec_args(s, end + 1) {
                        Ok(args) => Ok(EntryView::Command { command, args }),
                        Err(e) => Err(e),
                    }
                } else {
                    Err(ErrView { pos: end, expected: Expected::Separator })
                }
            },
        }
    }
}

/// Law: every line that does not open with `'/'` parses as a message
/// equal to the full line.
pub proof fn lemma_message_line(s: Seq<char>)
    requires
        s.len() == 0 || s[0] != '/',
    ensures
        spec_parse(s) == Ok::<EntryView, ErrView>(EntryView::Message { message: s }),
{
}

/// Law: once a line opens with `'/'` there is no falling back to the
/// message alternative: it parses as a command or not at all.
pub proof fn lemma_no_fallback(s: Seq<char>)
    requires
        s.len() > 0,
        s[0] == '/',
    ensures
        spec_parse(s) matches Ok(e) ==> e is Command,
{
}

/// Law: an argument list the grammar accepts holds at least one
/// argument, and never an empty one.
pub proof fn lemma_args_nonempty(s: Seq<char>, i: int, args: Seq<Seq<char>>)
    requires
        spec_args(s, i) == Ok::<Seq<Seq<char>>, ErrView>(args),
    ensures
        args.len() > 0,
        forall|j: int| 0 <= j < args.len() ==> #[trigger] args[j].len() > 0,
    decreases s.len() - i,
{
    let n = arg_len(s, i);
    if n > 0 && i + n >= s.len() {
        assert(0 <= i < s.len());
        lemma_arg_len_bounds(s, i);
        assert(args == seq![s.subrange(i, i + n)]);
        assert(args[0].len() == n);
    } else if n > 0 && i + n < s.len() && s[i + n] == ' ' {
        match spec_args(s, i + n + 1) {
            Ok(rest) => {
                lemma_args_nonempty(s, i + n + 1, rest);
                assert(args == seq![s.subrange(i, i + n)] + rest);
                assert forall|j: int| 0 <= j < args.len() implies #[trigger] args[j].len() > 0 by {
                    if j > 0 {
                        assert(args[j] == rest[j - 1]);
                    }
                }
            },
            Err(_) => {},
        }
    }
}

/// The characters of a command word.
pub open spec fn word_of(c: Command) -> Seq<char> {
    match c {
        Command::Exit => "exit"@,
        Command::CreateChat => "create"@,
        Command::DeleteChat => "delete"@,
        Command::Clear => "brainwash"@,
    }
}

/// A run of argument units: plain characters and backslash-escape pairs.
pub open spec fn arg_units(s: Seq<char>) -> bool
    decreases s.len(),
{
    if s.len() == 0 {
        true
    } else if is_plain_char(s[0]) {
        arg_units(s.skip(1))
    } else if s.len() >= 2 && s[0] == '\\' && is_escapable(s[1]) {
        arg_units(s.skip(2))
    } else {
        false
    }
}

/// A well-formed argument: a non-empty run of argument units.
pub open spec fn arg_wf(s: Seq<char>) -> bool {
    s.len() > 0 && arg_units(s)
}

/// The arguments joined with single spaces.
pub open spec fn join_args(args: Seq<Seq<char>>) -> Seq<char>
    decreases args.len(),
{
    if args.len() == 0 {
        Seq::empty()
    } else if args.len() == 1 {
        args[0]
    } else {
        args[0] + seq![' '] + join_args(args.drop_first())
    }
}

/// The text of a command line: the slash, the word, then the arguments.
pub open spec fn render_command(c: Command, args: Seq<Seq<char>>) -> Seq<char> {
    if args.len() == 0 {
        seq!['/'] + word_of(c)
    } else {
        seq!['/'] + word_of(c) + seq![' '] + join_args(args)
    }
}

proof fn lemma_arg_len_of_wf(t: Seq<char>, i: int, a: Seq<char>)
    requires
        0 <= i,
        i + a.len() <= t.len(),
        t.subrange(i, i + a.len()) == a,
        arg_wf(a),
        i + a.len() == t.len() || t[i + a.len()] == ' ',
    ensures
        arg_len(t, i) == a.len(),
    decreases a.len(),
{
    broadcast use vstd::seq_lib::lemma_seq_skip_index;

    assert forall|j: int| 0 <= j < a.len() implies t[i + j] == #[trigger] a[j] by {
        assert(t.subrange(i, i + a.len())[j] == a[j]);
    }
    if is_plain_char(a[0]) {
        let rest = a.skip(1);
        if rest.len() == 0 {
            assert(arg_len(t, i + 1) == 0);
        } else {
            assert(arg_wf(rest));
            assert(t.subrange(i + 1, i + 1 + rest.len()) =~= rest);
            lemma_arg_len_of_wf(t, i + 1, rest);
        }
        assert(arg_len(t, i) == 1 + arg_len(t, i + 1));
    } else {
        assert(a.len() >= 2 && a[0] == '\\' && is_escapable(a[1]));
        let rest = a.skip(2);
        if rest.len() == 0 {
            assert(arg_len(t, i + 2) == 0);
        } else {
            assert(arg_wf(rest));
            assert(t.subrange(i + 2, i + 2 + rest.len()) =~= rest);
            lemma_arg_len_of_wf(t, i + 2, rest);
        }
        assert(arg_len(t, i) == 2 + arg_len(t, i + 2));
    }
}

proof fn lemma_join_args_nonempty(args: Seq<Seq<char>>)
    requires
        args.len() > 0,
        arg_wf(args[0]),
    ensures
        join_args(args).len() > 0,
{
}

proof fn lemma_spec_args_of_join(t: Seq<char>, i: int, args: Seq<Seq<char>>)
    requires
        0 <= i <= t.len(),
        args.len() > 0,
        forall|j: int| 0 <= j < args.len() ==> arg_wf(#[trigger] args[j]),
        t.subrange(i, t.len() as int) == join_args(args),
    ensures
        spec_args(t, i) == Ok::<Seq<Seq<char>>, ErrView>(args),
    decreases args.len(),
{
    broadcast use vstd::seq_lib::lemma_seq_skip_index;

    let a = args[0];
    assert(arg_wf(a));
    assert forall|j: int| 0 <= j < t.len() - i implies t[i + j] == #[trigger] join_args(
        args,
    )[j] by {
        assert(t.subrange(i, t.len() as int)[j] == join_args(args)[j]);
    }
    if args.len() == 1 {
        assert(join_args(args) == a);
        assert(t.len() - i == a.len());
        assert(t.subrange(i, i + a.len()) =~= a);
        lemma_arg_len_of_wf(t, i, a);
        assert(spec_args(t, i) == Ok::<Seq<Seq<char>>, ErrView>(seq![t.subrange(i, i + a.len())]));
        assert(seq![t.subrange(i, i + a.len())] =~= args);
    } else {
        let rest = args.drop_first();
        let jr = join_args(rest);
        assert(join_args(args) == a + seq![' '] + jr);
        assert(t.len() - i == a.len() + 1 + jr.len());
        assert forall|j: int| 0 <= j < a.len() implies #[trigger] t[i + j] == a[j] by {
            assert(join_args(args)[j] == a[j]);
        }
        assert(t.subrange(i, i + a.len()) =~= a);
        assert(t[i + a.len()] == ' ') by {
            assert(join_args(args)[a.len() as int] == ' ');
        }
        lemma_arg_len_of_wf(t, i, a);
        let n = a.len() as int;
        assert(rest.len() > 0 && arg_wf(rest[0]));
        lemma_join_args_nonempty(rest);
        assert(i + n < t.len());
        assert forall|j: int|
            0 <= j < t.len() - (i + n + 1) implies #[trigger] t.subrange(
            i + n + 1,
            t.len() as int,
        )[j] == jr[j] by {
            assert(t.subrange(i + n + 1, t.len() as int)[j] == t[i + (n + 1 + j)]);
            assert(join_args(args)[n + 1 + j] == jr[j]);
            assert(t[i + (n + 1 + j)] == join_args(args)[n + 1 + j]);
        }
        assert(t.subrange(i + n + 1, t.len() as int) =~= jr);
        assert forall|j: int| 0 <= j < rest.len() implies arg_wf(#[trigger] rest[j]) by {
            assert(rest[j] == args[j + 1]);
        }
        lemma_spec_args_of_join(t, i + n + 1, rest);
        assert(spec_args(t, i) == Ok::<Seq<Seq<char>>, ErrView>(
            seq![t.subrange(i, i + n)] + rest,
        ));
        assert(seq![t.subrange(i, i + n)] + rest =~= args);
    }
}

/// Law: every well-formed command line parses back to exactly its
/// command and its arguments.
pub proof fn lemma_command_line_parses(c: Command, args: Seq<Seq<char>>)
    requires
        forall|j: int| 0 <= j < args.len() ==> arg_wf(#[trigger] args[j]),
    ensures
        spec_parse(render_command(c, args)) == Ok::<EntryView, ErrView>(
            EntryView::Command { command: c, args },
        ),
{
    reveal_strlit("exit");
    reveal_strlit("create");
    reveal_strlit("delete");
    reveal_strlit("brainwash");
    let s = render_command(c, args);
    let w = word_of(c);
    let end = 1 + w.len() as int;
    assert(s[0] == '/');
    assert forall|j: int| 0 <= j < w.len() implies #[trigger] s[1 + j] == w[j] by {}
    assert(s.subrange(1, end) =~= w);
    assert(command_word(s) == Some((c, end))) by {
        if s.len() >= 5 && s.subrange(1, 5) == "exit"@ {
            assert(s[1] == 'e');
        }
        if s.len() >= 7 && s.subrange(1, 7) == "create"@ {
            assert(s[1] == 'c');
        }
        if s.len() >= 7 && s.subrange(1, 7) == "delete"@ {
            assert(s[1] == 'd');
        }
        if s.len() >= 10 && s.subrange(1, 10) == "brainwash"@ {
            assert(s[1] == 'b');
        }
    }
    if args.len() == 0 {
        assert(s.len() == end);
        assert(Seq::<Seq<char>>::empty() =~= args);
    } else {
        assert(s[end] == ' ');
        lemma_join_args_nonempty(args);
        assert forall|j: int| 0 <= j < join_args(args).len() implies #[trigger] s[end + 1 + j]
            == join_args(args)[j] by {}
        assert(s.subrange(end + 1, s.len() as int) =~= join_args(args));
        lemma_spec_args_of_join(s, end + 1, args);
    }
}

fn is_plain(c: char) -> (b: bool)
    ensures
        b == is_plain_char(c),
{
    let u = c as u32;
    (97 <= u && u <= 122) || (65 <= u && u <= 90) || (48 <= u && u <= 57)
}

fn is_esc(c: char) -> (b: bool)
    ensures
        b == is_escapable(c),
{
    c == '"' || c == '\\' || c == ' '
}

/// Whether the characters of `w` occur in `s` starting at `pos`.
fn is_word_at(s: &str, pos: usize, w: &str) -> (b: bool)
    requires
        pos <= s@.len(),
    ensures
        b == (pos + w@.len() <= s@.len() && s@.subrange(pos as int, pos + w@.len()) == w@),
{
    let sl = s.unicode_len();
    let wl = w.unicode_len();
    if sl - pos < wl {
        return false;
    }
    let mut k: usize = 0;
    while k < wl
        invariant
            pos + wl <= sl,
            sl == s@.len(),
            wl == w@.len(),
            k <= wl,
            forall|j: int| 0 <= j < k ==> s@[pos + j] == w@[j],
        decreases wl - k,
    {
        if s.get_char(pos + k) != w.get_char(k) {
            proof {
                assert(s@.subrange(pos as int, pos + w@.len())[k as int] != w@[k as int]);
            }
            return false;
        }
        k += 1;
    }
    proof {
        assert(s@.subrange(pos as int, pos + w@.len()) =~= w@);
    }
    true
}

fn parse_command_word(s: &str) -> (r: Option<(Command, usize)>)
    requires
        s@.len() >= 1,
    ensures
        match r {
            Some(p) => command_word(s@) == Some((p.0, p.1 as int)) && p.1 <= s@.len(),
            None => command_word(s@) is None,
        },
{
    proof {
        reveal_strlit("exit");
        reveal_strlit("create");
        reveal_strlit("delete");
        reveal_strlit("brainwash");
    }
    if is_word_at(s, 1, "exit") {
        Some((Command::Exit, 5))
    } else if is_word_at(s, 1, "create") {
        Some((Command::CreateChat, 7))
    } else if is_word_at(s, 1, "delete") {
        Some((Command::DeleteChat, 7))
    } else if is_word_at(s, 1, "brainwash") {
        Some((Command::Clear, 10))
    } else {
        None
    }
}

/// The argument list of a command line, starting at character `i`.
fn parse_args(s: &str, i: usize) -> (r: Result<Vec<String>, ParseErr>)
    requires
        0 < i <= s@.len(),
    ensures
        match r {
            Ok(v) => spec_args(s@, i as int) == Ok::<Seq<Seq<char>>, ErrView>(str_views(v@)),
            Err(e) => spec_args(s@, i as int) == Err::<Seq<Seq<char>>, ErrView>(e@),
        },
    decreases s@.len() - i,
{
    let len = s.unicode_len();
    let mut j: usize = i;
    loop
        invariant
            i <= j <= len,
            len == s@.len(),
            arg_len(s@, i as int) == j - i + arg_len(s@, j as int),
        ensures
            i <= j <= len,
            len == s@.len(),
            arg_len(s@, i as int) == j - i,
        decreases len - j,
    {
        if j >= len {
            proof {
                assert(arg_len(s@, j as int) == 0);
            }
            break ;
        }
        let c = s.get_char(j);
        if is_plain(c) {
            j += 1;
        } else if c == '\\' && j + 1 < len && is_esc(s.get_char(j + 1)) {
            j += 2;
        } else {
            proof {
                assert(arg_len(s@, j as int) == 0);
            }
            break ;
        }
    }
    if j == i {
        return Err(ParseErr { pos: i, expected: Expected::Argument });
    }
    let arg = s.substring_char(i, j).to_owned();
    if j == len {
        let mut v: Vec<String> = Vec::new();
        v.push(arg);
        proof {
            assert(str_views(v@) =~= seq![s@.subrange(i as int, j as int)]);
        }
        return Ok(v);
    }
    if s.get_char(j) == ' ' {
        match parse_args(s, j + 1) {
            Ok(mut rest) => {
                let ghost tail = str_views(rest@);
                rest.insert(0, arg);
                proof {
                    assert(str_views(rest@) =~= seq![s@.subrange(i as int, j as int)] + tail);
                }
                Ok(rest)
            },
            Err(e) => Err(e),
        }
    } else {
        Err(ParseErr { pos: j, expected: Expected::Separator })
    }
}

/// Parse one input line into an [`Entry`], or report where and why the
/// line is not well formed. The result is exactly [`spec_parse`] of the
/// line.
pub fn root_parser(input: &str) -> (r: Result<Entry, ParseErr>)
    ensures
        match r {
            Ok(e) => spec_parse(input@) == Ok::<EntryView, ErrView>(e@),
            Err(err) => spec_parse(input@) == Err::<EntryView, ErrView>(err@),
        },
{
    let len = input.unicode_len();
    if len == 0 || input.get_char(0) != '/' {
        let m = Entry::Message { message: input.to_owned() };
        return Ok(m);
    }
    match parse_command_word(input) {
        None => Err(ParseErr { pos: 1, expected: Expected::CommandWord }),
        Some((command, end)) => {
            if end == len {
                let e = Entry::Command { command, args: Vec::new() };
                proof {
                    assert(str_views(Seq::<String>::empty()) =~= Seq::<Seq<char>>::empty());
                }
                Ok(e)
            } else if input.get_char(end) == ' ' {
                match parse_args(input, end + 1) {
                    Ok(args) => Ok(Entry::Command { command, args }),
                    Err(e) => Err(e),
                }
            } else {
                Err(ParseErr { pos: end, expected: Expected::Separator })
            }
        },
    }
}

/// The message alternative of the grammar alone: the whole line, taken
/// verbatim.
pub fn message_parser(input: &str) -> (m: String)
    ensures
        m@ == input@,
{
    input.to_owned()
}

/// The text of [`ParseErr::describe`].
pub open spec fn describe_of(e: ErrView) -> Seq<char> {
    "parse error at "@ + dec_of(e.pos as nat) + ": expected "@ + expected_text(e.expected)
}

/// What each [`Expected`] reads as in a diagnostic.
pub open spec fn expected_text(x: Expected) -> Seq<char> {
    match x {
        Expected::CommandWord => "a command name"@,
        Expected::Argument => "an argument"@,
        Expected::Separator => "a space or the end of the line"@,
    }
}

impl ParseErr {
    /// The diagnostic as text: the position reached and what was expected
    /// there.
    pub fn describe(&self) -> (r: String)
        ensures
            r@ == describe_of(self@),
    {
        let mut s = String::from_str("parse error at ");
        append_dec(&mut s, self.pos as u64);
        s.append(": expected ");
        match self.expected {
            Expected::CommandWord => s.append("a command name"),
            Expected::Argument => s.append("an argument"),
            Expected::Separator => s.append("a space or the end of the line"),
        }
        proof {
            assert(s@ =~= describe_of(self@));
        }
        s
    }
}

/// A fresh session as `/create` makes it.
pub open spec fn idle_chat(name: Seq<char>) -> ChatView {
    ChatView { name, messages: Seq::empty(), locked: false, triggered: false }
}

/// A session as `/brainwash` leaves it.
pub open spec fn cleared(c: ChatView) -> ChatView {
    ChatView { name: c.name, messages: Seq::empty(), locked: false, triggered: false }
}

/// What `/delete name` keeps: every session of another name, and every
/// locked one.
pub open spec fn keeps(name: Seq<char>) -> spec_fn(ChatView) -> bool {
    |c: ChatView| c.name != name || c.locked
}

/// The diagnostic recorded when a command that needs a name gets none.
pub open spec fn missing_name_error() -> Seq<char> {
    "Chat name is required"@
}

/// The effect of one parsed entry on the whole client state.
pub open spec fn apply_entry(a: AppView, e: EntryView) -> AppView {
    match e {
        EntryView::Command { command, args } => match command {
            Command::Exit => AppView { exit: true, ..a },
            Command::CreateChat => if args.len() > 0 {
                AppView { chats: a.chats.push(idle_chat(args[0])), ..a }
            } else {
                AppView { errors: a.errors.push(missing_name_error()), ..a }
            },
            Command::DeleteChat => if args.len() > 0 {
                AppView { chats: a.chats.filter(keeps(args[0])), ..a }
            } else {
                AppView { errors: a.errors.push(missing_name_error()), ..a }
            },
            Command::Clear => AppView { chats: a.chats.map_values(|c: ChatView| cleared(c)), ..a },
        },
        EntryView::Message { message } => AppView {
            chats: a.chats.map_values(|c: ChatView| message_step(c, message)),
            ..a
        },
    }
}

proof fn lemma_filter_push<A>(s: Seq<A>, x: A, pred: spec_fn(A) -> bool)
    ensures
        s.push(x).filter(pred) == if pred(x) {
            s.filter(pred).push(x)
        } else {
            s.filter(pred)
        },
{
    reveal(Seq::filter);
    assert(s.push(x).drop_last() =~= s);
    assert(s.push(x).last() == x);
}

proof fn lemma_filter_element_of<A>(s: Seq<A>, pred: spec_fn(A) -> bool, i: int)
    requires
        0 <= i < s.filter(pred).len(),
    ensures
        exists|j: int| 0 <= j < s.len() && s[j] == s.filter(pred)[i],
    decreases s.len(),
{
    reveal(Seq::filter);
    if s.len() == 0 {
    } else {
        let sub = s.drop_last().filter(pred);
        if pred(s.last()) && i == sub.len() {
            assert(s.filter(pred)[i] == s.last());
            assert(s[s.len() - 1] == s.filter(pred)[i]);
        } else {
            lemma_filter_element_of(s.drop_last(), pred, i);
            let j = choose|j: int|
                0 <= j < s.drop_last().len() && s.drop_last()[j] == s.drop_last().filter(pred)[i];
            assert(s[j] == s.filter(pred)[i]);
        }
    }
}

proof fn lemma_skip_shift<A>(a: Seq<A>, b: Seq<A>, i: int, k: int)
    requires
        0 <= i < a.len(),
        0 <= k < b.len(),
        a.skip(i) == b.skip(k),
    ensures
        a.skip(i + 1) == b.skip(k + 1),
{
    broadcast use vstd::seq_lib::lemma_seq_skip_index;
    broadcast use vstd::seq_lib::lemma_seq_skip_len;

    assert(a.skip(i).len() == a.len() - i);
    assert(b.skip(k).len() == b.len() - k);
    assert(a.len() - i == b.len() - k);
    assert forall|m: int| 0 <= m < a.len() - i - 1 implies #[trigger] a.skip(i + 1)[m] == b.skip(
        k + 1,
    )[m] by {
        assert(a.skip(i)[m + 1] == b.skip(k)[m + 1]);
        assert(a.skip(i)[m + 1] == a[i + m + 1]);
        assert(b.skip(k)[m + 1] == b[k + m + 1]);
        assert(a.skip(i + 1)[m] == a[i + m + 1]);
        assert(b.skip(k + 1)[m] == b[k + m + 1]);
    }
    assert(a.skip(i + 1) =~= b.skip(k + 1));
}

fn delete_chats(chats: &mut Vec<Chat>, name: &String)
    ensures
        chat_views(final(chats)@) == chat_views(old(chats)@).filter(keeps(name@)),
{
    let ghost orig = chats@;
    let ghost mut k: int = 0;
    let mut i: usize = 0;
    while i < chats.len()
        invariant
            0 <= i <= chats@.len(),
            0 <= k <= orig.len(),
            chats@.len() - i == orig.len() - k,
            chat_views(chats@.take(i as int)) == chat_views(orig.take(k)).filter(keeps(name@)),
            chats@.skip(i as int) == orig.skip(k),
        decreases orig.len() - k,
    {
        proof {
            assert(chats@.skip(i as int)[0] == orig.skip(k)[0]);
            assert(chats@[i as int] == orig[k]);
            assert(orig.take(k + 1) =~= orig.take(k).push(orig[k]));
            assert(chat_views(orig.take(k + 1)) =~= chat_views(orig.take(k)).push(orig[k]@));
            lemma_filter_push(chat_views(orig.take(k)), orig[k]@, keeps(name@));
        }
        let keep = !(chats[i].name == *name) || chats[i].locked;
        if keep {
            proof {
                assert(chats@.take(i + 1) =~= chats@.take(i as int).push(chats@[i as int]));
                assert(chat_views(chats@.take(i + 1)) =~= chat_views(chats@.take(i as int)).push(
                    chats@[i as int]@,
                ));
                lemma_skip_shift(chats@, orig, i as int, k);
                k = k + 1;
            }
            i += 1;
        } else {
            let ghost before = chats@;
            chats.remove(i);
            proof {
                lemma_skip_shift(before, orig, i as int, k);
                assert forall|j: int| 0 <= j < i implies chats@[j] == before[j] by {
                    assert(chats@[j] == before.remove(i as int)[j]);
                    assert(before.remove(i as int)[j] == before.subrange(0, i as int)[j]);
                }
                assert(chats@.take(i as int) =~= before.take(i as int));
                assert forall|m: int|
                    0 <= m < chats@.len() - i implies chats@.skip(i as int)[m] == before.skip(
                    i + 1,
                )[m] by {
                    assert(chats@.skip(i as int)[m] == chats@[i + m]);
                    assert(chats@[i + m] == before.subrange(
                        i + 1,
                        before.len() as int,
                    )[i + m - i as int]);
                    assert(chats@[i + m] == before[i + 1 + m]);
                    assert(before.skip(i + 1)[m] == before[i + 1 + m]);
                }
                assert(chats@.skip(i as int) =~= before.skip(i + 1));
                assert(chats@.skip(i as int) =~= orig.skip(k + 1));
                k = k + 1;
            }
        }
    }
    proof {
        assert(k == orig.len());
        assert(orig.take(k) =~= orig);
        assert(chats@.take(i as int) =~= chats@);
    }
}

impl Entry {
    /// Apply this entry to the client: commands act on the session list
    /// or request an exit; a message goes to every unlocked session.
    pub fn reconsile(self, app: &mut App)
        ensures
            final(app)@ == apply_entry(old(app)@, self@),
    {
        match &self {
            Entry::Command { command, args } => match command {
                Command::Exit => {
                    app.exit = true;
                    proof {
                        assert(app@ =~= apply_entry(old(app)@, self@));
                    }
                },
                Command::CreateChat => {
                    if args.len() > 0 {
                        let c = Chat::new(args[0].as_str());
                        app.chats.push(c);
                        proof {
                            assert(chat_views(app.chats@) =~= old(app)@.chats.push(
                                idle_chat(str_views(args@)[0]),
                            ));
                            assert(app@ =~= apply_entry(old(app)@, self@));
                        }
                    } else {
                        app.errors.push(String::from_str("Chat name is required"));
                        proof {
                            assert(str_views(app.errors@) =~= old(app)@.errors.push(
                                missing_name_error(),
                            ));
                            assert(app@ =~= apply_entry(old(app)@, self@));
                        }
                    }
                },
                Command::DeleteChat => {
                    if args.len() > 0 {
                        delete_chats(&mut app.chats, &args[0]);
                        proof {
                            assert(app@ =~= apply_entry(old(app)@, self@));
                        }
                    } else {
                        app.errors.push(String::from_str("Chat name is required"));
                        proof {
                            assert(str_views(app.errors@) =~= old(app)@.errors.push(
                                missing_name_error(),
                            ));
                            assert(app@ =~= apply_entry(old(app)@, self@));
                        }
                    }
                },
                Command::Clear => {
                    let ghost orig = app.chats@;
                    let mut i: usize = 0;
                    while i < app.chats.len()
                        invariant
                            i <= app.chats@.len(),
                            app.chats@.len() == orig.len(),
                            forall|j: int| 0 <= j < i ==> app.chats@[j]@ == cleared(orig[j]@),
                            forall|j: int| i <= j < orig.len() ==> app.chats@[j] == orig[j],
                            app.buffer == old(app).buffer,
                            app.errors == old(app).errors,
                            app.exit == old(app).exit,
                            app.config == old(app).config,
                        decreases app.chats@.len() - i,
                    {
                        app.chats[i].clear();
                        i += 1;
                    }
                    proof {
                        assert(chat_views(app.chats@) =~= old(app)@.chats.map_values(
                            |c: ChatView| cleared(c),
                        ));
                        assert(app@ =~= apply_entry(old(app)@, self@));
                    }
                },
            },
            Entry::Message { message } => {
                let ghost orig = app.chats@;
                let mut i: usize = 0;
                while i < app.chats.len()
                    invariant
                        i <= app.chats@.len(),
                        app.chats@.len() == orig.len(),
                        forall|j: int|
                            0 <= j < i ==> app.chats@[j]@ == message_step(orig[j]@, message@),
                        forall|j: int| i <= j < orig.len() ==> app.chats@[j] == orig[j],
                        app.buffer == old(app).buffer,
                        app.errors == old(app).errors,
                        app.exit == old(app).exit,
                        app.config == old(app).config,
                    decreases app.chats@.len() - i,
                {
                    app.chats[i].apply_message(message.as_str());
                    i += 1;
                }
                proof {
                    assert(chat_views(app.chats@) =~= old(app)@.chats.map_values(
                        |c: ChatView| message_step(c, message@),
                    ));
                    assert(app@ =~= apply_entry(old(app)@, self@));
                }
            },
        }
    }
}

/// The entry phase of one tick: at most one queued line is taken and
/// applied, or its diagnostic recorded.
pub open spec fn after_entry(a: AppView) -> AppView {
    if a.buffer.len() == 0 {
        a
    } else {
        let line = a.buffer[0];
        let b = AppView { buffer: a.buffer.drop_first(), ..a };
        match spec_parse(line) {
            Ok(e) => apply_entry(b, e),
            Err(err) => AppView { errors: b.errors.push(describe_of(err)), ..b },
        }
    }
}

/// Every session advanced by one tick, given what each one's channel
/// read yielded.
pub open spec fn tick_chats(cs: Seq<ChatView>, evs: Seq<DrainEvent>) -> Seq<ChatView> {
    Seq::new(cs.len(), |i: int| chat_tick(cs[i], evs[i]))
}

impl App {
    /// One foreground tick: take at most one queued line, parse and
    /// apply it (or record its diagnostic), then advance every session,
    /// handing new requests to `request_handler` and draining at most one
    /// response fragment per locked session. The ghost result says what
    /// each session's channel read yielded.
    pub fn reconsile(
        &mut self,
        request_handler: &mpsc::Sender<(mpsc::Sender<ChatResponse>, ChatRequest)>,
    ) -> (evs: Ghost<Seq<DrainEvent>>)
        ensures
            ({
                let a1 = after_entry(old(self)@);
                &&& evs@.len() == a1.chats.len()
                &&& final(self)@ == (AppView { chats: tick_chats(a1.chats, evs@), ..a1 })
            }),
    {
        let current = self.buffer.pop_front();
        if let Some(current) = current {
            proof {
                assert(str_views(self.buffer@) =~= old(self)@.buffer.drop_first());
                assert(self@ =~= (AppView {
                    buffer: old(self)@.buffer.drop_first(),
                    ..old(self)@
                }));
            }
            let ghost mid = self@;
            match root_parser(current.as_str()) {
                Ok(entry) => {
                    entry.reconsile(self);
                    proof {
                        assert(self@ == after_entry(old(self)@));
                    }
                },
                Err(e) => {
                    let msg = e.describe();
                    self.errors.push(msg);
                    proof {
                        assert(str_views(self.errors@) =~= mid.errors.push(describe_of(e@)));
                        assert(self@ =~= after_entry(old(self)@));
                    }
                },
            }
        }
        let ghost a1 = self@;
        proof {
            assert(a1 == after_entry(old(self)@));
        }
        let ghost mut evs: Seq<DrainEvent> = Seq::empty();
        let mut i: usize = 0;
        while i < self.chats.len()
            invariant
                i <= self.chats@.len(),
                self.chats@.len() == a1.chats.len(),
                evs.len() == i,
                forall|j: int| 0 <= j < i ==> self.chats@[j]@ == chat_tick(a1.chats[j], evs[j]),
                forall|j: int| i <= j < self.chats@.len() ==> self.chats@[j]@ == a1.chats[j],
                str_views(self.buffer@) == a1.buffer,
                str_views(self.errors@) == a1.errors,
                self.exit == a1.exit,
                self.config@ == a1.config,
            decreases self.chats@.len() - i,
        {
            let e = self.chats[i].reconsile(request_handler);
            proof {
                evs = evs.push(e@);
            }
            i += 1;
        }
        proof {
            assert(chat_views(self.chats@) =~= tick_chats(a1.chats, evs));
            assert(self@ =~= (AppView { chats: tick_chats(a1.chats, evs), ..a1 }));
        }
        Ghost(evs)
    }
}

/// Law: `/create name` followed at once by `/delete name` leaves no
/// session of that name, provided no session of that name was locked in
/// between.
pub proof fn lemma_create_then_delete(a: AppView, name: Seq<char>)
    requires
        forall|i: int|
            0 <= i < a.chats.len() ==> ((#[trigger] a.chats[i]).name == name ==> !a.chats[i].locked),
    ensures
        ({
            let a1 = apply_entry(
                a,
                EntryView::Command { command: Command::CreateChat, args: seq![name] },
            );
            let a2 = apply_entry(
                a1,
                EntryView::Command { command: Command::DeleteChat, args: seq![name] },
            );
            forall|i: int| 0 <= i < a2.chats.len() ==> (#[trigger] a2.chats[i]).name != name
        }),
{
    let pushed = a.chats.push(idle_chat(name));
    let filt = pushed.filter(keeps(name));
    assert forall|i: int| 0 <= i < filt.len() implies (#[trigger] filt[i]).name != name by {
        pushed.lemma_filter_pred(keeps(name), i);
        lemma_filter_element_of(pushed, keeps(name), i);
        let j = choose|j: int| 0 <= j < pushed.len() && pushed[j] == filt[i];
        if j < a.chats.len() {
            assert(a.chats[j] == pushed[j]);
        } else {
            assert(pushed[j] == idle_chat(name));
        }
    }
}

/// Law: `/delete name` leaves a locked session of that name present and
/// unchanged.
pub proof fn lemma_delete_keeps_locked(a: AppView, name: Seq<char>, i: int)
    requires
        0 <= i < a.chats.len(),
        a.chats[i].name == name,
        a.chats[i].locked,
    ensures
        ({
            let a2 = apply_entry(
                a,
                EntryView::Command { command: Command::DeleteChat, args: seq![name] },
            );
            a2.chats.contains(a.chats[i])
        }),
{
    a.chats.lemma_filter_contains(keeps(name), i);
}

} // verus!
