//! The commands typed at the terminal while a test runs.
use vstd::prelude::*;

verus! {

/// `std::io::Error`, the error of the terminal set-up calls.
#[verifier::external_type_specification]
#[verifier::external_body]
pub struct ExIoError(std::io::Error);

/// Whether `c` has the Unicode `White_Space` property: U+0009 to U+000D, U+0020,
/// U+0085, U+00A0, U+1680, U+2000 to U+200A, U+2028, U+2029, U+202F, U+205F and
/// U+3000.
pub open spec fn is_white_space(c: char) -> bool {
    let v = c as u32;
    ||| 0x9 <= v && v <= 0xD
    ||| v == 0x20
    ||| v == 0x85
    ||| v == 0xA0
    ||| v == 0x1680
    ||| 0x2000 <= v && v <= 0x200A
    ||| v == 0x2028
    ||| v == 0x2029
    ||| v == 0x202F
    ||| v == 0x205F
    ||| v == 0x3000
}

/// `s` without its leading white space.
pub open spec fn trim_start_spec(s: Seq<char>) -> Seq<char>
    decreases s.len(),
{
    if s.len() > 0 && is_white_space(s[0]) {
        trim_start_spec(s.drop_first())
    } else {
        s
    }
}

/// `s` without its trailing white space.
pub open spec fn trim_end_spec(s: Seq<char>) -> Seq<char>
    decreases s.len(),
{
    if s.len() > 0 && is_white_space(s.last()) {
        trim_end_spec(s.drop_last())
    } else {
        s
    }
}

/// `s` without its leading and trailing white space.
pub open spec fn trim_spec(s: Seq<char>) -> Seq<char> {
    trim_end_spec(trim_start_spec(s))
}

/// Calls `str::trim`, which gives back the text without its leading and
/// trailing characters of the Unicode `White_Space` property.
#[verifier::external_body]
pub(crate) fn trim_text(s: &str) -> (t: &str)
    ensures
        t@ == trim_spec(s@),
{
    s.trim()
}

/// Whether two texts hold the same characters.
pub fn same_text(a: &str, b: &str) -> (same: bool)
    ensures
        same == (a@ == b@),
{
    let n = a.unicode_len();
    if n != b.unicode_len() {
        return false;
    }
    let mut i: usize = 0;
    while i < n
        invariant
            n == a@.len(),
            n == b@.len(),
            i <= n,
            forall|k: int| 0 <= k < i ==> a@[k] == b@[k],
        decreases n - i,
    {
        if a.get_char(i) != b.get_char(i) {
            return false;
        }
        i = i + 1;
    }
    assert(a@ =~= b@);
    true
}

/// A command typed at the terminal.
#[derive(Debug)]
pub enum Command {
    Quit,
    Status,
    Help,
    Unknown(String),
}

/// Whether `t` is one of the words that quit.
pub open spec fn is_quit_word(t: Seq<char>) -> bool {
    t == "/q"@ || t == "/quit"@ || t == "/exit"@
}

/// Whether `t` is one of the words that ask for the status.
pub open spec fn is_status_word(t: Seq<char>) -> bool {
    t == "/s"@ || t == "/status"@
}

/// Whether `t` is one of the words that ask for help.
pub open spec fn is_help_word(t: Seq<char>) -> bool {
    t == "/h"@ || t == "/help"@
}

/// Whether `c` is the command meant by the (already trimmed) text `t`.
pub open spec fn command_of(t: Seq<char>, c: Command) -> bool {
    if is_quit_word(t) {
        c is Quit
    } else if is_status_word(t) {
        c is Status
    } else if is_help_word(t) {
        c is Help
    } else {
        c matches Command::Unknown(s) && s@ == t
    }
}

/// The command meant by a text from which surrounding white space is removed.
pub fn parse_trimmed_command(t: &str) -> (c: Command)
    ensures
        command_of(t@, c),
{
    if same_text(t, "/q") || same_text(t, "/quit") || same_text(t, "/exit") {
        Command::Quit
    } else if same_text(t, "/s") || same_text(t, "/status") {
        Command::Status
    } else if same_text(t, "/h") || same_text(t, "/help") {
        Command::Help
    } else {
        Command::Unknown(t.to_owned())
    }
}

/// The command meant by a line typed at the terminal.
pub fn parse_command(input: &str) -> (c: Command)
    ensures
        command_of(trim_spec(input@), c),
{
    let t = trim_text(input);
    parse_trimmed_command(t)
}

/// A command typed at the master's terminal.
#[derive(Debug, Clone, Copy, PartialEq, Eq, Structural)]
pub enum MasterCommand {
    Quit,
    Scan,
    Test,
    Help,
    Unknown,
}

/// The master command named by the text `t` (taken as it is).
pub open spec fn master_command_of(t: Seq<char>) -> MasterCommand {
    if is_quit_word(t) {
        MasterCommand::Quit
    } else if t == "/s"@ || t == "/scan"@ {
        MasterCommand::Scan
    } else if t == "/t"@ || t == "/test"@ {
        MasterCommand::Test
    } else if is_help_word(t) {
        MasterCommand::Help
    } else {
        MasterCommand::Unknown
    }
}

/// Each master command is named by exactly its own words: `/q`, `/quit` and
/// `/exit` quit; `/s` and `/scan` scan; `/t` and `/test` test; `/h` and `/help`
/// ask for help; any other text is unknown.  The words that quit or ask for help
/// at the master are those that do so at the slave's terminal.
pub proof fn lemma_master_commands(t: Seq<char>, c: Command)
    ensures
        (t == "/q"@ || t == "/quit"@ || t == "/exit"@) <==> master_command_of(t) == MasterCommand::Quit,
        (t == "/s"@ || t == "/scan"@) <==> master_command_of(t) == MasterCommand::Scan,
        (t == "/t"@ || t == "/test"@) <==> master_command_of(t) == MasterCommand::Test,
        (t == "/h"@ || t == "/help"@) <==> master_command_of(t) == MasterCommand::Help,
        command_of(t, c) ==> ((c is Quit) <==> master_command_of(t) == MasterCommand::Quit),
        command_of(t, c) ==> ((c is Help) <==> master_command_of(t) == MasterCommand::Help),
{
    reveal_strlit("/q");
    reveal_strlit("/quit");
    reveal_strlit("/exit");
    reveal_strlit("/s");
    reveal_strlit("/scan");
    reveal_strlit("/status");
    reveal_strlit("/t");
    reveal_strlit("/test");
    reveal_strlit("/h");
    reveal_strlit("/help");
    assert("/q"@.len() == 2 && "/q"@[1] == 'q');
    assert("/quit"@.len() == 5 && "/quit"@[1] == 'q');
    assert("/exit"@.len() == 5 && "/exit"@[1] == 'e');
    assert("/s"@.len() == 2 && "/s"@[1] == 's');
    assert("/scan"@.len() == 5 && "/scan"@[1] == 's');
    assert("/status"@.len() == 7 && "/status"@[1] == 's');
    assert("/t"@.len() == 2 && "/t"@[1] == 't');
    assert("/test"@.len() == 5 && "/test"@[1] == 't');
    assert("/h"@.len() == 2 && "/h"@[1] == 'h');
    assert("/help"@.len() == 5 && "/help"@[1] == 'h');
    if t == "/scan"@ || t == "/s"@ {
        assert(!is_quit_word(t));
    }
    if t == "/t"@ || t == "/test"@ {
        assert(!is_quit_word(t));
        assert(t != "/s"@ && t != "/scan"@);
    }
    if t == "/h"@ || t == "/help"@ {
        assert(!is_quit_word(t));
        assert(t != "/s"@ && t != "/scan"@ && t != "/t"@ && t != "/test"@);
        assert(!is_status_word(t));
    }
    if is_status_word(t) {
        assert(!is_quit_word(t));
    }
}

/// The master command named by the line `t`, which must match a command word
/// exactly.
pub fn parse_master_command(t: &str) -> (c: MasterCommand)
    ensures
        c == master_command_of(t@),
{
    if same_text(t, "/q") || same_text(t, "/quit") || same_text(t, "/exit") {
        MasterCommand::Quit
    } else if same_text(t, "/s") || same_text(t, "/scan") {
        MasterCommand::Scan
    } else if same_text(t, "/t") || same_text(t, "/test") {
        MasterCommand::Test
    } else if same_text(t, "/h") || same_text(t, "/help") {
        MasterCommand::Help
    } else {
        MasterCommand::Unknown
    }
}

/// A line read from the terminal, trimmed; nothing when only white space is left.
pub fn input_line(line: &str) -> (r: Option<String>)
    ensures
        match r {
            Some(t) => t@ == trim_spec(line@) && t@.len() > 0,
            None => trim_spec(line@).len() == 0,
        },
{
    let t = trim_text(line);
    if t.unicode_len() == 0 {
        None
    } else {
        Some(t.to_owned())
    }
}

/// Prepares the terminal for the interactive loop; nothing needs doing.
pub fn setup_terminal() -> (r: std::io::Result<()>)
    ensures
        r is Ok,
{
    Ok(())
}

/// Gives the terminal back after the interactive loop; nothing needs doing.
pub fn restore_terminal() -> (r: std::io::Result<()>)
    ensures
        r is Ok,
{
    Ok(())
}

/// A line of input being typed.
pub struct LineBuffer {
    pub buffer: String,
}

impl LineBuffer {
    /// An empty line.
    pub fn new() -> (lb: LineBuffer)
        ensures
            lb.buffer@ == Seq::<char>::empty(),
    {
        LineBuffer { buffer: String::new() }
    }
}

} // verus!
