//! The terminal's command line: keys are gathered into a line, and a line's
//! first word names a command.

use vstd::prelude::*;

verus! {

/// Whether `c` has Unicode's White_Space property: the controls U+0009 to
/// U+000D, the space, U+0085, the no-break space, the Ogham space mark, the
/// spaces U+2000 to U+200A, the line and paragraph separators, the narrow
/// no-break space, the medium mathematical space and the ideographic space.
pub open spec fn white_space(c: char) -> bool {
    let n = c as u32;
    ||| 0x09 <= n <= 0x0D
    ||| n == 0x20
    ||| n == 0x85
    ||| n == 0xA0
    ||| n == 0x1680
    ||| 0x2000 <= n <= 0x200A
    ||| n == 0x2028
    ||| n == 0x2029
    ||| n == 0x202F
    ||| n == 0x205F
    ||| n == 0x3000
}

fn is_whitespace(c: char) -> (res: bool)
    ensures
        res == white_space(c),
{
    let n = c as u32;
    (0x09 <= n && n <= 0x0D) || n == 0x20 || n == 0x85 || n == 0xA0 || n == 0x1680 || (0x2000 <= n && n
        <= 0x200A) || n == 0x2028 || n == 0x2029 || n == 0x202F || n == 0x205F || n == 0x3000
}

/// Calls `String::from_iter` on the characters; the claim is that the string
/// holds exactly those characters, in order.
#[verifier::external_body]
fn string_from_chars(chars: Vec<char>) -> (res: String)
    ensures
        res@ == chars@,
{
    String::from_iter(chars)
}

/// The characters of `s`, in a vector of their own.
fn chars_vec(s: &[char]) -> (res: Vec<char>)
    ensures
        res@ == s@,
{
    let mut out: Vec<char> = Vec::new();
    let mut i: usize = 0;
    while i < s.len()
        invariant
            i <= s@.len(),
            out@ == s@.take(i as int),
        decreases s@.len() - i,
    {
        out.push(s[i]);
        i = i + 1;
        assert(out@ =~= s@.take(i as int));
    }
    assert(s@.take(s@.len() as int) =~= s@);
    out
}

/// A command typed at the terminal.
#[derive(Debug)]
pub enum Command {
    SendPing,
    Quit,
    StartMining,
    PauseMining,
    ShowTopBlock,
    /// Connect to the address written after the command.
    Connect(String),
}

/// A key pressed at the terminal.
#[derive(Debug, Clone, Copy)]
pub enum Key {
    Enter,
    Char(char),
    Other,
}

/// What a finished line gives.
#[derive(Debug)]
pub enum LineOutcome {
    Command(Command),
    /// `connect` without an address.
    MissingAddress,
    /// A first word that names no command.
    Unknown(String),
    /// A line of whitespace only.
    Empty,
}

pub enum CommandView {
    SendPing,
    Quit,
    StartMining,
    PauseMining,
    ShowTopBlock,
    Connect(Seq<char>),
}

pub enum LineView {
    Command(CommandView),
    MissingAddress,
    Unknown(Seq<char>),
    Empty,
}

impl View for Command {
    type V = CommandView;

    open spec fn view(&self) -> CommandView {
        match self {
            Command::SendPing => CommandView::SendPing,
            Command::Quit => CommandView::Quit,
            Command::StartMining => CommandView::StartMining,
            Command::PauseMining => CommandView::PauseMining,
            Command::ShowTopBlock => CommandView::ShowTopBlock,
            Command::Connect(a) => CommandView::Connect(a@),
        }
    }
}

impl View for LineOutcome {
    type V = LineView;

    open spec fn view(&self) -> LineView {
        match self {
            LineOutcome::Command(c) => LineView::Command(c@),
            LineOutcome::MissingAddress => LineView::MissingAddress,
            LineOutcome::Unknown(w) => LineView::Unknown(w@),
            LineOutcome::Empty => LineView::Empty,
        }
    }
}

/// `s` without its leading whitespace.
pub open spec fn skip_whitespace(s: Seq<char>) -> Seq<char>
    decreases s.len(),
{
    if s.len() > 0 && white_space(s[0]) {
        skip_whitespace(s.drop_first())
    } else {
        s
    }
}

/// The number of characters before the first whitespace.
pub open spec fn word_len(s: Seq<char>) -> nat
    decreases s.len(),
{
    if s.len() > 0 && !white_space(s[0]) {
        1 + word_len(s.drop_first())
    } else {
        0
    }
}

/// The first whitespace-separated word of `s` (empty when there is none).
pub open spec fn first_word(s: Seq<char>) -> Seq<char> {
    skip_whitespace(s).take(word_len(skip_whitespace(s)) as int)
}

/// What follows the first word of `s`.
pub open spec fn after_first_word(s: Seq<char>) -> Seq<char> {
    skip_whitespace(s).skip(word_len(skip_whitespace(s)) as int)
}

/// What a line means: its first word names the command; `connect` (or `c`)
/// takes the second word as the address.
pub open spec fn parse_line_spec(s: Seq<char>) -> LineView {
    let w = first_word(s);
    if w.len() == 0 {
        LineView::Empty
    } else if w == seq!['p', 'i', 'n', 'g'] {
        LineView::Command(CommandView::SendPing)
    } else if w == seq!['q', 'u', 'i', 't'] || w == seq!['q'] {
        LineView::Command(CommandView::Quit)
    } else if w == seq!['m', 'i', 'n', 'e'] || w == seq!['m'] {
        LineView::Command(CommandView::StartMining)
    } else if w == seq!['p', 'a', 'u', 's', 'e'] || w == seq!['p'] {
        LineView::Command(CommandView::PauseMining)
    } else if w == seq!['t', 'o', 'p'] || w == seq!['t'] {
        LineView::Command(CommandView::ShowTopBlock)
    } else if w == seq!['c', 'o', 'n', 'n', 'e', 'c', 't'] || w == seq!['c'] {
        let a = first_word(after_first_word(s));
        if a.len() == 0 {
            LineView::MissingAddress
        } else {
            LineView::Command(CommandView::Connect(a))
        }
    } else {
        LineView::Unknown(w)
    }
}

fn skip_whitespace_from(line: &[char], start: usize) -> (res: usize)
    requires
        start <= line@.len(),
    ensures
        start <= res <= line@.len(),
        line@.skip(res as int) == skip_whitespace(line@.skip(start as int)),
    decreases line@.len() - start,
{
    if start < line.len() && is_whitespace(line[start]) {
        assert(line@.skip(start as int).drop_first() =~= line@.skip(start + 1));
        skip_whitespace_from(line, start + 1)
    } else {
        start
    }
}

fn word_end(line: &[char], start: usize) -> (res: usize)
    requires
        start <= line@.len(),
    ensures
        start <= res <= line@.len(),
        res - start == word_len(line@.skip(start as int)),
    decreases line@.len() - start,
{
    if start < line.len() && !is_whitespace(line[start]) {
        assert(line@.skip(start as int).drop_first() =~= line@.skip(start + 1));
        word_end(line, start + 1)
    } else {
        start
    }
}

fn same_chars(a: &[char], b: &[char]) -> (res: bool)
    ensures
        res == (a@ == b@),
{
    if a.len() != b.len() {
        return false;
    }
    let mut i: usize = 0;
    while i < a.len()
        invariant
            i <= a@.len(),
            a@.len() == b@.len(),
            forall|j: int| 0 <= j < i ==> a@[j] == b@[j],
        decreases a@.len() - i,
    {
        if a[i] != b[i] {
            return false;
        }
        i = i + 1;
    }
    assert(a@ =~= b@);
    true
}

/// What a finished line means.
pub fn parse_line(line: &[char]) -> (res: LineOutcome)
    ensures
        res@ == parse_line_spec(line@),
{
    let ghost s = line@;
    assert(s.skip(0) =~= s);
    let start = skip_whitespace_from(line, 0);
    let end = word_end(line, start);
    let word = &line[start..end];
    assert(word@ =~= first_word(s));
    if end == start {
        return LineOutcome::Empty;
    }
    let w_ping: [char; 4] = ['p', 'i', 'n', 'g'];
    assert(w_ping@ =~= seq!['p', 'i', 'n', 'g']);
    let w_quit: [char; 4] = ['q', 'u', 'i', 't'];
    assert(w_quit@ =~= seq!['q', 'u', 'i', 't']);
    let w_q: [char; 1] = ['q'];
    assert(w_q@ =~= seq!['q']);
    let w_mine: [char; 4] = ['m', 'i', 'n', 'e'];
    assert(w_mine@ =~= seq!['m', 'i', 'n', 'e']);
    let w_m: [char; 1] = ['m'];
    assert(w_m@ =~= seq!['m']);
    let w_pause: [char; 5] = ['p', 'a', 'u', 's', 'e'];
    assert(w_pause@ =~= seq!['p', 'a', 'u', 's', 'e']);
    let w_p: [char; 1] = ['p'];
    assert(w_p@ =~= seq!['p']);
    let w_top: [char; 3] = ['t', 'o', 'p'];
    assert(w_top@ =~= seq!['t', 'o', 'p']);
    let w_t: [char; 1] = ['t'];
    assert(w_t@ =~= seq!['t']);
    let w_connect: [char; 7] = ['c', 'o', 'n', 'n', 'e', 'c', 't'];
    assert(w_connect@ =~= seq!['c', 'o', 'n', 'n', 'e', 'c', 't']);
    let w_c: [char; 1] = ['c'];
    assert(w_c@ =~= seq!['c']);
    if same_chars(word, w_ping.as_slice()) {
        LineOutcome::Command(Command::SendPing)
    } else if same_chars(word, w_quit.as_slice()) || same_chars(word, w_q.as_slice()) {
        LineOutcome::Command(Command::Quit)
    } else if same_chars(word, w_mine.as_slice()) || same_chars(word, w_m.as_slice()) {
        LineOutcome::Command(Command::StartMining)
    } else if same_chars(word, w_pause.as_slice()) || same_chars(word, w_p.as_slice()) {
        LineOutcome::Command(Command::PauseMining)
    } else if same_chars(word, w_top.as_slice()) || same_chars(word, w_t.as_slice()) {
        LineOutcome::Command(Command::ShowTopBlock)
    } else if same_chars(word, w_connect.as_slice()) || same_chars(word, w_c.as_slice()) {
        assert(s.skip(end as int) =~= after_first_word(s));
        let address_start = skip_whitespace_from(line, end);
        let address_end = word_end(line, address_start);
        let address = &line[address_start..address_end];
        assert(address@ =~= first_word(after_first_word(s)));
        if address_end == address_start {
            LineOutcome::MissingAddress
        } else {
            LineOutcome::Command(Command::Connect(string_from_chars(chars_vec(address))))
        }
    } else {
        LineOutcome::Unknown(string_from_chars(chars_vec(word)))
    }
}

/// Gathers typed characters until Enter finishes the line.
pub struct CommandReader {
    buffer: Vec<char>,
}

impl View for CommandReader {
    type V = Seq<char>;

    closed spec fn view(&self) -> Seq<char> {
        self.buffer@
    }
}

impl CommandReader {
    /// A reader with an empty line.
    pub fn new() -> (res: CommandReader)
        ensures
            res@ == Seq::<char>::empty(),
    {
        CommandReader { buffer: Vec::new() }
    }

    /// Takes one key: a character is added to the line; Enter ends the line,
    /// which is then read and emptied; other keys are ignored.
    pub fn key(&mut self, key: Key) -> (res: Option<LineOutcome>)
        ensures
            match key {
                Key::Char(c) => final(self)@ == old(self)@.push(c) && res is None,
                Key::Enter => final(self)@ == Seq::<char>::empty() && (res matches Some(outcome) && outcome@
                    == parse_line_spec(old(self)@)),
                Key::Other => final(self)@ == old(self)@ && res is None,
            },
    {
        match key {
            Key::Char(c) => {
                self.buffer.push(c);
                None
            },
            Key::Enter => {
                let outcome = parse_line(self.buffer.as_slice());
                self.buffer = Vec::new();
                Some(outcome)
            },
            Key::Other => None,
        }
    }
}

} // verus!
