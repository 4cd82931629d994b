//! The state of the interactive primorial calculator and how it answers keys.
use crate::number::{char_digit, decimal, decimal_value, BigNat};
use crate::storage::{ReadMode, WriteMode};
use crate::text::{chars_of, string_push, string_wrap, wrapped, OutputMode};
use vstd::prelude::*;
use vstd::string::StringExecFns;

verus! {

/// Whether computed numbers are shown.
#[derive(Debug, Clone, Copy, PartialEq, Eq)]
pub enum OutputSwitch {
    Enabled,
    Disabled,
}

/// Which file operation the file panel reports on.
#[derive(Debug, Clone, Copy, PartialEq, Eq)]
pub enum FileWindowMode {
    Read,
    NoFile,
    Write,
}

/// A key press, as far as the calculator tells keys apart.
#[derive(Debug, Clone, Copy, PartialEq, Eq)]
pub enum Key {
    Down,
    Up,
    Right,
    Left,
    Enter,
    Char(char),
    Backspace,
    Other,
}

/// What the calculator asks to be done after a key.
#[derive(Debug, Clone, Copy, PartialEq, Eq)]
pub enum Action {
    /// Nothing: wait for the next key.
    Continue,
    /// Leave the program.
    Quit,
    /// Compute the primorial of the number, show it and save it.
    Primorial(usize),
    /// The digits entered do not fit in a machine integer.
    NumberTooLarge,
    /// Load the saved number and show it.
    Read(ReadMode),
}

/// The calculator's state.
pub struct App {
    pub input: String,
    pub output: String,
    pub primes_status: String,
    pub primorial_status: String,
    pub file_status: String,
    pub scroll_position: u16,
    pub write_mode: WriteMode,
    pub output_mode: OutputMode,
    pub file_window_mode: FileWindowMode,
    pub output_switch: OutputSwitch,
}

/// The calculator's state with its texts as character sequences.
pub struct AppView {
    pub input: Seq<char>,
    pub output: Seq<char>,
    pub primes_status: Seq<char>,
    pub primorial_status: Seq<char>,
    pub file_status: Seq<char>,
    pub scroll_position: u16,
    pub write_mode: WriteMode,
    pub output_mode: OutputMode,
    pub file_window_mode: FileWindowMode,
    pub output_switch: OutputSwitch,
}

impl View for App {
    type V = AppView;

    open spec fn view(&self) -> AppView {
        AppView {
            input: self.input@,
            output: self.output@,
            primes_status: self.primes_status@,
            primorial_status: self.primorial_status@,
            file_status: self.file_status@,
            scroll_position: self.scroll_position,
            write_mode: self.write_mode,
            output_mode: self.output_mode,
            file_window_mode: self.file_window_mode,
            output_switch: self.output_switch,
        }
    }
}

// ---------------------------------------------------------------------------
// Text of commands
// ---------------------------------------------------------------------------

/// Nonempty text of decimal digits only.
pub open spec fn is_digits(d: Seq<char>) -> bool {
    &&& d.len() > 0
    &&& forall|k: int| 0 <= k < d.len() ==> #[trigger] char_digit(d[k]) is Some
}

/// `w` occurs in `d`.
pub open spec fn contains_word(d: Seq<char>, w: Seq<char>) -> bool {
    exists|i: int| 0 <= i && i + w.len() <= d.len() && #[trigger] d.subrange(i, i + w.len()) == w
}

/// `i` is the position of the first space in `d`.
pub open spec fn is_first_space(d: Seq<char>, i: int) -> bool {
    &&& 0 <= i < d.len()
    &&& d[i] == ' '
    &&& forall|j: int| 0 <= j < i ==> d[j] != ' '
}

/// The text before and after the first space, if there is one.
pub open spec fn split_once_space(d: Seq<char>) -> Option<(Seq<char>, Seq<char>)> {
    if exists|i: int| is_first_space(d, i) {
        let i = choose|i: int| is_first_space(d, i);
        Some((d.take(i), d.skip(i + 1)))
    } else {
        None
    }
}

/// `d` is the command `a b`: `a`, a space, then `b`, with no space in `a`.
pub open spec fn is_command(d: Seq<char>, a: Seq<char>, b: Seq<char>) -> bool {
    split_once_space(d) == Some((a, b))
}

pub open spec fn word_quit() -> Seq<char> {
    seq!['q', 'u', 'i', 't']
}

pub open spec fn word_output() -> Seq<char> {
    seq!['o', 'u', 't', 'p', 'u', 't']
}

pub open spec fn word_enable() -> Seq<char> {
    seq!['e', 'n', 'a', 'b', 'l', 'e']
}

pub open spec fn word_disable() -> Seq<char> {
    seq!['d', 'i', 's', 'a', 'b', 'l', 'e']
}

pub open spec fn word_write() -> Seq<char> {
    seq!['w', 'r', 'i', 't', 'e']
}

pub open spec fn word_read() -> Seq<char> {
    seq!['r', 'e', 'a', 'd']
}

pub open spec fn word_bin() -> Seq<char> {
    seq!['b', 'i', 'n']
}

pub open spec fn word_txt() -> Seq<char> {
    seq!['t', 'x', 't']
}

pub open spec fn word_none() -> Seq<char> {
    seq!['n', 'o', 'n', 'e']
}

// ---------------------------------------------------------------------------
// The transition function
// ---------------------------------------------------------------------------

/// The effect of an `output ...` command.
pub open spec fn output_command(s: AppView, d: Seq<char>) -> AppView {
    let s = AppView { output_mode: OutputMode::Message, ..s };
    if is_command(d, word_output(), word_enable()) {
        AppView { output_switch: OutputSwitch::Enabled, output: "Output enabled"@, ..s }
    } else if is_command(d, word_output(), word_disable()) {
        AppView { output_switch: OutputSwitch::Disabled, output: "Output disabled"@, ..s }
    } else {
        AppView {
            output: "Error: Invalid write option; Valid options: \"enable\" \"disable\""@,
            ..s
        }
    }
}

/// The effect of a `write ...` command.
pub open spec fn write_command(s: AppView, d: Seq<char>) -> AppView {
    let s = AppView { file_window_mode: FileWindowMode::Write, output_mode: OutputMode::Message, ..s };
    if is_command(d, word_write(), word_bin()) {
        AppView {
            write_mode: WriteMode::Bin,
            output: "Write mode bin selected, enter value; value will be saved"@,
            ..s
        }
    } else if is_command(d, word_write(), word_txt()) {
        AppView {
            write_mode: WriteMode::Txt,
            output: "Write mode txt selected, enter value; value will be saved"@,
            ..s
        }
    } else if is_command(d, word_write(), word_none()) {
        AppView {
            write_mode: WriteMode::NoFile,
            output: "Write mode none selected, enter value; value will be saved"@,
            ..s
        }
    } else {
        AppView {
            output: "Error: Invalid write option; Valid options: \"bin\" \"txt\" \"none\""@,
            ..s
        }
    }
}

/// The effect of a `read ...` command, given the action decided so far.
pub open spec fn read_command(s: AppView, d: Seq<char>, a: Action) -> (AppView, Action) {
    let s = AppView {
        file_window_mode: FileWindowMode::Read,
        output_mode: OutputMode::Message,
        primes_status: "No number generated"@,
        primorial_status: "No number generated"@,
        ..s
    };
    if is_command(d, word_read(), word_bin()) {
        (AppView { output_mode: OutputMode::Number, ..s }, Action::Read(ReadMode::Bin))
    } else if is_command(d, word_read(), word_txt()) {
        (AppView { output_mode: OutputMode::Number, ..s }, Action::Read(ReadMode::Txt))
    } else {
        (AppView { output: "Error: Invalid write option; Valid options: \"bin\" \"txt\""@, ..s }, a)
    }
}

/// The effect of the Enter key: the input is taken as a command or a number.
pub open spec fn enter_step(s: AppView) -> (AppView, Action) {
    let d = s.input;
    let s1 = AppView {
        input: Seq::empty(),
        file_window_mode: FileWindowMode::NoFile,
        scroll_position: 0,
        ..s
    };
    if d == word_quit() || d == seq!['q'] {
        (s1, Action::Quit)
    } else {
        let (s2, a2) = if !is_digits(d) {
            (
                AppView {
                    output_mode: OutputMode::Message,
                    output: "Error: Value is not a number!"@,
                    ..s1
                },
                Action::Continue,
            )
        } else {
            (
                AppView { output_mode: OutputMode::Number, ..s1 },
                if decimal_value(d) <= usize::MAX {
                    Action::Primorial(decimal_value(d) as usize)
                } else {
                    Action::NumberTooLarge
                },
            )
        };
        let s3 = if contains_word(d, word_output()) {
            output_command(s2, d)
        } else {
            s2
        };
        let s4 = if contains_word(d, word_write()) {
            write_command(s3, d)
        } else {
            s3
        };
        if contains_word(d, word_read()) {
            read_command(s4, d, a2)
        } else {
            (s4, a2)
        }
    }
}

/// The calculator's answer to a key: its next state and the action to take.
pub open spec fn key_step(s: AppView, key: Key) -> (AppView, Action) {
    match key {
        Key::Down => (AppView { scroll_position: (s.scroll_position + 1) as u16, ..s }, Action::Continue),
        Key::Up => (
            if s.scroll_position != 0 {
                AppView { scroll_position: (s.scroll_position - 1) as u16, ..s }
            } else {
                s
            },
            Action::Continue,
        ),
        Key::Right => (AppView { scroll_position: (s.scroll_position + 10) as u16, ..s }, Action::Continue),
        Key::Left => (
            if s.scroll_position > 9 {
                AppView { scroll_position: (s.scroll_position - 10) as u16, ..s }
            } else {
                s
            },
            Action::Continue,
        ),
        Key::Enter => enter_step(s),
        Key::Char(c) => (AppView { input: s.input.push(c), ..s }, Action::Continue),
        Key::Backspace => (
            AppView {
                input: if s.input.len() > 0 {
                    s.input.drop_last()
                } else {
                    s.input
                },
                ..s
            },
            Action::Continue,
        ),
        Key::Other => (s, Action::Continue),
    }
}

/// The keys that the calculator can take in state `s` without its scroll
/// position overflowing.
pub open spec fn key_allowed(s: AppView, key: Key) -> bool {
    &&& key == Key::Down ==> s.scroll_position < u16::MAX
    &&& key == Key::Right ==> s.scroll_position + 10 <= u16::MAX
}

// ---------------------------------------------------------------------------
// Laws of the transition function
// ---------------------------------------------------------------------------

/// Enter always takes the typed text away and scrolls back to the top.
pub proof fn lemma_enter_clears_input(s: AppView)
    ensures
        enter_step(s).0.input == Seq::<char>::empty(),
        enter_step(s).0.scroll_position == 0,
{
}

/// A word that starts with something other than a digit occurs in no text of digits.
proof fn lemma_no_word_in_digits(d: Seq<char>, w: Seq<char>)
    requires
        is_digits(d),
        w.len() > 0,
        char_digit(w[0]) is None,
    ensures
        !contains_word(d, w),
{
    if contains_word(d, w) {
        let i = choose|i: int| 0 <= i && i + w.len() <= d.len() && #[trigger] d.subrange(i, i + w.len()) == w;
        assert(d.subrange(i, i + w.len())[0] == d[i]);
        assert(char_digit(d[i]) is Some);
    }
}

/// Typed digits ask for the primorial of their number (or report that it is too
/// large), show the answer as a number, and change no setting and no other text.
pub proof fn lemma_number_input(s: AppView)
    requires
        is_digits(s.input),
    ensures
        enter_step(s).1 == if decimal_value(s.input) <= usize::MAX {
            Action::Primorial(decimal_value(s.input) as usize)
        } else {
            Action::NumberTooLarge
        },
        enter_step(s).0.output_mode == OutputMode::Number,
        enter_step(s).0.file_window_mode == FileWindowMode::NoFile,
        enter_step(s).0.write_mode == s.write_mode,
        enter_step(s).0.output_switch == s.output_switch,
        enter_step(s).0.output == s.output,
        enter_step(s).0.primes_status == s.primes_status,
        enter_step(s).0.primorial_status == s.primorial_status,
        enter_step(s).0.file_status == s.file_status,
{
    let d = s.input;
    assert(char_digit(d[0]) is Some);
    assert(d != word_quit());
    assert(d != seq!['q']);
    lemma_no_word_in_digits(d, word_output());
    lemma_no_word_in_digits(d, word_write());
    lemma_no_word_in_digits(d, word_read());
}

// ---------------------------------------------------------------------------
// Laws of single keys
// ---------------------------------------------------------------------------

/// Enter asks to leave the program exactly when the typed line is `quit` or `q`.
pub proof fn lemma_enter_quits_exactly_on_quit(s: AppView)
    ensures
        (enter_step(s).1 == Action::Quit) <==> (s.input == seq!['q', 'u', 'i', 't'] || s.input == seq!['q']),
{
}

/// A typed line that is neither `quit`, `q`, a number, nor holds the word `read`
/// is answered with `Continue`: the calculator waits for the next line.
pub proof fn lemma_enter_continues_on_commands(s: AppView)
    requires
        s.input != seq!['q', 'u', 'i', 't'],
        s.input != seq!['q'],
        !is_digits(s.input),
        !contains_word(s.input, seq!['r', 'e', 'a', 'd']),
    ensures
        enter_step(s).1 == Action::Continue,
{
}

/// `r` occurs in `d` only where `d` holds `r`'s first two characters in a row.
proof fn lemma_occurrence_starts(d: Seq<char>, r: Seq<char>)
    requires
        r.len() >= 2,
        contains_word(d, r),
    ensures
        exists|i: int| 0 <= i && i + 1 < d.len() && d[i] == r[0] && #[trigger] d[i + 1] == r[1],
{
    let i = choose|i: int| 0 <= i && i + r.len() <= d.len() && #[trigger] d.subrange(i, i + r.len()) == r;
    assert(d.subrange(i, i + r.len())[0] == d[i]);
    assert(d.subrange(i, i + r.len())[1] == d[i + 1]);
}

/// `d` is the command `a b`, split at its only space.
proof fn lemma_command_at(d: Seq<char>, a: Seq<char>, b: Seq<char>)
    requires
        d == a + seq![' '] + b,
        forall|k: int| 0 <= k < a.len() ==> a[k] != ' ',
    ensures
        is_command(d, a, b),
{
    let i = a.len() as int;
    assert(d[i] == ' ');
    assert forall|j: int| 0 <= j < i implies d[j] != ' ' by {
        assert(d[j] == a[j]);
    }
    assert(is_first_space(d, i));
    let c = choose|c: int| is_first_space(d, c);
    assert(c == i) by {
        if c < i {
            assert(d[c] != ' ');
        } else if c > i {
            assert(d[i] != ' ');
        }
    }
    assert(d.take(i) =~= a);
    assert(d.skip(i + 1) =~= b);
}

/// The commands `output enable`, `output disable`, `write bin`, `write txt` and
/// `write none` are answered with `Continue`, and each sets what it names.
pub proof fn lemma_setting_commands(s: AppView)
    ensures
        s.input == seq!['o', 'u', 't', 'p', 'u', 't', ' ', 'e', 'n', 'a', 'b', 'l', 'e'] ==> enter_step(s).1
            == Action::Continue && enter_step(s).0.output_switch == OutputSwitch::Enabled,
        s.input == seq!['o', 'u', 't', 'p', 'u', 't', ' ', 'd', 'i', 's', 'a', 'b', 'l', 'e'] ==> enter_step(
            s,
        ).1 == Action::Continue && enter_step(s).0.output_switch == OutputSwitch::Disabled,
        s.input == seq!['w', 'r', 'i', 't', 'e', ' ', 'b', 'i', 'n'] ==> enter_step(s).1 == Action::Continue
            && enter_step(s).0.write_mode == WriteMode::Bin,
        s.input == seq!['w', 'r', 'i', 't', 'e', ' ', 't', 'x', 't'] ==> enter_step(s).1 == Action::Continue
            && enter_step(s).0.write_mode == WriteMode::Txt,
        s.input == seq!['w', 'r', 'i', 't', 'e', ' ', 'n', 'o', 'n', 'e'] ==> enter_step(s).1
            == Action::Continue && enter_step(s).0.write_mode == WriteMode::NoFile,
{
    let d = s.input;
    let read = seq!['r', 'e', 'a', 'd'];
    let out = seq!['o', 'u', 't', 'p', 'u', 't'];
    let wr = seq!['w', 'r', 'i', 't', 'e'];
    if d == out + seq![' '] + seq!['e', 'n', 'a', 'b', 'l', 'e'] || d == out + seq![' '] + seq![
        'd',
        'i',
        's',
        'a',
        'b',
        'l',
        'e',
    ] || d == wr + seq![' '] + seq!['b', 'i', 'n'] || d == wr + seq![' '] + seq!['t', 'x', 't'] || d == wr
        + seq![' '] + seq!['n', 'o', 'n', 'e'] {
        assert(char_digit(d[0]) is None);
        if contains_word(d, read) {
            lemma_occurrence_starts(d, read);
            let i = choose|i: int| 0 <= i && i + 1 < d.len() && d[i] == read[0] && #[trigger] d[i + 1] == read[1];
            assert(d[i] == 'r' && d[i + 1] == 'e');
            assert(false);
        }
        lemma_enter_continues_on_commands(s);
        lemma_enter_settings(s);
    }
    if d == out + seq![' '] + seq!['e', 'n', 'a', 'b', 'l', 'e'] {
        lemma_command_at(d, word_output(), word_enable());
    }
    if d == out + seq![' '] + seq!['d', 'i', 's', 'a', 'b', 'l', 'e'] {
        lemma_command_at(d, word_output(), word_disable());
        assert(!is_command(d, word_output(), word_enable()));
    }
    if d == wr + seq![' '] + seq!['b', 'i', 'n'] {
        lemma_command_at(d, word_write(), word_bin());
    }
    if d == wr + seq![' '] + seq!['t', 'x', 't'] {
        lemma_command_at(d, word_write(), word_txt());
        assert(!is_command(d, word_write(), word_bin()));
    }
    if d == wr + seq![' '] + seq!['n', 'o', 'n', 'e'] {
        lemma_command_at(d, word_write(), word_none());
        assert(!is_command(d, word_write(), word_bin()));
        assert(!is_command(d, word_write(), word_txt()));
    }
    assert(seq!['o', 'u', 't', 'p', 'u', 't', ' ', 'e', 'n', 'a', 'b', 'l', 'e'] =~= out + seq![' '] + seq![
        'e',
        'n',
        'a',
        'b',
        'l',
        'e',
    ]);
    assert(seq!['o', 'u', 't', 'p', 'u', 't', ' ', 'd', 'i', 's', 'a', 'b', 'l', 'e'] =~= out + seq![' ']
        + seq!['d', 'i', 's', 'a', 'b', 'l', 'e']);
    assert(seq!['w', 'r', 'i', 't', 'e', ' ', 'b', 'i', 'n'] =~= wr + seq![' '] + seq!['b', 'i', 'n']);
    assert(seq!['w', 'r', 'i', 't', 'e', ' ', 't', 'x', 't'] =~= wr + seq![' '] + seq!['t', 'x', 't']);
    assert(seq!['w', 'r', 'i', 't', 'e', ' ', 'n', 'o', 'n', 'e'] =~= wr + seq![' '] + seq![
        'n',
        'o',
        'n',
        'e',
    ]);
}

/// Typing a character and pressing Backspace gives back the state before.
pub proof fn lemma_backspace_undoes_typing(s: AppView, c: char)
    ensures
        key_step(key_step(s, Key::Char(c)).0, Key::Backspace).0 == s,
{
    assert(s.input.push(c).drop_last() =~= s.input);
}

/// Backspace on a nonempty input removes exactly its last character, and on an
/// empty input changes nothing; nothing else changes.
pub proof fn lemma_backspace_removes_last(s: AppView)
    ensures
        s.input.len() > 0 ==> key_step(s, Key::Backspace).0.input.len() + 1 == s.input.len()
            && key_step(s, Key::Backspace).0.input == s.input.subrange(0, s.input.len() - 1)
            && key_step(s, Key::Backspace).0.input.push(s.input.last()) == s.input,
        s.input.len() == 0 ==> key_step(s, Key::Backspace).0 == s,
        key_step(s, Key::Backspace).0.output == s.output,
        key_step(s, Key::Backspace).1 == Action::Continue,
{
    if s.input.len() > 0 {
        assert(s.input.drop_last().push(s.input.last()) =~= s.input);
    }
}

/// Up moves one line back from any position but the top, where it stays, and
/// Left moves ten lines back from the eleventh line on.
pub proof fn lemma_scroll_back(s: AppView)
    ensures
        key_step(s, Key::Up).0.scroll_position == if s.scroll_position > 0 {
            s.scroll_position - 1
        } else {
            0
        },
        key_step(s, Key::Left).0.scroll_position == if s.scroll_position >= 10 {
            s.scroll_position - 10
        } else {
            s.scroll_position as int
        },
        key_step(s, Key::Up).0.input == s.input,
{
}

/// Down then Up, and Right then Left, come back to the same state.
pub proof fn lemma_scroll_round_trips(s: AppView)
    ensures
        s.scroll_position < u16::MAX ==> key_step(key_step(s, Key::Down).0, Key::Up).0 == s,
        s.scroll_position + 10 <= u16::MAX ==> key_step(key_step(s, Key::Right).0, Key::Left).0 == s,
        s.scroll_position < u16::MAX ==> key_step(s, Key::Down).0.scroll_position == s.scroll_position + 1,
{
}

// ---------------------------------------------------------------------------
// Laws over sequences of keys
// ---------------------------------------------------------------------------

/// The state after a sequence of keys, each answered by `key_step`.
pub open spec fn run_keys(s: AppView, keys: Seq<Key>) -> AppView
    decreases keys.len(),
{
    if keys.len() == 0 {
        s
    } else {
        key_step(run_keys(s, keys.drop_last()), keys.last()).0
    }
}

/// `keys` type the characters of `line`, one `Char` key each.
pub open spec fn types_line(keys: Seq<Key>, line: Seq<char>) -> bool {
    &&& keys.len() == line.len()
    &&& forall|i: int| 0 <= i < line.len() ==> #[trigger] keys[i] == Key::Char(line[i])
}

/// Each key sequence in turn, followed by Enter.
pub open spec fn submit_all(typing: Seq<Seq<Key>>) -> Seq<Key>
    decreases typing.len(),
{
    if typing.len() == 0 {
        Seq::empty()
    } else {
        submit_all(typing.drop_last()) + typing.last().push(Key::Enter)
    }
}

/// `typing[j]` types `lines[j]` for every `j`.
pub open spec fn types_lines(typing: Seq<Seq<Key>>, lines: Seq<Seq<char>>) -> bool {
    &&& typing.len() == lines.len()
    &&& forall|j: int| 0 <= j < lines.len() ==> types_line(#[trigger] typing[j], lines[j])
}

/// The write mode chosen by the last valid `write bin`, `write txt` or
/// `write none` among the lines, or `m` if there is none.
pub open spec fn last_write_mode(m: WriteMode, lines: Seq<Seq<char>>) -> WriteMode
    decreases lines.len(),
{
    if lines.len() == 0 {
        m
    } else {
        let d = lines.last();
        if is_command(d, word_write(), word_bin()) {
            WriteMode::Bin
        } else if is_command(d, word_write(), word_txt()) {
            WriteMode::Txt
        } else if is_command(d, word_write(), word_none()) {
            WriteMode::NoFile
        } else {
            last_write_mode(m, lines.drop_last())
        }
    }
}

/// The output switch set by the last `output enable` or `output disable` among
/// the lines, or `o` if there is none.
pub open spec fn last_output_switch(o: OutputSwitch, lines: Seq<Seq<char>>) -> OutputSwitch
    decreases lines.len(),
{
    if lines.len() == 0 {
        o
    } else {
        let d = lines.last();
        if is_command(d, word_output(), word_enable()) {
            OutputSwitch::Enabled
        } else if is_command(d, word_output(), word_disable()) {
            OutputSwitch::Disabled
        } else {
            last_output_switch(o, lines.drop_last())
        }
    }
}

proof fn lemma_run_keys_append(s: AppView, a: Seq<Key>, b: Seq<Key>)
    ensures
        run_keys(s, a + b) == run_keys(run_keys(s, a), b),
    decreases b.len(),
{
    if b.len() == 0 {
        assert(a + b =~= a);
    } else {
        lemma_run_keys_append(s, a, b.drop_last());
        assert((a + b).drop_last() =~= a + b.drop_last());
        assert((a + b).last() == b.last());
    }
}

/// Typing a line appends it to the input and changes nothing else.
proof fn lemma_typing(s: AppView, keys: Seq<Key>, line: Seq<char>)
    requires
        types_line(keys, line),
    ensures
        run_keys(s, keys) == (AppView { input: s.input + line, ..s }),
    decreases line.len(),
{
    if line.len() == 0 {
        assert(s.input + line =~= s.input);
    } else {
        let k0 = keys.drop_last();
        let l0 = line.drop_last();
        assert forall|i: int| 0 <= i < l0.len() implies #[trigger] k0[i] == Key::Char(l0[i]) by {
            assert(keys[i] == Key::Char(line[i]));
        }
        lemma_typing(s, k0, l0);
        assert(keys.last() == Key::Char(line.last())) by {
            assert(keys[line.len() - 1] == Key::Char(line[line.len() - 1]));
        }
        assert((s.input + l0).push(line.last()) =~= s.input + line);
    }
}

/// A command `a b` contains the word `a`.
proof fn lemma_command_contains(d: Seq<char>, a: Seq<char>, b: Seq<char>)
    requires
        is_command(d, a, b),
    ensures
        contains_word(d, a),
{
    let i = choose|i: int| is_first_space(d, i);
    assert(d.take(i) == a);
    assert(d.subrange(0, 0 + a.len() as int) =~= a);
}

/// A text without spaces is no command.
proof fn lemma_no_space_no_command(d: Seq<char>, a: Seq<char>, b: Seq<char>)
    requires
        forall|k: int| 0 <= k < d.len() ==> d[k] != ' ',
    ensures
        !is_command(d, a, b),
{
}

/// What Enter does to the write mode and the output switch.
proof fn lemma_enter_settings(s: AppView)
    ensures
        enter_step(s).0.write_mode == (if is_command(s.input, word_write(), word_bin()) {
            WriteMode::Bin
        } else if is_command(s.input, word_write(), word_txt()) {
            WriteMode::Txt
        } else if is_command(s.input, word_write(), word_none()) {
            WriteMode::NoFile
        } else {
            s.write_mode
        }),
        enter_step(s).0.output_switch == (if is_command(s.input, word_output(), word_enable()) {
            OutputSwitch::Enabled
        } else if is_command(s.input, word_output(), word_disable()) {
            OutputSwitch::Disabled
        } else {
            s.output_switch
        }),
{
    let d = s.input;
    if d == word_quit() || d == seq!['q'] {
        assert forall|k: int| 0 <= k < d.len() implies d[k] != ' ' by {}
        lemma_no_space_no_command(d, word_write(), word_bin());
        lemma_no_space_no_command(d, word_write(), word_txt());
        lemma_no_space_no_command(d, word_write(), word_none());
        lemma_no_space_no_command(d, word_output(), word_enable());
        lemma_no_space_no_command(d, word_output(), word_disable());
    } else {
        if is_command(d, word_write(), word_bin()) {
            lemma_command_contains(d, word_write(), word_bin());
        }
        if is_command(d, word_write(), word_txt()) {
            lemma_command_contains(d, word_write(), word_txt());
        }
        if is_command(d, word_write(), word_none()) {
            lemma_command_contains(d, word_write(), word_none());
        }
        if is_command(d, word_output(), word_enable()) {
            lemma_command_contains(d, word_output(), word_enable());
        }
        if is_command(d, word_output(), word_disable()) {
            lemma_command_contains(d, word_output(), word_disable());
        }
    }
}

/// Typed and submitted lines leave the input empty; the write mode is the one
/// the last valid `write ...` line chose, and the output switch the one the last
/// `output enable` or `output disable` line set.
pub proof fn lemma_last_commands_decide(s: AppView, typing: Seq<Seq<Key>>, lines: Seq<Seq<char>>)
    requires
        s.input == Seq::<char>::empty(),
        types_lines(typing, lines),
    ensures
        run_keys(s, submit_all(typing)).input == Seq::<char>::empty(),
        run_keys(s, submit_all(typing)).write_mode == last_write_mode(s.write_mode, lines),
        run_keys(s, submit_all(typing)).output_switch == last_output_switch(s.output_switch, lines),
    decreases lines.len(),
{
    if lines.len() > 0 {
        let init = lines.drop_last();
        let tinit = typing.drop_last();
        let line = lines.last();
        let keys = typing.last();
        assert forall|j: int| 0 <= j < init.len() implies types_line(#[trigger] tinit[j], init[j]) by {
            assert(types_line(typing[j], lines[j]));
        }
        lemma_last_commands_decide(s, tinit, init);
        let s1 = run_keys(s, submit_all(tinit));
        lemma_run_keys_append(s, submit_all(tinit), keys.push(Key::Enter));
        assert(keys.push(Key::Enter).drop_last() =~= keys);
        assert(types_line(typing[lines.len() - 1], lines[lines.len() - 1]));
        lemma_typing(s1, keys, line);
        let s2 = AppView { input: s1.input + line, ..s1 };
        assert(s1.input + line =~= line);
        lemma_enter_clears_input(s2);
        lemma_enter_settings(s2);
    }
}

/// After typed lines, typed digits ask for the primorial of their number, and
/// the number is saved with the write mode of the last valid `write ...` line.
pub proof fn lemma_saved_with_last_write_mode(
    s: AppView,
    typing: Seq<Seq<Key>>,
    lines: Seq<Seq<char>>,
    keys: Seq<Key>,
    digits: Seq<char>,
)
    requires
        s.input == Seq::<char>::empty(),
        types_lines(typing, lines),
        types_line(keys, digits),
        is_digits(digits),
    ensures
        ({
            let (t, a) = key_step(run_keys(s, submit_all(typing) + keys), Key::Enter);
            &&& a == if decimal_value(digits) <= usize::MAX {
                Action::Primorial(decimal_value(digits) as usize)
            } else {
                Action::NumberTooLarge
            }
            &&& t.write_mode == last_write_mode(s.write_mode, lines)
            &&& t.output_switch == last_output_switch(s.output_switch, lines)
        }),
{
    lemma_last_commands_decide(s, typing, lines);
    let s1 = run_keys(s, submit_all(typing));
    lemma_run_keys_append(s, submit_all(typing), keys);
    lemma_typing(s1, keys, digits);
    let s2 = AppView { input: s1.input + digits, ..s1 };
    assert(s1.input + digits =~= digits);
    lemma_number_input(s2);
}

/// The title of the output panel.
pub open spec fn output_panel_title(s: AppView) -> Seq<char> {
    match s.output_switch {
        OutputSwitch::Enabled => "Output: Enabled"@,
        OutputSwitch::Disabled => "Output: Disabled"@,
    }
}

/// The text of the output panel for lines of `width` characters.
pub open spec fn output_panel_text(s: AppView, width: nat) -> Seq<char> {
    match s.output_switch {
        OutputSwitch::Enabled => wrapped(s.output, width, s.output_mode),
        OutputSwitch::Disabled => "Output disabled; Type output enable to enable output"@,
    }
}

/// After typed and submitted lines, the output panel is off exactly when the
/// last `output enable` or `output disable` line (or, without one, the start
/// state) turned it off; it then shows the note that output is off, whatever
/// the output holds.
pub proof fn lemma_output_panel_follows_last_switch(
    s: AppView,
    typing: Seq<Seq<Key>>,
    lines: Seq<Seq<char>>,
    width: nat,
)
    requires
        s.input == Seq::<char>::empty(),
        types_lines(typing, lines),
    ensures
        last_output_switch(s.output_switch, lines) == OutputSwitch::Disabled ==> output_panel_title(
            run_keys(s, submit_all(typing)),
        ) == "Output: Disabled"@ && output_panel_text(run_keys(s, submit_all(typing)), width)
            == "Output disabled; Type output enable to enable output"@,
        last_output_switch(s.output_switch, lines) == OutputSwitch::Enabled ==> output_panel_title(
            run_keys(s, submit_all(typing)),
        ) == "Output: Enabled"@ && output_panel_text(run_keys(s, submit_all(typing)), width)
            == wrapped(run_keys(s, submit_all(typing)).output, width, run_keys(s, submit_all(typing)).output_mode),
{
    lemma_last_commands_decide(s, typing, lines);
}

// ---------------------------------------------------------------------------
// Executable helpers on characters
// ---------------------------------------------------------------------------

/// `String::pop`: removes the last character, if there is one.
#[verifier::external_body]
fn pop_char(s: &mut String) -> (r: Option<char>)
    ensures
        old(s)@.len() == 0 ==> r is None && final(s)@ == old(s)@,
        old(s)@.len() > 0 ==> r == Some(old(s)@.last()) && final(s)@ == old(s)@.drop_last(),
{
    s.pop()
}

/// The value of a decimal digit character, if it is one.
fn char_to_digit(c: char) -> (r: Option<usize>)
    ensures
        r is Some <==> char_digit(c) is Some,
        r matches Some(d) ==> char_digit(c) == Some(d as nat) && d < 10,
{
    match c {
        '0' => Some(0),
        '1' => Some(1),
        '2' => Some(2),
        '3' => Some(3),
        '4' => Some(4),
        '5' => Some(5),
        '6' => Some(6),
        '7' => Some(7),
        '8' => Some(8),
        '9' => Some(9),
        _ => None,
    }
}

/// `d` equals `w`.
fn same_chars(d: &Vec<char>, w: &[char]) -> (r: bool)
    ensures
        r == (d@ == w@),
{
    if d.len() != w.len() {
        return false;
    }
    let mut k: usize = 0;
    while k < d.len()
        invariant
            d.len() == w.len(),
            k <= d.len(),
            forall|j: int| 0 <= j < k ==> d@[j] == w@[j],
        decreases d.len() - k,
    {
        if d[k] != w[k] {
            return false;
        }
        k = k + 1;
    }
    assert(d@ =~= w@);
    true
}

/// `d` is nonempty and made of decimal digits only.
fn all_digits(d: &Vec<char>) -> (r: bool)
    ensures
        r == is_digits(d@),
{
    if d.len() == 0 {
        return false;
    }
    let mut k: usize = 0;
    while k < d.len()
        invariant
            k <= d.len(),
            forall|j: int| 0 <= j < k ==> #[trigger] char_digit(d@[j]) is Some,
        decreases d.len() - k,
    {
        if char_to_digit(d[k]).is_none() {
            return false;
        }
        k = k + 1;
    }
    true
}

/// `w` occurs in `d`.
fn occurs(d: &Vec<char>, w: &[char]) -> (r: bool)
    ensures
        r == contains_word(d@, w@),
{
    if w.len() > d.len() {
        return false;
    }
    let last = d.len() - w.len();
    let mut i: usize = 0;
    while i <= last
        invariant
            last == d.len() - w.len(),
            w.len() <= d.len(),
            i <= last + 1,
            forall|j: int| 0 <= j < i ==> #[trigger] d@.subrange(j, j + w@.len()) != w@,
        decreases last + 1 - i,
    {
        let mut k: usize = 0;
        let mut same = true;
        while k < w.len()
            invariant
                i <= last,
                last == d.len() - w.len(),
                k <= w.len(),
                same == (forall|j: int| 0 <= j < k ==> d@[i + j] == w@[j]),
            decreases w.len() - k,
        {
            if d[i + k] != w[k] {
                same = false;
            }
            k = k + 1;
        }
        if same {
            assert(d@.subrange(i as int, i + w@.len()) =~= w@);
            return true;
        }
        proof {
            let j = choose|j: int| 0 <= j < w.len() && d@[i + j] != w@[j];
            assert(d@.subrange(i as int, i + w@.len())[j] != w@[j]);
        }
        i = i + 1;
    }
    false
}

/// The text before and after the first space of `d`, as `str::split_once(" ")` gives.
fn split_at_first_space(d: &Vec<char>) -> (r: Option<(Vec<char>, Vec<char>)>)
    ensures
        r is None ==> split_once_space(d@) is None,
        r matches Some((a, b)) ==> split_once_space(d@) == Some((a@, b@)),
{
    let mut i: usize = 0;
    while i < d.len()
        invariant
            i <= d.len(),
            forall|j: int| 0 <= j < i ==> d@[j] != ' ',
        decreases d.len() - i,
    {
        if d[i] == ' ' {
            proof {
                assert(is_first_space(d@, i as int));
                let c = choose|c: int| is_first_space(d@, c);
                assert(c == i) by {
                    if c < i {
                        assert(d@[c] != ' ');
                    } else if c > i {
                        assert(d@[i as int] != ' ');
                    }
                }
            }
            let mut a: Vec<char> = Vec::new();
            let mut k: usize = 0;
            while k < i
                invariant
                    k <= i < d.len(),
                    a@ == d@.take(k as int),
                decreases i - k,
            {
                a.push(d[k]);
                assert(a@ =~= d@.take(k + 1));
                k = k + 1;
            }
            let mut b: Vec<char> = Vec::new();
            let mut k: usize = i + 1;
            while k < d.len()
                invariant
                    i + 1 <= k <= d.len(),
                    b@ == d@.subrange(i + 1, k as int),
                decreases d.len() - k,
            {
                b.push(d[k]);
                assert(b@ =~= d@.subrange(i + 1, k + 1));
                k = k + 1;
            }
            assert(b@ =~= d@.skip(i + 1));
            return Some((a, b));
        }
        i = i + 1;
    }
    None
}

/// The number that a text of decimal digits denotes, if it fits in a `usize`.
fn parse_usize(d: &Vec<char>) -> (r: Option<usize>)
    requires
        is_digits(d@),
    ensures
        r == if decimal_value(d@) <= usize::MAX {
            Some(decimal_value(d@) as usize)
        } else {
            None::<usize>
        },
{
    let mut value: usize = 0;
    let mut fits = true;
    let mut k: usize = 0;
    proof {
        assert(d@.take(0) =~= Seq::<char>::empty());
    }
    while k < d.len()
        invariant
            is_digits(d@),
            k <= d.len(),
            fits ==> value == decimal_value(d@.take(k as int)),
            !fits ==> decimal_value(d@.take(k as int)) > usize::MAX,
        decreases d.len() - k,
    {
        let digit = match char_to_digit(d[k]) {
            Some(x) => x,
            None => 0,
        };
        proof {
            let t = d@.take(k + 1);
            assert(char_digit(d@[k as int]) is Some);
            assert(t.drop_last() =~= d@.take(k as int));
            assert(t.last() == d@[k as int]);
            assert(t.last() != '_');
            assert(decimal_value(t) == decimal_value(d@.take(k as int)) * 10 + digit);
        }
        if fits {
            match value.checked_mul(10) {
                Some(tens) => match tens.checked_add(digit) {
                    Some(next) => {
                        value = next;
                    },
                    None => {
                        fits = false;
                    },
                },
                None => {
                    fits = false;
                },
            }
        }
        k = k + 1;
    }
    proof {
        assert(d@.take(d.len() as int) =~= d@);
    }
    if fits {
        Some(value)
    } else {
        None
    }
}

// ---------------------------------------------------------------------------
// The calculator
// ---------------------------------------------------------------------------

impl App {
    /// The state at start: nothing typed, nothing shown, numbers shown when
    /// computed, and nothing saved.
    pub fn new() -> (app: App)
        ensures
            app@.input == Seq::<char>::empty(),
            app@.output == Seq::<char>::empty(),
            app@.primes_status == Seq::<char>::empty(),
            app@.primorial_status == Seq::<char>::empty(),
            app@.file_status == Seq::<char>::empty(),
            app.scroll_position == 0,
            app.write_mode == WriteMode::NoFile,
            app.output_mode == OutputMode::Message,
            app.file_window_mode == FileWindowMode::NoFile,
            app.output_switch == OutputSwitch::Enabled,
    {
        App {
            input: String::new(),
            output: String::new(),
            primes_status: String::new(),
            primorial_status: String::new(),
            file_status: String::new(),
            scroll_position: 0,
            write_mode: WriteMode::NoFile,
            output_mode: OutputMode::Message,
            file_window_mode: FileWindowMode::NoFile,
            output_switch: OutputSwitch::Enabled,
        }
    }

    /// Answers a key: updates the state and says what is to be done.
    pub fn handle_key(&mut self, key: Key) -> (a: Action)
        requires
            key_allowed(old(self)@, key),
        ensures
            (final(self)@, a) == key_step(old(self)@, key),
    {
        match key {
            Key::Down => {
                self.scroll_position = self.scroll_position + 1;
                Action::Continue
            },
            Key::Up => {
                if self.scroll_position != 0 {
                    self.scroll_position = self.scroll_position - 1;
                }
                Action::Continue
            },
            Key::Right => {
                self.scroll_position = self.scroll_position + 10;
                Action::Continue
            },
            Key::Left => {
                if self.scroll_position != 0 && self.scroll_position > 9 {
                    self.scroll_position = self.scroll_position - 10;
                }
                Action::Continue
            },
            Key::Enter => self.enter(),
            Key::Char(c) => {
                string_push(&mut self.input, c);
                Action::Continue
            },
            Key::Backspace => {
                pop_char(&mut self.input);
                Action::Continue
            },
            Key::Other => Action::Continue,
        }
    }

    /// Takes the input as a command or a number.
    fn enter(&mut self) -> (a: Action)
        ensures
            (final(self)@, a) == enter_step(old(self)@),
    {
        let ghost s0 = self@;
        self.file_window_mode = FileWindowMode::NoFile;
        self.scroll_position = 0;
        let drain = chars_of(self.input.as_str());
        self.input = String::new();
        let ghost d = drain@;
        assert(d == s0.input);

        if same_chars(&drain, &['q', 'u', 'i', 't']) || same_chars(&drain, &['q']) {
            proof {
                assert(['q', 'u', 'i', 't']@ =~= word_quit());
                assert(['q']@ =~= seq!['q']);
            }
            return Action::Quit;
        }
        proof {
            assert(['q', 'u', 'i', 't']@ =~= word_quit());
            assert(['q']@ =~= seq!['q']);
        }
        let mut action = Action::Continue;
        if !all_digits(&drain) {
            self.output_mode = OutputMode::Message;
            self.output = String::from_str("Error: Value is not a number!");
        } else {
            self.output_mode = OutputMode::Number;
            action = match parse_usize(&drain) {
                Some(n) => Action::Primorial(n),
                None => Action::NumberTooLarge,
            };
        }

        let ghost s2 = self@;
        let ghost a2 = action;
        let words_output = ['o', 'u', 't', 'p', 'u', 't'];
        let words_write = ['w', 'r', 'i', 't', 'e'];
        let words_read = ['r', 'e', 'a', 'd'];
        proof {
            assert(words_output@ =~= word_output());
            assert(words_write@ =~= word_write());
            assert(words_read@ =~= word_read());
        }
        let split = split_at_first_space(&drain);

        if occurs(&drain, &words_output) {
            self.output_mode = OutputMode::Message;
            let (enable, disable) = match &split {
                Some((first, second)) => {
                    let is_output = same_chars(first, &words_output);
                    (
                        is_output && same_chars(second, &['e', 'n', 'a', 'b', 'l', 'e']),
                        is_output && same_chars(second, &['d', 'i', 's', 'a', 'b', 'l', 'e']),
                    )
                },
                None => (false, false),
            };
            proof {
                assert(['e', 'n', 'a', 'b', 'l', 'e']@ =~= word_enable());
                assert(['d', 'i', 's', 'a', 'b', 'l', 'e']@ =~= word_disable());
            }
            if enable {
                self.output_switch = OutputSwitch::Enabled;
                self.output = String::from_str("Output enabled");
            } else if disable {
                self.output_switch = OutputSwitch::Disabled;
                self.output = String::from_str("Output disabled");
            } else {
                self.output = String::from_str(
                    "Error: Invalid write option; Valid options: \"enable\" \"disable\"",
                );
            }
            assert(self@ == output_command(s2, d));
        }
        let ghost s3 = self@;

        if occurs(&drain, &words_write) {
            self.file_window_mode = FileWindowMode::Write;
            self.output_mode = OutputMode::Message;
            let (bin, txt, none) = match &split {
                Some((first, second)) => {
                    let is_write = same_chars(first, &words_write);
                    (
                        is_write && same_chars(second, &['b', 'i', 'n']),
                        is_write && same_chars(second, &['t', 'x', 't']),
                        is_write && same_chars(second, &['n', 'o', 'n', 'e']),
                    )
                },
                None => (false, false, false),
            };
            proof {
                assert(['b', 'i', 'n']@ =~= word_bin());
                assert(['t', 'x', 't']@ =~= word_txt());
                assert(['n', 'o', 'n', 'e']@ =~= word_none());
            }
            if bin {
                self.write_mode = WriteMode::Bin;
                self.output = String::from_str(
                    "Write mode bin selected, enter value; value will be saved",
                );
            } else if txt {
                self.write_mode = WriteMode::Txt;
                self.output = String::from_str(
                    "Write mode txt selected, enter value; value will be saved",
                );
            } else if none {
                self.write_mode = WriteMode::NoFile;
                self.output = String::from_str(
                    "Write mode none selected, enter value; value will be saved",
                );
            } else {
                self.output = String::from_str(
                    "Error: Invalid write option; Valid options: \"bin\" \"txt\" \"none\"",
                );
            }
            assert(self@ == write_command(s3, d));
        }
        let ghost s4 = self@;

        if occurs(&drain, &words_read) {
            self.file_window_mode = FileWindowMode::Read;
            self.output_mode = OutputMode::Message;
            self.primes_status = String::from_str("No number generated");
            self.primorial_status = String::from_str("No number generated");
            let (bin, txt) = match &split {
                Some((first, second)) => {
                    let is_read = same_chars(first, &words_read);
                    (
                        is_read && same_chars(second, &['b', 'i', 'n']),
                        is_read && same_chars(second, &['t', 'x', 't']),
                    )
                },
                None => (false, false),
            };
            proof {
                assert(['b', 'i', 'n']@ =~= word_bin());
                assert(['t', 'x', 't']@ =~= word_txt());
            }
            if bin {
                self.output_mode = OutputMode::Number;
                action = Action::Read(ReadMode::Bin);
            } else if txt {
                self.output_mode = OutputMode::Number;
                action = Action::Read(ReadMode::Txt);
            } else {
                self.output = String::from_str(
                    "Error: Invalid write option; Valid options: \"bin\" \"txt\"",
                );
            }
            assert((self@, action) == read_command(s4, d, a2));
        }
        action
    }

    /// Shows a computed primorial (or says that output is off) together with the
    /// time taken to find the primes and to multiply them.
    pub fn show_primorial(&mut self, number: &BigNat, primes_status: String, primorial_status: String)
        ensures
            final(self)@ == (AppView {
                output: match old(self).output_switch {
                    OutputSwitch::Enabled => decimal(number@),
                    OutputSwitch::Disabled => "Output disabled; Type output enable to enable output"@,
                },
                primes_status: primes_status@,
                primorial_status: primorial_status@,
                ..old(self)@
            }),
    {
        match self.output_switch {
            OutputSwitch::Enabled => {
                self.output = number.to_decimal_string();
            },
            OutputSwitch::Disabled => {
                self.output = String::from_str("Output disabled; Type output enable to enable output");
            },
        }
        self.primes_status = primes_status;
        self.primorial_status = primorial_status;
    }
    /// Shows what was loaded from a file: the report on the read and the
    /// number's decimal text.
    pub fn show_read(&mut self, file_status: String, text: String)
        ensures
            final(self)@ == (AppView { file_status: file_status@, output: text@, ..old(self)@ }),
    {
        self.file_status = file_status;
        self.output = text;
    }

    /// Shows the report on saving a number.
    pub fn show_saved(&mut self, file_status: String)
        ensures
            final(self)@ == (AppView { file_status: file_status@, ..old(self)@ }),
    {
        self.file_status = file_status;
    }

    /// The text of the output panel: the output wrapped to `chunk_width`
    /// characters per line, or a note that output is off.
    pub fn output_text(&self, chunk_width: u16) -> (r: String)
        requires
            self.output_switch == OutputSwitch::Enabled ==> chunk_width > 0,
        ensures
            r@ == output_panel_text(self@, chunk_width as nat),
    {
        match self.output_switch {
            OutputSwitch::Enabled => string_wrap(&self.output, chunk_width, &self.output_mode),
            OutputSwitch::Disabled => String::from_str("Output disabled; Type output enable to enable output"),
        }
    }

    /// The title of the output panel, which tells whether output is on.
    pub fn output_title(&self) -> (r: String)
        ensures
            r@ == output_panel_title(self@),
    {
        match self.output_switch {
            OutputSwitch::Enabled => String::from_str("Output: Enabled"),
            OutputSwitch::Disabled => String::from_str("Output: Disabled"),
        }
    }

    /// The text of the file panel: the last file report, followed by the file
    /// operation that the panel is showing.
    pub fn file_panel_text(&self) -> (r: String)
        ensures
            r@ == match self.file_window_mode {
                FileWindowMode::Write => self.file_status@ + "\nWrite: "@ + write_mode_name(self.write_mode),
                FileWindowMode::Read => self.file_status@ + "\nRead"@,
                FileWindowMode::NoFile => self.file_status@,
            },
    {
        let mut text = self.file_status.clone();
        match self.file_window_mode {
            FileWindowMode::Write => {
                text.append("\nWrite: ");
                match self.write_mode {
                    WriteMode::Bin => text.append("Bin"),
                    WriteMode::Txt => text.append("Txt"),
                    WriteMode::NoFile => text.append("None"),
                }
            },
            FileWindowMode::Read => {
                text.append("\nRead");
            },
            FileWindowMode::NoFile => {},
        }
        text
    }
}

/// How the file panel names a write mode.
pub open spec fn write_mode_name(m: WriteMode) -> Seq<char> {
    match m {
        WriteMode::Bin => "Bin"@,
        WriteMode::Txt => "Txt"@,
        WriteMode::NoFile => "None"@,
    }
}

impl Default for App {
    /// The state at start, as `App::new` makes it.
    fn default() -> (app: App)
        ensures
            app@.input == Seq::<char>::empty(),
            app@.output == Seq::<char>::empty(),
            app@.primes_status == Seq::<char>::empty(),
            app@.primorial_status == Seq::<char>::empty(),
            app@.file_status == Seq::<char>::empty(),
            app.scroll_position == 0,
            app.write_mode == WriteMode::NoFile,
            app.output_mode == OutputMode::Message,
            app.file_window_mode == FileWindowMode::NoFile,
            app.output_switch == OutputSwitch::Enabled,
    {
        App::new()
    }
}

} // verus!
