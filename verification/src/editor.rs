use vstd::prelude::*;
use vstd::string::*;
use vstd::utf8::encode_utf8;

use crate::expr::{evaluate, evaluate_spec, try_evaluate};
use crate::report::{calculate_defined, calculate_spec, format_outcome, outcome_text};
use crate::text::{trim, trim_chars};
use crate::utf8_index::{
    byte_len, char_at_byte, lemma_char_at_byte, lemma_char_at_byte_boundary, lemma_encode_concat,
    lemma_encode_single, lemma_prefix_shorter,
};

verus! {

/// A key press, as the editor distinguishes them.
#[derive(Clone, Copy, Debug, PartialEq, Eq, Structural)]
pub enum Key {
    Char(char),
    Backspace,
    Delete,
    Enter,
    Up,
    Down,
    Left,
    Right,
    Home,
    End,
    PageUp,
    PageDown,
    Ctrl(char),
    Esc,
    Other,
}

/// What the event loop does after a key: go on, or leave.
#[derive(Clone, Copy, Debug, PartialEq, Eq, Structural)]
pub enum Control {
    Continue,
    Quit,
}

/// Past this many lines of output, the oldest `OUTPUT_DROP` are dropped.
pub const OUTPUT_LIMIT: usize = 500;

/// How many of the oldest output lines are dropped at once.
pub const OUTPUT_DROP: usize = 100;

/// The state of the full-screen editor: the lines typed so far, the
/// cursor (a line and a byte offset in it), the scroll offset, the lines
/// of output and the status word.
pub struct App {
    pub input: Vec<String>,
    pub cursor: usize,
    pub scroll: usize,
    pub output: Vec<String>,
    pub status: String,
    pub cursor_pos: usize,
}

/// The editor state with every string taken as its characters.
#[verifier::ext_equal]
pub struct AppView {
    pub input: Seq<Seq<char>>,
    pub cursor: int,
    pub scroll: int,
    pub output: Seq<Seq<char>>,
    pub status: Seq<char>,
    pub cursor_pos: int,
}

/// The characters of each string.
pub open spec fn string_views(v: Seq<String>) -> Seq<Seq<char>> {
    v.map_values(|s: String| s@)
}

impl View for App {
    type V = AppView;

    open spec fn view(&self) -> AppView {
        AppView {
            input: string_views(self.input@),
            cursor: self.cursor as int,
            scroll: self.scroll as int,
            output: string_views(self.output@),
            status: self.status@,
            cursor_pos: self.cursor_pos as int,
        }
    }
}

/// The output after one more line was added: at most `OUTPUT_LIMIT` lines
/// are kept by dropping the oldest `OUTPUT_DROP`.
pub open spec fn keep_recent(out: Seq<Seq<char>>) -> Seq<Seq<char>> {
    if out.len() > OUTPUT_LIMIT {
        out.subrange(OUTPUT_DROP as int, out.len() as int)
    } else {
        out
    }
}

/// Whether running the line under the cursor stays clear of the inputs on
/// which evaluation panics.
pub open spec fn run_defined(s: AppView) -> bool {
    0 <= s.cursor < s.input.len() ==> calculate_defined(s.input[s.cursor])
}

/// Running the line under the cursor: when it holds more than white space,
/// its answer is appended to the output, the status becomes `OK` or
/// `ERROR`, and a new empty line is opened with the cursor at its start.
pub open spec fn run_spec(s: AppView) -> AppView {
    if !(0 <= s.cursor < s.input.len()) {
        s
    } else {
        let t = trim_chars(s.input[s.cursor]);
        if t.len() == 0 {
            s
        } else {
            let b = encode_utf8(t);
            let o = evaluate_spec(b)->Some_0;
            AppView {
                input: s.input.push(Seq::empty()),
                cursor: s.cursor + 1,
                scroll: s.scroll,
                output: keep_recent(s.output.push(outcome_text(t, o))),
                status: if o is Ok {
                    "OK"@
                } else {
                    "ERROR"@
                },
                cursor_pos: 0,
            }
        }
    }
}

impl App {
    /// A new editor: one empty line, a banner in the output, status `READY`.
    pub fn new() -> (r: App)
        ensures
            r@.input == seq![Seq::<char>::empty()],
            r@.cursor == 0,
            r@.scroll == 0,
            r@.output == seq![
                "ZEISX v1.0 — type expressions, Ctrl+R to run, Ctrl+C to quit"@,
                Seq::<char>::empty(),
            ],
            r@.status == "READY"@,
            r@.cursor_pos == 0,
            app_wf(r@),
    {
        let mut input: Vec<String> = Vec::new();
        input.push(String::new());
        let mut output: Vec<String> = Vec::new();
        output.push(String::from_str("ZEISX v1.0 — type expressions, Ctrl+R to run, Ctrl+C to quit"));
        output.push(String::new());
        let r = App {
            input,
            cursor: 0,
            scroll: 0,
            output,
            status: String::from_str("READY"),
            cursor_pos: 0,
        };
        proof {
            assert(r@.input =~= seq![Seq::<char>::empty()]);
            assert(encode_utf8(Seq::<char>::empty()) =~= Seq::<u8>::empty());
            assert(r@.output =~= seq![
                "ZEISX v1.0 — type expressions, Ctrl+R to run, Ctrl+C to quit"@,
                Seq::<char>::empty(),
            ]);
        }
        r
    }

    /// Evaluates the line under the cursor, as Enter does.
    pub fn run(&mut self)
        requires
            run_defined(old(self)@),
        ensures
            final(self)@ == run_spec(old(self)@),
            old(self).cursor < old(self).input.len() ==> final(self).cursor < final(self).input.len(),
            old(self).output.len() <= OUTPUT_LIMIT ==> final(self).output.len() <= OUTPUT_LIMIT,
    {
        if self.cursor >= self.input.len() {
            return;
        }
        let line = trim(self.input[self.cursor].as_str());
        if line.is_empty() {
            return;
        }
        let ghost s0 = self@;
        let outcome = evaluate(line);
        let text = format_outcome(line, outcome);
        match outcome {
            Ok(_) => {
                self.status = String::from_str("OK");
            },
            Err(_) => {
                self.status = String::from_str("ERROR");
            },
        }
        self.output.push(text);
        self.input.push(String::new());
        self.cursor += 1;
        self.cursor_pos = 0;
        let ghost pushed = string_views(self.output@);
        proof {
            assert(pushed =~= s0.output.push(text@));
        }
        if self.output.len() > OUTPUT_LIMIT {
            let rest = self.output.split_off(OUTPUT_DROP);
            self.output = rest;
            proof {
                assert(string_views(self.output@) =~= pushed.subrange(
                    OUTPUT_DROP as int,
                    pushed.len() as int,
                ));
            }
        }
        proof {
            assert(string_views(self.input@) =~= s0.input.push(Seq::empty()));
            assert(self@ == run_spec(s0));
            if s0.output.len() <= OUTPUT_LIMIT {
                lemma_run_keeps_bounds(s0);
            }
        }
    }
}

/// `String::insert`: puts `c` at byte offset `idx`, which must be a
/// character boundary or the end of the string (std panics otherwise).
/// Claimed: the characters before the boundary, then `c`, then the rest.
#[verifier::external_body]
fn string_insert(s: &mut String, idx: usize, c: char)
    requires
        char_at_byte(old(s)@, idx as int) is Some,
    ensures
        final(s)@ == insert_char(old(s)@, char_at_byte(old(s)@, idx as int)->Some_0, c),
{
    s.insert(idx, c)
}

/// `String::remove`: removes and returns the character that starts at byte
/// offset `idx`, which must be a character boundary before the end (std
/// panics otherwise). Claimed: that character, and the string without it.
#[verifier::external_body]
fn string_remove(s: &mut String, idx: usize) -> (r: char)
    requires
        char_at_byte(old(s)@, idx as int) matches Some(k) && k < old(s)@.len(),
    ensures
        r == old(s)@[char_at_byte(old(s)@, idx as int)->Some_0],
        final(s)@ == remove_char(old(s)@, char_at_byte(old(s)@, idx as int)->Some_0),
{
    s.remove(idx)
}

/// `line` with `c` inserted before its `k`-th character.
pub open spec fn insert_char(line: Seq<char>, k: int, c: char) -> Seq<char> {
    line.take(k) + seq![c] + line.skip(k)
}

/// `line` without its `k`-th character.
pub open spec fn remove_char(line: Seq<char>, k: int) -> Seq<char> {
    line.take(k) + line.skip(k + 1)
}

pub open spec fn min_int(a: int, b: int) -> int {
    if a <= b {
        a
    } else {
        b
    }
}

/// Whether handling `key` in state `s` stays clear of the cases in which
/// the editor panics: an edit at a byte offset that is not a character
/// boundary, an index past the lines, a run that panics, or an offset at
/// the end of the `usize` range.
pub open spec fn key_defined(s: AppView, key: Key) -> bool {
    let n = s.input.len();
    match key {
        Key::Char(_) => s.cursor < n ==> char_at_byte(s.input[s.cursor], s.cursor_pos) is Some,
        Key::Backspace => {
            &&& (s.cursor_pos > 0 && s.cursor < n) ==> (char_at_byte(
                s.input[s.cursor],
                s.cursor_pos - 1,
            ) matches Some(k) && k < s.input[s.cursor].len())
            &&& (s.cursor_pos == 0 && s.cursor > 0) ==> s.cursor < n
        },
        Key::Delete => (s.cursor < n && s.cursor_pos < byte_len(s.input[s.cursor])) ==> (char_at_byte(
            s.input[s.cursor],
            s.cursor_pos,
        ) matches Some(k) && k < s.input[s.cursor].len()),
        Key::Enter => run_defined(s),
        Key::Up => s.cursor > 0 ==> s.cursor <= n,
        Key::Down => n >= 1,
        Key::Right => s.cursor < n ==> s.cursor_pos < usize::MAX,
        Key::End => s.cursor < n,
        Key::Ctrl(c) => (c == 'r' || c == 'R') ==> run_defined(s),
        _ => true,
    }
}

/// The state after `key` in state `s`. Offsets are byte offsets into the
/// line under the cursor.
pub open spec fn key_spec(s: AppView, key: Key) -> AppView {
    let n = s.input.len();
    match key {
        Key::Char(c) => if s.cursor < n {
            let line = s.input[s.cursor];
            let k = char_at_byte(line, s.cursor_pos)->Some_0;
            AppView {
                input: s.input.update(s.cursor, insert_char(line, k, c)),
                cursor_pos: s.cursor_pos + 1,
                ..s
            }
        } else {
            s
        },
        Key::Backspace => if s.cursor_pos > 0 && s.cursor < n {
            let line = s.input[s.cursor];
            let k = char_at_byte(line, s.cursor_pos - 1)->Some_0;
            AppView {
                input: s.input.update(s.cursor, remove_char(line, k)),
                cursor_pos: s.cursor_pos - 1,
                ..s
            }
        } else if s.cursor_pos == 0 && s.cursor > 0 {
            let prev = s.input[s.cursor - 1];
            let rest = s.input.remove(s.cursor - 1);
            let c = s.cursor - 1;
            AppView {
                input: rest.update(c, rest[c] + prev),
                cursor: c,
                cursor_pos: byte_len(rest[c]),
                ..s
            }
        } else {
            s
        },
        Key::Delete => if s.cursor < n && s.cursor_pos < byte_len(s.input[s.cursor]) {
            let line = s.input[s.cursor];
            let k = char_at_byte(line, s.cursor_pos)->Some_0;
            AppView { input: s.input.update(s.cursor, remove_char(line, k)), ..s }
        } else {
            s
        },
        Key::Enter => run_spec(s),
        Key::Up => if s.cursor > 0 {
            AppView {
                cursor: s.cursor - 1,
                cursor_pos: min_int(s.cursor_pos, byte_len(s.input[s.cursor - 1])),
                ..s
            }
        } else {
            s
        },
        Key::Down => if s.cursor < n - 1 {
            AppView {
                cursor: s.cursor + 1,
                cursor_pos: min_int(s.cursor_pos, byte_len(s.input[s.cursor + 1])),
                ..s
            }
        } else {
            s
        },
        Key::Left => if s.cursor_pos > 0 {
            AppView { cursor_pos: s.cursor_pos - 1, ..s }
        } else {
            s
        },
        Key::Right => if s.cursor < n {
            AppView { cursor_pos: min_int(s.cursor_pos + 1, byte_len(s.input[s.cursor])), ..s }
        } else {
            s
        },
        Key::Home => AppView { cursor_pos: 0, ..s },
        Key::End => AppView { cursor_pos: byte_len(s.input[s.cursor]), ..s },
        Key::PageUp => AppView {
            scroll: if s.scroll >= 10 {
                s.scroll - 10
            } else {
                0
            },
            ..s
        },
        Key::PageDown => AppView { scroll: min_int(s.scroll + 10, usize::MAX as int), ..s },
        Key::Ctrl(c) => if c == 'r' || c == 'R' {
            AppView { status: "OK"@, ..run_spec(AppView { status: "RUNNING"@, ..s }) }
        } else if c == 's' {
            AppView { status: "SAVED"@, ..s }
        } else {
            s
        },
        Key::Esc => AppView { status: "READY"@, ..s },
        Key::Other => s,
    }
}

/// Only Ctrl+C leaves the editor.
pub open spec fn key_control(key: Key) -> Control {
    if key == Key::Ctrl('c') {
        Control::Quit
    } else {
        Control::Continue
    }
}

impl App {
    /// Handles one key press.
    pub fn handle_key(&mut self, key: Key) -> (r: Control)
        requires
            key_defined(old(self)@, key),
        ensures
            final(self)@ == key_spec(old(self)@, key),
            r == key_control(key),
    {
        let ghost s0 = self@;
        match key {
            Key::Char(c) => {
                if self.cursor < self.input.len() {
                    let mut line = self.input[self.cursor].clone();
                    string_insert(&mut line, self.cursor_pos, c);
                    // The new line's byte length is a `usize`, so the offset
                    // after the inserted character is one too.
                    let _new_len = line.as_str().as_bytes().len();
                    self.input.set(self.cursor, line);
                    proof {
                        let l0 = s0.input[s0.cursor];
                        let k = char_at_byte(l0, s0.cursor_pos)->Some_0;
                        lemma_char_at_byte(l0, s0.cursor_pos);
                        lemma_insert_len(l0, k, c);
                        assert(string_views(self.input@) =~= s0.input.update(s0.cursor, line@));
                    }
                    self.cursor_pos += 1;
                }
            },
            Key::Backspace => {
                if self.cursor_pos > 0 && self.cursor < self.input.len() {
                    let mut line = self.input[self.cursor].clone();
                    let _removed = string_remove(&mut line, self.cursor_pos - 1);
                    self.input.set(self.cursor, line);
                    self.cursor_pos -= 1;
                    proof {
                        assert(string_views(self.input@) =~= s0.input.update(s0.cursor, line@));
                    }
                } else if self.cursor_pos == 0 && self.cursor > 0 {
                    let prev = self.input.remove(self.cursor - 1);
                    self.cursor -= 1;
                    self.cursor_pos = self.input[self.cursor].as_str().as_bytes().len();
                    let mut line = self.input[self.cursor].clone();
                    line.append(prev.as_str());
                    let ghost rest = string_views(self.input@);
                    proof {
                        assert(rest =~= s0.input.remove(s0.cursor - 1));
                    }
                    self.input.set(self.cursor, line);
                    proof {
                        assert(string_views(self.input@) =~= rest.update(
                            self.cursor as int,
                            rest[self.cursor as int] + prev@,
                        ));
                    }
                }
            },
            Key::Delete => {
                if self.cursor < self.input.len() {
                    let len = self.input[self.cursor].as_str().as_bytes().len();
                    if self.cursor_pos < len {
                        let mut line = self.input[self.cursor].clone();
                        let _removed = string_remove(&mut line, self.cursor_pos);
                        self.input.set(self.cursor, line);
                        proof {
                            assert(string_views(self.input@) =~= s0.input.update(
                                s0.cursor,
                                line@,
                            ));
                        }
                    }
                }
            },
            Key::Enter => {
                self.run();
            },
            Key::Up => {
                if self.cursor > 0 {
                    self.cursor -= 1;
                    let len = self.input[self.cursor].as_str().as_bytes().len();
                    if len < self.cursor_pos {
                        self.cursor_pos = len;
                    }
                }
            },
            Key::Down => {
                if self.cursor < self.input.len() - 1 {
                    self.cursor += 1;
                    let len = self.input[self.cursor].as_str().as_bytes().len();
                    if len < self.cursor_pos {
                        self.cursor_pos = len;
                    }
                }
            },
            Key::Left => {
                if self.cursor_pos > 0 {
                    self.cursor_pos -= 1;
                }
            },
            Key::Right => {
                if self.cursor < self.input.len() {
                    let len = self.input[self.cursor].as_str().as_bytes().len();
                    self.cursor_pos = if self.cursor_pos + 1 < len {
                        self.cursor_pos + 1
                    } else {
                        len
                    };
                }
            },
            Key::Home => {
                self.cursor_pos = 0;
            },
            Key::End => {
                self.cursor_pos = self.input[self.cursor].as_str().as_bytes().len();
            },
            Key::PageUp => {
                self.scroll = self.scroll.saturating_sub(10);
            },
            Key::PageDown => {
                self.scroll = self.scroll.saturating_add(10);
            },
            Key::Ctrl(c) => {
                if c == 'r' || c == 'R' {
                    self.status = String::from_str("RUNNING");
                    self.run();
                    self.status = String::from_str("OK");
                } else if c == 'c' {
                    return Control::Quit;
                } else if c == 's' {
                    self.status = String::from_str("SAVED");
                }
            },
            Key::Esc => {
                self.status = String::from_str("READY");
            },
            Key::Other => {},
        }
        Control::Continue
    }
}

/// Whether removing the character at byte offset `p` of `line` is
/// defined: `p` is a character boundary before the end.
fn removable_at(line: &String, p: usize) -> (r: bool)
    ensures
        r == (char_at_byte(line@, p as int) matches Some(k) && k < line@.len()),
{
    let n = line.as_str().as_bytes().len();
    proof {
        lemma_char_at_byte_boundary(line@, p as int);
        if char_at_byte(line@, p as int) is Some {
            let k = char_at_byte(line@, p as int)->Some_0;
            lemma_char_at_byte(line@, p as int);
            if k == line@.len() {
                assert(line@.take(k) =~= line@);
            } else {
                lemma_prefix_shorter(line@, k);
            }
        }
    }
    p < n && line.as_str().is_char_boundary(p)
}

/// Whether inserting at byte offset `p` of `line` is defined.
fn insertable_at(line: &String, p: usize) -> (r: bool)
    ensures
        r == (char_at_byte(line@, p as int) is Some),
{
    proof {
        lemma_char_at_byte_boundary(line@, p as int);
    }
    line.as_str().is_char_boundary(p)
}

impl App {
    /// Decides `run_defined`: whether running the line under the cursor is defined.
    pub fn can_run(&self) -> (r: bool)
        ensures
            r == run_defined(self@),
    {
        if self.cursor >= self.input.len() {
            return true;
        }
        let t = trim(self.input[self.cursor].as_str());
        t.is_empty() || try_evaluate(t).is_some()
    }

    /// Decides `key_defined`: whether `handle_key` may be called with `key`.
    pub fn can_handle(&self, key: Key) -> (r: bool)
        ensures
            r == key_defined(self@, key),
    {
        let n = self.input.len();
        match key {
            Key::Char(_) => self.cursor >= n || insertable_at(&self.input[self.cursor], self.cursor_pos),
            Key::Backspace => {
                let first = !(self.cursor_pos > 0 && self.cursor < n) || removable_at(
                    &self.input[self.cursor],
                    self.cursor_pos - 1,
                );
                let second = !(self.cursor_pos == 0 && self.cursor > 0) || self.cursor < n;
                first && second
            },
            Key::Delete => {
                if self.cursor < n {
                    let len = self.input[self.cursor].as_str().as_bytes().len();
                    !(self.cursor_pos < len) || removable_at(&self.input[self.cursor], self.cursor_pos)
                } else {
                    true
                }
            },
            Key::Enter => self.can_run(),
            Key::Up => !(self.cursor > 0) || self.cursor <= n,
            Key::Down => n >= 1,
            Key::Right => !(self.cursor < n) || self.cursor_pos < usize::MAX,
            Key::End => self.cursor < n,
            Key::Ctrl(c) => !(c == 'r' || c == 'R') || self.can_run(),
            _ => true,
        }
    }
}

/// The editor's invariant: there is a line, the cursor is on one, its
/// byte offset lies within that line, and the output holds at most
/// `OUTPUT_LIMIT` lines.
pub open spec fn app_wf(s: AppView) -> bool {
    &&& s.input.len() >= 1
    &&& 0 <= s.cursor < s.input.len()
    &&& 0 <= s.cursor_pos <= byte_len(s.input[s.cursor])
    &&& s.output.len() <= OUTPUT_LIMIT
}

/// Running the line under the cursor keeps the editor's invariant.
pub proof fn lemma_run_keeps_wf(s: AppView)
    requires
        app_wf(s),
    ensures
        app_wf(run_spec(s)),
{
    assert(encode_utf8(Seq::<char>::empty()) =~= Seq::<u8>::empty());
}

/// Running keeps the cursor on a line and the output within
/// `OUTPUT_LIMIT` lines.
pub proof fn lemma_run_keeps_bounds(s: AppView)
    requires
        0 <= s.cursor < s.input.len(),
        s.output.len() <= OUTPUT_LIMIT,
    ensures
        0 <= run_spec(s).cursor < run_spec(s).input.len(),
        run_spec(s).output.len() <= OUTPUT_LIMIT,
{
}

/// Every key press that `handle_key` accepts keeps the editor's invariant.
pub proof fn lemma_key_keeps_wf(s: AppView, key: Key)
    requires
        app_wf(s),
        key_defined(s, key),
    ensures
        app_wf(key_spec(s, key)),
{
    let line = s.input[s.cursor];
    match key {
        Key::Char(c) => {
            let k = char_at_byte(line, s.cursor_pos)->Some_0;
            lemma_char_at_byte(line, s.cursor_pos);
            lemma_insert_len(line, k, c);
        },
        Key::Backspace => {
            if s.cursor_pos > 0 {
                let k = char_at_byte(line, s.cursor_pos - 1)->Some_0;
                lemma_char_at_byte(line, s.cursor_pos - 1);
                lemma_remove_len(line, k);
            } else if s.cursor > 0 {
                let rest = s.input.remove(s.cursor - 1);
                let c = s.cursor - 1;
                lemma_encode_concat(rest[c], s.input[s.cursor - 1]);
            }
        },
        Key::Delete => {
            if s.cursor_pos < byte_len(line) {
                let k = char_at_byte(line, s.cursor_pos)->Some_0;
                lemma_char_at_byte(line, s.cursor_pos);
                lemma_remove_len(line, k);
            }
        },
        Key::Enter => {
            lemma_run_keeps_wf(s);
        },
        Key::Ctrl(c) => {
            if c == 'r' || c == 'R' {
                lemma_run_keeps_wf(AppView { status: "RUNNING"@, ..s });
            }
        },
        _ => {},
    }
}

proof fn lemma_remove_len(line: Seq<char>, k: int)
    requires
        0 <= k < line.len(),
    ensures
        byte_len(remove_char(line, k)) == byte_len(line.take(k)) + byte_len(line.skip(k + 1)),
{
    lemma_encode_concat(line.take(k), line.skip(k + 1));
}

proof fn lemma_insert_len(line: Seq<char>, k: int, c: char)
    requires
        0 <= k <= line.len(),
    ensures
        byte_len(insert_char(line, k, c)) == byte_len(line.take(k)) + byte_len(seq![c])
            + byte_len(line.skip(k)),
        byte_len(seq![c]) >= 1,
{
    lemma_encode_concat(line.take(k) + seq![c], line.skip(k));
    lemma_encode_concat(line.take(k), seq![c]);
    lemma_encode_single(c);
}

/// Whether `r` has the lines, output, status and scroll of `s`: only the
/// cursor may differ.
pub open spec fn only_cursor_moved(r: AppView, s: AppView) -> bool {
    &&& r.input == s.input
    &&& r.output == s.output
    &&& r.status == s.status
    &&& r.scroll == s.scroll
}

/// The cursor keys move the cursor and change nothing else. Right moves one
/// byte on and Left one byte back within the line, each stopping at its end;
/// Up and Down move to the neighbouring line, keeping the byte offset where
/// that line is long enough and going to its end where it is not; Home and
/// End go to the start and the end of the line.
pub proof fn lemma_cursor_keys(s: AppView)
    requires
        app_wf(s),
    ensures
        ({
            let r = key_spec(s, Key::Right);
            let len = byte_len(s.input[s.cursor]);
            &&& only_cursor_moved(r, s)
            &&& r.cursor == s.cursor
            &&& s.cursor_pos < len ==> r.cursor_pos == s.cursor_pos + 1
            &&& s.cursor_pos == len ==> r.cursor_pos == len
        }),
        ({
            let r = key_spec(s, Key::Left);
            &&& only_cursor_moved(r, s)
            &&& r.cursor == s.cursor
            &&& s.cursor_pos > 0 ==> r.cursor_pos == s.cursor_pos - 1
            &&& s.cursor_pos == 0 ==> r.cursor_pos == 0
        }),
        ({
            let r = key_spec(s, Key::Up);
            &&& only_cursor_moved(r, s)
            &&& s.cursor == 0 ==> r == s
            &&& s.cursor > 0 ==> {
                let len = byte_len(s.input[s.cursor - 1]);
                &&& r.cursor == s.cursor - 1
                &&& s.cursor_pos <= len ==> r.cursor_pos == s.cursor_pos
                &&& s.cursor_pos > len ==> r.cursor_pos == len
            }
        }),
        ({
            let r = key_spec(s, Key::Down);
            &&& only_cursor_moved(r, s)
            &&& s.cursor == s.input.len() - 1 ==> r == s
            &&& s.cursor < s.input.len() - 1 ==> {
                let len = byte_len(s.input[s.cursor + 1]);
                &&& r.cursor == s.cursor + 1
                &&& s.cursor_pos <= len ==> r.cursor_pos == s.cursor_pos
                &&& s.cursor_pos > len ==> r.cursor_pos == len
            }
        }),
        ({
            let r = key_spec(s, Key::Home);
            &&& only_cursor_moved(r, s)
            &&& r.cursor == s.cursor
            &&& r.cursor_pos == 0
        }),
        ({
            let r = key_spec(s, Key::End);
            &&& only_cursor_moved(r, s)
            &&& r.cursor == s.cursor
            &&& r.cursor_pos == byte_len(s.input[s.cursor])
        }),
{
}

/// Left undoes Right wherever Right moved the cursor.
pub proof fn lemma_left_undoes_right(s: AppView)
    requires
        app_wf(s),
        s.cursor_pos < byte_len(s.input[s.cursor]),
    ensures
        key_spec(key_spec(s, Key::Right), Key::Left) == s,
{
    assert(key_spec(key_spec(s, Key::Right), Key::Left) =~= s);
}

/// Down undoes Up, back to the same line, and Up undoes Down.
pub proof fn lemma_up_down_inverse(s: AppView)
    requires
        app_wf(s),
    ensures
        s.cursor > 0 ==> key_spec(key_spec(s, Key::Up), Key::Down).cursor == s.cursor,
        s.cursor < s.input.len() - 1 ==> key_spec(key_spec(s, Key::Down), Key::Up).cursor
            == s.cursor,
{
}

/// At byte offset `byte_len(a)` of `a + rest` starts the character after
/// those of `a`.
proof fn lemma_char_at_byte_concat(a: Seq<char>, rest: Seq<char>)
    ensures
        char_at_byte(a + rest, byte_len(a)) == Some(a.len() as int),
    decreases a.len(),
{
    if a.len() == 0 {
        assert(encode_utf8(a) =~= Seq::<u8>::empty());
        assert(byte_len(a) == 0);
    } else {
        let t = a.drop_first();
        assert(a =~= seq![a[0]] + t);
        lemma_encode_concat(seq![a[0]], t);
        lemma_encode_single(a[0]);
        assert((a + rest)[0] == a[0]);
        assert((a + rest).drop_first() =~= t + rest);
        lemma_char_at_byte_concat(t, rest);
    }
}

/// Typing `c` puts the bytes of `c` into the line under the cursor at the
/// cursor's byte offset, leaves every other line as it was, and moves the
/// offset one byte on.
pub proof fn lemma_char_inserts_at_cursor(s: AppView, c: char)
    requires
        app_wf(s),
        key_defined(s, Key::Char(c)),
    ensures
        ({
            let r = key_spec(s, Key::Char(c));
            let b = encode_utf8(s.input[s.cursor]);
            let p = s.cursor_pos;
            &&& r.input.len() == s.input.len()
            &&& forall|i: int| 0 <= i < s.input.len() && i != s.cursor ==> r.input[i] == s.input[i]
            &&& encode_utf8(r.input[s.cursor]) == b.take(p) + encode_utf8(seq![c]) + b.skip(p)
            &&& r.cursor == s.cursor
            &&& r.cursor_pos == p + 1
            &&& r.output == s.output
            &&& r.status == s.status
            &&& r.scroll == s.scroll
        }),
{
    let line = s.input[s.cursor];
    let p = s.cursor_pos;
    let k = char_at_byte(line, p)->Some_0;
    lemma_char_at_byte(line, p);
    assert(line =~= line.take(k) + line.skip(k));
    lemma_encode_concat(line.take(k), line.skip(k));
    let b = encode_utf8(line);
    assert(b.take(p) =~= encode_utf8(line.take(k)));
    assert(b.skip(p) =~= encode_utf8(line.skip(k)));
    lemma_encode_concat(line.take(k) + seq![c], line.skip(k));
    lemma_encode_concat(line.take(k), seq![c]);
}

/// Backspace right after typing a character takes it out again: the editor
/// is as it was before.
pub proof fn lemma_backspace_undoes_char(s: AppView, c: char)
    requires
        app_wf(s),
        key_defined(s, Key::Char(c)),
    ensures
        key_defined(key_spec(s, Key::Char(c)), Key::Backspace),
        key_spec(key_spec(s, Key::Char(c)), Key::Backspace) == s,
{
    let line = s.input[s.cursor];
    let p = s.cursor_pos;
    let k = char_at_byte(line, p)->Some_0;
    lemma_char_at_byte(line, p);
    let l1 = insert_char(line, k, c);
    assert(l1 =~= line.take(k) + (seq![c] + line.skip(k)));
    lemma_char_at_byte_concat(line.take(k), seq![c] + line.skip(k));
    assert(remove_char(l1, k) =~= line);
    let s1 = key_spec(s, Key::Char(c));
    assert(s1.input[s.cursor] == l1);
    assert(s1.input.update(s.cursor, line) =~= s.input);
    assert(key_spec(s1, Key::Backspace) =~= s);
}

/// Left and Delete right after typing a character take it out again: the
/// editor is as it was before.
pub proof fn lemma_delete_undoes_char(s: AppView, c: char)
    requires
        app_wf(s),
        key_defined(s, Key::Char(c)),
    ensures
        key_defined(key_spec(key_spec(s, Key::Char(c)), Key::Left), Key::Delete),
        key_spec(key_spec(key_spec(s, Key::Char(c)), Key::Left), Key::Delete) == s,
{
    let line = s.input[s.cursor];
    let p = s.cursor_pos;
    let k = char_at_byte(line, p)->Some_0;
    lemma_char_at_byte(line, p);
    let l1 = insert_char(line, k, c);
    assert(l1 =~= line.take(k) + (seq![c] + line.skip(k)));
    lemma_char_at_byte_concat(line.take(k), seq![c] + line.skip(k));
    lemma_insert_len(line, k, c);
    assert(remove_char(l1, k) =~= line);
    let s1 = key_spec(s, Key::Char(c));
    let s2 = key_spec(s1, Key::Left);
    assert(s2.input[s.cursor] == l1);
    assert(s2.cursor_pos == p);
    assert(s2.input.update(s.cursor, line) =~= s.input);
    assert(key_spec(s2, Key::Delete) =~= s);
}

/// Backspace at the start of a line below the first joins it with the line
/// above: the two become one line, the lower line's text followed by the
/// upper one's, with the cursor on it after the lower line's text.
pub proof fn lemma_backspace_joins_lines(s: AppView)
    requires
        app_wf(s),
        s.cursor_pos == 0,
        s.cursor > 0,
    ensures
        ({
            let r = key_spec(s, Key::Backspace);
            let c = s.cursor;
            &&& r.input.len() == s.input.len() - 1
            &&& forall|i: int| 0 <= i < c - 1 ==> r.input[i] == s.input[i]
            &&& r.input[c - 1] == s.input[c] + s.input[c - 1]
            &&& forall|i: int| c <= i < r.input.len() ==> r.input[i] == s.input[i + 1]
            &&& r.cursor == c - 1
            &&& r.cursor_pos == byte_len(s.input[c])
            &&& r.output == s.output
        }),
{
}

/// Enter on a line that holds more than white space appends the answer
/// `calculate` gives for that line to the output (dropping the oldest 100
/// lines once there are more than 500), and opens a new empty line below
/// the last one with the cursor at its start; on a blank line it does
/// nothing.
pub proof fn lemma_enter_answers_line(s: AppView)
    requires
        app_wf(s),
    ensures
        ({
            let r = key_spec(s, Key::Enter);
            let line = s.input[s.cursor];
            &&& trim_chars(line).len() == 0 ==> r == s
            &&& trim_chars(line).len() > 0 ==> {
                &&& r.output.last() == calculate_spec(line)
                &&& s.output.len() < 500 ==> r.output == s.output.push(calculate_spec(line))
                &&& s.output.len() == 500 ==> r.output == s.output.push(calculate_spec(line)).subrange(
                    100,
                    501,
                )
                &&& r.input == s.input.push(Seq::<char>::empty())
                &&& r.cursor == s.cursor + 1
                &&& r.cursor_pos == 0
            }
        }),
{
}

} // verus!
