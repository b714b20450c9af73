use vstd::prelude::*;
use vstd::string::*;

verus! {

/// What the interactive prompt does with a line it has read, once the line
/// is trimmed and lower-cased.
#[derive(Clone, Copy, Debug, PartialEq, Eq, Structural)]
pub enum ReplCommand {
    /// `exit`, `quit` or `q`: leave the prompt.
    Quit,
    /// A blank line: ask again.
    Skip,
    /// `help`: show the examples.
    Help,
    /// Anything else: evaluate it as an expression.
    Evaluate,
}

/// The command a trimmed, lower-cased line stands for.
pub open spec fn repl_command_spec(line: Seq<char>) -> ReplCommand {
    if line == "exit"@ || line == "quit"@ || line == "q"@ {
        ReplCommand::Quit
    } else if line.len() == 0 {
        ReplCommand::Skip
    } else if line == "help"@ {
        ReplCommand::Help
    } else {
        ReplCommand::Evaluate
    }
}

/// Whether `s` is exactly the text `w`.
fn is_word(s: &str, w: &str) -> (r: bool)
    ensures
        r == (s@ == w@),
{
    let n = s.unicode_len();
    let m = w.unicode_len();
    if n != m {
        return false;
    }
    let mut i: usize = 0;
    while i < n
        invariant
            n == s@.len(),
            m == w@.len(),
            n == m,
            i <= n,
            forall|j: int| 0 <= j < i ==> s@[j] == w@[j],
        decreases n - i,
    {
        if s.get_char(i) != w.get_char(i) {
            return false;
        }
        i += 1;
    }
    proof {
        assert(s@ =~= w@);
    }
    true
}

/// Decides what the prompt does with `line`, a line already trimmed and
/// lower-cased.
pub fn repl_command(line: &str) -> (r: ReplCommand)
    ensures
        r == repl_command_spec(line@),
{
    if is_word(line, "exit") || is_word(line, "quit") || is_word(line, "q") {
        ReplCommand::Quit
    } else if line.is_empty() {
        ReplCommand::Skip
    } else if is_word(line, "help") {
        ReplCommand::Help
    } else {
        ReplCommand::Evaluate
    }
}

/// The prompt leaves on exactly the lines `exit`, `quit` and `q`, skips
/// exactly the blank line, shows its help on exactly `help`, and evaluates
/// every other line.
pub proof fn lemma_repl_command_choice(line: Seq<char>)
    ensures
        (repl_command_spec(line) == ReplCommand::Quit) <==> (line == seq!['e', 'x', 'i', 't']
            || line == seq!['q', 'u', 'i', 't'] || line == seq!['q']),
        (repl_command_spec(line) == ReplCommand::Skip) <==> line.len() == 0,
        (repl_command_spec(line) == ReplCommand::Help) <==> line == seq!['h', 'e', 'l', 'p'],
        (repl_command_spec(line) == ReplCommand::Evaluate) <==> (line.len() > 0 && line != seq![
            'e',
            'x',
            'i',
            't',
        ] && line != seq!['q', 'u', 'i', 't'] && line != seq!['q'] && line != seq![
            'h',
            'e',
            'l',
            'p',
        ]),
{
    reveal_strlit("exit");
    reveal_strlit("quit");
    reveal_strlit("q");
    reveal_strlit("help");
    assert("exit"@ =~= seq!['e', 'x', 'i', 't']);
    assert("quit"@ =~= seq!['q', 'u', 'i', 't']);
    assert("q"@ =~= seq!['q']);
    assert("help"@ =~= seq!['h', 'e', 'l', 'p']);
}

/// A line that starts like an expression (a digit, a sign or an opening
/// parenthesis) is evaluated, never taken for a command.
pub proof fn lemma_expressions_are_evaluated(line: Seq<char>)
    requires
        line.len() > 0,
        ('0' <= line[0] && line[0] <= '9') || line[0] == '-' || line[0] == '+' || line[0] == '(',
    ensures
        repl_command_spec(line) == ReplCommand::Evaluate,
{
    lemma_repl_command_choice(line);
    if line == seq!['e', 'x', 'i', 't'] || line == seq!['q', 'u', 'i', 't'] || line == seq!['q']
        || line == seq!['h', 'e', 'l', 'p'] {
        assert(line[0] == 'e' || line[0] == 'q' || line[0] == 'h');
    }
}

} // verus!
