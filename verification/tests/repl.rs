use calc::{repl_command, ReplCommand};

#[test]
fn quit_words_leave_the_prompt() {
    assert_eq!(repl_command("quit"), ReplCommand::Quit);
    assert_eq!(repl_command("exit"), ReplCommand::Quit);
    assert_eq!(repl_command("q"), ReplCommand::Quit);
}

#[test]
fn blank_line_is_skipped() {
    assert_eq!(repl_command(""), ReplCommand::Skip);
}

#[test]
fn help_shows_the_examples() {
    assert_eq!(repl_command("help"), ReplCommand::Help);
}

#[test]
fn anything_else_is_evaluated() {
    assert_eq!(repl_command("12 + 30"), ReplCommand::Evaluate);
    assert_eq!(repl_command("quit now"), ReplCommand::Evaluate);
    assert_eq!(repl_command("qq"), ReplCommand::Evaluate);
    assert_eq!(repl_command("helps"), ReplCommand::Evaluate);
    assert_eq!(repl_command(" "), ReplCommand::Evaluate);
}
