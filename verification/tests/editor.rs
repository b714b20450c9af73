use calc::{App, Control, Key};

fn type_text(app: &mut App, s: &str) {
    for c in s.chars() {
        assert!(app.can_handle(Key::Char(c)));
        assert_eq!(app.handle_key(Key::Char(c)), Control::Continue);
    }
}

fn press(app: &mut App, key: Key) -> Control {
    assert!(app.can_handle(key));
    app.handle_key(key)
}

fn well_formed(app: &App) -> bool {
    !app.input.is_empty()
        && app.cursor < app.input.len()
        && app.cursor_pos <= app.input[app.cursor].len()
        && app.output.len() <= 500
}

#[test]
fn new_editor() {
    let app = App::new();
    assert_eq!(app.input, vec![String::new()]);
    assert_eq!(app.cursor, 0);
    assert_eq!(app.scroll, 0);
    assert_eq!(
        app.output,
        vec!["ZEISX v1.0 — type expressions, Ctrl+R to run, Ctrl+C to quit".to_string(), String::new()]
    );
    assert_eq!(app.status, "READY");
    assert_eq!(app.cursor_pos, 0);
    assert!(well_formed(&app));
}

#[test]
fn typing_and_running_a_line() {
    let mut app = App::new();
    type_text(&mut app, "12 + 30");
    assert_eq!(app.input[0], "12 + 30");
    assert_eq!(app.cursor_pos, 7);
    press(&mut app, Key::Enter);
    assert_eq!(app.output.last().unwrap(), "12 + 30 = 42");
    assert_eq!(app.status, "OK");
    assert_eq!(app.input.len(), 2);
    assert_eq!(app.cursor, 1);
    assert_eq!(app.cursor_pos, 0);
    assert!(well_formed(&app));
}

#[test]
fn running_an_error_and_ctrl_r() {
    let mut app = App::new();
    type_text(&mut app, "(1");
    press(&mut app, Key::Enter);
    assert_eq!(app.output.last().unwrap(), "error: mismatched parentheses");
    assert_eq!(app.status, "ERROR");
    type_text(&mut app, "1)");
    press(&mut app, Key::Ctrl('r'));
    assert_eq!(app.output.last().unwrap(), "error: mismatched ')'");
    assert_eq!(app.status, "OK");
    assert_eq!(app.cursor, 2);
}

#[test]
fn running_a_blank_line_does_nothing() {
    let mut app = App::new();
    type_text(&mut app, "   ");
    press(&mut app, Key::Enter);
    assert_eq!(app.output.len(), 2);
    assert_eq!(app.input.len(), 1);
    assert_eq!(app.status, "READY");
}

#[test]
fn editing_keys() {
    let mut app = App::new();
    type_text(&mut app, "abc");
    press(&mut app, Key::Left);
    press(&mut app, Key::Backspace);
    assert_eq!(app.input[0], "ac");
    assert_eq!(app.cursor_pos, 1);
    press(&mut app, Key::Delete);
    assert_eq!(app.input[0], "a");
    press(&mut app, Key::Delete);
    assert_eq!(app.input[0], "a");
    press(&mut app, Key::Home);
    assert_eq!(app.cursor_pos, 0);
    type_text(&mut app, "x");
    assert_eq!(app.input[0], "xa");
    press(&mut app, Key::End);
    assert_eq!(app.cursor_pos, 2);
    press(&mut app, Key::Right);
    assert_eq!(app.cursor_pos, 2);
    press(&mut app, Key::Left);
    press(&mut app, Key::Left);
    press(&mut app, Key::Left);
    assert_eq!(app.cursor_pos, 0);
    assert!(well_formed(&app));
}

#[test]
fn moving_between_lines() {
    let mut app = App::new();
    type_text(&mut app, "1+1");
    press(&mut app, Key::Enter);
    type_text(&mut app, "22");
    press(&mut app, Key::Up);
    assert_eq!(app.cursor, 0);
    assert_eq!(app.cursor_pos, 2);
    press(&mut app, Key::Up);
    assert_eq!(app.cursor, 0);
    press(&mut app, Key::End);
    press(&mut app, Key::Down);
    assert_eq!(app.cursor, 1);
    assert_eq!(app.cursor_pos, 2);
    press(&mut app, Key::Down);
    assert_eq!(app.cursor, 1);
    assert!(well_formed(&app));
}

#[test]
fn backspace_at_line_start_joins_the_previous_line_after_this_one() {
    let mut app = App::new();
    type_text(&mut app, "1+1");
    press(&mut app, Key::Enter);
    type_text(&mut app, "22");
    press(&mut app, Key::Home);
    press(&mut app, Key::Backspace);
    assert_eq!(app.input, vec!["221+1".to_string()]);
    assert_eq!(app.cursor, 0);
    assert_eq!(app.cursor_pos, 2);
    assert!(well_formed(&app));
}

#[test]
fn scrolling_saturates() {
    let mut app = App::new();
    press(&mut app, Key::PageUp);
    assert_eq!(app.scroll, 0);
    press(&mut app, Key::PageDown);
    press(&mut app, Key::PageDown);
    assert_eq!(app.scroll, 20);
    press(&mut app, Key::PageUp);
    assert_eq!(app.scroll, 10);
    app.scroll = usize::MAX - 3;
    press(&mut app, Key::PageDown);
    assert_eq!(app.scroll, usize::MAX);
}

#[test]
fn status_keys_and_quit() {
    let mut app = App::new();
    press(&mut app, Key::Ctrl('s'));
    assert_eq!(app.status, "SAVED");
    press(&mut app, Key::Esc);
    assert_eq!(app.status, "READY");
    assert_eq!(press(&mut app, Key::Ctrl('x')), Control::Continue);
    assert_eq!(press(&mut app, Key::Other), Control::Continue);
    assert_eq!(press(&mut app, Key::Ctrl('c')), Control::Quit);
}

#[test]
fn output_keeps_at_most_five_hundred_lines() {
    let mut app = App::new();
    for _ in 0..498 {
        type_text(&mut app, "1");
        press(&mut app, Key::Enter);
    }
    assert_eq!(app.output.len(), 500);
    type_text(&mut app, "2");
    press(&mut app, Key::Enter);
    assert_eq!(app.output.len(), 401);
    assert_eq!(app.output.last().unwrap(), "2 = 2");
    assert!(well_formed(&app));
}

#[test]
fn offsets_are_bytes_and_must_fall_on_character_boundaries() {
    let mut app = App::new();
    type_text(&mut app, "é");
    assert_eq!(app.input[0], "é");
    assert_eq!(app.cursor_pos, 1);
    assert!(!app.can_handle(Key::Char('a')));
    assert!(!app.can_handle(Key::Delete));
    press(&mut app, Key::Right);
    assert_eq!(app.cursor_pos, 2);
    assert!(!app.can_handle(Key::Backspace));
    type_text(&mut app, "a");
    assert_eq!(app.input[0], "éa");
    press(&mut app, Key::Left);
    press(&mut app, Key::Left);
    assert_eq!(app.cursor_pos, 1);
    press(&mut app, Key::Backspace);
    assert_eq!(app.input[0], "a");
    assert_eq!(app.cursor_pos, 0);
}

#[test]
fn run_is_refused_where_evaluation_panics() {
    let mut app = App::new();
    type_text(&mut app, "1/0");
    assert!(!app.can_run());
    assert!(!app.can_handle(Key::Enter));
    assert!(!app.can_handle(Key::Ctrl('R')));
    assert!(app.can_handle(Key::Ctrl('s')));
}

