use primorial_of_a_number::calculator::{Action, App, FileWindowMode, Key, OutputSwitch};
use primorial_of_a_number::number::BigNat;
use primorial_of_a_number::storage::{ReadMode, WriteMode};
use primorial_of_a_number::text::OutputMode;

fn type_line(app: &mut App, line: &str) -> Action {
    for c in line.chars() {
        assert_eq!(app.handle_key(Key::Char(c)), Action::Continue);
    }
    app.handle_key(Key::Enter)
}

#[test]
fn starts_empty() {
    let app = App::default();
    assert_eq!(app.input, "");
    assert_eq!(app.output, "");
    assert_eq!(app.scroll_position, 0);
    assert_eq!(app.write_mode, WriteMode::NoFile);
    assert_eq!(app.output_mode, OutputMode::Message);
    assert_eq!(app.file_window_mode, FileWindowMode::NoFile);
    assert_eq!(app.output_switch, OutputSwitch::Enabled);
}

#[test]
fn quit_and_q_quit() {
    let mut app = App::new();
    assert_eq!(type_line(&mut app, "quit"), Action::Quit);
    let mut app = App::new();
    assert_eq!(type_line(&mut app, "q"), Action::Quit);
    assert_eq!(app.input, "");
}

#[test]
fn a_number_asks_for_its_primorial() {
    let mut app = App::new();
    app.scroll_position = 5;
    assert_eq!(type_line(&mut app, "6"), Action::Primorial(6));
    assert_eq!(app.output_mode, OutputMode::Number);
    assert_eq!(app.scroll_position, 0);
    assert_eq!(app.input, "");
}

#[test]
fn a_huge_number_is_too_large() {
    let mut app = App::new();
    assert_eq!(type_line(&mut app, "99999999999999999999999999"), Action::NumberTooLarge);
}

#[test]
fn text_is_not_a_number() {
    let mut app = App::new();
    assert_eq!(type_line(&mut app, "hello"), Action::Continue);
    assert_eq!(app.output, "Error: Value is not a number!");
    assert_eq!(app.output_mode, OutputMode::Message);
    let mut app = App::new();
    assert_eq!(type_line(&mut app, ""), Action::Continue);
    assert_eq!(app.output, "Error: Value is not a number!");
}

#[test]
fn output_commands() {
    let mut app = App::new();
    type_line(&mut app, "output disable");
    assert_eq!(app.output_switch, OutputSwitch::Disabled);
    assert_eq!(app.output, "Output disabled");
    type_line(&mut app, "output enable");
    assert_eq!(app.output_switch, OutputSwitch::Enabled);
    assert_eq!(app.output, "Output enabled");
    type_line(&mut app, "output");
    assert_eq!(app.output, "Error: Invalid write option; Valid options: \"enable\" \"disable\"");
}

#[test]
fn write_commands() {
    let mut app = App::new();
    type_line(&mut app, "write bin");
    assert_eq!(app.write_mode, WriteMode::Bin);
    assert_eq!(app.file_window_mode, FileWindowMode::Write);
    assert_eq!(app.output, "Write mode bin selected, enter value; value will be saved");
    type_line(&mut app, "write txt");
    assert_eq!(app.write_mode, WriteMode::Txt);
    type_line(&mut app, "write none");
    assert_eq!(app.write_mode, WriteMode::NoFile);
    assert_eq!(app.output, "Write mode none selected, enter value; value will be saved");
    type_line(&mut app, "write xyz");
    assert_eq!(app.write_mode, WriteMode::NoFile);
    assert_eq!(app.output, "Error: Invalid write option; Valid options: \"bin\" \"txt\" \"none\"");
}

#[test]
fn read_commands() {
    let mut app = App::new();
    assert_eq!(type_line(&mut app, "read bin"), Action::Read(ReadMode::Bin));
    assert_eq!(app.file_window_mode, FileWindowMode::Read);
    assert_eq!(app.output_mode, OutputMode::Number);
    assert_eq!(app.primes_status, "No number generated");
    assert_eq!(app.primorial_status, "No number generated");
    assert_eq!(type_line(&mut app, "read txt"), Action::Read(ReadMode::Txt));
    assert_eq!(type_line(&mut app, "read"), Action::Continue);
    assert_eq!(app.output_mode, OutputMode::Message);
    assert_eq!(app.output, "Error: Invalid write option; Valid options: \"bin\" \"txt\"");
}

#[test]
fn commands_inside_other_words_still_count() {
    // "rewrite" contains "write": the write panel opens with an error message
    let mut app = App::new();
    assert_eq!(type_line(&mut app, "rewrite bin"), Action::Continue);
    assert_eq!(app.file_window_mode, FileWindowMode::Write);
    assert_eq!(app.write_mode, WriteMode::NoFile);
}

#[test]
fn scrolling() {
    let mut app = App::new();
    app.handle_key(Key::Up);
    assert_eq!(app.scroll_position, 0);
    app.handle_key(Key::Down);
    app.handle_key(Key::Down);
    assert_eq!(app.scroll_position, 2);
    app.handle_key(Key::Left);
    assert_eq!(app.scroll_position, 2);
    app.handle_key(Key::Right);
    assert_eq!(app.scroll_position, 12);
    app.handle_key(Key::Left);
    assert_eq!(app.scroll_position, 2);
    app.handle_key(Key::Up);
    assert_eq!(app.scroll_position, 1);
    app.scroll_position = 10;
    app.handle_key(Key::Left);
    assert_eq!(app.scroll_position, 0);
}

#[test]
fn editing_the_input() {
    let mut app = App::new();
    app.handle_key(Key::Backspace);
    assert_eq!(app.input, "");
    app.handle_key(Key::Char('a'));
    app.handle_key(Key::Char('b'));
    app.handle_key(Key::Backspace);
    app.handle_key(Key::Other);
    assert_eq!(app.input, "a");
}

#[test]
fn showing_a_primorial() {
    let mut app = App::new();
    let n = BigNat::from_decimal_str("30030").unwrap();
    app.show_primorial(&n, String::from("1ms"), String::from("2ms"));
    assert_eq!(app.output, "30030");
    assert_eq!(app.primes_status, "1ms");
    assert_eq!(app.primorial_status, "2ms");
    type_line(&mut app, "output disable");
    app.show_primorial(&n, String::from("3ms"), String::from("4ms"));
    assert_eq!(app.output, "Output disabled; Type output enable to enable output");
}

#[test]
fn panels() {
    let mut app = App::new();
    app.output = String::from("123456");
    app.output_mode = OutputMode::Number;
    assert_eq!(app.output_text(4), "1~ 1234\n2~ 56");
    assert_eq!(app.output_title(), "Output: Enabled");
    app.file_status = String::from("5ms");
    assert_eq!(app.file_panel_text(), "5ms");
    type_line(&mut app, "write txt");
    assert_eq!(app.file_panel_text(), "5ms\nWrite: Txt");
    type_line(&mut app, "write none");
    assert_eq!(app.file_panel_text(), "5ms\nWrite: None");
    type_line(&mut app, "read foo");
    assert_eq!(app.file_panel_text(), "5ms\nRead");
    type_line(&mut app, "output disable");
    assert_eq!(app.output_text(4), "Output disabled; Type output enable to enable output");
    assert_eq!(app.output_title(), "Output: Disabled");
}

#[test]
fn showing_a_read_and_a_save() {
    let mut app = App::new();
    app.show_read(String::from("3ms"), String::from("30030"));
    assert_eq!(app.file_status, "3ms");
    assert_eq!(app.output, "30030");
    app.show_saved(String::from("No file"));
    assert_eq!(app.file_status, "No file");
    assert_eq!(app.output, "30030");
}

#[test]
fn the_last_valid_write_command_decides_the_save_mode() {
    let mut app = App::new();
    type_line(&mut app, "write bin");
    type_line(&mut app, "write xyz");
    type_line(&mut app, "hello");
    assert_eq!(app.write_mode, WriteMode::Bin);
    type_line(&mut app, "write txt");
    type_line(&mut app, "output disable");
    assert_eq!(type_line(&mut app, "6"), Action::Primorial(6));
    assert_eq!(app.write_mode, WriteMode::Txt);
    assert_eq!(app.output_switch, OutputSwitch::Disabled);
    assert_eq!(app.output_title(), "Output: Disabled");
}
