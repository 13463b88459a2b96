use turing_machine::tape::Tape;

fn chars(s: &str) -> Vec<char> {
    s.chars().collect()
}

#[test]
fn new_tape_is_blank_with_centred_anchor() {
    let tape = Tape::new();
    assert_eq!(tape.get_length(), 101);
    assert_eq!(tape.get_cursor_position(), 0);
    assert_eq!(tape.get_first_char_position(), 50);
    assert_eq!(tape.get_chars_with_margin().len(), 101);
    assert!(tape.get_chars_with_margin().iter().all(|c| *c == '#'));
    assert_eq!(tape.get_chars_without_margin(), chars(""));
}

#[test]
fn set_chars_centres_content_and_pads_with_blanks() {
    let mut tape = Tape::new();
    tape.set_chars(chars("abc"));
    assert_eq!(tape.get_first_char_position(), 49);
    assert_eq!(tape.get_chars_without_margin(), chars("abc"));
    assert_eq!(tape.get_current_char(), 'a');
    let buffer = tape.get_chars_with_margin();
    assert_eq!(buffer[48], '#');
    assert_eq!(buffer[49], 'a');
    assert_eq!(buffer[50], 'b');
    assert_eq!(buffer[51], 'c');
    assert_eq!(buffer[52], '#');
}

#[test]
fn set_chars_truncates_to_length() {
    let mut tape = Tape::new();
    tape.set_length(3);
    tape.set_chars(chars("abcdef"));
    assert_eq!(tape.get_length(), 3);
    assert_eq!(tape.get_chars_without_margin(), chars("abc"));
}

#[test]
fn cursor_is_clamped_into_the_buffer() {
    let mut tape = Tape::new();
    tape.set_length(5);
    tape.set_chars(chars("ab"));
    // anchor starts at (5 - 2) / 2 == 1
    assert_eq!(tape.get_first_char_position(), 1);
    tape.set_cursor_position(-100);
    assert_eq!(tape.get_cursor_position(), -1);
    tape.set_cursor_position(100);
    assert_eq!(tape.get_cursor_position(), 3);
    tape.set_cursor_position(2);
    assert_eq!(tape.get_cursor_position(), 2);
    // in every case first + cursor stays inside [0, length)
    for request in [-7, -1, 0, 1, 4, 9] {
        tape.set_cursor_position(request);
        let head = tape.get_first_char_position() + tape.get_cursor_position();
        assert!(0 <= head && head < tape.get_length() as isize);
    }
}

#[test]
fn write_and_read_at_cursor() {
    let mut tape = Tape::new();
    tape.set_chars(chars("xyz"));
    assert_eq!(tape.get_current_char(), 'x');
    tape.set_current_char('q');
    assert_eq!(tape.get_current_char(), 'q');
    assert_eq!(tape.get_chars_without_margin(), chars("qyz"));
}

#[test]
fn cursor_moves_fail_at_the_edges() {
    let mut tape = Tape::new();
    tape.set_length(2);
    tape.set_chars(chars("ab"));
    assert_eq!(tape.get_first_char_position(), 0);
    assert_eq!(tape.move_cursor_left(), Err(()));
    assert_eq!(tape.move_cursor_right(), Ok(()));
    assert_eq!(tape.get_current_char(), 'b');
    assert_eq!(tape.move_cursor_right(), Err(()));
    assert_eq!(tape.move_cursor_left(), Ok(()));
    assert_eq!(tape.get_current_char(), 'a');
}

#[test]
fn length_is_clamped_and_content_survives_resizing() {
    let mut tape = Tape::new();
    tape.set_chars(chars("hello"));
    tape.set_length(0);
    assert_eq!(tape.get_length(), 1);
    assert_eq!(tape.get_chars_without_margin(), chars("h"));
    let mut tape2 = Tape::new();
    tape2.set_chars(chars("hi"));
    tape2.set_length(9999);
    assert_eq!(tape2.get_length(), 250);
    assert_eq!(tape2.get_chars_without_margin(), chars("hi"));
}
