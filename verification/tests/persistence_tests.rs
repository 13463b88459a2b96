use turing_machine::table::Table;
use turing_machine::task::Direction;
use turing_machine::task::ParseDirectionError;
use turing_machine::task::Task;

fn chars(s: &str) -> Vec<char> {
    s.chars().collect()
}

fn text(v: &[char]) -> String {
    v.iter().collect()
}

#[test]
fn direction_codes_round_trip() {
    assert_eq!(Direction::Left.to_char(), '-');
    assert_eq!(Direction::Right.to_char(), '+');
    assert_eq!(Direction::Stop.to_char(), '0');
    assert_eq!(Direction::from_char('-'), Ok(Direction::Left));
    assert_eq!(Direction::from_char('+'), Ok(Direction::Right));
    assert_eq!(Direction::from_char('0'), Ok(Direction::Stop));
    assert_eq!(Direction::from_char('x'), Err(ParseDirectionError));
    assert_eq!(Direction::from_char(' '), Err(ParseDirectionError));
}

#[test]
fn save_produces_the_expected_text() {
    let mut table = Table::new_empty();
    table.set_characters(&chars("ba"));
    table.set_states_number(1);
    let rule = Task { state: 2, character: 'b', direction: Direction::Left };
    table.set_task_by_state_and_character(rule, 0, 'a').unwrap();
    let saved = table.write_to_buffer();
    assert_eq!(text(&saved), "a b\n02 b - 00 0 0\n");
}

#[test]
fn load_reads_back_what_save_wrote() {
    let mut table = Table::new_empty();
    table.set_characters(&chars("#ab"));
    table.set_states_number(3);
    let r1 = Task { state: 1, character: 'b', direction: Direction::Right };
    let r2 = Task { state: 0, character: '#', direction: Direction::Left };
    table.set_task_by_state_and_character(r1, 0, 'a').unwrap();
    table.set_task_by_state_and_character(r2, 2, '#').unwrap();

    let saved = table.write_to_buffer();
    let loaded = Table::new_from_buffer(&saved).unwrap();

    assert_eq!(loaded.get_states_number(), table.get_states_number());
    // the alphabet comes back in sorted order
    assert_eq!(loaded.get_characters(), &chars("#ab"));
    for s in 0..3 {
        for c in "#ab".chars() {
            assert_eq!(loaded.get_task(s, c), table.get_task(s, c));
        }
    }
}

#[test]
fn round_trip_preserves_a_large_state_count() {
    let mut table = Table::new_empty();
    table.set_characters(&chars("xyz#"));
    table.set_states_number(16);
    let rule = Task { state: 15, character: 'z', direction: Direction::Stop };
    table.set_task_by_state_and_character(rule, 15, 'x').unwrap();
    let saved = table.write_to_buffer();
    let loaded = Table::new_from_buffer(&saved).unwrap();
    assert_eq!(loaded.get_states_number(), 16);
    assert_eq!(loaded.get_task(15, 'x').unwrap(), rule);
    assert_eq!(loaded.get_characters(), &chars("#xyz"));
}

#[test]
fn load_parses_a_hand_written_file() {
    let input = chars("a b\n02 b - 00 0 0\n00 a + 01 a 0\n");
    let table = Table::new_from_buffer(&input).unwrap();
    assert_eq!(table.get_states_number(), 2);
    assert_eq!(table.get_characters(), &chars("ab"));
    assert_eq!(
        table.get_task(0, 'a').unwrap(),
        Task { state: 2, character: 'b', direction: Direction::Left }
    );
    assert_eq!(
        table.get_task(0, 'b').unwrap(),
        Task { state: 0, character: '0', direction: Direction::Stop }
    );
    assert_eq!(
        table.get_task(1, 'a').unwrap(),
        Task { state: 0, character: 'a', direction: Direction::Right }
    );
    assert_eq!(
        table.get_task(1, 'b').unwrap(),
        Task { state: 1, character: 'a', direction: Direction::Stop }
    );
}

#[test]
fn load_without_data_lines_gives_one_default_state() {
    let table = Table::new_from_buffer(&chars("ab\n")).unwrap();
    assert_eq!(table.get_states_number(), 1);
    assert_eq!(table.get_characters(), &chars("ab"));
    assert_eq!(table.get_task(0, 'a').unwrap(), Task::new());
}

#[test]
fn load_clamps_excess_data_lines() {
    let mut text_in = String::from("a\n");
    for s in 0..20 {
        text_in.push_str(&format!("{:02} a 0\n", s));
    }
    let table = Table::new_from_buffer(&chars(&text_in)).unwrap();
    assert_eq!(table.get_states_number(), 16);
    assert_eq!(
        table.get_task(15, 'a').unwrap(),
        Task { state: 15, character: 'a', direction: Direction::Stop }
    );
}

#[test]
fn load_rejects_empty_input() {
    assert!(Table::new_from_buffer(&chars("")).is_err());
}

#[test]
fn load_rejects_a_short_data_line() {
    assert!(Table::new_from_buffer(&chars("ab\n00 a -\n")).is_err());
}

#[test]
fn load_rejects_a_bad_state_number() {
    assert!(Table::new_from_buffer(&chars("a\nxx a -\n")).is_err());
    assert!(Table::new_from_buffer(&chars("a\n99999999999999999999999999 a -\n")).is_err());
}

#[test]
fn load_rejects_a_bad_direction() {
    assert!(Table::new_from_buffer(&chars("a\n00 a z\n")).is_err());
}

#[test]
fn load_failure_does_not_touch_the_caller_table() {
    let mut table = Table::new_empty();
    table.set_characters(&chars("qr"));
    let before = table.write_to_buffer();
    assert!(Table::new_from_buffer(&chars("ab\nbroken\n")).is_err());
    assert_eq!(text(&table.write_to_buffer()), text(&before));
}
