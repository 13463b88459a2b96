use turing_machine::table::Table;
use turing_machine::task::Direction;
use turing_machine::task::Task;

fn chars(s: &str) -> Vec<char> {
    s.chars().collect()
}

#[test]
fn new_empty_has_default_alphabet_and_states() {
    let table = Table::new_empty();
    assert_eq!(table.get_states_number(), 5);
    assert_eq!(table.get_characters(), &chars("#abc"));
    let task = table.get_task(0, 'a').unwrap();
    assert_eq!(task.state, 0);
    assert_eq!(task.character, '0');
    assert!(matches!(task.direction, Direction::Stop));
}

#[test]
fn set_characters_filters_whitespace_and_duplicates() {
    let mut table = Table::new_empty();
    table.set_characters(&chars("a b\tb#a"));
    assert_eq!(table.get_characters(), &chars("ab#"));
}

#[test]
fn get_task_unknown_symbol_or_state_is_none() {
    let table = Table::new_empty();
    assert!(table.get_task(0, 'z').is_none());
    assert!(table.get_task(5, 'a').is_none());
    assert!(table.get_task(4, 'a').is_some());
}

#[test]
fn set_task_by_state_and_character_places_rule() {
    let mut table = Table::new_empty();
    let rule = Task { state: 3, character: 'b', direction: Direction::Left };
    assert_eq!(table.set_task_by_state_and_character(rule, 2, 'a'), Some(()));
    let read = table.get_task(2, 'a').unwrap();
    assert_eq!(read, rule);
    assert_eq!(
        table.set_task_by_state_and_character(rule, 9, 'a'),
        None,
        "state out of range is refused"
    );
    assert_eq!(table.set_task_by_state_and_character(rule, 0, 'z'), None);
}

#[test]
fn set_task_by_position_places_rule() {
    let mut table = Table::new_empty();
    let rule = Task { state: 1, character: 'c', direction: Direction::Right };
    // sorted alphabet is "#abc": column 2 is 'b'
    table.set_task_by_position(rule, 4, 2);
    assert_eq!(table.get_task(4, 'b').unwrap(), rule);
}

#[test]
fn removing_and_readding_symbol_preserves_other_rules() {
    let mut table = Table::new_empty();
    let rule_b = Task { state: 2, character: 'c', direction: Direction::Right };
    let rule_c = Task { state: 1, character: '#', direction: Direction::Left };
    table.set_task_by_state_and_character(rule_b, 0, 'b').unwrap();
    table.set_task_by_state_and_character(rule_c, 3, 'c').unwrap();
    table.set_characters(&chars("#bc"));
    table.set_characters(&chars("#abc"));
    assert_eq!(table.get_task(0, 'b').unwrap(), rule_b);
    assert_eq!(table.get_task(3, 'c').unwrap(), rule_c);
    let readded = table.get_task(0, 'a').unwrap();
    assert_eq!(readded, Task::new(), "a re-added symbol starts over with default rules");
}

#[test]
fn states_number_is_clamped() {
    let mut table = Table::new_empty();
    table.set_states_number(0);
    assert_eq!(table.get_states_number(), 1);
    table.set_states_number(99);
    assert_eq!(table.get_states_number(), 16);
    table.set_states_number(7);
    assert_eq!(table.get_states_number(), 7);
}

#[test]
fn set_states_number_twice_equals_once() {
    let mut table = Table::new_empty();
    let rule = Task { state: 4, character: 'a', direction: Direction::Left };
    table.set_task_by_state_and_character(rule, 1, 'b').unwrap();
    table.set_states_number(3);
    let after_once: Vec<Option<Task>> =
        (0..3).map(|s| table.get_task(s, 'b')).collect();
    table.set_states_number(3);
    let after_twice: Vec<Option<Task>> =
        (0..3).map(|s| table.get_task(s, 'b')).collect();
    assert_eq!(after_once, after_twice);
    assert_eq!(table.get_states_number(), 3);
}

#[test]
fn growing_then_shrinking_states_restores_rows() {
    let mut table = Table::new_empty();
    let rule = Task { state: 2, character: '#', direction: Direction::Right };
    table.set_task_by_state_and_character(rule, 4, 'c').unwrap();
    table.set_states_number(12);
    table.set_task_by_state_and_character(rule, 10, 'a').unwrap();
    table.set_states_number(5);
    assert_eq!(table.get_states_number(), 5);
    assert_eq!(table.get_task(4, 'c').unwrap(), rule);
    assert_eq!(table.get_task(0, 'a').unwrap(), Task::new());
}

#[test]
fn grown_rows_are_default() {
    let mut table = Table::new_empty();
    table.set_states_number(8);
    for s in 5..8 {
        for c in "#abc".chars() {
            assert_eq!(table.get_task(s, c).unwrap(), Task::new());
        }
    }
}
