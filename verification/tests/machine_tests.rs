use turing_machine::machine::Machine;
use turing_machine::running_machine::RunningMachine;
use turing_machine::table::Table;
use turing_machine::tape::Tape;
use turing_machine::task::Direction;
use turing_machine::task::Task;

fn chars(s: &str) -> Vec<char> {
    s.chars().collect()
}

fn scenario_table() -> Table {
    // alphabet "#ab", one state, rule (0, 'a') -> { state 0, write 'b', move right }
    let mut table = Table::new_empty();
    table.set_characters(&chars("#ab"));
    table.set_states_number(1);
    let rule = Task { state: 0, character: 'b', direction: Direction::Right };
    table.set_task_by_state_and_character(rule, 0, 'a').unwrap();
    table
}

#[test]
fn single_letter_run_writes_moves_then_halts() {
    let table = scenario_table();
    let mut tape = Tape::new();
    tape.set_chars(chars("a"));
    tape.set_cursor_position(0);
    let mut machine = Machine::new();
    machine.reset(tape);

    machine.next_step(&table);
    assert_eq!(machine.get_step(), 1);
    assert!(!machine.is_halted());
    assert_eq!(machine.get_state(), 0);
    assert_eq!(machine.get_tape().get_current_char(), '#');

    machine.next_step(&table);
    assert_eq!(machine.get_step(), 2);
    assert!(machine.is_halted());
    // the written 'b' sits at the original position
    assert_eq!(machine.get_tape().get_chars_without_margin(), chars("b"));
}

#[test]
fn next_step_on_halted_machine_is_a_no_op() {
    let table = scenario_table();
    let mut tape = Tape::new();
    tape.set_chars(chars("a"));
    let mut machine = Machine::new();
    machine.reset(tape);
    machine.next_step(&table);
    machine.next_step(&table);
    assert!(machine.is_halted());
    machine.next_step(&table);
    machine.next_step(&table);
    assert_eq!(machine.get_step(), 2);
    assert!(machine.is_halted());
}

#[test]
fn stop_rule_halts_on_the_step_it_fires() {
    let mut table = Table::new_empty();
    table.set_characters(&chars("#ab"));
    table.set_states_number(2);
    let rule = Task { state: 1, character: 'b', direction: Direction::Stop };
    table.set_task_by_state_and_character(rule, 0, 'a').unwrap();
    let mut tape = Tape::new();
    tape.set_chars(chars("a"));
    let mut machine = Machine::new();
    machine.reset(tape);

    machine.next_step(&table);
    assert!(machine.is_halted(), "a Stop rule halts immediately after it fires");
    assert_eq!(machine.get_step(), 1, "the step counter rises exactly once for that step");
    assert_eq!(machine.get_state(), 1, "the state change still happens");
    assert_eq!(machine.get_tape().get_current_char(), 'b', "the write still happens");
}

#[test]
fn repeated_runs_from_the_same_tape_agree() {
    let table = scenario_table();
    let mut machine = Machine::new();
    let mut outcomes = Vec::new();
    for _ in 0..3 {
        let mut tape = Tape::new();
        tape.set_chars(chars("aaa"));
        machine.reset(tape);
        while !machine.is_halted() {
            machine.next_step(&table);
        }
        outcomes.push((
            machine.get_step(),
            machine.get_state(),
            machine.get_tape().get_chars_with_margin().clone(),
        ));
    }
    assert_eq!(outcomes[0], outcomes[1]);
    assert_eq!(outcomes[1], outcomes[2]);
    assert_eq!(outcomes[0].0, 4, "three writes and the halting step");
}

#[test]
fn running_off_the_tape_end_halts() {
    let table = scenario_table();
    let mut tape = Tape::new();
    tape.set_length(1);
    tape.set_chars(chars("a"));
    let mut machine = Machine::new();
    machine.reset(tape);
    machine.next_step(&table);
    assert!(machine.is_halted(), "the head cannot leave the one-cell tape");
    assert_eq!(machine.get_step(), 1);
    assert_eq!(machine.get_tape().get_current_char(), 'b');
}

#[test]
fn reset_snapshots_the_tape() {
    let table = scenario_table();
    let mut editor_tape = Tape::new();
    editor_tape.set_chars(chars("a"));
    let mut machine = Machine::new();
    machine.reset(editor_tape.clone());
    editor_tape.set_chars(chars("bbb"));
    machine.next_step(&table);
    assert_eq!(
        machine.get_tape().get_chars_without_margin(),
        chars("b"),
        "later edits to the editor tape do not reach the running machine"
    );
}

#[test]
fn reset_clears_state_step_halt_and_timer() {
    let table = scenario_table();
    let mut machine = Machine::new();
    machine.set_self_timer_interval(Some(300));
    let mut tape = Tape::new();
    tape.set_chars(chars("a"));
    machine.reset(tape);
    assert_eq!(machine.get_state(), 0);
    assert_eq!(machine.get_step(), 0);
    assert!(!machine.is_halted());
    assert_eq!(machine.get_self_timer_interval(), None);
    machine.next_step(&table);
    machine.next_step(&table);
    assert!(machine.is_halted());
    let mut tape2 = Tape::new();
    tape2.set_chars(chars("a"));
    machine.reset(tape2);
    assert!(!machine.is_halted());
    assert_eq!(machine.get_step(), 0);
}

#[test]
fn timer_interval_is_clamped_up_to_the_minimum() {
    let mut machine = Machine::new();
    machine.set_self_timer_interval(Some(0));
    assert_eq!(machine.get_self_timer_interval(), Some(100));
    machine.set_self_timer_interval(Some(40));
    assert_eq!(machine.get_self_timer_interval(), Some(100));
    machine.set_self_timer_interval(Some(700));
    assert_eq!(machine.get_self_timer_interval(), Some(700));
    machine.set_self_timer_interval(None);
    assert_eq!(machine.get_self_timer_interval(), None);
}

#[test]
fn halting_clears_the_timer() {
    let table = scenario_table();
    let mut tape = Tape::new();
    tape.set_chars(chars("a"));
    let mut machine = Machine::new();
    machine.reset(tape);
    machine.set_self_timer_interval(Some(200));
    machine.next_step(&table);
    assert_eq!(machine.get_self_timer_interval(), Some(200));
    machine.next_step(&table);
    assert!(machine.is_halted());
    assert_eq!(machine.get_self_timer_interval(), None);
}

#[test]
fn running_machine_snapshot_starts_at_state_zero() {
    let snapshot = RunningMachine::new(String::from("ab#"), -2);
    assert_eq!(snapshot.state, 0);
    assert_eq!(snapshot.tape, "ab#");
    assert_eq!(snapshot.cursor_position, -2);
}
