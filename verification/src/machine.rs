//! The execution engine: it owns a snapshot of the tape, consults the table
//! one step at a time, and halts when no rule matches, when the head would
//! leave the tape, or when a rule says `Stop`.

use vstd::prelude::*;

use crate::table::spec_get_task;
use crate::table::Table;
use crate::table::TableView;
use crate::tape::Tape;
use crate::tape::TapeView;
use crate::task::Direction;

verus! {

/// Shortest allowed autoplay interval, in milliseconds; requests below it
/// are clamped up to it.
pub const MIN_MACHINE_SELF_TIMER_INTERVAL: u32 = 100;

/// The mathematical content of a machine: current state, owned tape
/// snapshot, step count, halt flag, and the autoplay interval in
/// milliseconds.
#[verifier::ext_equal]
pub ghost struct MachineView {
    pub state: int,
    pub tape: TapeView,
    pub step: int,
    pub halted: bool,
    pub timer: Option<u64>,
}

impl MachineView {
    /// A machine is well formed when its tape is.
    pub open spec fn wf(self) -> bool {
        self.tape.wf()
    }
}

/// The machine a `reset` with this tape snapshot leaves behind: state zero,
/// no steps, running, no autoplay.
pub open spec fn spec_reset(tape: TapeView) -> MachineView {
    MachineView { state: 0, tape, step: 0, halted: false, timer: None }
}

/// An autoplay request clamped up to the minimum interval.
pub open spec fn clamp_timer(v: Option<u32>) -> Option<u64> {
    match v {
        None => None,
        Some(i) => Some(
            if i < MIN_MACHINE_SELF_TIMER_INTERVAL {
                MIN_MACHINE_SELF_TIMER_INTERVAL as u64
            } else {
                i as u64
            },
        ),
    }
}

/// One execution step as a function of the machine and the table. A halted
/// machine stays put. Otherwise the step counter rises, the rule of the
/// current state and head symbol is looked up; without one the machine
/// halts. With one, the rule's symbol is written, its state entered, and the
/// head moves along its direction; a move off the tape, or `Stop`, halts.
/// Every halt clears the autoplay interval.
pub open spec fn spec_machine_step(m: MachineView, t: TableView) -> MachineView {
    if m.halted {
        m
    } else {
        let stepped = MachineView { step: m.step + 1, ..m };
        match spec_get_task(t, m.state, m.tape.chars[m.tape.head()]) {
            None => MachineView { halted: true, timer: None, ..stepped },
            Some(task) => {
                let written = MachineView {
                    state: task.state as int,
                    tape: TapeView {
                        chars: m.tape.chars.update(m.tape.head(), task.character),
                        ..m.tape
                    },
                    ..stepped
                };
                match task.direction {
                    Direction::Left => {
                        if written.tape.head() - 1 >= 0 {
                            MachineView {
                                tape: TapeView { cursor: written.tape.cursor - 1, ..written.tape },
                                ..written
                            }
                        } else {
                            MachineView { halted: true, timer: None, ..written }
                        }
                    },
                    Direction::Right => {
                        if written.tape.head() + 1 < written.tape.length {
                            MachineView {
                                tape: TapeView { cursor: written.tape.cursor + 1, ..written.tape },
                                ..written
                            }
                        } else {
                            MachineView { halted: true, timer: None, ..written }
                        }
                    },
                    Direction::Stop => MachineView { halted: true, timer: None, ..written },
                }
            },
        }
    }
}

/// The machine after `n` steps against a fixed table.
pub open spec fn spec_run(m: MachineView, t: TableView, n: nat) -> MachineView
    decreases n,
{
    if n == 0 {
        m
    } else {
        spec_machine_step(spec_run(m, t, (n - 1) as nat), t)
    }
}

/// The execution engine.
pub struct Machine {
    /// Current state of the machine.
    state: usize,
    /// Tape snapshot the machine mutates; independent of the editor's tape.
    tape: Tape,
    /// Number of steps taken since the last reset.
    step: usize,
    /// Whether the machine has finished its work.
    is_halted: bool,
    /// Autoplay interval in milliseconds, when autoplay is on.
    self_timer_interval: Option<u64>,
}

impl View for Machine {
    type V = MachineView;

    closed spec fn view(&self) -> MachineView {
        MachineView {
            state: self.state as int,
            tape: self.tape@,
            step: self.step as int,
            halted: self.is_halted,
            timer: self.self_timer_interval,
        }
    }
}

impl Machine {
    /// Build a machine in the reset state over a fresh tape.
    pub fn new() -> (m: Machine)
        ensures
            m@.wf(),
            m@ == spec_reset(m@.tape),
            m@.tape.length == crate::tape::DEFAULT_TAPE_CHARS_NUMBER as int,
    {
        Machine {
            state: 0,
            tape: Tape::new(),
            step: 0,
            is_halted: false,
            self_timer_interval: None,
        }
    }

    /// Take a snapshot of `new_tape` and return to the reset state.
    pub fn reset(&mut self, new_tape: Tape)
        ensures
            final(self)@ == spec_reset(new_tape@),
    {
        self.state = 0;
        self.tape = new_tape;
        self.step = 0;
        self.is_halted = false;
        self.self_timer_interval = None;
    }

    /// Set or clear the autoplay interval; requests below the minimum are
    /// clamped up to it.
    pub fn set_self_timer_interval(&mut self, new_interval: Option<u32>)
        ensures
            final(self)@ == (MachineView { timer: clamp_timer(new_interval), ..old(self)@ }),
    {
        self.self_timer_interval = match new_interval {
            Some(interval) => {
                if interval < MIN_MACHINE_SELF_TIMER_INTERVAL {
                    Some(MIN_MACHINE_SELF_TIMER_INTERVAL as u64)
                } else {
                    Some(interval as u64)
                }
            },
            None => None,
        };
    }

    /// The autoplay interval in milliseconds, when autoplay is on.
    pub fn get_self_timer_interval(&self) -> (r: Option<u64>)
        ensures
            r == self@.timer,
    {
        self.self_timer_interval
    }

    /// Whether the machine has halted.
    pub fn is_halted(&self) -> (r: bool)
        ensures
            r == self@.halted,
    {
        self.is_halted
    }

    /// Steps taken since the last reset.
    pub fn get_step(&self) -> (r: usize)
        ensures
            r as int == self@.step,
    {
        self.step
    }

    /// The current state.
    pub fn get_state(&self) -> (r: usize)
        ensures
            r as int == self@.state,
    {
        self.state
    }

    /// The machine's own tape.
    pub fn get_tape(&self) -> (r: &Tape)
        ensures
            r@ == self@.tape,
    {
        &self.tape
    }

    /// Run one step: exactly `spec_machine_step` of the current machine and
    /// the given table.
    pub fn next_step(&mut self, table: &Table)
        requires
            old(self)@.wf(),
            table@.wf(),
            old(self)@.step < usize::MAX,
        ensures
            final(self)@.wf(),
            final(self)@ == spec_machine_step(old(self)@, table@),
    {
        if self.is_halted {
            return ;
        }
        self.step = self.step + 1;

        let current_char = self.tape.get_current_char();
        let task = table.get_task(self.state, current_char);

        match task {
            Some(task) => {
                self.tape.set_current_char(task.character);
                self.state = task.state;
                let move_result = match task.direction {
                    Direction::Left => self.tape.move_cursor_left(),
                    Direction::Right => self.tape.move_cursor_right(),
                    Direction::Stop => Err(()),
                };
                match move_result {
                    Ok(_) => {},
                    Err(_) => {
                        self.is_halted = true;
                        self.self_timer_interval = None;
                    },
                }
            },
            None => {
                self.is_halted = true;
                self.self_timer_interval = None;
            },
        }
    }
}

/// A halted machine is a fixed point: stepping it changes nothing, whatever
/// the table says.
pub proof fn lemma_halt_stable(m: MachineView, t: TableView)
    requires
        m.halted,
    ensures
        spec_machine_step(m, t) == m,
{
}

/// Once a run has halted, running longer changes nothing: the halting step
/// count, state and tape of a run are the same however far past the halt it
/// is driven.
pub proof fn lemma_run_after_halt(m: MachineView, t: TableView, k: nat, n: nat)
    requires
        k <= n,
        spec_run(m, t, k).halted,
    ensures
        spec_run(m, t, n) == spec_run(m, t, k),
    decreases n,
{
    if n > k {
        lemma_run_after_halt(m, t, k, (n - 1) as nat);
    }
}


/// Two runs from the same reset snapshot against the same table, each
/// driven to (or past) a halt, end in the same machine: halting step
/// count, state and tape contents depend on nothing but the table and the
/// tape the reset took.
pub proof fn lemma_halting_determinism(tape: TapeView, t: TableView, n1: nat, n2: nat)
    requires
        spec_run(spec_reset(tape), t, n1).halted,
        spec_run(spec_reset(tape), t, n2).halted,
    ensures
        spec_run(spec_reset(tape), t, n1) == spec_run(spec_reset(tape), t, n2),
{
    if n1 <= n2 {
        lemma_run_after_halt(spec_reset(tape), t, n1, n2);
    } else {
        lemma_run_after_halt(spec_reset(tape), t, n2, n1);
    }
}

} // verus!
