//! Cycle-accurate single-register CPU simulator.
//!
//! The machine executes an ordered command list against one register `x`
//! (starting at 1) and yields the register's value at every discrete time
//! unit. A multi-cycle command's effect lands only after its last cycle, so
//! the updated value is first observed on the following unit; after the last
//! command completes, one final observation of the settled register is
//! yielded before the stream ends.
use vstd::prelude::*;

use crate::text::all_digits;
use crate::text::byte_lines;
use crate::text::bytes_to_chars;
use crate::text::digits_val;
use crate::text::parse_digits;
use crate::text::split_lines_vec;

verus! {

/// One CPU command: add to the register over two cycles, or idle for one.
#[derive(Clone, Copy, Debug)]
pub enum Instruction {
    Addx(i64),
    Noop,
}

impl Instruction {
    /// How many cycles the command takes to complete.
    pub open spec fn cycles_spec(&self) -> int {
        match self {
            Instruction::Addx(_) => 2,
            Instruction::Noop => 1,
        }
    }

    /// What the command adds to the register when it completes.
    pub open spec fn delta(&self) -> int {
        match self {
            Instruction::Addx(n) => *n as int,
            Instruction::Noop => 0,
        }
    }

    /// How many cycles the command takes to complete.
    pub fn cycles(&self) -> (n: usize)
        ensures
            n == self.cycles_spec(),
    {
        match self {
            Instruction::Addx(_) => 2,
            Instruction::Noop => 1,
        }
    }
}

/// A bare `noop` line.
pub open spec fn is_noop_line(s: Seq<char>) -> bool {
    s == seq!['n', 'o', 'o', 'p']
}

/// An `addx N` line with a signed decimal operand fitting the register.
pub open spec fn is_addx_line(s: Seq<char>) -> bool {
    &&& s.len() >= 6
    &&& s[0] == 'a' && s[1] == 'd' && s[2] == 'd' && s[3] == 'x' && s[4] == ' '
    &&& {
        let num = s.skip(5);
        if num[0] == '-' {
            num.len() >= 2 && all_digits(num.skip(1)) && digits_val(num.skip(1)) <= i64::MAX
        } else {
            all_digits(num) && digits_val(num) <= i64::MAX
        }
    }
}

/// The operand of an `addx` line.
pub open spec fn addx_val(s: Seq<char>) -> int {
    let num = s.skip(5);
    if num[0] == '-' {
        -digits_val(num.skip(1))
    } else {
        digits_val(num)
    }
}

/// A line of a CPU program.
pub open spec fn valid_program_line(s: Seq<char>) -> bool {
    is_noop_line(s) || is_addx_line(s)
}

/// Whether a parsed command records exactly what the input line says.
pub open spec fn instruction_matches(ins: Instruction, s: Seq<char>) -> bool {
    match ins {
        Instruction::Noop => is_noop_line(s),
        Instruction::Addx(n) => is_addx_line(s) && n as int == addx_val(s),
    }
}

impl Instruction {
    /// Read a whole program, one command per line.
    pub fn parse_input(input: &[u8]) -> (r: Vec<Instruction>)
        requires
            forall|k: int| 0 <= k < byte_lines(input@).len() ==> valid_program_line(
                #[trigger] byte_lines(input@)[k],
            ),
        ensures
            r@.len() == byte_lines(input@).len(),
            forall|k: int| 0 <= k < r@.len() ==> instruction_matches(
                #[trigger] r@[k],
                byte_lines(input@)[k],
            ),
    {
        let chars = bytes_to_chars(input);
        let lines = split_lines_vec(&chars);
        let mut r: Vec<Instruction> = Vec::new();
        for k in 0..lines.len()
            invariant
                lines@.map_values(|line: Vec<char>| line@) == byte_lines(input@),
                forall|j: int| 0 <= j < byte_lines(input@).len() ==> valid_program_line(
                    #[trigger] byte_lines(input@)[j],
                ),
                r@.len() == k,
                forall|j: int| 0 <= j < k ==> instruction_matches(
                    #[trigger] r@[j],
                    byte_lines(input@)[j],
                ),
        {
            let line = &lines[k];
            let ghost s = byte_lines(input@)[k as int];
            proof {
                assert(line@ == s);
                assert(valid_program_line(s));
            }
            let parsed = if line.len() == 4 {
                proof {
                    assert(is_noop_line(s));
                }
                Instruction::Noop
            } else {
                proof {
                    assert(is_addx_line(s));
                    assert(s.skip(5)[0] == s[5]);
                }
                if line[5] == '-' {
                    proof {
                        assert(s.skip(5).skip(1) =~= s.subrange(6, s.len() as int));
                    }
                    let v = parse_digits(line, 6, line.len());
                    Instruction::Addx(-(v as i64))
                } else {
                    proof {
                        assert(s.skip(5) =~= s.subrange(5, s.len() as int));
                    }
                    let v = parse_digits(line, 5, line.len());
                    Instruction::Addx(v as i64)
                }
            };
            r.push(parsed);
        }
        r
    }
}

/// The register value observed during each cycle of the program: a command
/// holds the current value on screen for each of its cycles and applies its
/// effect only at the end of its last one.
pub open spec fn trace(prog: Seq<Instruction>, x0: int) -> Seq<int>
    decreases prog.len(),
{
    if prog.len() == 0 {
        Seq::empty()
    } else {
        match prog[0] {
            Instruction::Noop => seq![x0] + trace(prog.drop_first(), x0),
            Instruction::Addx(n) => seq![x0, x0] + trace(prog.drop_first(), x0 + n),
        }
    }
}

/// The register value after the whole program has completed.
pub open spec fn final_x(prog: Seq<Instruction>, x0: int) -> int
    decreases prog.len(),
{
    if prog.len() == 0 {
        x0
    } else {
        final_x(prog.drop_first(), x0 + prog[0].delta())
    }
}

/// Everything the simulator yields: the per-cycle trace followed by one
/// final observation of the settled register.
pub open spec fn emission(prog: Seq<Instruction>, x0: int) -> Seq<int> {
    trace(prog, x0) + seq![final_x(prog, x0)]
}

/// The total cycle cost of a program.
pub open spec fn total_cycles(prog: Seq<Instruction>) -> int
    decreases prog.len(),
{
    if prog.len() == 0 {
        0
    } else {
        prog[0].cycles_spec() + total_cycles(prog.drop_first())
    }
}

/// The observed trace has exactly one value per time unit: its length is the
/// sum of every command's cycle cost. The yielded stream carries one more,
/// final, observation.
pub proof fn lemma_trace_len(prog: Seq<Instruction>, x0: int)
    ensures
        trace(prog, x0).len() == total_cycles(prog),
        emission(prog, x0).len() == total_cycles(prog) + 1,
    decreases prog.len(),
{
    if prog.len() > 0 {
        match prog[0] {
            Instruction::Noop => {
                lemma_trace_len(prog.drop_first(), x0);
            },
            Instruction::Addx(n) => {
                lemma_trace_len(prog.drop_first(), x0 + n);
            },
        }
    }
}

/// Every register value the program ever reaches stays within the machine
/// word.
pub open spec fn states_fit(prog: Seq<Instruction>, x0: int) -> bool
    decreases prog.len(),
{
    if prog.len() == 0 {
        true
    } else {
        let x1 = x0 + prog[0].delta();
        i64::MIN <= x1 <= i64::MAX && states_fit(prog.drop_first(), x1)
    }
}

/// The machine state: the register, at most one in-flight command with its
/// remaining cycles, and a count of fully applied commands.
pub struct Cpu {
    pub x: i64,
    pub in_progress: Option<(Instruction, usize)>,
    pub instructions_executed: usize,
}

impl Default for Cpu {
    /// A fresh machine: register 1, nothing in flight, nothing executed.
    fn default() -> (c: Self)
        ensures
            c.x == 1,
            c.in_progress.is_none(),
            c.instructions_executed == 0,
    {
        Cpu { x: 1, in_progress: None, instructions_executed: 0 }
    }
}

impl Cpu {
    /// Apply a command's effect to the register and count it as executed.
    pub fn apply(&mut self, instruction: Instruction)
        requires
            i64::MIN <= old(self).x + instruction.delta() <= i64::MAX,
            old(self).instructions_executed < usize::MAX,
        ensures
            final(self).x == old(self).x + instruction.delta(),
            final(self).instructions_executed == old(self).instructions_executed + 1,
            final(self).in_progress == old(self).in_progress,
    {
        self.instructions_executed = self.instructions_executed + 1;
        match instruction {
            Instruction::Addx(n) => self.x = self.x + n,
            Instruction::Noop => {},
        }
    }
}

/// A pull-based run of a program: each call to `next` advances one time unit
/// and yields the register value observed during it.
pub struct Execution {
    pub cpu: Cpu,
    pub instructions: Vec<Instruction>,
    pub done: bool,
}

impl Execution {
    /// The commands not yet started, in execution order (the internal list
    /// is reversed so that commands can be popped off its end).
    pub open spec fn rem_prog(&self) -> Seq<Instruction> {
        self.instructions@.reverse()
    }

    /// The values still to be yielded.
    pub open spec fn future(&self) -> Seq<int> {
        if self.done {
            Seq::empty()
        } else {
            match self.cpu.in_progress {
                None => emission(self.rem_prog(), self.cpu.x as int),
                Some((ins, ttl)) => Seq::new(ttl as nat, |i: int| self.cpu.x as int) + emission(
                    self.rem_prog(),
                    self.cpu.x + ins.delta(),
                ),
            }
        }
    }

    /// The state never overflows the register or the executed counter, and
    /// an in-flight command always has at least one cycle to go.
    pub open spec fn wf(&self) -> bool {
        &&& match self.cpu.in_progress {
            None => states_fit(self.rem_prog(), self.cpu.x as int),
            Some((ins, ttl)) => {
                &&& ttl >= 1
                &&& i64::MIN <= self.cpu.x + ins.delta() <= i64::MAX
                &&& states_fit(self.rem_prog(), self.cpu.x + ins.delta())
            },
        }
        &&& self.cpu.instructions_executed + self.instructions@.len() + (if self
            .cpu
            .in_progress
            .is_some() {
            1int
        } else {
            0
        }) <= usize::MAX
    }

    /// Start a run of the program on the given machine.
    pub fn new(cpu: Cpu, instructions: Vec<Instruction>) -> (r: Self)
        requires
            cpu.in_progress.is_none(),
            states_fit(instructions@, cpu.x as int),
            cpu.instructions_executed + instructions@.len() <= usize::MAX,
        ensures
            r.wf(),
            r.future() == emission(instructions@, cpu.x as int),
    {
        let ghost orig = instructions@;
        let mut instructions = instructions;
        let mut rev: Vec<Instruction> = Vec::new();
        let mut k = instructions.len();
        while k > 0
            invariant
                k <= orig.len(),
                k == instructions@.len(),
                instructions@ == orig.take(k as int),
                rev@ =~= orig.skip(k as int).reverse(),
            decreases k,
        {
            proof {
                assert(orig.take(k as int).drop_last() =~= orig.take(k - 1));
                assert(orig.skip(k - 1).drop_first() =~= orig.skip(k as int));
                assert(orig.skip(k - 1)[0] == orig[k - 1]);
                assert(orig.skip(k - 1).reverse() =~= orig.skip(k as int).reverse().push(
                    orig[k - 1],
                ));
            }
            let ins = instructions.pop().unwrap();
            rev.push(ins);
            k = k - 1;
        }
        proof {
            assert(orig.skip(0) =~= orig);
            assert(rev@.reverse() =~= orig);
        }
        Execution { cpu, instructions: rev, done: false }
    }

    /// Advance the simulation one time unit. Yields the register value
    /// observed during this unit, or nothing once the stream is exhausted.
    pub fn next(&mut self) -> (r: Option<i64>)
        requires
            old(self).wf(),
        ensures
            final(self).wf(),
            old(self).future().len() == 0 ==> r.is_none() && final(self).future().len() == 0,
            old(self).future().len() > 0 ==> r == Some(old(self).future()[0] as i64)
                && final(self).future() == old(self).future().drop_first(),
    {
        let value_during_this_cycle = self.cpu.x;
        if self.done {
            return None;
        }
        let ghost pre = *self;
        match self.cpu.in_progress {
            // Instruction is ready
            Some((instruction, ttl)) => {
                if ttl == 1 {
                    self.cpu.in_progress = None;
                    self.cpu.apply(instruction);
                    proof {
                        assert(pre.future() =~= seq![pre.cpu.x as int] + emission(
                            self.rem_prog(),
                            self.cpu.x as int,
                        ));
                        assert(self.future() =~= pre.future().drop_first());
                    }
                } else {
                    // Instruction needs more time
                    self.cpu.in_progress = Some((instruction, ttl - 1));
                    proof {
                        assert(self.future() =~= pre.future().drop_first());
                    }
                }
            },
            // Get a new instruction
            None => {
                let popped = self.instructions.pop();
                match popped {
                    Some(ins) => {
                        proof {
                            assert(pre.rem_prog()[0] == ins);
                            assert(self.rem_prog() =~= pre.rem_prog().drop_first());
                            lemma_emission_step(pre.rem_prog(), pre.cpu.x as int);
                        }
                        let num_cycles = ins.cycles();
                        if num_cycles > 1 {
                            // The instruction requires more cycles to complete.
                            self.cpu.in_progress = Some((ins, num_cycles - 1));
                            proof {
                                assert(self.future() =~= pre.future().drop_first());
                            }
                        } else {
                            // The instruction can be executed now.
                            self.cpu.apply(ins);
                            proof {
                                assert(self.future() =~= pre.future().drop_first());
                            }
                        }
                    },
                    // No more instructions left, program complete, so stop
                    // simulating.
                    None => {
                        self.done = true;
                        proof {
                            assert(pre.rem_prog() =~= Seq::<Instruction>::empty());
                            assert(pre.future() =~= seq![pre.cpu.x as int]);
                            assert(self.future() =~= pre.future().drop_first());
                        }
                    },
                }
            },
        }
        Some(value_during_this_cycle)
    }
}

/// Run the given program on a fresh machine, yielding the register value at
/// each time unit.
pub fn q1_simulation(instructions: Vec<Instruction>) -> (r: Execution)
    requires
        states_fit(instructions@, 1),
        instructions@.len() <= usize::MAX - 1,
    ensures
        r.wf(),
        r.future() == emission(instructions@, 1),
{
    Execution::new(Cpu::default(), instructions)
}

/// Whether a cycle number's signal strength is sampled: the 20th cycle and
/// every 40 cycles after that.
pub open spec fn is_sample_cycle(t: int) -> bool {
    t >= 20 && (t - 20) % 40 == 0
}

/// The signal-strength contribution of cycle `t` observing value `x`.
pub open spec fn signal_term(t: int, x: int) -> int {
    if is_sample_cycle(t) {
        t * x
    } else {
        0
    }
}

/// The summed signal strength over the first `k` observations.
pub open spec fn signal_prefix(vals: Seq<int>, k: int) -> int
    decreases k,
{
    if k <= 0 {
        0
    } else {
        signal_prefix(vals, k - 1) + signal_term(k, vals[k - 1])
    }
}

/// The summed signal strength of a whole observation stream.
pub open spec fn signal_sum(vals: Seq<int>) -> int {
    signal_prefix(vals, vals.len() as int)
}

/// Every partial signal sum, and every sampled product, stays within the
/// machine word.
pub open spec fn signal_fits(vals: Seq<int>) -> bool {
    &&& forall|k: int|
        0 <= k <= vals.len() ==> i64::MIN <= #[trigger] signal_prefix(vals, k) <= i64::MAX
    &&& forall|k: int|
        1 <= k <= vals.len() ==> i64::MIN <= #[trigger] signal_term(k, vals[k - 1]) <= i64::MAX
}

/// Every value a run observes is a value the register actually held, so it
/// fits the machine word.
pub proof fn lemma_emission_in_range(prog: Seq<Instruction>, x0: int)
    requires
        states_fit(prog, x0),
        i64::MIN <= x0 <= i64::MAX,
    ensures
        forall|k: int|
            0 <= k < emission(prog, x0).len() ==> i64::MIN <= #[trigger] emission(prog, x0)[k]
                <= i64::MAX,
    decreases prog.len(),
{
    if prog.len() > 0 {
        let x1 = x0 + prog[0].delta();
        let rest = prog.drop_first();
        lemma_emission_in_range(rest, x1);
        lemma_emission_step(prog, x0);
        assert forall|k: int|
            0 <= k < emission(prog, x0).len() implies i64::MIN <= #[trigger] emission(prog, x0)[k]
            <= i64::MAX by {
            match prog[0] {
                Instruction::Noop => {
                    assert(emission(prog, x0) == seq![x0] + emission(rest, x0));
                    if k >= 1 {
                        assert(emission(prog, x0)[k] == emission(rest, x0)[k - 1]);
                    }
                },
                Instruction::Addx(_) => {
                    assert(emission(prog, x0) == seq![x0, x0] + emission(rest, x1));
                    if k >= 2 {
                        assert(emission(prog, x0)[k] == emission(rest, x1)[k - 2]);
                    }
                },
            }
        }
    }
}

/// The summed signal strength of a program's run: the cycle number times the
/// observed register value, over the 20th cycle and every 40 cycles after
/// that.
pub fn q1(instructions: Vec<Instruction>) -> (r: i64)
    requires
        states_fit(instructions@, 1),
        instructions@.len() <= usize::MAX - 1,
        emission(instructions@, 1).len() <= i64::MAX,
        emission(instructions@, 1).len() <= usize::MAX,
        signal_fits(emission(instructions@, 1)),
    ensures
        r == signal_sum(emission(instructions@, 1)),
{
    let ghost full = emission(instructions@, 1);
    proof {
        lemma_emission_in_range(instructions@, 1);
    }
    let mut values_over_time = q1_simulation(instructions);
    let mut sum: i64 = 0;
    let mut t: usize = 0;
    loop
        invariant
            values_over_time.wf(),
            t + values_over_time.future().len() == full.len(),
            values_over_time.future() == full.skip(t as int),
            sum == signal_prefix(full, t as int),
            full.len() <= i64::MAX,
            full.len() <= usize::MAX,
            signal_fits(full),
            forall|k: int| 0 <= k < full.len() ==> i64::MIN <= #[trigger] full[k] <= i64::MAX,
        ensures
            sum == signal_sum(full),
        decreases values_over_time.future().len(),
    {
        let ghost pre_future = values_over_time.future();
        match values_over_time.next() {
            Some(x) => {
                proof {
                    assert(pre_future[0] == full[t as int]);
                    assert(pre_future.drop_first() =~= full.skip(t + 1));
                }
                t = t + 1;
                // Consider the signal strength (the cycle number multiplied
                // by the value of the X register) during the 20th cycle and
                // every 40 cycles after that.
                if t >= 20 && (t - 20) % 40 == 0 {
                    proof {
                        assert(is_sample_cycle(t as int));
                        assert(x as int == full[t - 1]);
                        assert((t as i64) as int == t as int);
                        assert(signal_term(t as int, full[t - 1]) == t * full[t - 1]);
                        assert(i64::MIN <= signal_prefix(full, t as int) <= i64::MAX);
                        assert(i64::MIN <= signal_term(t as int, full[t - 1]) <= i64::MAX);
                        assert(signal_prefix(full, t as int) == signal_prefix(full, t - 1)
                            + signal_term(t as int, full[t - 1]));
                        assert(sum == signal_prefix(full, t - 1));
                        assert(sum + (t as int) * (x as int) == signal_prefix(full, t as int));
                    }
                    sum = sum + (t as i64) * x;
                }
            },
            None => {
                proof {
                    assert(t == full.len());
                }
                break ;
            },
        }
    }
    sum
}

/// One step of the yielded stream: the first command contributes one
/// observation per cycle of the current register, then hands over to the
/// rest of the program with its effect applied.
proof fn lemma_emission_step(prog: Seq<Instruction>, x: int)
    requires
        prog.len() > 0,
    ensures
        prog[0] is Noop ==> emission(prog, x) =~= seq![x] + emission(prog.drop_first(), x),
        prog[0] is Addx ==> emission(prog, x) =~= seq![x, x] + emission(
            prog.drop_first(),
            x + prog[0].delta(),
        ),
{
}

} // verus!
