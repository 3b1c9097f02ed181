use vstd::arithmetic::div_mod::{
    lemma_add_mod_noop, lemma_sub_mod_noop, lemma_sub_mod_noop_right,
};
use vstd::prelude::*;

use crate::parser::{Cmd, Op};

verus! {

/// Number of cells on the tape.
pub const MEM_SIZE: usize = 30000;

/// The machine as the semantics sees it: the tape, the memory pointer and the
/// instruction pointer.
pub ghost struct State {
    pub tape: Seq<u8>,
    pub mp: nat,
    pub ip: nat,
}

impl State {
    /// The tape has its fixed length and the memory pointer is on it.
    pub open spec fn wf(self) -> bool {
        self.tape.len() == MEM_SIZE && self.mp < MEM_SIZE
    }

    /// The cell under the memory pointer.
    pub open spec fn cell(self) -> u8 {
        self.tape[self.mp as int]
    }
}

/// The state a run starts in: every cell zero, both pointers at 0.
pub open spec fn initial_state() -> State {
    State { tape: Seq::new(MEM_SIZE as nat, |i: int| 0u8), mp: 0, ip: 0 }
}

/// What one step did, as far as the world outside the machine is concerned.
#[derive(PartialEq, Eq, Structural, Debug, Clone, Copy)]
pub enum Event {
    /// The instruction pointer is past the last instruction; nothing was done.
    Halted,
    /// An instruction ran with no output.
    Ran,
    /// An output instruction ran: the byte is to be written this many times.
    Output(u8, usize),
    /// An output instruction met a cell that is not ASCII; nothing was done.
    InvalidOutputByte(u8),
}

/// A cell after adding `n`, modulo 256.
pub open spec fn add_cell(c: u8, n: usize) -> u8 {
    ((c + n) % 256) as u8
}

/// A cell after subtracting `n`, modulo 256.
pub open spec fn sub_cell(c: u8, n: usize) -> u8 {
    ((c - n) % 256) as u8
}

/// The memory pointer after `n` moves right, wrapping past the last cell to 0.
pub open spec fn move_right(p: nat, n: usize) -> nat {
    ((p + n) % (MEM_SIZE as int)) as nat
}

/// The memory pointer after `n` moves left, wrapping below 0 to the last cell.
pub open spec fn move_left(p: nat, n: usize) -> nat {
    ((p - n) % (MEM_SIZE as int)) as nat
}

/// A byte that may be written out: one in the ASCII range.
pub open spec fn is_ascii(b: u8) -> bool {
    b < 128
}

/// The state with the current cell replaced and the instruction pointer advanced.
pub open spec fn store_and_advance(s: State, v: u8) -> State {
    State { tape: s.tape.update(s.mp as int, v), mp: s.mp, ip: s.ip + 1 }
}

/// One step of the machine on `cmds`. `input` is the last byte read for an input
/// instruction, or `None` where the read came up short; other instructions ignore it.
pub open spec fn step_spec(cmds: Seq<Cmd>, s: State, input: Option<u8>) -> (State, Event) {
    if s.ip >= cmds.len() {
        (s, Event::Halted)
    } else {
        let c = cmds[s.ip as int];
        let cell = s.cell();
        let next = State { tape: s.tape, mp: s.mp, ip: s.ip + 1 };
        match c.operator {
            Op::Add => (store_and_advance(s, add_cell(cell, c.operand)), Event::Ran),
            Op::Sub => (store_and_advance(s, sub_cell(cell, c.operand)), Event::Ran),
            Op::Left => (State { tape: s.tape, mp: move_left(s.mp, c.operand), ip: s.ip + 1 }, Event::Ran),
            Op::Right => (State { tape: s.tape, mp: move_right(s.mp, c.operand), ip: s.ip + 1 }, Event::Ran),
            Op::Out => if is_ascii(cell) {
                (next, Event::Output(cell, c.operand))
            } else {
                (s, Event::InvalidOutputByte(cell))
            },
            Op::In => (store_and_advance(s, if input is Some { input.unwrap() } else { 0u8 }), Event::Ran),
            Op::JmpZero => if cell == 0 {
                (State { tape: s.tape, mp: s.mp, ip: c.operand as nat }, Event::Ran)
            } else {
                (next, Event::Ran)
            },
            Op::JmpNonZero => if cell != 0 {
                (State { tape: s.tape, mp: s.mp, ip: c.operand as nat }, Event::Ran)
            } else {
                (next, Event::Ran)
            },
        }
    }
}

/// How many bytes the next step reads, where it is an input instruction.
pub open spec fn wanted_spec(cmds: Seq<Cmd>, s: State) -> Option<usize> {
    if s.ip < cmds.len() && cmds[s.ip as int].operator == Op::In {
        Some(cmds[s.ip as int].operand)
    } else {
        None
    }
}

/// How a bounded run ended.
#[derive(PartialEq, Eq, Structural, Debug, Clone, Copy)]
pub enum Status {
    /// The instruction pointer ran past the last instruction.
    Finished,
    /// An output instruction met this non-ASCII byte; the run stopped there.
    InvalidOutputByte(u8),
    /// The step budget ran out first.
    OutOfFuel,
}

/// The last of the first `n` bytes of `input`, or `None` where fewer than `n`
/// (or no) bytes are there.
pub open spec fn read_last(input: Seq<u8>, n: usize) -> Option<u8> {
    if 0 < n && n <= input.len() {
        Some(input[n - 1])
    } else {
        None
    }
}

/// What is left of `input` after a read of `n` bytes; a short read takes all.
pub open spec fn rest_after(input: Seq<u8>, n: usize) -> Seq<u8> {
    if n <= input.len() {
        input.skip(n as int)
    } else {
        seq![]
    }
}

/// `n` copies of `b`.
pub open spec fn repeat(b: u8, n: nat) -> Seq<u8> {
    Seq::new(n, |i: int| b)
}

/// At most `fuel` steps of the machine on `cmds` from `s`, reading from `input`:
/// the state it stops in, the bytes written, and why it stopped.
pub open spec fn run_spec(cmds: Seq<Cmd>, s: State, input: Seq<u8>, fuel: nat) -> (State, Seq<u8>, Status)
    decreases fuel,
{
    if fuel == 0 {
        (s, seq![], Status::OutOfFuel)
    } else {
        let w = wanted_spec(cmds, s);
        let byte = if w is Some { read_last(input, w.unwrap()) } else { None };
        let rest = if w is Some { rest_after(input, w.unwrap()) } else { input };
        let st = step_spec(cmds, s, byte);
        match st.1 {
            Event::Halted => (s, seq![], Status::Finished),
            Event::InvalidOutputByte(b) => (s, seq![], Status::InvalidOutputByte(b)),
            Event::Output(b, n) => {
                let r = run_spec(cmds, st.0, rest, (fuel - 1) as nat);
                (r.0, repeat(b, n as nat) + r.1, r.2)
            },
            Event::Ran => run_spec(cmds, st.0, rest, (fuel - 1) as nat),
        }
    }
}

/// `n` increments followed by one decrement leave the cell at `c + n - 1`
/// modulo 256, and `n` decrements followed by one increment leave it at
/// `c - n + 1` modulo 256, wrapping both ways.
pub proof fn lemma_increments_then_decrement(cmds: Seq<Cmd>, s: State, n: usize)
    requires
        s.wf(),
        s.ip + 1 < cmds.len(),
    ensures
        cmds[s.ip as int] == (Cmd { operator: Op::Add, operand: n })
            && cmds[s.ip + 1int] == (Cmd { operator: Op::Sub, operand: 1 }) ==> step_spec(
            cmds,
            step_spec(cmds, s, None).0,
            None,
        ).0.cell() == (s.cell() + n - 1) % 256,
        cmds[s.ip as int] == (Cmd { operator: Op::Sub, operand: n })
            && cmds[s.ip + 1int] == (Cmd { operator: Op::Add, operand: 1 }) ==> step_spec(
            cmds,
            step_spec(cmds, s, None).0,
            None,
        ).0.cell() == (s.cell() - n + 1) % 256,
{
    let c = s.cell() as int;
    lemma_sub_mod_noop(c + n, 1, 256);
    lemma_add_mod_noop(c - n, 1, 256);
}

/// Moving right `n` cells and then left `n` cells comes back to the same cell,
/// whatever `n`, and leaves the tape as it was.
pub proof fn lemma_right_then_left(cmds: Seq<Cmd>, s: State, n: usize)
    requires
        s.wf(),
        s.ip + 1 < cmds.len(),
        cmds[s.ip as int] == (Cmd { operator: Op::Right, operand: n }),
        cmds[s.ip + 1int] == (Cmd { operator: Op::Left, operand: n }),
    ensures
        step_spec(cmds, step_spec(cmds, s, None).0, None).0 == (State { tape: s.tape, mp: s.mp, ip: s.ip + 2 }),
{
    let m = MEM_SIZE as int;
    let x = (s.mp + n) % m;
    lemma_sub_mod_noop_right(x, n as int, m);
    lemma_sub_mod_noop(s.mp + n, n as int, m);
    assert((s.mp as int) % m == s.mp);
}

/// The program `[-]`: a loop that decrements the current cell.
pub open spec fn clear_loop() -> Seq<Cmd> {
    seq![
        Cmd { operator: Op::JmpZero, operand: 3 },
        Cmd { operator: Op::Sub, operand: 1 },
        Cmd { operator: Op::JmpNonZero, operand: 1 },
    ]
}

proof fn lemma_clear_loop_body(s: State, input: Seq<u8>)
    requires
        s.wf(),
        s.ip == 1,
        s.cell() != 0,
    ensures
        run_spec(clear_loop(), s, input, (2 * s.cell() + 1) as nat) == (
        State { tape: s.tape.update(s.mp as int, 0), mp: s.mp, ip: 3 },
        Seq::<u8>::empty(),
        Status::Finished,
        ),
    decreases s.cell(),
{
    let cmds = clear_loop();
    let c = s.cell();
    let f = (2 * c + 1) as nat;
    let s1 = step_spec(cmds, s, None).0;
    assert(s1.cell() == c - 1);
    let s2 = step_spec(cmds, s1, None).0;
    assert(run_spec(cmds, s, input, f) == run_spec(cmds, s1, input, (f - 1) as nat));
    assert(run_spec(cmds, s1, input, (f - 1) as nat) == run_spec(cmds, s2, input, (f - 2) as nat));
    if c == 1 {
        assert(s2 == State { tape: s.tape.update(s.mp as int, 0), mp: s.mp, ip: 3 });
        assert(run_spec(cmds, s2, input, 0).1 =~= Seq::<u8>::empty());
    } else {
        assert(s2 == State { tape: s1.tape, mp: s.mp, ip: 1 });
        lemma_clear_loop_body(s2, input);
        assert(s2.tape.update(s.mp as int, 0) =~= s.tape.update(s.mp as int, 0));
    }
}

/// `[-]` decrements a non-zero cell down to exactly zero and then leaves the
/// loop, in `2c + 2` steps for a starting value `c`; on a zero cell it skips the
/// body at once and changes nothing. No byte is read or written.
pub proof fn lemma_clear_loop(s: State, input: Seq<u8>)
    requires
        s.wf(),
        s.ip == 0,
    ensures
        run_spec(clear_loop(), s, input, (2 * s.cell() + 2) as nat) == (
        State { tape: s.tape.update(s.mp as int, 0), mp: s.mp, ip: 3 },
        Seq::<u8>::empty(),
        Status::Finished,
        ),
        s.cell() == 0 ==> s.tape.update(s.mp as int, 0) == s.tape,
{
    let cmds = clear_loop();
    let c = s.cell();
    let f = (2 * c + 2) as nat;
    let s1 = step_spec(cmds, s, None).0;
    assert(run_spec(cmds, s, input, f) == run_spec(cmds, s1, input, (f - 1) as nat));
    if c == 0 {
        assert(s.tape.update(s.mp as int, 0) =~= s.tape);
        assert(run_spec(cmds, s1, input, 1).1 =~= Seq::<u8>::empty());
    } else {
        assert(s1 == State { tape: s.tape, mp: s.mp, ip: 1 });
        lemma_clear_loop_body(s1, input);
    }
}

/// The program `,` then `.`, where the read takes `k` bytes.
pub open spec fn read_then_write(k: usize) -> Seq<Cmd> {
    seq![Cmd { operator: Op::In, operand: k }, Cmd { operator: Op::Out, operand: 1 }]
}

/// Reading `k` bytes in one input instruction and then writing the cell writes
/// the `k`-th byte alone: the `k - 1` before it are dropped. This holds where that
/// byte is ASCII; any other byte stops the run at the write.
pub proof fn lemma_read_keeps_last(s: State, input: Seq<u8>, k: usize)
    requires
        s.wf(),
        s.ip == 0,
        1 <= k <= input.len(),
        is_ascii(input[k - 1]),
    ensures
        run_spec(read_then_write(k), s, input, 3).1 == seq![input[k - 1]],
        run_spec(read_then_write(k), s, input, 3).2 == Status::Finished,
{
    let cmds = read_then_write(k);
    let s1 = step_spec(cmds, s, read_last(input, k)).0;
    assert(s1.cell() == input[k - 1]);
    let s2 = step_spec(cmds, s1, None).0;
    let rest = rest_after(input, k);
    assert(wanted_spec(cmds, s) == Some(k));
    assert(run_spec(cmds, s, input, 3) == run_spec(cmds, s1, rest, 2));
    assert(step_spec(cmds, s1, None).1 == Event::Output(input[k - 1], 1));
    assert(run_spec(cmds, s2, rest, 1).1 =~= Seq::<u8>::empty());
    assert(run_spec(cmds, s1, rest, 2).1 == repeat(input[k - 1], 1) + run_spec(cmds, s2, rest, 1).1);
    assert(repeat(input[k - 1], 1) + Seq::<u8>::empty() =~= seq![input[k - 1]]);
}

/// The interpreter: a tape of `MEM_SIZE` cells and the two cursors.
pub struct Interpreter {
    mem: Vec<u8>,
    mem_ptr: usize,
    instr_ptr: usize,
}

impl View for Interpreter {
    type V = State;

    closed spec fn view(&self) -> State {
        State { tape: self.mem@, mp: self.mem_ptr as nat, ip: self.instr_ptr as nat }
    }
}

impl Interpreter {
    /// The tape has `MEM_SIZE` cells and the memory pointer is on it.
    pub open spec fn wf(&self) -> bool {
        self@.wf()
    }

    /// A fresh machine: a zeroed tape, both pointers at 0.
    pub fn new() -> (r: Self)
        ensures
            r.wf(),
            r@ == initial_state(),
    {
        let mut mem: Vec<u8> = Vec::new();
        let mut i: usize = 0;
        while i < MEM_SIZE
            invariant
                i <= MEM_SIZE,
                mem@ == Seq::new(i as nat, |k: int| 0u8),
            decreases MEM_SIZE - i,
        {
            mem.push(0u8);
            i += 1;
            assert(mem@ =~= Seq::new(i as nat, |k: int| 0u8));
        }
        let r = Interpreter { mem, mem_ptr: 0, instr_ptr: 0 };
        assert(r@.tape =~= initial_state().tape);
        r
    }

    /// The value of the cell under the memory pointer.
    pub fn current_cell(&self) -> (r: u8)
        requires
            self.wf(),
        ensures
            r == self@.cell(),
    {
        self.mem[self.mem_ptr]
    }

    /// How many bytes the next step reads: `Some(n)` where the next instruction
    /// is an input instruction with count `n`.
    pub fn input_wanted(&self, cmds: &Vec<Cmd>) -> (r: Option<usize>)
        ensures
            r == wanted_spec(cmds@, self@),
    {
        if self.instr_ptr < cmds.len() && cmds[self.instr_ptr].operator == Op::In {
            Some(cmds[self.instr_ptr].operand)
        } else {
            None
        }
    }

    /// Runs the instruction at the instruction pointer. `input` is the last byte
    /// of the read that an input instruction asked for, `None` if it came up short.
    pub fn step(&mut self, cmds: &Vec<Cmd>, input: Option<u8>) -> (e: Event)
        requires
            old(self).wf(),
        ensures
            final(self).wf(),
            (final(self)@, e) == step_spec(cmds@, old(self)@, input),
    {
        if self.instr_ptr >= cmds.len() {
            return Event::Halted;
        }
        let cmd = cmds[self.instr_ptr];
        let cell = self.mem[self.mem_ptr];
        match cmd.operator {
            Op::Add => {
                let v = ((cell as usize + cmd.operand % 256) % 256) as u8;
                assert(v == add_cell(cell, cmd.operand)) by (nonlinear_arith)
                    requires v == ((cell as usize + cmd.operand % 256) % 256) as u8;
                self.mem.set(self.mem_ptr, v);
                self.instr_ptr += 1;
                Event::Ran
            },
            Op::Sub => {
                let v = ((cell as usize + 256 - cmd.operand % 256) % 256) as u8;
                assert(v == sub_cell(cell, cmd.operand)) by (nonlinear_arith)
                    requires v == ((cell as usize + 256 - cmd.operand % 256) % 256) as u8;
                self.mem.set(self.mem_ptr, v);
                self.instr_ptr += 1;
                Event::Ran
            },
            Op::Left => {
                let p = (self.mem_ptr + MEM_SIZE - cmd.operand % MEM_SIZE) % MEM_SIZE;
                assert(p == move_left(self.mem_ptr as nat, cmd.operand)) by (nonlinear_arith)
                    requires
                        p as int == (self.mem_ptr as int + 30000 - (cmd.operand as int) % 30000) % 30000,
                        self.mem_ptr < MEM_SIZE;
                self.mem_ptr = p;
                self.instr_ptr += 1;
                Event::Ran
            },
            Op::Right => {
                let p = (self.mem_ptr + cmd.operand % MEM_SIZE) % MEM_SIZE;
                assert(p == move_right(self.mem_ptr as nat, cmd.operand)) by (nonlinear_arith)
                    requires
                        p as int == (self.mem_ptr as int + (cmd.operand as int) % 30000) % 30000,
                        self.mem_ptr < MEM_SIZE;
                self.mem_ptr = p;
                self.instr_ptr += 1;
                Event::Ran
            },
            Op::Out => {
                if cell < 128 {
                    self.instr_ptr += 1;
                    Event::Output(cell, cmd.operand)
                } else {
                    Event::InvalidOutputByte(cell)
                }
            },
            Op::In => {
                let v = match input {
                    Some(b) => b,
                    None => 0u8,
                };
                self.mem.set(self.mem_ptr, v);
                self.instr_ptr += 1;
                Event::Ran
            },
            Op::JmpZero => {
                if cell == 0 {
                    self.instr_ptr = cmd.operand;
                } else {
                    self.instr_ptr += 1;
                }
                Event::Ran
            },
            Op::JmpNonZero => {
                if cell != 0 {
                    self.instr_ptr = cmd.operand;
                } else {
                    self.instr_ptr += 1;
                }
                Event::Ran
            },
        }
    }
    /// Runs `cmds` for at most `fuel` steps with `input` as the whole input
    /// stream, and returns the bytes written and how the run ended.
    pub fn run_on_input(&mut self, cmds: &Vec<Cmd>, input: &Vec<u8>, fuel: usize) -> (r: (Vec<u8>, Status))
        requires
            old(self).wf(),
        ensures
            final(self).wf(),
            final(self)@ == run_spec(cmds@, old(self)@, input@, fuel as nat).0,
            r.0@ == run_spec(cmds@, old(self)@, input@, fuel as nat).1,
            r.1 == run_spec(cmds@, old(self)@, input@, fuel as nat).2,
    {
        let ghost whole = run_spec(cmds@, self@, input@, fuel as nat);
        let mut out: Vec<u8> = Vec::new();
        let mut pos: usize = 0;
        let mut f: usize = fuel;
        assert(input@.skip(0) =~= input@);
        while f > 0
            invariant
                self.wf(),
                whole == run_spec(cmds@, old(self)@, input@, fuel as nat),
                pos <= input.len(),
                run_spec(cmds@, self@, input@.skip(pos as int), f as nat).0 == whole.0,
                run_spec(cmds@, self@, input@.skip(pos as int), f as nat).2 == whole.2,
                out@ + run_spec(cmds@, self@, input@.skip(pos as int), f as nat).1 == whole.1,
            decreases f,
        {
            let ghost before = self@;
            let ghost rem = input@.skip(pos as int);
            let byte = match self.input_wanted(cmds) {
                Some(n) => {
                    if n <= input.len() - pos {
                        pos += n;
                        assert(input@.skip(pos as int) =~= rest_after(rem, n));
                        if n > 0 {
                            Some(input[pos - 1])
                        } else {
                            None
                        }
                    } else {
                        pos = input.len();
                        assert(input@.skip(pos as int) =~= rest_after(rem, n));
                        None
                    }
                },
                None => None,
            };
            assert(byte == (if wanted_spec(cmds@, before) is Some {
                read_last(rem, wanted_spec(cmds@, before).unwrap())
            } else {
                None
            }));
            assert(input@.skip(pos as int) == (if wanted_spec(cmds@, before) is Some {
                rest_after(rem, wanted_spec(cmds@, before).unwrap())
            } else {
                rem
            }));
            let e = self.step(cmds, byte);
            match e {
                Event::Halted => {
                    assert(out@ + seq![] =~= out@);
                    return (out, Status::Finished);
                },
                Event::InvalidOutputByte(b) => {
                    assert(out@ + seq![] =~= out@);
                    return (out, Status::InvalidOutputByte(b));
                },
                Event::Output(b, n) => {
                    let ghost out0 = out@;
                    let mut k: usize = 0;
                    while k < n
                        invariant
                            k <= n,
                            out@ == out0 + repeat(b, k as nat),
                        decreases n - k,
                    {
                        out.push(b);
                        k += 1;
                        assert(out@ =~= out0 + repeat(b, k as nat));
                    }
                    let ghost tail = run_spec(cmds@, self@, input@.skip(pos as int), (f - 1) as nat).1;
                    assert(out0 + (repeat(b, n as nat) + tail) =~= out@ + tail);
                },
                Event::Ran => {},
            }
            f -= 1;
        }
        assert(out@ + seq![] =~= out@);
        (out, Status::OutOfFuel)
    }
}

} // verus!
