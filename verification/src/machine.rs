use vstd::prelude::*;

use crate::lang::Instruction;
use crate::lang::TranslationError;
use crate::lang::lemma_translated_is_translation;
use crate::lang::lemma_translated_targets_ok;
use crate::lang::program_of;
use crate::lang::symbols_of;
use crate::lang::targets_ok;
use crate::lang::well_formed;
use crate::translate::parse;

verus! {

/// The number of cells on the tape.  The data pointer wraps modulo this
/// capacity instead of growing the tape or faulting at its bounds.
pub const TAPE_SIZE: usize = 30000;

/// The core execution state: the instruction pointer, the data pointer and
/// the tape.  Input and output are kept outside of it, so the same core
/// drives both buffered and interactive execution.
#[verifier::ext_equal]
pub ghost struct MachCore {
    pub ip: nat,
    pub dp: nat,
    pub tape: Seq<u8>,
}

/// A well-shaped core: the tape has its fixed capacity and the data
/// pointer lies on it.
pub open spec fn core_wf(c: MachCore) -> bool {
    &&& c.tape.len() == TAPE_SIZE
    &&& c.dp < TAPE_SIZE
}

/// The state every execution starts from: both pointers at zero, the tape
/// all zero.
pub open spec fn init_core() -> MachCore {
    MachCore { ip: 0, dp: 0, tape: Seq::new(TAPE_SIZE as nat, |i: int| 0u8) }
}

/// Execution has run past the last instruction and never resumes.
pub open spec fn core_halted(code: Seq<Instruction>, c: MachCore) -> bool {
    c.ip >= code.len()
}

/// The next instruction reads one input byte.
pub open spec fn core_reads(code: Seq<Instruction>, c: MachCore) -> bool {
    !core_halted(code, c) && code[c.ip as int] is Input
}

/// What the next instruction emits: one character for `Output`, with the
/// cell byte as its code point, and nothing otherwise.
pub open spec fn core_emits(code: Seq<Instruction>, c: MachCore) -> Seq<char> {
    if !core_halted(code, c) && code[c.ip as int] is Output {
        seq![c.tape[c.dp as int] as char]
    } else {
        Seq::empty()
    }
}

/// One cell step to the right, wrapping from the last cell to cell 0.
pub open spec fn right_of(dp: nat) -> nat {
    if dp + 1 == TAPE_SIZE {
        0
    } else {
        dp + 1
    }
}

/// One cell step to the left, wrapping from cell 0 to the last cell.
pub open spec fn left_of(dp: nat) -> nat {
    if dp == 0 {
        (TAPE_SIZE - 1) as nat
    } else {
        (dp - 1) as nat
    }
}

/// One more than `b`, wrapping 255 to 0.
pub open spec fn inc_byte(b: u8) -> u8 {
    if b == 255 {
        0
    } else {
        (b + 1) as u8
    }
}

/// One less than `b`, wrapping 0 to 255.
pub open spec fn dec_byte(b: u8) -> u8 {
    if b == 0 {
        255
    } else {
        (b - 1) as u8
    }
}

/// One step of the core under `code`, with `inb` the byte an `Input`
/// instruction stores; every other instruction ignores `inb`.  A halted
/// core stays as it is.  A taken branch lands one past the partner
/// bracket, so both branch instructions fall through to `ip + 1` and jump
/// to `target + 1`.
pub open spec fn core_step(code: Seq<Instruction>, c: MachCore, inb: u8) -> MachCore {
    if core_halted(code, c) {
        c
    } else {
        match code[c.ip as int] {
            Instruction::ShiftRight => MachCore { ip: c.ip + 1, dp: right_of(c.dp), ..c },
            Instruction::ShiftLeft => MachCore { ip: c.ip + 1, dp: left_of(c.dp), ..c },
            Instruction::Increment => MachCore {
                ip: c.ip + 1,
                tape: c.tape.update(c.dp as int, inc_byte(c.tape[c.dp as int])),
                ..c
            },
            Instruction::Decrement => MachCore {
                ip: c.ip + 1,
                tape: c.tape.update(c.dp as int, dec_byte(c.tape[c.dp as int])),
                ..c
            },
            Instruction::Output => MachCore { ip: c.ip + 1, ..c },
            Instruction::Input => MachCore {
                ip: c.ip + 1,
                tape: c.tape.update(c.dp as int, inb),
                ..c
            },
            Instruction::LoopStart(t) => MachCore {
                ip: if c.tape[c.dp as int] == 0 {
                    (t + 1) as nat
                } else {
                    c.ip + 1
                },
                ..c
            },
            Instruction::LoopEnd(t) => MachCore {
                ip: if c.tape[c.dp as int] != 0 {
                    (t + 1) as nat
                } else {
                    c.ip + 1
                },
                ..c
            },
        }
    }
}

/// What one step returns to the caller of [`Machine::step`].
#[derive(Clone, Copy, Debug, PartialEq, Eq, Structural)]
pub enum StepEffect {
    /// The machine advanced without emitting anything.
    Continue,
    /// The machine executed `Output`; the byte is the emitted character's
    /// code point.
    Emit(u8),
    /// The machine had already halted; nothing changed.
    Halted,
}

/// The effect a step from core state `c` reports.
pub open spec fn step_effect(code: Seq<Instruction>, c: MachCore) -> StepEffect {
    if core_halted(code, c) {
        StepEffect::Halted
    } else if code[c.ip as int] is Output {
        StepEffect::Emit(c.tape[c.dp as int])
    } else {
        StepEffect::Continue
    }
}

/// The state of a buffered run: the core together with how far the input
/// buffer has been consumed and everything emitted so far.
#[verifier::ext_equal]
pub ghost struct RunState {
    pub cpu: MachCore,
    pub in_pos: nat,
    pub out: Seq<char>,
}

/// The state a buffered run starts from.
pub open spec fn init_state() -> RunState {
    RunState { cpu: init_core(), in_pos: 0, out: Seq::empty() }
}

/// The byte an `Input` instruction reads at position `pos` of the input
/// buffer: the low eight bits of the character there, or zero once the
/// buffer is exhausted.
pub open spec fn input_byte(inp: Seq<char>, pos: nat) -> u8 {
    if pos < inp.len() {
        inp[pos as int] as u8
    } else {
        0
    }
}

/// One step of a buffered run: the core steps on the next input byte, the
/// input position advances when a buffered byte was consumed, and whatever
/// the step emits is appended to the output.
pub open spec fn run_step(code: Seq<Instruction>, inp: Seq<char>, st: RunState) -> RunState {
    RunState {
        cpu: core_step(code, st.cpu, input_byte(inp, st.in_pos)),
        in_pos: if core_reads(code, st.cpu) && st.in_pos < inp.len() {
            st.in_pos + 1
        } else {
            st.in_pos
        },
        out: st.out + core_emits(code, st.cpu),
    }
}

/// The state of a buffered run of `code` on input `inp` after `k` steps.
pub open spec fn state_at(code: Seq<Instruction>, inp: Seq<char>, k: nat) -> RunState
    decreases k,
{
    if k == 0 {
        init_state()
    } else {
        run_step(code, inp, state_at(code, inp, (k - 1) as nat))
    }
}

/// Once a run halts, every later state is that same state; in particular
/// its output never changes again.
pub proof fn lemma_halted_stable(code: Seq<Instruction>, inp: Seq<char>, k: nat, k2: nat)
    requires
        k <= k2,
        core_halted(code, state_at(code, inp, k).cpu),
    ensures
        state_at(code, inp, k2) == state_at(code, inp, k),
    decreases k2 - k,
{
    if k2 > k {
        lemma_halted_stable(code, inp, k, (k2 - 1) as nat);
        assert(state_at(code, inp, k2) =~= state_at(code, inp, k));
    }
}

/// Law: under a program whose jump targets all lie inside it, every
/// reachable state of a buffered run is well-shaped — the tape keeps its
/// fixed capacity, the data pointer stays on it, the instruction pointer
/// stays at most one past the last instruction, and no more input is
/// consumed than the buffer holds.
pub proof fn lemma_run_state_wf(code: Seq<Instruction>, inp: Seq<char>, k: nat)
    requires
        targets_ok(code),
    ensures
        core_wf(state_at(code, inp, k).cpu),
        state_at(code, inp, k).cpu.ip <= code.len(),
        state_at(code, inp, k).in_pos <= inp.len(),
    decreases k,
{
    if k > 0 {
        lemma_run_state_wf(code, inp, (k - 1) as nat);
        let st = state_at(code, inp, (k - 1) as nat);
        if !core_halted(code, st.cpu) {
            assert(match code[st.cpu.ip as int] {
                Instruction::LoopStart(t) => t < code.len(),
                Instruction::LoopEnd(t) => t < code.len(),
                _ => true,
            });
        }
    }
}

/// Law: a run only ever appends to its output, so the output flushed by a
/// run cut short is a prefix of the output at any later point.
pub proof fn lemma_output_monotone(code: Seq<Instruction>, inp: Seq<char>, k: nat, k2: nat)
    requires
        k <= k2,
    ensures
        state_at(code, inp, k).out.is_prefix_of(state_at(code, inp, k2).out),
    decreases k2 - k,
{
    let early = state_at(code, inp, k).out;
    if k2 > k {
        lemma_output_monotone(code, inp, k, (k2 - 1) as nat);
        let prev = state_at(code, inp, (k2 - 1) as nat);
        let cur = state_at(code, inp, k2).out;
        assert(cur == prev.out + core_emits(code, prev.cpu));
        assert(early =~= cur.subrange(0, early.len() as int));
    } else {
        assert(early.is_prefix_of(early));
    }
}

/// Law: the data pointer wraps at both tape bounds.  A `ShiftLeft` at cell
/// 0 moves the pointer to cell `TAPE_SIZE - 1`, and a `ShiftRight` at cell
/// `TAPE_SIZE - 1` moves it to cell 0.
pub proof fn lemma_pointer_wrap(code: Seq<Instruction>, c: MachCore, inb: u8)
    requires
        core_wf(c),
        !core_halted(code, c),
    ensures
        code[c.ip as int] == Instruction::ShiftLeft && c.dp == 0 ==> core_step(code, c, inb).dp
            == TAPE_SIZE - 1,
        code[c.ip as int] == Instruction::ShiftRight && c.dp == TAPE_SIZE - 1 ==> core_step(
            code,
            c,
            inb,
        ).dp == 0,
{
}

/// Law: cell arithmetic wraps at the byte bounds.  An `Increment` of a
/// cell holding 255 leaves 0 there, and a `Decrement` of a cell holding 0
/// leaves 255.
pub proof fn lemma_cell_wrap(code: Seq<Instruction>, c: MachCore, inb: u8)
    requires
        core_wf(c),
        !core_halted(code, c),
    ensures
        code[c.ip as int] == Instruction::Increment && c.tape[c.dp as int] == 255 ==> core_step(
            code,
            c,
            inb,
        ).tape[c.dp as int] == 0,
        code[c.ip as int] == Instruction::Decrement && c.tape[c.dp as int] == 0 ==> core_step(
            code,
            c,
            inb,
        ).tape[c.dp as int] == 255,
{
}

/// A translated program, run one instruction at a time.
///
/// Where [`crate::run_with_input`] owns the whole run, a `Machine` hands
/// control back after every instruction, so a front end can read live
/// input right when an `Input` instruction needs it and emit output as it
/// appears.  Call [`Machine::needs_input`] before [`Machine::step`] to
/// know whether the step consumes the byte passed to it.
pub struct Machine {
    code: Vec<Instruction>,
    ip: usize,
    dp: usize,
    tape: Vec<u8>,
}

impl Machine {
    /// The instruction sequence the machine runs.
    pub closed spec fn code_view(&self) -> Seq<Instruction> {
        self.code@
    }

    /// The machine's core execution state.
    pub closed spec fn cpu(&self) -> MachCore {
        MachCore { ip: self.ip as nat, dp: self.dp as nat, tape: self.tape@ }
    }

    /// A well-formed machine: a well-shaped core over a program whose jump
    /// targets all lie inside it.
    pub closed spec fn wf(&self) -> bool {
        &&& core_wf(self.cpu())
        &&& targets_ok(self.code@)
        &&& self.ip <= self.code@.len()
    }

    /// Translates a source text and sets up a fresh machine over it, both
    /// pointers at zero and the tape all zero.  Fails exactly on unmatched
    /// brackets, as translation does.
    pub fn from_source(source: &str) -> (r: Result<Machine, TranslationError>)
        ensures
            match r {
                Ok(m) => {
                    &&& well_formed(symbols_of(source@))
                    &&& m.wf()
                    &&& m.code_view() == program_of(source@)
                    &&& m.cpu() == init_core()
                },
                Err(e) => {
                    &&& e == TranslationError::UnmatchedBrackets
                    &&& !well_formed(symbols_of(source@))
                },
            },
    {
        let code = match parse(source) {
            Ok(code) => code,
            Err(e) => {
                return Err(e);
            },
        };
        proof {
            lemma_translated_is_translation(symbols_of(source@), code@);
            lemma_translated_targets_ok(symbols_of(source@), code@);
        }
        let mut tape: Vec<u8> = Vec::new();
        let mut i: usize = 0;
        while i < TAPE_SIZE
            invariant
                i <= TAPE_SIZE,
                tape@ =~= Seq::new(i as nat, |j: int| 0u8),
            decreases TAPE_SIZE - i,
        {
            tape.push(0);
            proof {
                assert(tape@ =~= Seq::new((i + 1) as nat, |j: int| 0u8));
            }
            i += 1;
        }
        let m = Machine { code, ip: 0, dp: 0, tape };
        proof {
            assert(m.cpu() =~= init_core());
        }
        Ok(m)
    }

    /// Whether execution has run past the last instruction.
    pub fn halted(&self) -> (r: bool)
        ensures
            r == core_halted(self.code_view(), self.cpu()),
    {
        self.ip >= self.code.len()
    }

    /// Whether the next step consumes the input byte passed to it.
    pub fn needs_input(&self) -> (r: bool)
        ensures
            r == core_reads(self.code_view(), self.cpu()),
    {
        if self.ip >= self.code.len() {
            return false;
        }
        match self.code[self.ip] {
            Instruction::Input => true,
            _ => false,
        }
    }

    /// Executes one instruction.  `inb` is the byte an `Input` instruction
    /// stores; every other instruction ignores it.  Returns what the step
    /// emitted, or that the machine had already halted.
    pub fn step(&mut self, inb: u8) -> (e: StepEffect)
        requires
            old(self).wf(),
        ensures
            final(self).wf(),
            final(self).code_view() == old(self).code_view(),
            final(self).cpu() == core_step(old(self).code_view(), old(self).cpu(), inb),
            e == step_effect(old(self).code_view(), old(self).cpu()),
    {
        let ghost pre = self.cpu();
        if self.ip >= self.code.len() {
            return StepEffect::Halted;
        }
        let ins = self.code[self.ip];
        let e = match ins {
            Instruction::ShiftRight => {
                if self.dp + 1 == TAPE_SIZE {
                    self.dp = 0;
                } else {
                    self.dp = self.dp + 1;
                }
                self.ip = self.ip + 1;
                StepEffect::Continue
            },
            Instruction::ShiftLeft => {
                if self.dp == 0 {
                    self.dp = TAPE_SIZE - 1;
                } else {
                    self.dp = self.dp - 1;
                }
                self.ip = self.ip + 1;
                StepEffect::Continue
            },
            Instruction::Increment => {
                let b = self.tape[self.dp];
                let nb = if b == 255 {
                    0
                } else {
                    b + 1
                };
                self.tape[self.dp] = nb;
                self.ip = self.ip + 1;
                StepEffect::Continue
            },
            Instruction::Decrement => {
                let b = self.tape[self.dp];
                let nb = if b == 0 {
                    255
                } else {
                    b - 1
                };
                self.tape[self.dp] = nb;
                self.ip = self.ip + 1;
                StepEffect::Continue
            },
            Instruction::Output => {
                let b = self.tape[self.dp];
                self.ip = self.ip + 1;
                StepEffect::Emit(b)
            },
            Instruction::Input => {
                self.tape[self.dp] = inb;
                self.ip = self.ip + 1;
                StepEffect::Continue
            },
            Instruction::LoopStart(t) => {
                if self.tape[self.dp] == 0 {
                    self.ip = t + 1;
                } else {
                    self.ip = self.ip + 1;
                }
                StepEffect::Continue
            },
            Instruction::LoopEnd(t) => {
                if self.tape[self.dp] != 0 {
                    self.ip = t + 1;
                } else {
                    self.ip = self.ip + 1;
                }
                StepEffect::Continue
            },
        };
        proof {
            assert(self.cpu() =~= core_step(self.code@, pre, inb));
        }
        e
    }
}

} // verus!
