use vstd::prelude::*;

use crate::lang::is_symbol;
use crate::lang::lemma_symbols_of_none;
use crate::lang::program_of;
use crate::lang::symbols_of;
use crate::lang::well_formed;
use crate::machine::Machine;
use crate::machine::RunState;
use crate::machine::StepEffect;
use crate::machine::core_halted;
use crate::machine::core_reads;
use crate::machine::core_step;
use crate::machine::input_byte;
use crate::machine::lemma_halted_stable;
use crate::machine::state_at;

verus! {

/// Relies on String::push: appends exactly one character at the end.
#[verifier::external_body]
fn push_char(s: &mut String, c: char)
    ensures
        final(s)@ == old(s)@.push(c),
{
    s.push(c);
}

/// The largest number of instructions one call of [`run_with_input`]
/// executes.  At one instruction per nanosecond a run would take five
/// centuries to use it up, so the budget never binds in practice; it
/// exists so that even a program that loops forever leaves the machine in
/// a state the contract accounts for.
pub const STEP_BUDGET: u64 = u64::MAX;

/// Translates a source text and runs it against an in-memory input
/// buffer, returning everything the program emitted.
///
/// The run follows [`state_at`] exactly: each `Input` instruction takes
/// the low eight bits of the next buffered character, or a zero byte once
/// the buffer is exhausted; each `Output` instruction appends the cell
/// byte, as a character code, to the result.  The first clause pins the
/// result completely for every program that halts within [`STEP_BUDGET`]
/// steps; a program that does not gets its output after exactly
/// [`STEP_BUDGET`] steps.
///
/// Sources whose brackets do not pair up are excluded by the caller's
/// obligation; [`Machine::from_source`] reports them instead of running.
pub fn run_with_input(source: &str, input: &str) -> (out: String)
    requires
        well_formed(symbols_of(source@)),
    ensures
        forall|k: nat|
            k <= STEP_BUDGET && core_halted(
                program_of(source@),
                #[trigger] state_at(program_of(source@), input@, k).cpu,
            ) ==> out@ == state_at(program_of(source@), input@, k).out,
        exists|k: nat|
            {
                &&& k <= STEP_BUDGET
                &&& out@ == #[trigger] state_at(program_of(source@), input@, k).out
                &&& core_halted(program_of(source@), state_at(program_of(source@), input@, k).cpu)
                    || k == STEP_BUDGET
            },
{
    let ghost code = program_of(source@);
    let ghost inp = input@;
    let mut m = match Machine::from_source(source) {
        Ok(m) => m,
        Err(_) => {
            return vstd::pervasive::unreached();
        },
    };
    let n_in = input.unicode_len();
    let mut in_pos: usize = 0;
    let mut out = String::new();
    let mut k: u64 = 0;
    while k < STEP_BUDGET
        invariant
            m.wf(),
            m.code_view() == code,
            code == program_of(source@),
            inp == input@,
            n_in == inp.len(),
            in_pos <= n_in,
            state_at(code, inp, k as nat) == (RunState {
                cpu: m.cpu(),
                in_pos: in_pos as nat,
                out: out@,
            }),
        decreases STEP_BUDGET - k,
    {
        let ghost k0 = k as nat;
        let ghost cpu0 = m.cpu();
        let ghost pos0 = in_pos as nat;
        let ghost out0 = out@;
        if m.halted() {
            proof {
                assert forall|k2: nat|
                    k2 <= STEP_BUDGET && core_halted(
                        code,
                        #[trigger] state_at(code, inp, k2).cpu,
                    ) implies out@ == state_at(code, inp, k2).out by {
                    if k2 <= k0 {
                        lemma_halted_stable(code, inp, k2, k0);
                    } else {
                        lemma_halted_stable(code, inp, k0, k2);
                    }
                }
                assert(out@ == state_at(code, inp, k0).out);
            }
            return out;
        }
        let b: u8 = if m.needs_input() {
            if in_pos < n_in {
                let ch = input.get_char(in_pos);
                in_pos = in_pos + 1;
                #[verifier::truncate] (ch as u8)
            } else {
                0
            }
        } else {
            0
        };
        proof {
            if !core_reads(code, cpu0) {
                assert(core_step(code, cpu0, b) =~= core_step(code, cpu0, input_byte(inp, pos0)));
            } else {
                assert(b == input_byte(inp, pos0));
            }
        }
        let e = m.step(b);
        match e {
            StepEffect::Emit(ob) => {
                push_char(&mut out, ob as char);
            },
            _ => {},
        }
        k = k + 1;
        proof {
            assert(state_at(code, inp, k as nat) =~= (RunState {
                cpu: m.cpu(),
                in_pos: in_pos as nat,
                out: out@,
            }));
        }
    }
    proof {
        assert forall|k2: nat|
            k2 <= STEP_BUDGET && core_halted(
                code,
                #[trigger] state_at(code, inp, k2).cpu,
            ) implies out@ == state_at(code, inp, k2).out by {
            lemma_halted_stable(code, inp, k2, STEP_BUDGET as nat);
        }
        assert(out@ == state_at(code, inp, STEP_BUDGET as nat).out);
    }
    out
}

/// Law: a source text with none of the eight recognized symbols translates
/// to an empty instruction sequence, so a run of it halts at once and
/// emits nothing, whatever the input and however many steps are taken.
pub proof fn lemma_no_symbols_runs_silent(source: Seq<char>, inp: Seq<char>, k: nat)
    requires
        forall|i: int| 0 <= i < source.len() ==> !is_symbol(#[trigger] source[i]),
    ensures
        state_at(program_of(source), inp, k).out == Seq::<char>::empty(),
        core_halted(program_of(source), state_at(program_of(source), inp, k).cpu),
{
    lemma_symbols_of_none(source);
    let code = program_of(source);
    assert(code.len() == 0);
    assert(core_halted(code, state_at(code, inp, 0).cpu));
    lemma_halted_stable(code, inp, 0, k);
    assert(state_at(code, inp, k).out =~= Seq::<char>::empty());
}

} // verus!
