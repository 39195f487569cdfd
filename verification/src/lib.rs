//! An interpreter for a minimal eight-symbol instruction language that runs
//! over a fixed-size byte tape.
//!
//! The library works in two phases.  Translation ([`parse`]) filters the
//! source text down to the eight recognized symbols and turns them into an
//! instruction sequence whose loop instructions carry precomputed jump
//! targets; unmatched brackets are rejected.  Execution walks that sequence
//! with a data pointer into a 30000-cell byte tape, wrapping the pointer at
//! both tape bounds and wrapping cell arithmetic at the byte bounds.
//!
//! [`run_with_input`] runs a program against an in-memory input buffer and
//! accumulates the output; an exhausted buffer supplies zero bytes.
//! [`Machine`] exposes the same execution one instruction at a time, so a
//! front end can feed live input and emit output as it appears.

mod lang;
mod machine;
mod run;
mod translate;

pub use lang::Instruction;
pub use lang::TranslationError;
pub use lang::bracket_delta;
pub use lang::bracket_depth;
pub use lang::close_for;
pub use lang::instr_at;
pub use lang::instr_for;
pub use lang::is_match;
pub use lang::is_symbol;
pub use lang::lemma_match_unique_close;
pub use lang::lemma_match_unique_open;
pub use lang::lemma_symbols_are_symbols;
pub use lang::lemma_symbols_of_none;
pub use lang::lemma_symbols_of_take_step;
pub use lang::lemma_translated_is_translation;
pub use lang::lemma_translated_targets_ok;
pub use lang::lemma_translation_deterministic;
pub use lang::open_for;
pub use lang::program_of;
pub use lang::symbols_of;
pub use lang::targets_ok;
pub use lang::translated;
pub use lang::translation;
pub use lang::well_formed;
pub use machine::MachCore;
pub use machine::Machine;
pub use machine::RunState;
pub use machine::StepEffect;
pub use machine::TAPE_SIZE;
pub use machine::core_emits;
pub use machine::core_halted;
pub use machine::core_reads;
pub use machine::core_step;
pub use machine::core_wf;
pub use machine::dec_byte;
pub use machine::inc_byte;
pub use machine::init_core;
pub use machine::init_state;
pub use machine::input_byte;
pub use machine::left_of;
pub use machine::lemma_cell_wrap;
pub use machine::lemma_halted_stable;
pub use machine::lemma_output_monotone;
pub use machine::lemma_pointer_wrap;
pub use machine::lemma_run_state_wf;
pub use machine::right_of;
pub use machine::run_step;
pub use machine::state_at;
pub use machine::step_effect;
pub use run::STEP_BUDGET;
pub use run::lemma_no_symbols_runs_silent;
pub use run::run_with_input;
pub use translate::parse;
