use vstd::prelude::*;

use crate::lang::Instruction;
use crate::lang::TranslationError;
use crate::lang::bracket_delta;
use crate::lang::bracket_depth;
use crate::lang::instr_at;
use crate::lang::instr_for;
use crate::lang::is_match;
use crate::lang::is_symbol;
use crate::lang::lemma_symbols_are_symbols;
use crate::lang::lemma_symbols_of_take_step;
use crate::lang::symbols_of;
use crate::lang::translated;
use crate::lang::well_formed;

verus! {

/// Position `p` of `s` is the index of a bracket still on the stack `st`
/// of pending open brackets.
spec fn on_stack(st: Seq<usize>, p: int) -> bool {
    exists|k: int| 0 <= k < st.len() && st[k] as int == p
}

/// Entry `k` of the pending-bracket stack is sound after the first `j`
/// characters of `s`: it points at an open bracket seen at depth `k`, and
/// the depth has stayed strictly above `k` ever since, so the bracket is
/// still open.
spec fn stack_entry_ok(s: Seq<char>, st: Seq<usize>, j: int, k: int) -> bool {
    let o = st[k] as int;
    &&& 0 <= o < j
    &&& s[o] == '['
    &&& bracket_depth(s, o) == k
    &&& forall|q: int| o < q <= j ==> bracket_depth(s, q) > k
}

/// Entry `p` of the instruction sequence under construction is sound: a
/// bracket not still pending carries its resolved partner index, and every
/// other symbol carries its plain instruction.
spec fn code_entry_ok(s: Seq<char>, st: Seq<usize>, p: int, ins: Instruction) -> bool {
    if s[p] == '[' {
        on_stack(st, p) || (ins matches Instruction::LoopStart(q) && is_match(s, p, q as int))
    } else if s[p] == ']' {
        ins matches Instruction::LoopEnd(q) && is_match(s, q as int, p)
    } else {
        ins == instr_at(s, p)
    }
}

/// Translates a source text into an instruction sequence.
///
/// Characters outside the recognized symbol set are discarded first, so
/// bracket matching and jump indices work over the symbol stream alone.
/// A single left-to-right pass keeps a stack of pending open brackets: an
/// `[` pushes its index, and an `]` pops its partner and resolves both
/// jump targets.  Translation fails, with no partial result, exactly when
/// the brackets of the symbol stream do not pair up.
pub fn parse(source: &str) -> (r: Result<Vec<Instruction>, TranslationError>)
    ensures
        match r {
            Ok(code) => well_formed(symbols_of(source@)) && translated(
                symbols_of(source@),
                code@,
            ),
            Err(e) => e == TranslationError::UnmatchedBrackets && !well_formed(
                symbols_of(source@),
            ),
        },
{
    let n = source.unicode_len();
    let mut syms: Vec<char> = Vec::new();
    let mut i: usize = 0;
    while i < n
        invariant
            i <= n,
            n == source@.len(),
            syms@ == symbols_of(source@.take(i as int)),
        decreases n - i,
    {
        let c = source.get_char(i);
        proof {
            lemma_symbols_of_take_step(source@, i as int);
        }
        if c == '>' || c == '<' || c == '+' || c == '-' || c == '.' || c == ',' || c == '['
            || c == ']' {
            syms.push(c);
        }
        i += 1;
    }
    proof {
        assert(source@.take(n as int) =~= source@);
    }
    let ghost s = syms@;
    proof {
        lemma_symbols_are_symbols(source@);
    }
    let m = syms.len();
    let mut code: Vec<Instruction> = Vec::new();
    let mut stack: Vec<usize> = Vec::new();
    let mut j: usize = 0;
    while j < m
        invariant
            s == symbols_of(source@),
            syms@ == s,
            m == s.len(),
            j <= m,
            forall|p: int| 0 <= p < m ==> is_symbol(#[trigger] s[p]),
            code@.len() == j as int,
            stack@.len() == bracket_depth(s, j as int),
            forall|p: int| 0 <= p <= j as int ==> bracket_depth(s, p) >= 0,
            forall|k: int| 0 <= k < stack@.len() ==> stack_entry_ok(s, stack@, j as int, k),
            forall|p: int| 0 <= p < j as int ==> code_entry_ok(s, stack@, p, #[trigger] code@[p]),
        decreases m - j,
    {
        let ghost jj = j as int;
        let ghost st0 = stack@;
        let ghost code0 = code@;
        proof {
            assert(bracket_depth(s, jj + 1) == bracket_depth(s, jj) + bracket_delta(s[jj]));
        }
        let c = syms[j];
        if c == '[' {
            stack.push(j);
            code.push(Instruction::LoopStart(0));
            proof {
                assert forall|k: int| #![trigger stack@[k]] 0 <= k < stack@.len() implies stack_entry_ok(
                    s,
                    stack@,
                    jj + 1,
                    k,
                ) by {
                    if k < st0.len() {
                        assert(stack_entry_ok(s, st0, jj, k));
                        assert(stack@[k] == st0[k]);
                        assert(bracket_depth(s, jj) > k);
                        assert forall|q: int| (st0[k] as int) < q && q <= jj + 1 implies bracket_depth(
                            s,
                            q,
                        ) > k by {
                            if q == jj + 1 {
                                assert(bracket_depth(s, jj + 1) == bracket_depth(s, jj) + 1);
                            }
                        }
                    } else {
                        assert(k == st0.len());
                        assert(stack@[k] as int == jj);
                        assert(bracket_depth(s, jj) == k);
                    }
                }
                assert forall|p: int| 0 <= p < jj + 1 implies code_entry_ok(
                    s,
                    stack@,
                    p,
                    #[trigger] code@[p],
                ) by {
                    if p == jj {
                        assert(stack@[st0.len() as int] as int == p);
                        assert(on_stack(stack@, p));
                    } else {
                        assert(code_entry_ok(s, st0, p, code0[p]));
                        assert(code@[p] == code0[p]);
                        if s[p] == '[' && on_stack(st0, p) {
                            let k = choose|k: int| 0 <= k < st0.len() && st0[k] as int == p;
                            assert(stack@[k] as int == p);
                            assert(on_stack(stack@, p));
                        }
                    }
                }
            }
        } else if c == ']' {
            if stack.len() == 0 {
                proof {
                    assert(bracket_depth(s, jj + 1) == -1);
                    assert(!well_formed(s));
                }
                return Err(TranslationError::UnmatchedBrackets);
            }
            let o = stack.pop().unwrap();
            proof {
                assert(stack_entry_ok(s, st0, jj, st0.len() - 1));
                assert(o == st0[st0.len() - 1]);
            }
            code[o] = Instruction::LoopStart(j);
            code.push(Instruction::LoopEnd(o));
            proof {
                let oo = o as int;
                assert(bracket_depth(s, jj + 1) == bracket_depth(s, jj) - 1);
                assert(is_match(s, oo, jj));
                assert(stack@ =~= st0.drop_last());
                assert forall|k: int| #![trigger stack@[k]] 0 <= k < stack@.len() implies stack_entry_ok(
                    s,
                    stack@,
                    jj + 1,
                    k,
                ) by {
                    assert(stack_entry_ok(s, st0, jj, k));
                    assert(stack@[k] == st0[k]);
                    assert forall|q: int| (st0[k] as int) < q && q <= jj + 1 implies bracket_depth(
                        s,
                        q,
                    ) > k by {
                        if q == jj + 1 {
                            assert(bracket_depth(s, jj + 1) == st0.len() - 1 > k);
                        }
                    }
                }
                assert forall|p: int| 0 <= p < jj + 1 implies code_entry_ok(
                    s,
                    stack@,
                    p,
                    #[trigger] code@[p],
                ) by {
                    if p == jj {
                        assert(code@[p] == Instruction::LoopEnd(o));
                    } else if p == oo {
                        assert(code@[p] == Instruction::LoopStart(j));
                    } else {
                        assert(code_entry_ok(s, st0, p, code0[p]));
                        assert(code@[p] == code0[p]);
                        if s[p] == '[' && on_stack(st0, p) {
                            let k = choose|k: int| 0 <= k < st0.len() && st0[k] as int == p;
                            assert(st0[st0.len() - 1] as int == oo);
                            assert(k < st0.len() - 1);
                            assert(stack@[k] as int == p);
                            assert(on_stack(stack@, p));
                        }
                    }
                }
            }
        } else {
            let ins = if c == '>' {
                Instruction::ShiftRight
            } else if c == '<' {
                Instruction::ShiftLeft
            } else if c == '+' {
                Instruction::Increment
            } else if c == '-' {
                Instruction::Decrement
            } else if c == '.' {
                Instruction::Output
            } else {
                proof {
                    assert(is_symbol(s[jj]));
                }
                Instruction::Input
            };
            code.push(ins);
            proof {
                assert(bracket_delta(s[jj]) == 0);
                assert forall|k: int| #![trigger stack@[k]] 0 <= k < stack@.len() implies stack_entry_ok(
                    s,
                    stack@,
                    jj + 1,
                    k,
                ) by {
                    assert(stack_entry_ok(s, st0, jj, k));
                    assert(bracket_depth(s, jj) > k);
                    assert forall|q: int| (st0[k] as int) < q && q <= jj + 1 implies bracket_depth(
                        s,
                        q,
                    ) > k by {
                        if q == jj + 1 {
                            assert(bracket_depth(s, jj + 1) == bracket_depth(s, jj));
                        }
                    }
                }
                assert forall|p: int| 0 <= p < jj + 1 implies code_entry_ok(
                    s,
                    stack@,
                    p,
                    #[trigger] code@[p],
                ) by {
                    if p == jj {
                        assert(code@[p] == instr_at(s, p));
                    } else {
                        assert(code_entry_ok(s, st0, p, code0[p]));
                        assert(code@[p] == code0[p]);
                    }
                }
            }
        }
        j += 1;
    }
    if stack.len() > 0 {
        proof {
            assert(bracket_depth(s, m as int) > 0);
            assert(!well_formed(s));
        }
        return Err(TranslationError::UnmatchedBrackets);
    }
    proof {
        assert(well_formed(s));
        assert forall|p: int| 0 <= p < m implies instr_for(s, p, #[trigger] code@[p]) by {
            assert(code_entry_ok(s, stack@, p, code@[p]));
            if s[p] == '[' {
                assert(!on_stack(stack@, p));
            }
        }
        assert(translated(s, code@));
    }
    Ok(code)
}

} // verus!
