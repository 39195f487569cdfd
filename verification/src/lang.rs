use vstd::prelude::*;

verus! {

/// One executable instruction, one per recognized source symbol.
///
/// `LoopStart` holds the index of its matching `LoopEnd` and `LoopEnd` the
/// index of its matching `LoopStart`; both are resolved during translation.
/// At run time each branch instruction jumps to one past its partner, so a
/// taken `LoopStart` lands just after the loop and a taken `LoopEnd` lands on
/// the first instruction of the loop body.
#[derive(Clone, Copy, Debug, PartialEq, Eq, Structural)]
pub enum Instruction {
    ShiftRight,
    ShiftLeft,
    Increment,
    Decrement,
    Output,
    Input,
    LoopStart(usize),
    LoopEnd(usize),
}

/// The one structural defect a source text can have: its brackets do not
/// pair up.  Translation fails with this and produces no partial result.
#[derive(Clone, Copy, Debug, PartialEq, Eq, Structural)]
pub enum TranslationError {
    UnmatchedBrackets,
}

/// Whether `c` is one of the eight recognized symbols; every other
/// character is discarded by translation.
pub open spec fn is_symbol(c: char) -> bool {
    c == '>' || c == '<' || c == '+' || c == '-' || c == '.' || c == ',' || c == '[' || c == ']'
}

/// The symbol stream of a source text: its characters with everything
/// outside the recognized symbol set discarded.  Bracket matching and
/// instruction indexing both work over this stream.
pub open spec fn symbols_of(s: Seq<char>) -> Seq<char> {
    s.filter(|c: char| is_symbol(c))
}

/// How one character changes the bracket nesting depth.
pub open spec fn bracket_delta(c: char) -> int {
    if c == '[' {
        1
    } else if c == ']' {
        -1
    } else {
        0
    }
}

/// The bracket nesting depth after the first `n` characters of `s`:
/// the number of `[` minus the number of `]` among them.
pub open spec fn bracket_depth(s: Seq<char>, n: int) -> int
    decreases n,
{
    if n <= 0 {
        0
    } else {
        bracket_depth(s, n - 1) + bracket_delta(s[n - 1])
    }
}

/// Well-formed bracket nesting: no prefix closes more brackets than it has
/// opened, and the whole stream leaves none open.
pub open spec fn well_formed(s: Seq<char>) -> bool {
    &&& bracket_depth(s, s.len() as int) == 0
    &&& forall|n: int| 0 <= n <= s.len() ==> bracket_depth(s, n) >= 0
}

/// The brackets at positions `i` and `j` of `s` form a matched pair: `i`
/// opens, `j` closes, the pair leaves the depth where it found it, and the
/// depth stays strictly above that level everywhere strictly inside.
pub open spec fn is_match(s: Seq<char>, i: int, j: int) -> bool {
    &&& 0 <= i < j < s.len()
    &&& s[i] == '['
    &&& s[j] == ']'
    &&& bracket_depth(s, j + 1) == bracket_depth(s, i)
    &&& forall|m: int| i < m <= j ==> bracket_depth(s, m) > bracket_depth(s, i)
}

/// The instruction that position `i` of the symbol stream `s` must carry:
/// the plain instruction for its symbol, with each bracket annotated with
/// the index of its matching partner.
pub open spec fn instr_for(s: Seq<char>, i: int, ins: Instruction) -> bool {
    if s[i] == '>' {
        ins == Instruction::ShiftRight
    } else if s[i] == '<' {
        ins == Instruction::ShiftLeft
    } else if s[i] == '+' {
        ins == Instruction::Increment
    } else if s[i] == '-' {
        ins == Instruction::Decrement
    } else if s[i] == '.' {
        ins == Instruction::Output
    } else if s[i] == ',' {
        ins == Instruction::Input
    } else if s[i] == '[' {
        ins matches Instruction::LoopStart(j) && is_match(s, i, j as int)
    } else {
        ins matches Instruction::LoopEnd(j) && is_match(s, j as int, i)
    }
}

/// `code` is a correct translation of the symbol stream `s`: one
/// instruction per symbol, in order, with resolved jump targets.
pub open spec fn translated(s: Seq<char>, code: Seq<Instruction>) -> bool {
    &&& code.len() == s.len()
    &&& forall|i: int| 0 <= i < s.len() ==> instr_for(s, i, #[trigger] code[i])
}

/// The index of the `]` matching the `[` at position `i`.
pub open spec fn close_for(s: Seq<char>, i: int) -> int {
    choose|j: int| is_match(s, i, j)
}

/// The index of the `[` matching the `]` at position `j`.
pub open spec fn open_for(s: Seq<char>, j: int) -> int {
    choose|i: int| is_match(s, i, j)
}

/// The canonical instruction for position `i` of the symbol stream `s`.
pub open spec fn instr_at(s: Seq<char>, i: int) -> Instruction {
    if s[i] == '>' {
        Instruction::ShiftRight
    } else if s[i] == '<' {
        Instruction::ShiftLeft
    } else if s[i] == '+' {
        Instruction::Increment
    } else if s[i] == '-' {
        Instruction::Decrement
    } else if s[i] == '.' {
        Instruction::Output
    } else if s[i] == ',' {
        Instruction::Input
    } else if s[i] == '[' {
        Instruction::LoopStart(close_for(s, i) as usize)
    } else {
        Instruction::LoopEnd(open_for(s, i) as usize)
    }
}

/// The canonical translation of the symbol stream `s`.
pub open spec fn translation(s: Seq<char>) -> Seq<Instruction> {
    Seq::new(s.len(), |i: int| instr_at(s, i))
}

/// The instruction sequence a source text translates to, as a function of
/// the text alone.
pub open spec fn program_of(source: Seq<char>) -> Seq<Instruction> {
    translation(symbols_of(source))
}

/// Every jump target of `code` is an index into `code`.
pub open spec fn targets_ok(code: Seq<Instruction>) -> bool {
    forall|i: int|
        0 <= i < code.len() ==> match #[trigger] code[i] {
            Instruction::LoopStart(t) => t < code.len(),
            Instruction::LoopEnd(t) => t < code.len(),
            _ => true,
        }
}

/// An open bracket has at most one matching close bracket.
pub proof fn lemma_match_unique_close(s: Seq<char>, i: int, j1: int, j2: int)
    requires
        is_match(s, i, j1),
        is_match(s, i, j2),
    ensures
        j1 == j2,
{
    if j1 < j2 {
        assert(bracket_depth(s, j1 + 1) == bracket_depth(s, i));
        assert(i < j1 + 1 <= j2);
        assert(false);
    }
    if j2 < j1 {
        assert(bracket_depth(s, j2 + 1) == bracket_depth(s, i));
        assert(i < j2 + 1 <= j1);
        assert(false);
    }
}

/// A close bracket has at most one matching open bracket.
pub proof fn lemma_match_unique_open(s: Seq<char>, i1: int, i2: int, j: int)
    requires
        is_match(s, i1, j),
        is_match(s, i2, j),
    ensures
        i1 == i2,
{
    if i1 < i2 {
        assert(bracket_depth(s, i2) > bracket_depth(s, i1));
        assert(bracket_depth(s, j + 1) == bracket_depth(s, i1));
        assert(false);
    }
    if i2 < i1 {
        assert(bracket_depth(s, i1) > bracket_depth(s, i2));
        assert(bracket_depth(s, j + 1) == bracket_depth(s, i2));
        assert(false);
    }
}

/// Any correct translation of `s` is the canonical one.
pub proof fn lemma_translated_is_translation(s: Seq<char>, code: Seq<Instruction>)
    requires
        translated(s, code),
    ensures
        code == translation(s),
{
    assert forall|i: int| 0 <= i < s.len() implies code[i] == translation(s)[i] by {
        assert(instr_for(s, i, code[i]));
        match code[i] {
            Instruction::LoopStart(j) => {
                assert(is_match(s, i, j as int));
                let jc = close_for(s, i);
                assert(is_match(s, i, jc));
                lemma_match_unique_close(s, i, j as int, jc);
            },
            Instruction::LoopEnd(j) => {
                assert(is_match(s, j as int, i));
                let jo = open_for(s, i);
                assert(is_match(s, jo, i));
                lemma_match_unique_open(s, j as int, jo, i);
            },
            _ => {},
        }
    }
    assert(code =~= translation(s));
}

/// Law: translation is a pure function of the symbol stream.  Two
/// instruction sequences that each translate the same symbols are
/// identical, so translating the same source text twice yields identical
/// instruction sequences.
pub proof fn lemma_translation_deterministic(
    s: Seq<char>,
    code1: Seq<Instruction>,
    code2: Seq<Instruction>,
)
    requires
        translated(s, code1),
        translated(s, code2),
    ensures
        code1 == code2,
{
    lemma_translated_is_translation(s, code1);
    lemma_translated_is_translation(s, code2);
}

/// Every jump target of a correct translation lies inside the sequence.
pub proof fn lemma_translated_targets_ok(s: Seq<char>, code: Seq<Instruction>)
    requires
        translated(s, code),
    ensures
        targets_ok(code),
{
    assert forall|i: int| 0 <= i < code.len() implies match #[trigger] code[i] {
        Instruction::LoopStart(t) => t < code.len(),
        Instruction::LoopEnd(t) => t < code.len(),
        _ => true,
    } by {
        assert(instr_for(s, i, code[i]));
    }
}

/// Appending one character to a prefix extends its symbol stream by that
/// character exactly when the character is a recognized symbol.
pub proof fn lemma_symbols_of_take_step(s: Seq<char>, i: int)
    requires
        0 <= i < s.len(),
    ensures
        symbols_of(s.take(i + 1)) == if is_symbol(s[i]) {
            symbols_of(s.take(i)).push(s[i])
        } else {
            symbols_of(s.take(i))
        },
{
    let t = s.take(i + 1);
    assert(t.drop_last() =~= s.take(i));
    assert(t.last() == s[i]);
    reveal_with_fuel(Seq::filter, 2);
}

/// Every character of a symbol stream is a recognized symbol.
pub proof fn lemma_symbols_are_symbols(s: Seq<char>)
    ensures
        forall|p: int| 0 <= p < symbols_of(s).len() ==> is_symbol(#[trigger] symbols_of(s)[p]),
    decreases s.len(),
{
    reveal_with_fuel(Seq::filter, 2);
    if s.len() > 0 {
        lemma_symbols_are_symbols(s.drop_last());
    }
}

/// A text with no recognized symbol has an empty symbol stream.
pub proof fn lemma_symbols_of_none(s: Seq<char>)
    requires
        forall|i: int| 0 <= i < s.len() ==> !is_symbol(#[trigger] s[i]),
    ensures
        symbols_of(s).len() == 0,
    decreases s.len(),
{
    reveal_with_fuel(Seq::filter, 2);
    if s.len() > 0 {
        lemma_symbols_of_none(s.drop_last());
    }
}

} // verus!
