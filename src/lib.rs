//! A compiler and interpreter for Brainfuck programs over an abstract tape.
use vstd::prelude::*;

use brackets::{lemma_close_scan_in_range, lemma_open_scan_in_range};

mod brackets;
mod tape;
mod trace;

pub use brackets::{depth, lemma_matched_resolves, lemma_well_bracketed_resolves, well_bracketed};
pub use tape::{Tape, TapeData};
pub use trace::{emitted_along, emitted_seq, lemma_outputs_along, read_along};

verus! {

/// The eight instructions of Brainfuck.
#[derive(Clone, Copy, Debug, PartialEq, Eq, Structural)]
pub enum BrainfuckInstruction {
    /// `>`: move the data pointer one cell to the right.
    IncrementDataPointer,
    /// `<`: move the data pointer one cell to the left.
    DecrementDataPointer,
    /// `+`: increase the current cell.
    IncreaseData,
    /// `-`: decrease the current cell.
    DecreaseData,
    /// `.`: output the current cell.
    Output,
    /// `,`: overwrite the current cell with an input value.
    Input,
    /// `[`: when the current cell is zero, move forward by the offset.
    JumpForward(usize),
    /// `]`: when the current cell is not zero, move back by the offset.
    JumpBackwards(usize),
}

/// The instruction that a source character stands for, with jump offsets
/// still unresolved; `None` for a character that is no instruction.
pub open spec fn decode(c: char) -> Option<BrainfuckInstruction> {
    if c == '>' {
        Some(BrainfuckInstruction::IncrementDataPointer)
    } else if c == '<' {
        Some(BrainfuckInstruction::DecrementDataPointer)
    } else if c == '+' {
        Some(BrainfuckInstruction::IncreaseData)
    } else if c == '-' {
        Some(BrainfuckInstruction::DecreaseData)
    } else if c == '.' {
        Some(BrainfuckInstruction::Output)
    } else if c == ',' {
        Some(BrainfuckInstruction::Input)
    } else if c == '[' {
        Some(BrainfuckInstruction::JumpForward(0))
    } else if c == ']' {
        Some(BrainfuckInstruction::JumpBackwards(0))
    } else {
        None
    }
}

/// One recognised instruction with its position: the 0-based line and the
/// 1-based character index within that line.
pub type SpanModel = (BrainfuckInstruction, nat, nat);

/// Scanning `s` from the start: the recognised instructions with their
/// positions, then the current line and the number of characters already
/// seen on it.
pub open spec fn scan(s: Seq<char>) -> (Seq<SpanModel>, nat, nat)
    decreases s.len(),
{
    if s.len() == 0 {
        (Seq::empty(), 0, 0)
    } else {
        let (spans, line, col) = scan(s.drop_last());
        let c = s.last();
        if c == '\n' {
            (spans, line + 1, 0)
        } else {
            match decode(c) {
                Some(ins) => (spans.push((ins, line, col + 1)), line, col + 1),
                None => (spans, line, col + 1),
            }
        }
    }
}

/// The recognised instructions of `s`, in source order, unresolved.
pub open spec fn instructions_of(s: Seq<char>) -> Seq<BrainfuckInstruction> {
    scan(s).0.map_values(|sp: SpanModel| sp.0)
}

/// The characters of `s` that stand for instructions, in order.
pub open spec fn recognised(s: Seq<char>) -> Seq<char>
    decreases s.len(),
{
    if s.len() == 0 {
        Seq::empty()
    } else if decode(s.last()) is Some {
        recognised(s.drop_last()).push(s.last())
    } else {
        recognised(s.drop_last())
    }
}

/// The instructions of `s` are those of its recognised characters.
proof fn lemma_instructions_of_recognised(s: Seq<char>)
    ensures
        instructions_of(s) == recognised(s).map_values(|c: char| decode(c)->0),
    decreases s.len(),
{
    if s.len() > 0 {
        let p = s.drop_last();
        let c = s.last();
        lemma_instructions_of_recognised(p);
        if decode(c) is Some {
            assert(c != '\n');
            assert(scan(s).0 == scan(p).0.push((decode(c)->0, scan(p).1, scan(p).2 + 1)));
            assert(instructions_of(s) =~= instructions_of(p).push(decode(c)->0));
            assert(recognised(s) == recognised(p).push(c));
            assert(recognised(s).map_values(|c: char| decode(c)->0) =~= recognised(p).map_values(
                |c: char| decode(c)->0,
            ).push(decode(c)->0));
        } else {
            assert(scan(s).0 == scan(p).0);
            assert(recognised(s) == recognised(p));
        }
        assert(instructions_of(s) =~= recognised(s).map_values(|c: char| decode(c)->0));
    } else {
        assert(instructions_of(s) =~= recognised(s).map_values(|c: char| decode(c)->0));
    }
}

/// Characters that stand for no instruction are ignored: two texts with the
/// same instruction characters in the same order, whatever else they hold,
/// give the same instructions, so `compile` gives both the same result.
pub proof fn lemma_other_characters_ignored(s: Seq<char>, t: Seq<char>)
    requires
        recognised(s) == recognised(t),
    ensures
        instructions_of(s) == instructions_of(t),
{
    lemma_instructions_of_recognised(s);
    lemma_instructions_of_recognised(t);
}

/// Searching forward from `j` for the `]` that closes a `[`, with `depth`
/// further `[` still open.
pub open spec fn close_scan(ins: Seq<BrainfuckInstruction>, j: int, depth: nat) -> Option<int>
    decreases ins.len() - j,
{
    if j < 0 || j >= ins.len() {
        None
    } else if ins[j] is JumpBackwards {
        if depth == 0 {
            Some(j)
        } else {
            close_scan(ins, j + 1, (depth - 1) as nat)
        }
    } else if ins[j] is JumpForward {
        close_scan(ins, j + 1, depth + 1)
    } else {
        close_scan(ins, j + 1, depth)
    }
}

/// Searching backward from `j` for the `[` that opens a `]`, with `depth`
/// further `]` still open.
pub open spec fn open_scan(ins: Seq<BrainfuckInstruction>, j: int, depth: nat) -> Option<int>
    decreases j + 1,
{
    if j < 0 || j >= ins.len() {
        None
    } else if ins[j] is JumpForward {
        if depth == 0 {
            Some(j)
        } else {
            open_scan(ins, j - 1, (depth - 1) as nat)
        }
    } else if ins[j] is JumpBackwards {
        open_scan(ins, j - 1, depth + 1)
    } else {
        open_scan(ins, j - 1, depth)
    }
}

/// The index of the bracket matching the bracket at `i`, if there is one.
pub open spec fn partner(ins: Seq<BrainfuckInstruction>, i: int) -> Option<int> {
    if ins[i] is JumpForward {
        close_scan(ins, i + 1, 0)
    } else if ins[i] is JumpBackwards {
        open_scan(ins, i - 1, 0)
    } else {
        None
    }
}

/// Whether the instruction at `i` is a bracket without a partner.
pub open spec fn unmatched(ins: Seq<BrainfuckInstruction>, i: int) -> bool {
    (ins[i] is JumpForward || ins[i] is JumpBackwards) && partner(ins, i) is None
}

/// Whether every bracket of `ins` has a partner.
pub open spec fn all_matched(ins: Seq<BrainfuckInstruction>) -> bool {
    forall|i: int| 0 <= i < ins.len() ==> !#[trigger] unmatched(ins, i)
}

/// The instruction at `i` with its jump offset resolved: a `[` jumps to one
/// past its `]`, a `]` jumps back to one past its `[`.
pub open spec fn resolved(ins: Seq<BrainfuckInstruction>, i: int) -> BrainfuckInstruction {
    match ins[i] {
        BrainfuckInstruction::JumpForward(_) => BrainfuckInstruction::JumpForward(
            (partner(ins, i)->0 - i + 1) as usize,
        ),
        BrainfuckInstruction::JumpBackwards(_) => BrainfuckInstruction::JumpBackwards(
            (i - partner(ins, i)->0 - 1) as usize,
        ),
        other => other,
    }
}

/// Where line `k` starts in `t`, counting line breaks from `i`; `None` when
/// there are fewer than `k` line breaks from `i` on.
pub open spec fn line_start_from(t: Seq<char>, i: int, k: nat) -> Option<int>
    decreases t.len() - i,
{
    if k == 0 {
        Some(i)
    } else if i < 0 || i >= t.len() {
        None
    } else if t[i] == '\n' {
        line_start_from(t, i + 1, (k - 1) as nat)
    } else {
        line_start_from(t, i + 1, k)
    }
}

/// The index of the first line break at or after `i`, or the length of `t`.
pub open spec fn line_end_from(t: Seq<char>, i: int) -> int
    decreases t.len() - i,
{
    if i < 0 || i >= t.len() {
        t.len() as int
    } else if t[i] == '\n' {
        i
    } else {
        line_end_from(t, i + 1)
    }
}

/// Line `k` of `t`, without its line ending (`\n` or `\r\n`); `None` where
/// `t` has no such line.
pub open spec fn line_text(t: Seq<char>, k: nat) -> Option<Seq<char>> {
    match line_start_from(t, 0, k) {
        Some(a) => if a < t.len() {
            let e = line_end_from(t, a);
            let e2 = if e < t.len() && e > a && t[e - 1] == '\r' {
                e - 1
            } else {
                e
            };
            Some(t.subrange(a, e2))
        } else {
            None
        },
        None => None,
    }
}

/// Spaces up to the 1-based column `character`, then a caret there.
pub open spec fn caret_line(character: nat) -> Seq<char> {
    Seq::new(if character > 0 { (character - 1) as nat } else { 0 }, |i: int| ' ').push('^')
}

/// An instruction together with its position in the source text.
#[derive(Clone, Copy, Debug)]
pub struct Span<'a> {
    instruction: BrainfuckInstruction,
    text: &'a str,
    line: usize,
    character: usize,
}

impl<'a> Span<'a> {
    /// The instruction of this span.
    pub closed spec fn spec_instruction(&self) -> BrainfuckInstruction {
        self.instruction
    }

    /// The full source text that this span points into.
    pub closed spec fn spec_text(&self) -> Seq<char> {
        self.text@
    }

    /// The 0-based line of this span.
    pub closed spec fn spec_line(&self) -> nat {
        self.line as nat
    }

    /// The 1-based character index of this span within its line.
    pub closed spec fn spec_character(&self) -> nat {
        self.character as nat
    }

    /// The instruction and position of this span.
    pub open spec fn model(&self) -> SpanModel {
        (self.spec_instruction(), self.spec_line(), self.spec_character())
    }

    /// Get the full text of this span.
    pub fn get_text(&self) -> (r: &str)
        ensures
            r@ == self.spec_text(),
    {
        self.text
    }

    /// The source line of this span, a line break, then a line with a caret
    /// under the character of this span; `None` where the text has no such
    /// line.
    pub fn render(&self) -> (r: Option<String>)
        ensures
            match line_text(self.spec_text(), self.spec_line()) {
                Some(l) => r matches Some(s) && s@ == l + seq!['\n'] + caret_line(
                    self.spec_character(),
                ),
                None => r is None,
            },
    {
        let t = self.text;
        let n = t.unicode_len();
        let mut chars: Vec<char> = Vec::new();
        for c in it: t.chars()
            invariant
                it.seq() == t@,
                chars@ == t@.take(it.index() as int),
        {
            chars.push(c);
        }
        assert(chars@ =~= t@);
        let mut i: usize = 0;
        let mut k: usize = self.line;
        while k > 0 && i < n
            invariant
                chars@ == t@,
                n == t@.len(),
                i <= n,
                line_start_from(t@, 0, self.line as nat) == line_start_from(t@, i as int, k as nat),
            decreases n - i,
        {
            if chars[i] == '\n' {
                k = k - 1;
            }
            i = i + 1;
        }
        if k > 0 || i >= n {
            return None;
        }
        let start = i;
        let mut j: usize = start;
        while j < n && chars[j] != '\n'
            invariant
                chars@ == t@,
                n == t@.len(),
                start <= j <= n,
                line_end_from(t@, start as int) == line_end_from(t@, j as int),
            decreases n - j,
        {
            j = j + 1;
        }
        let end = if j < n && j > start && chars[j - 1] == '\r' {
            j - 1
        } else {
            j
        };
        proof {
            reveal_strlit("^");
            reveal_strlit("");
            reveal_strlit("\n");
        }
        let mut s = String::from_str("");
        s.append(t.substring_char(start, end));
        s.append("\n");
        assert(s@ =~= t@.subrange(start as int, end as int) + seq!['\n'] + Seq::new(
            0,
            |i: int| ' ',
        ));
        let mut col: usize = 1;
        while col < self.character
            invariant
                start <= end <= n == t@.len(),
                1 <= col,
                col <= self.character || (self.character == 0 && col == 1),
                s@ == t@.subrange(start as int, end as int) + seq!['\n'] + Seq::new(
                    (col - 1) as nat,
                    |i: int| ' ',
                ),
            decreases self.character - col,
        {
            proof {
                reveal_strlit(" ");
            }
            s.append(" ");
            assert(s@ =~= t@.subrange(start as int, end as int) + seq!['\n'] + Seq::new(
                col as nat,
                |i: int| ' ',
            ));
            col = col + 1;
        }
        let ghost before = s@;
        s.append("^");
        assert("^"@ =~= seq!['^']);
        assert(s@ == before.push('^'));
        assert((col - 1) as nat == if self.character > 0 {
            (self.character - 1) as nat
        } else {
            0
        });
        assert(s@ =~= t@.subrange(start as int, end as int) + seq!['\n'] + caret_line(
            self.character as nat,
        ));
        Some(s)
    }

    /// Get the line number and character index of the character that this
    /// span describes.
    pub fn get_line_character_number(&self) -> (r: (&usize, &usize))
        ensures
            *r.0 == self.spec_line(),
            *r.1 == self.spec_character(),
    {
        (&self.line, &self.character)
    }
}

/// A compile error: a bracket without a partner.
#[derive(Clone, Copy, Debug)]
pub enum Error<'a> {
    /// A `[` does not have a matching `]`.
    MissingClosingBrace(Span<'a>),
    /// A `]` does not have a matching `[`.
    MissingOpeningBrace(Span<'a>),
}

/// Whether `e` reports the bracket at `sp` of the source `text`.
pub open spec fn reports(e: Error, text: Seq<char>, sp: SpanModel) -> bool {
    match e {
        Error::MissingClosingBrace(s) => sp.0 is JumpForward && s.model() == sp
            && s.spec_text() == text,
        Error::MissingOpeningBrace(s) => sp.0 is JumpBackwards && s.model() == sp
            && s.spec_text() == text,
    }
}

/// The instruction that a source character stands for, unresolved.
fn decode_char(c: char) -> (r: Option<BrainfuckInstruction>)
    ensures
        r == decode(c),
{
    match c {
        '>' => Some(BrainfuckInstruction::IncrementDataPointer),
        '<' => Some(BrainfuckInstruction::DecrementDataPointer),
        '+' => Some(BrainfuckInstruction::IncreaseData),
        '-' => Some(BrainfuckInstruction::DecreaseData),
        '.' => Some(BrainfuckInstruction::Output),
        ',' => Some(BrainfuckInstruction::Input),
        '[' => Some(BrainfuckInstruction::JumpForward(0)),
        ']' => Some(BrainfuckInstruction::JumpBackwards(0)),
        _ => None,
    }
}

/// The spans of all recognised instructions of `input`, in source order.
fn parse_input<'a>(input: &'a str) -> (r: Vec<Span<'a>>)
    ensures
        r@.len() == scan(input@).0.len(),
        forall|k: int| 0 <= k < r@.len() ==> #[trigger] r@[k].model() == scan(input@).0[k],
        forall|k: int| 0 <= k < r@.len() ==> (#[trigger] r@[k]).spec_text() == input@,
{
    let n = input.unicode_len();
    let mut result: Vec<Span<'a>> = Vec::new();
    let mut line_ind: usize = 0;
    let mut char_ind: usize = 0;
    for c in it: input.chars()
        invariant
            n == input@.len(),
            it.seq() == input@,
            it.index() <= n,
            line_ind <= it.index(),
            char_ind <= it.index(),
            scan(input@.take(it.index() as int)).1 == line_ind,
            scan(input@.take(it.index() as int)).2 == char_ind,
            result@.len() == scan(input@.take(it.index() as int)).0.len(),
            forall|k: int| 0 <= k < result@.len() ==> #[trigger] result@[k].model() == scan(
                input@.take(it.index() as int),
            ).0[k],
            forall|k: int| 0 <= k < result@.len() ==> (#[trigger] result@[k]).spec_text() == input@,
    {
        let ghost i = it.index() as int;
        assert(input@.take(i + 1).drop_last() == input@.take(i));
        assert(input@.take(i + 1).last() == c);
        if c == '\n' {
            line_ind = line_ind + 1;
            char_ind = 0;
        } else {
            char_ind = char_ind + 1;
            match decode_char(c) {
                Some(instr) => {
                    result.push(
                        Span { instruction: instr, text: input, line: line_ind, character: char_ind },
                    );
                },
                None => {},
            }
        }
    }
    assert(input@.take(n as int) == input@);
    result
}

/// The instructions of a sequence of spans.
pub open spec fn kinds(spans: Seq<Span>) -> Seq<BrainfuckInstruction> {
    spans.map_values(|s: Span| s.spec_instruction())
}

/// Find the `]` matching the `[` at `index`; returns the jump offset, one
/// past the `]`.
fn find_closer<'a>(index: usize, instructions: &Vec<Span<'a>>) -> (r: Result<usize, Error<'a>>)
    requires
        index < instructions@.len(),
        kinds(instructions@)[index as int] is JumpForward,
    ensures
        match r {
            Ok(o) => partner(kinds(instructions@), index as int) == Some(index + o - 1),
            Err(e) => partner(kinds(instructions@), index as int) is None
                && e == Error::MissingClosingBrace(instructions@[index as int]),
        },
{
    let ghost ins = kinds(instructions@);
    let n = instructions.len();
    let mut j: usize = index + 1;
    let mut extra_openers: usize = 0;
    while j < n
        invariant
            n == instructions@.len(),
            ins == kinds(instructions@),
            index < j <= n,
            ins[index as int] is JumpForward,
            extra_openers < j,
            close_scan(ins, index + 1, 0) == close_scan(ins, j as int, extra_openers as nat),
        decreases n - j,
    {
        assert(ins[j as int] == instructions@[j as int].spec_instruction());
        match instructions[j].instruction {
            BrainfuckInstruction::JumpBackwards(_) => {
                if extra_openers == 0 {
                    return Ok(j - index + 1);
                } else {
                    extra_openers = extra_openers - 1;
                }
            },
            BrainfuckInstruction::JumpForward(_) => {
                extra_openers = extra_openers + 1;
            },
            _ => {},
        }
        j = j + 1;
    }
    Err(Error::MissingClosingBrace(instructions[index]))
}

/// Find the `[` matching the `]` at `index`; returns the jump offset back to
/// one past the `[`.
fn find_opener<'a>(index: usize, instructions: &Vec<Span<'a>>) -> (r: Result<usize, Error<'a>>)
    requires
        index < instructions@.len(),
        kinds(instructions@)[index as int] is JumpBackwards,
    ensures
        match r {
            Ok(o) => partner(kinds(instructions@), index as int) == Some(index - o - 1),
            Err(e) => partner(kinds(instructions@), index as int) is None
                && e == Error::MissingOpeningBrace(instructions@[index as int]),
        },
{
    let ghost ins = kinds(instructions@);
    let mut j: usize = index;
    let mut extra_closers: usize = 0;
    while j > 0
        invariant
            ins == kinds(instructions@),
            j <= index < instructions@.len(),
            ins[index as int] is JumpBackwards,
            extra_closers <= index - j,
            open_scan(ins, index - 1, 0) == open_scan(ins, j - 1, extra_closers as nat),
        decreases j,
    {
        assert(ins[j - 1] == instructions@[j - 1].spec_instruction());
        match instructions[j - 1].instruction {
            BrainfuckInstruction::JumpForward(_) => {
                if extra_closers == 0 {
                    return Ok(index - j);
                } else {
                    extra_closers = extra_closers - 1;
                }
            },
            BrainfuckInstruction::JumpBackwards(_) => {
                extra_closers = extra_closers + 1;
            },
            _ => {},
        }
        j = j - 1;
    }
    Err(Error::MissingOpeningBrace(instructions[index]))
}

/// Why a program stopped.
#[derive(Clone, Copy, Debug, PartialEq, Eq, Structural)]
pub enum Halt {
    /// The instruction pointer is past the last instruction.
    Finished,
    /// The data pointer names a cell that the tape cannot hold. Moving left
    /// of cell 0 wraps the data pointer to `usize::MAX`, which no tape holds,
    /// so that move is reported here by the next instruction that uses the
    /// cell.
    DataPointerOutOfRange,
}

/// A compiled Brainfuck program with its registers and tape.
#[derive(Clone, Debug)]
pub struct BrainfuckProgram<T: Tape> {
    /// The instruction pointer of this program.
    pub instruction_pointer: usize,
    /// The data pointer of this program.
    pub data_pointer: usize,
    /// The instructions of this program.
    pub instructions: Vec<BrainfuckInstruction>,
    /// The tape of this program.
    pub tape: T,
}

/// The registers and memory of a running program.
pub struct MachineState<D> {
    /// The instruction pointer.
    pub ip: int,
    /// The data pointer.
    pub dp: int,
    /// The value of every cell.
    pub cells: Map<int, D>,
    /// The indices that the tape can hold.
    pub range: Set<int>,
}

/// Whether every jump of `ins` lands within `0..=ins.len()`.
pub open spec fn jumps_in_bounds(ins: Seq<BrainfuckInstruction>) -> bool {
    forall|k: int|
        0 <= k < ins.len() ==> match #[trigger] ins[k] {
            BrainfuckInstruction::JumpForward(o) => k + o <= ins.len(),
            BrainfuckInstruction::JumpBackwards(o) => o <= k,
            _ => true,
        }
}

/// Whether `i` moves the data pointer; such an instruction does not touch
/// the tape.
pub open spec fn moves_pointer(i: BrainfuckInstruction) -> bool {
    i is IncrementDataPointer || i is DecrementDataPointer
}

/// The reason a step from `s` is refused, if it is: no instruction is left,
/// or the instruction needs the cell under a data pointer that the tape
/// cannot hold. A `>` from `usize::MAX` is refused too, as no tape holds the
/// cell past it.
pub open spec fn halt_reason<D>(ins: Seq<BrainfuckInstruction>, s: MachineState<D>) -> Option<Halt> {
    if !(0 <= s.ip < ins.len()) {
        Some(Halt::Finished)
    } else if ins[s.ip] is IncrementDataPointer && s.dp >= usize::MAX {
        Some(Halt::DataPointerOutOfRange)
    } else if !moves_pointer(ins[s.ip]) && !s.range.contains(s.dp) {
        Some(Halt::DataPointerOutOfRange)
    } else {
        None
    }
}

/// Whether no step can be taken from `s`.
pub open spec fn halted<D>(ins: Seq<BrainfuckInstruction>, s: MachineState<D>) -> bool {
    halt_reason(ins, s) is Some
}

/// The state after executing the instruction at `s.ip`, where `input` is
/// what an input instruction reads.
pub open spec fn next_state<D: TapeData>(
    ins: Seq<BrainfuckInstruction>,
    s: MachineState<D>,
    input: D,
) -> MachineState<D> {
    let c = s.cells[s.dp];
    let advanced = MachineState { ip: s.ip + 1, ..s };
    match ins[s.ip] {
        BrainfuckInstruction::IncrementDataPointer => MachineState { dp: s.dp + 1, ..advanced },
        BrainfuckInstruction::DecrementDataPointer => MachineState {
            dp: if s.dp == 0 {
                usize::MAX as int
            } else {
                s.dp - 1
            },
            ..advanced
        },
        BrainfuckInstruction::IncreaseData => MachineState {
            cells: s.cells.insert(s.dp, c.spec_increase()),
            ..advanced
        },
        BrainfuckInstruction::DecreaseData => MachineState {
            cells: s.cells.insert(s.dp, c.spec_decrease()),
            ..advanced
        },
        BrainfuckInstruction::Output => advanced,
        BrainfuckInstruction::Input => MachineState { cells: s.cells.insert(s.dp, input), ..advanced },
        BrainfuckInstruction::JumpForward(o) => if c == D::spec_zero() {
            MachineState { ip: s.ip + o, ..s }
        } else {
            advanced
        },
        BrainfuckInstruction::JumpBackwards(o) => if c != D::spec_zero() {
            MachineState { ip: s.ip - o, ..s }
        } else {
            advanced
        },
    }
}

/// The value that the instruction at `s.ip` outputs, if it is an output.
pub open spec fn emitted<D>(ins: Seq<BrainfuckInstruction>, s: MachineState<D>) -> Option<D> {
    if ins[s.ip] is Output {
        Some(s.cells[s.dp])
    } else {
        None
    }
}

/// The values output by at most `n` steps from `s`, where input
/// instructions read `inputs` in order, and zero once it is used up.
pub open spec fn outputs<D: TapeData>(
    ins: Seq<BrainfuckInstruction>,
    s: MachineState<D>,
    inputs: Seq<D>,
    n: nat,
) -> Seq<D>
    decreases n,
{
    if n == 0 || halted(ins, s) {
        Seq::empty()
    } else {
        let reads = ins[s.ip] is Input && inputs.len() > 0;
        let v = if reads {
            inputs[0]
        } else {
            D::spec_zero()
        };
        let rest = if reads {
            inputs.drop_first()
        } else {
            inputs
        };
        let tail = outputs(ins, next_state(ins, s, v), rest, (n - 1) as nat);
        match emitted(ins, s) {
            Some(d) => seq![d] + tail,
            None => tail,
        }
    }
}

/// The state reached from `s` by one step for each value of `vs`, the
/// value being what that step's input instruction reads.
pub open spec fn run_with<D: TapeData>(
    ins: Seq<BrainfuckInstruction>,
    s: MachineState<D>,
    vs: Seq<D>,
) -> MachineState<D>
    decreases vs.len(),
{
    if vs.len() == 0 {
        s
    } else {
        next_state(ins, run_with(ins, s, vs.drop_last()), vs.last())
    }
}

/// Whether none of the states passed through before the end of `vs` halts.
pub open spec fn runs_without_halt<D: TapeData>(
    ins: Seq<BrainfuckInstruction>,
    s: MachineState<D>,
    vs: Seq<D>,
) -> bool {
    forall|k: int| 0 <= k < vs.len() ==> !halted(ins, #[trigger] run_with(ins, s, vs.take(k)))
}

/// The state of a freshly reset program over a tape whose range is `range`.
pub open spec fn reset_state<D: TapeData>(range: Set<int>) -> MachineState<D> {
    MachineState {
        ip: 0,
        dp: 0,
        cells: Map::new(|i: int| true, |i: int| D::spec_zero()),
        range,
    }
}

/// Steps keep the tape's range.
proof fn lemma_run_keeps_range<D: TapeData>(
    ins: Seq<BrainfuckInstruction>,
    s: MachineState<D>,
    vs: Seq<D>,
)
    ensures
        run_with(ins, s, vs).range == s.range,
    decreases vs.len(),
{
    if vs.len() > 0 {
        lemma_run_keeps_range(ins, s, vs.drop_last());
    }
}

/// However a run from a reset state went, whatever it read, resetting
/// afterwards gives back exactly the state it started from. So a second run
/// from there that reads the same values over as many steps as a first run
/// from the first reset outputs the same values in the same order.
pub proof fn lemma_rerun_after_reset<D: TapeData>(
    ins: Seq<BrainfuckInstruction>,
    range: Set<int>,
    between: Seq<D>,
    first: Seq<D>,
    second: Seq<D>,
)
    requires
        runs_without_halt(ins, reset_state::<D>(range), first),
        runs_without_halt(
            ins,
            reset_state::<D>(run_with(ins, reset_state::<D>(range), between).range),
            second,
        ),
        first.len() == second.len(),
        read_along(ins, reset_state::<D>(range), first) == read_along(
            ins,
            reset_state::<D>(run_with(ins, reset_state::<D>(range), between).range),
            second,
        ),
    ensures
        reset_state::<D>(run_with(ins, reset_state::<D>(range), between).range) == reset_state::<D>(
            range,
        ),
        emitted_along(
            ins,
            reset_state::<D>(run_with(ins, reset_state::<D>(range), between).range),
            second,
        ) == emitted_along(ins, reset_state::<D>(range), first),
{
    lemma_run_keeps_range(ins, reset_state::<D>(range), between);
    lemma_outputs_along(ins, reset_state::<D>(range), first);
    lemma_outputs_along(ins, reset_state::<D>(range), second);
}

impl<T: Tape> BrainfuckProgram<T> {
    /// The registers and tape of this program as a machine state.
    pub open spec fn state(&self) -> MachineState<T::Data> {
        MachineState {
            ip: self.instruction_pointer as int,
            dp: self.data_pointer as int,
            cells: Map::new(|i: int| true, |i: int| self.tape.cell(i)),
            range: Set::new(|i: int| self.tape.in_range(i)),
        }
    }

    /// Compile a Brainfuck program, given by `input`, to run on `tape`. All
    /// characters that are no instruction are ignored.
    pub fn compile(input: &str, tape: T) -> (r: Result<Self, Error>)
        ensures
            r is Ok <==> all_matched(instructions_of(input@)),
            match r {
                Ok(p) => {
                    &&& jumps_in_bounds(p.instructions@)
                    &&& p.instructions@.len() == instructions_of(input@).len()
                    &&& forall|k: int|
                        0 <= k < p.instructions@.len() ==> #[trigger] p.instructions@[k]
                            == resolved(instructions_of(input@), k)
                    &&& p.instruction_pointer == 0
                    &&& p.data_pointer == 0
                    &&& p.tape == tape
                },
                Err(e) => exists|k: int|
                    0 <= k < instructions_of(input@).len() && unmatched(instructions_of(input@), k)
                        && (forall|m: int|
                        0 <= m < k ==> !#[trigger] unmatched(instructions_of(input@), m))
                        && reports(e, input@, #[trigger] scan(input@).0[k]),
            },
    {
        let spans = parse_input(input);
        let ghost ins = instructions_of(input@);
        assert forall|m: int| 0 <= m < spans@.len() implies #[trigger] kinds(spans@)[m] == ins[m] by {
            assert(spans@[m].model() == scan(input@).0[m]);
        }
        assert(kinds(spans@) =~= ins);
        let n = spans.len();
        let mut instructions: Vec<BrainfuckInstruction> = Vec::new();
        let mut k: usize = 0;
        while k < n
            invariant
                n == spans@.len(),
                ins == kinds(spans@),
                ins == instructions_of(input@),
                ins.len() == n,
                scan(input@).0.len() == n,
                k <= n,
                forall|m: int| 0 <= m < n ==> #[trigger] spans@[m].model() == scan(input@).0[m],
                forall|m: int| 0 <= m < n ==> (#[trigger] spans@[m]).spec_text() == input@,
                instructions@.len() == k,
                forall|m: int| 0 <= m < k ==> #[trigger] instructions@[m] == resolved(ins, m),
                forall|m: int| 0 <= m < k ==> !#[trigger] unmatched(ins, m),
            decreases n - k,
        {
            assert(ins[k as int] == spans@[k as int].spec_instruction());
            let instr = match spans[k].instruction {
                BrainfuckInstruction::JumpForward(_) => {
                    match find_closer(k, &spans) {
                        Ok(o) => BrainfuckInstruction::JumpForward(o),
                        Err(e) => {
                            assert(unmatched(ins, k as int));
                            assert(spans@[k as int].model() == scan(input@).0[k as int]);
                            assert(reports(e, input@, scan(input@).0[k as int]));
                            return Err(e);
                        },
                    }
                },
                BrainfuckInstruction::JumpBackwards(_) => {
                    match find_opener(k, &spans) {
                        Ok(o) => BrainfuckInstruction::JumpBackwards(o),
                        Err(e) => {
                            assert(unmatched(ins, k as int));
                            assert(spans@[k as int].model() == scan(input@).0[k as int]);
                            assert(reports(e, input@, scan(input@).0[k as int]));
                            return Err(e);
                        },
                    }
                },
                other => other,
            };
            instructions.push(instr);
            k = k + 1;
        }
        assert forall|m: int| 0 <= m < n implies match #[trigger] instructions@[m] {
            BrainfuckInstruction::JumpForward(o) => m + o <= n,
            BrainfuckInstruction::JumpBackwards(o) => o <= m,
            _ => true,
        } by {
            assert(instructions@[m] == resolved(ins, m));
            assert(!unmatched(ins, m));
            lemma_close_scan_in_range(ins, m + 1, 0);
            lemma_open_scan_in_range(ins, m - 1, 0);
        }
        Ok(BrainfuckProgram { instruction_pointer: 0, data_pointer: 0, instructions, tape })
    }

    /// Perform a step in the Brainfuck program: `output` receives the value
    /// of an output instruction, `input` supplies the value of an input
    /// instruction. With no instruction left the program has halted. `>` and
    /// `<` only move the data pointer; the other instructions look up the
    /// cell under it, and report a data pointer that the tape cannot hold.
    pub fn step<FnOut, FnIn>(&mut self, output: &mut FnOut, input: &mut FnIn) -> (r: Result<(), Halt>) where
        FnOut: FnMut(T::Data),
        FnIn: FnMut() -> T::Data,

        requires
            jumps_in_bounds(old(self).instructions@),
            forall|d: T::Data| call_requires(*old(output), (d,)),
            call_requires(*old(input), ()),
        ensures
            final(self).instructions@ == old(self).instructions@,
            *final(output) == *old(output),
            *final(input) == *old(input),
            r == match halt_reason(old(self).instructions@, old(self).state()) {
                Some(h) => Err(h),
                None => Ok(()),
            },
            r is Err ==> final(self).state() == old(self).state(),
            r is Ok ==> exists|v: T::Data|
                final(self).state() == next_state(old(self).instructions@, old(self).state(), v)
                    && (old(self).instructions@[old(self).instruction_pointer as int] is Input
                    ==> call_ensures(*old(input), (), v)),
            r is Ok ==> match emitted(old(self).instructions@, old(self).state()) {
                Some(d) => call_ensures(*old(output), (d,), ()),
                None => true,
            },
            final(self).tape.size() == if r is Ok && !moves_pointer(
                old(self).instructions@[old(self).instruction_pointer as int],
            ) && old(self).data_pointer >= old(self).tape.size() {
                old(self).data_pointer + 1
            } else {
                old(self).tape.size() as int
            },
    {
        let ghost s0 = self.state();
        let ghost ins = self.instructions@;
        let ghost mut v: T::Data = T::Data::spec_zero();
        let dp = self.data_pointer;
        let ip = self.instruction_pointer;
        if ip >= self.instructions.len() {
            return Err(Halt::Finished);
        }
        match self.instructions[ip] {
            BrainfuckInstruction::IncrementDataPointer => {
                if dp == usize::MAX {
                    return Err(Halt::DataPointerOutOfRange);
                }
                self.data_pointer = dp + 1;
            },
            BrainfuckInstruction::DecrementDataPointer => {
                self.data_pointer = dp.wrapping_sub(1);
            },
            instruction => {
                let data = match self.tape.get_data_at_mut(dp) {
                    Some(d) => d,
                    None => {
                        assert(self.state().cells =~= s0.cells);
                        assert(self.state().range =~= s0.range);
                        return Err(Halt::DataPointerOutOfRange);
                    },
                };
                match instruction {
                    BrainfuckInstruction::IncreaseData => {
                        data.increase();
                    },
                    BrainfuckInstruction::DecreaseData => {
                        data.decrease();
                    },
                    BrainfuckInstruction::Output => {
                        output(*data);
                    },
                    BrainfuckInstruction::Input => {
                        let value = input();
                        proof {
                            v = value;
                        }
                        *data = value;
                    },
                    BrainfuckInstruction::JumpForward(offset) => {
                        if data.is_zero() {
                            self.instruction_pointer = ip + offset;
                            assert(self.state().cells =~= next_state(ins, s0, v).cells);
                            assert(self.state().range =~= next_state(ins, s0, v).range);
                            return Ok(());
                        }
                    },
                    BrainfuckInstruction::JumpBackwards(offset) => {
                        if !data.is_zero() {
                            self.instruction_pointer = ip - offset;
                            assert(self.state().cells =~= next_state(ins, s0, v).cells);
                            assert(self.state().range =~= next_state(ins, s0, v).range);
                            return Ok(());
                        }
                    },
                    BrainfuckInstruction::IncrementDataPointer
                    | BrainfuckInstruction::DecrementDataPointer => {},
                }
            },
        }
        self.instruction_pointer = ip + 1;
        assert(self.state().cells =~= next_state(ins, s0, v).cells);
        assert(self.state().range =~= next_state(ins, s0, v).range);
        Ok(())
    }

    /// Reset the program: both pointers and every cell become zero; the
    /// instructions stay as they are.
    pub fn reset(&mut self)
        ensures
            final(self).instructions@ == old(self).instructions@,
            final(self).state() == reset_state::<T::Data>(old(self).state().range),
            final(self).tape.size() == old(self).tape.size(),
    {
        self.data_pointer = 0;
        self.instruction_pointer = 0;
        self.tape.reset();
        assert(self.state().cells =~= reset_state::<T::Data>(self.state().range).cells);
        assert(self.state().range =~= old(self).state().range);
    }

    /// Run the Brainfuck program until it halts, and return why it halted.
    /// It gives up, returning `None`, only after `u64::MAX` steps.
    pub fn run<FnOut, FnIn>(&mut self, output: &mut FnOut, input: &mut FnIn) -> (r: Option<Halt>) where
        FnOut: FnMut(T::Data),
        FnIn: FnMut() -> T::Data,

        requires
            jumps_in_bounds(old(self).instructions@),
            forall|d: T::Data| call_requires(*old(output), (d,)),
            call_requires(*old(input), ()),
        ensures
            final(self).instructions@ == old(self).instructions@,
            exists|vs: Seq<T::Data>|
                final(self).state() == run_with(old(self).instructions@, old(self).state(), vs)
                    && runs_without_halt(old(self).instructions@, old(self).state(), vs)
                    && (r is None ==> vs.len() == u64::MAX) && emitted_along(
                    old(self).instructions@,
                    old(self).state(),
                    vs,
                ) == outputs(
                    old(self).instructions@,
                    old(self).state(),
                    read_along(old(self).instructions@, old(self).state(), vs),
                    vs.len() as nat,
                ) && (forall|k: int|
                    0 <= k < vs.len() ==> {
                        let sk = #[trigger] run_with(
                            old(self).instructions@,
                            old(self).state(),
                            vs.take(k),
                        );
                        &&& old(self).instructions@[sk.ip] is Input ==> call_ensures(
                            *old(input),
                            (),
                            vs[k],
                        )
                        &&& emitted(old(self).instructions@, sk) matches Some(d) ==> call_ensures(
                            *old(output),
                            (d,),
                            (),
                        )
                    }),
            match r {
                Some(h) => halt_reason(old(self).instructions@, final(self).state()) == Some(h),
                None => true,
            },
            final(self).tape.size() >= old(self).tape.size(),
    {
        let ghost ins = self.instructions@;
        let ghost s0 = self.state();
        let ghost mut vs: Seq<T::Data> = Seq::empty();
        let mut count: u64 = 0;
        while count < u64::MAX
            invariant
                self.instructions@ == ins,
                ins == old(self).instructions@,
                s0 == old(self).state(),
                jumps_in_bounds(ins),
                forall|d: T::Data| call_requires(*output, (d,)),
                call_requires(*input, ()),
                vs.len() == count,
                self.state() == run_with(ins, s0, vs),
                runs_without_halt(ins, s0, vs),
                *output == *old(output),
                *input == *old(input),
                self.tape.size() >= old(self).tape.size(),
                forall|k: int|
                    0 <= k < vs.len() ==> {
                        let sk = #[trigger] run_with(ins, s0, vs.take(k));
                        &&& ins[sk.ip] is Input ==> call_ensures(*old(input), (), vs[k])
                        &&& emitted(ins, sk) matches Some(d) ==> call_ensures(
                            *old(output),
                            (d,),
                            (),
                        )
                    },
            decreases u64::MAX - count,
        {
            let ghost before = self.state();
            match self.step(output, input) {
                Ok(()) => {
                    let ghost v = choose|v: T::Data|
                        self.state() == next_state(ins, before, v) && (ins[before.ip] is Input
                            ==> call_ensures(*old(input), (), v));
                    proof {
                        let ghost next = vs.push(v);
                        assert(next.drop_last() =~= vs);
                        assert forall|k: int| 0 <= k < next.len() implies {
                            let sk = #[trigger] run_with(ins, s0, next.take(k));
                            &&& !halted(ins, sk)
                            &&& ins[sk.ip] is Input ==> call_ensures(*old(input), (), next[k])
                            &&& emitted(ins, sk) matches Some(d) ==> call_ensures(
                                *old(output),
                                (d,),
                                (),
                            )
                        } by {
                            if k < vs.len() {
                                assert(next.take(k) =~= vs.take(k));
                            } else {
                                assert(next.take(k) =~= vs);
                            }
                        }
                        vs = next;
                    }
                    count = count + 1;
                },
                Err(h) => {
                    assert(self.state() == run_with(ins, s0, vs));
                    assert(runs_without_halt(ins, s0, vs));
                    proof {
                        lemma_outputs_along(ins, s0, vs);
                    }
                    assert(forall|k: int|
                        0 <= k < vs.len() ==> {
                            let sk = #[trigger] run_with(ins, s0, vs.take(k));
                            &&& ins[sk.ip] is Input ==> call_ensures(*old(input), (), vs[k])
                            &&& emitted(ins, sk) matches Some(d) ==> call_ensures(
                                *old(output),
                                (d,),
                                (),
                            )
                        });
                    return Some(h);
                },
            }
        }
        proof {
            lemma_outputs_along(ins, s0, vs);
        }
        None
    }
}

} // verus!
