//! Program representation: the closed opcode set and instructions.

use vstd::prelude::*;

verus! {

/// The closed set of opcodes the machine understands.
///
/// `JMP` and `JZ` are declared but carry no execution or constraint
/// semantics: both the interpreter and the constraint synthesizer reject
/// them with a typed "unsupported opcode" error.
#[allow(non_camel_case_types)]
#[derive(Copy, Clone, Debug, PartialEq, Eq, Structural)]
pub enum Opcode {
    PUSH,
    POP,
    ADD,
    SUB,
    JMP,
    JZ,
    LOAD,
    STORE,
    HALT,
}

/// One instruction: an opcode plus an optional unsigned 32-bit operand.
#[derive(Copy, Clone, Debug, PartialEq, Eq, Structural)]
pub struct Instruction {
    pub opcode: Opcode,
    pub operand: Option<u32>,
}

/// Malformed program text, with the zero-based line it was found on.
#[derive(Copy, Clone, Debug, PartialEq, Eq, Structural)]
pub enum LoadError {
    /// The line's first token names no opcode.
    UnknownOpcode { line: usize },
    /// The line's second token is not an unsigned 32-bit decimal.
    BadOperand { line: usize },
}

/// What one line of program text denotes.
#[derive(Copy, Clone, Debug, PartialEq, Eq, Structural)]
pub enum LineKind {
    /// Blank, all whitespace, or a `#` comment: skipped.
    Blank,
    /// An instruction: `OPCODE` with an optional decimal `OPERAND`.
    Instr { instruction: Instruction },
    /// The first token names no opcode.
    BadOpcode,
    /// The second token is not an unsigned 32-bit decimal.
    BadOperand,
}

/// ASCII whitespace, as the tokenizer skips it.
pub open spec fn is_space(b: u8) -> bool {
    b == 32 || b == 9 || b == 10 || b == 11 || b == 12 || b == 13
}

/// The first index at or after `i` holding a non-space byte.
pub open spec fn ws_end(l: Seq<u8>, i: int) -> int
    decreases l.len() - i,
{
    if i < l.len() && is_space(l[i]) {
        ws_end(l, i + 1)
    } else {
        i
    }
}

/// The first index at or after `i` holding a space byte, or the end.
pub open spec fn tok_end(l: Seq<u8>, i: int) -> int
    decreases l.len() - i,
{
    if i < l.len() && !is_space(l[i]) {
        tok_end(l, i + 1)
    } else {
        i
    }
}

/// The opcode a token names, if any.
pub open spec fn opcode_of_token(t: Seq<u8>) -> Option<Opcode> {
    if t == seq![80u8, 85u8, 83u8, 72u8] {
        Some(Opcode::PUSH)
    } else if t == seq![80u8, 79u8, 80u8] {
        Some(Opcode::POP)
    } else if t == seq![65u8, 68u8, 68u8] {
        Some(Opcode::ADD)
    } else if t == seq![83u8, 85u8, 66u8] {
        Some(Opcode::SUB)
    } else if t == seq![74u8, 77u8, 80u8] {
        Some(Opcode::JMP)
    } else if t == seq![74u8, 90u8] {
        Some(Opcode::JZ)
    } else if t == seq![76u8, 79u8, 65u8, 68u8] {
        Some(Opcode::LOAD)
    } else if t == seq![83u8, 84u8, 79u8, 82u8, 69u8] {
        Some(Opcode::STORE)
    } else if t == seq![72u8, 65u8, 76u8, 84u8] {
        Some(Opcode::HALT)
    } else {
        None
    }
}

/// An ASCII decimal digit.
pub open spec fn is_digit(b: u8) -> bool {
    48 <= b <= 57
}

/// Every byte of a non-empty token is a decimal digit.
pub open spec fn all_digits(t: Seq<u8>) -> bool {
    t.len() > 0 && forall|k: int| 0 <= k < t.len() ==> is_digit(#[trigger] t[k])
}

/// The value of the first `j` digits of a token, most significant first.
pub open spec fn dec_val(t: Seq<u8>, j: int) -> nat
    decreases j,
{
    if j <= 0 {
        0
    } else {
        dec_val(t, j - 1) * 10 + (t[j - 1] - 48) as nat
    }
}

/// The operand a token denotes: defined exactly for non-empty all-digit
/// tokens whose value fits in 32 bits.
pub open spec fn token_operand(t: Seq<u8>) -> Option<u32> {
    if all_digits(t) && dec_val(t, t.len() as int) <= u32::MAX {
        Some(dec_val(t, t.len() as int) as u32)
    } else {
        None
    }
}

/// What one line denotes: a `#` in the first column or an all-space line
/// is skipped; otherwise the first token must name an opcode and the
/// second, if present, an unsigned 32-bit decimal operand; any further
/// tokens are ignored.
pub open spec fn line_kind(l: Seq<u8>) -> LineKind {
    if l.len() > 0 && l[0] == 35 {
        LineKind::Blank
    } else {
        let a = ws_end(l, 0);
        if a >= l.len() {
            LineKind::Blank
        } else {
            let b = tok_end(l, a);
            match opcode_of_token(l.subrange(a, b)) {
                None => LineKind::BadOpcode,
                Some(op) => {
                    let c = ws_end(l, b);
                    if c >= l.len() {
                        LineKind::Instr {
                            instruction: Instruction { opcode: op, operand: None },
                        }
                    } else {
                        let d = tok_end(l, c);
                        match token_operand(l.subrange(c, d)) {
                            Some(v) => LineKind::Instr {
                                instruction: Instruction { opcode: op, operand: Some(v) },
                            },
                            None => LineKind::BadOperand,
                        }
                    }
                },
            }
        }
    }
}

/// The program text's lines as byte sequences.
pub open spec fn lines_view(lines: Seq<Vec<u8>>) -> Seq<Seq<u8>> {
    lines.map_values(|l: Vec<u8>| l@)
}

/// The instructions the lines from `i` on denote, or the first error.
pub open spec fn parse_from(lines: Seq<Seq<u8>>, i: int) -> Result<Seq<Instruction>, LoadError>
    decreases lines.len() - i,
{
    if i < 0 || i >= lines.len() {
        Ok(Seq::empty())
    } else {
        match line_kind(lines[i]) {
            LineKind::Blank => parse_from(lines, i + 1),
            LineKind::Instr { instruction } => match parse_from(lines, i + 1) {
                Ok(rest) => Ok(seq![instruction] + rest),
                Err(e) => Err(e),
            },
            LineKind::BadOpcode => Err(LoadError::UnknownOpcode { line: i as usize }),
            LineKind::BadOperand => Err(LoadError::BadOperand { line: i as usize }),
        }
    }
}

/// A longer digit prefix never has a smaller value.
proof fn lemma_dec_val_monotone(t: Seq<u8>, j1: int, j2: int)
    requires
        0 <= j1 <= j2,
    ensures
        dec_val(t, j1) <= dec_val(t, j2),
    decreases j2 - j1,
{
    if j1 < j2 {
        lemma_dec_val_monotone(t, j1, j2 - 1);
    }
}

/// Whether the bytes `l[a..b]` name an opcode, as `opcode_of_token` says.
fn token_opcode(l: &Vec<u8>, a: usize, b: usize) -> (r: Option<Opcode>)
    requires
        a <= b <= l@.len(),
    ensures
        r == opcode_of_token(l@.subrange(a as int, b as int)),
{
    let ghost t = l@.subrange(a as int, b as int);
    let n = b - a;
    if n == 4 && l[a] == 80 && l[a + 1] == 85 && l[a + 2] == 83 && l[a + 3] == 72 {
        assert(t =~= seq![80u8, 85u8, 83u8, 72u8]);
        Some(Opcode::PUSH)
    } else if n == 3 && l[a] == 80 && l[a + 1] == 79 && l[a + 2] == 80 {
        assert(t =~= seq![80u8, 79u8, 80u8]);
        Some(Opcode::POP)
    } else if n == 3 && l[a] == 65 && l[a + 1] == 68 && l[a + 2] == 68 {
        assert(t =~= seq![65u8, 68u8, 68u8]);
        Some(Opcode::ADD)
    } else if n == 3 && l[a] == 83 && l[a + 1] == 85 && l[a + 2] == 66 {
        assert(t =~= seq![83u8, 85u8, 66u8]);
        Some(Opcode::SUB)
    } else if n == 3 && l[a] == 74 && l[a + 1] == 77 && l[a + 2] == 80 {
        assert(t =~= seq![74u8, 77u8, 80u8]);
        Some(Opcode::JMP)
    } else if n == 2 && l[a] == 74 && l[a + 1] == 90 {
        assert(t =~= seq![74u8, 90u8]);
        Some(Opcode::JZ)
    } else if n == 4 && l[a] == 76 && l[a + 1] == 79 && l[a + 2] == 65 && l[a + 3] == 68 {
        assert(t =~= seq![76u8, 79u8, 65u8, 68u8]);
        Some(Opcode::LOAD)
    } else if n == 5 && l[a] == 83 && l[a + 1] == 84 && l[a + 2] == 79 && l[a + 3] == 82 && l[a
        + 4] == 69 {
        assert(t =~= seq![83u8, 84u8, 79u8, 82u8, 69u8]);
        Some(Opcode::STORE)
    } else if n == 4 && l[a] == 72 && l[a + 1] == 65 && l[a + 2] == 76 && l[a + 3] == 84 {
        assert(t =~= seq![72u8, 65u8, 76u8, 84u8]);
        Some(Opcode::HALT)
    } else {
        proof {
            assert(t.len() == b - a);
            assert(forall|k: int| 0 <= k < t.len() ==> t[k] == l@[a + k]);
        }
        None
    }
}

/// The operand value of the bytes `l[c..d]`, as `token_operand` says.
#[verifier::loop_isolation(false)]
fn token_value(l: &Vec<u8>, c: usize, d: usize) -> (r: Option<u32>)
    requires
        c <= d <= l@.len(),
    ensures
        r == token_operand(l@.subrange(c as int, d as int)),
{
    let ghost t = l@.subrange(c as int, d as int);
    if c == d {
        assert(t.len() == 0);
        return None;
    }
    let mut acc: u64 = 0;
    let mut k: usize = c;
    while k < d
        invariant
            c <= k <= d,
            d <= l@.len(),
            acc == dec_val(t, k - c),
            acc <= u32::MAX,
            forall|p: int| 0 <= p < k - c ==> is_digit(#[trigger] t[p]),
        decreases d - k,
    {
        let byte = l[k];
        assert(t[k - c] == byte);
        if byte < 48 || byte > 57 {
            assert(!all_digits(t));
            return None;
        }
        acc = acc * 10 + ((byte - 48) as u64);
        assert(acc == dec_val(t, k + 1 - c));
        k = k + 1;
        if acc > 0xffff_ffff {
            proof {
                lemma_dec_val_monotone(t, k - c, t.len() as int);
            }
            return None;
        }
    }
    assert(all_digits(t));
    assert(acc == dec_val(t, t.len() as int));
    Some(acc as u32)
}

/// What one line of program text denotes, as `line_kind` says.
#[verifier::loop_isolation(false)]
pub fn classify_line(line: &Vec<u8>) -> (r: LineKind)
    ensures
        r == line_kind(line@),
{
    let n = line.len();
    if n > 0 && line[0] == 35 {
        return LineKind::Blank;
    }
    let mut a: usize = 0;
    while a < n && (line[a] == 32 || line[a] == 9 || line[a] == 10 || line[a] == 11 || line[a]
        == 12 || line[a] == 13)
        invariant
            a <= n,
            ws_end(line@, 0) == ws_end(line@, a as int),
        decreases n - a,
    {
        a = a + 1;
    }
    assert(ws_end(line@, 0) == a as int);
    if a == n {
        return LineKind::Blank;
    }
    let mut b: usize = a;
    while b < n && !(line[b] == 32 || line[b] == 9 || line[b] == 10 || line[b] == 11 || line[b]
        == 12 || line[b] == 13)
        invariant
            a <= b <= n,
            tok_end(line@, a as int) == tok_end(line@, b as int),
        decreases n - b,
    {
        b = b + 1;
    }
    assert(tok_end(line@, a as int) == b as int);
    let op = match token_opcode(line, a, b) {
        Some(op) => op,
        None => {
            return LineKind::BadOpcode;
        },
    };
    let mut c: usize = b;
    while c < n && (line[c] == 32 || line[c] == 9 || line[c] == 10 || line[c] == 11 || line[c]
        == 12 || line[c] == 13)
        invariant
            b <= c <= n,
            ws_end(line@, b as int) == ws_end(line@, c as int),
        decreases n - c,
    {
        c = c + 1;
    }
    assert(ws_end(line@, b as int) == c as int);
    if c == n {
        return LineKind::Instr { instruction: Instruction { opcode: op, operand: None } };
    }
    let mut d: usize = c;
    while d < n && !(line[d] == 32 || line[d] == 9 || line[d] == 10 || line[d] == 11 || line[d]
        == 12 || line[d] == 13)
        invariant
            c <= d <= n,
            tok_end(line@, c as int) == tok_end(line@, d as int),
        decreases n - d,
    {
        d = d + 1;
    }
    assert(tok_end(line@, c as int) == d as int);
    match token_value(line, c, d) {
        Some(v) => LineKind::Instr {
            instruction: Instruction { opcode: op, operand: Some(v) },
        },
        None => LineKind::BadOperand,
    }
}

/// Parse a program given as one byte vector per source line: blank lines
/// and `#` comments are skipped, every other line must read `OPCODE` with
/// an optional unsigned 32-bit decimal `OPERAND`. The first malformed line
/// is the result, as a typed error.
#[verifier::loop_isolation(false)]
pub fn parse_program(lines: &Vec<Vec<u8>>) -> (r: Result<Vec<Instruction>, LoadError>)
    ensures
        ({
            let spec_r = parse_from(lines_view(lines@), 0);
            match r {
                Ok(v) => spec_r is Ok && v@ =~= spec_r->Ok_0,
                Err(e) => spec_r == Err::<Seq<Instruction>, LoadError>(e),
            }
        }),
{
    let ghost lv = lines_view(lines@);
    let mut out: Vec<Instruction> = Vec::new();
    let n = lines.len();
    let mut i: usize = 0;
    while i < n
        invariant
            i <= n,
            n == lv.len(),
            parse_from(lv, i as int) is Ok ==> parse_from(lv, 0) is Ok && parse_from(lv, 0)->Ok_0
                =~= out@ + parse_from(lv, i as int)->Ok_0,
            parse_from(lv, i as int) is Err ==> parse_from(lv, 0) == parse_from(lv, i as int),
        decreases n - i,
    {
        let ghost pre = out@;
        match classify_line(&lines[i]) {
            LineKind::Blank => {},
            LineKind::Instr { instruction } => {
                out.push(instruction);
            },
            LineKind::BadOpcode => {
                return Err(LoadError::UnknownOpcode { line: i });
            },
            LineKind::BadOperand => {
                return Err(LoadError::BadOperand { line: i });
            },
        }
        proof {
            assert(lv[i as int] == lines@[i as int]@);
            if parse_from(lv, i + 1) is Ok {
                assert(parse_from(lv, 0)->Ok_0 =~= out@ + parse_from(lv, i + 1)->Ok_0);
            }
        }
        i = i + 1;
    }
    assert(parse_from(lv, n as int) is Ok);
    assert(parse_from(lv, n as int)->Ok_0 =~= Seq::<Instruction>::empty());
    assert(out@ + Seq::<Instruction>::empty() =~= out@);
    Ok(out)
}

} // verus!
