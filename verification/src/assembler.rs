//! The two-pass assembler: comment-free mnemonic source text in, a flat
//! binary instruction stream out, with symbolic labels resolved to absolute
//! 8-byte big-endian addresses by backpatching.

use vstd::prelude::*;

use crate::isa::{be_bytes, encode, pow256, store_bytes, width, Instr};

verus! {

/// A structured assembly error, identifying the offending line (1-based)
/// or, for resolution failures, the undeclared label.
#[derive(PartialEq, Eq, Debug)]
pub enum AsmError {
    /// A line ends before a required operand token.
    MissingOperand { line: usize },
    /// A token that must name a register does not.
    BadRegister { line: usize },
    /// A token that must name an operand type does not.
    BadType { line: usize },
    /// A numeric literal fails to parse or exceeds its operand width.
    BadLiteral { line: usize },
    /// A conditional jump's condition token is neither `true` nor `false`.
    BadCondition { line: usize },
    /// A label is referenced but never declared.
    LabelNotDeclared { name: Vec<u8> },
}

/// `AsmError` in specification terms.
pub enum SpecAsmError {
    MissingOperand { line: int },
    BadRegister { line: int },
    BadType { line: int },
    BadLiteral { line: int },
    BadCondition { line: int },
    LabelNotDeclared { name: Seq<u8> },
}

impl View for AsmError {
    type V = SpecAsmError;

    open spec fn view(&self) -> SpecAsmError {
        match self {
            AsmError::MissingOperand { line } => SpecAsmError::MissingOperand {
                line: *line as int,
            },
            AsmError::BadRegister { line } => SpecAsmError::BadRegister { line: *line as int },
            AsmError::BadType { line } => SpecAsmError::BadType { line: *line as int },
            AsmError::BadLiteral { line } => SpecAsmError::BadLiteral { line: *line as int },
            AsmError::BadCondition { line } => SpecAsmError::BadCondition { line: *line as int },
            AsmError::LabelNotDeclared { name } => SpecAsmError::LabelNotDeclared { name: name@ },
        }
    }
}

/// The views of a sequence of byte vectors.
pub open spec fn seqs_of(s: Seq<Vec<u8>>) -> Seq<Seq<u8>> {
    Seq::new(s.len(), |i: int| s[i]@)
}

/// Pushing a vector pushes its view.
proof fn lemma_seqs_of_push(s: Seq<Vec<u8>>, x: Vec<u8>)
    ensures
        seqs_of(s.push(x)) == seqs_of(s).push(x@),
{
    assert(seqs_of(s.push(x)) =~= seqs_of(s).push(x@));
}

/// The bytes Rust's whitespace splitting treats as blank, newline aside.
pub open spec fn is_ws(b: u8) -> bool {
    b == 32 || b == 9 || b == 11 || b == 12 || b == 13
}

/// The source's lines: split at each newline byte, a trailing fragment kept
/// only when it is non-empty.
pub open spec fn spec_lines_from(s: Seq<u8>, i: int, cur: Seq<u8>) -> Seq<Seq<u8>>
    decreases s.len() - i,
{
    if i < 0 || i >= s.len() {
        if cur.len() > 0 {
            seq![cur]
        } else {
            seq![]
        }
    } else if s[i] == 10 {
        seq![cur] + spec_lines_from(s, i + 1, seq![])
    } else {
        spec_lines_from(s, i + 1, cur.push(s[i]))
    }
}

pub open spec fn spec_lines(s: Seq<u8>) -> Seq<Seq<u8>> {
    spec_lines_from(s, 0, seq![])
}

/// One line's whitespace-separated tokens.
pub open spec fn spec_tokens_from(s: Seq<u8>, i: int, cur: Seq<u8>) -> Seq<Seq<u8>>
    decreases s.len() - i,
{
    if i < 0 || i >= s.len() {
        if cur.len() > 0 {
            seq![cur]
        } else {
            seq![]
        }
    } else if is_ws(s[i]) {
        if cur.len() > 0 {
            seq![cur] + spec_tokens_from(s, i + 1, seq![])
        } else {
            spec_tokens_from(s, i + 1, seq![])
        }
    } else {
        spec_tokens_from(s, i + 1, cur.push(s[i]))
    }
}

pub open spec fn spec_tokens(s: Seq<u8>) -> Seq<Seq<u8>> {
    spec_tokens_from(s, 0, seq![])
}

/// Split the source at newline bytes.
pub fn split_lines(src: &Vec<u8>) -> (lines: Vec<Vec<u8>>)
    ensures
        seqs_of(lines@) == spec_lines(src@),
{
    let mut lines: Vec<Vec<u8>> = Vec::new();
    let mut cur: Vec<u8> = Vec::new();
    let mut i: usize = 0;
    while i < src.len()
        invariant
            i <= src@.len(),
            spec_lines(src@) == seqs_of(lines@) + spec_lines_from(src@, i as int, cur@),
        decreases src@.len() - i,
    {
        let b = src[i];
        if b == 10 {
            let ghost pre = lines@;
            let ghost curv = cur@;
            proof {
                lemma_seqs_of_push(pre, cur);
                assert(seqs_of(pre).push(curv) + spec_lines_from(src@, i + 1, seq![]) =~= seqs_of(
                    pre,
                ) + (seq![curv] + spec_lines_from(src@, i + 1, seq![])));
            }
            lines.push(cur);
            cur = Vec::new();
        } else {
            cur.push(b);
        }
        i += 1;
    }
    if cur.len() > 0 {
        proof {
            lemma_seqs_of_push(lines@, cur);
            assert(seqs_of(lines@).push(cur@) =~= seqs_of(lines@) + seq![cur@]);
        }
        lines.push(cur);
    } else {
        proof {
            assert(seqs_of(lines@) + seq![] =~= seqs_of(lines@));
        }
    }
    lines
}

/// Split one line at whitespace.
pub fn tokenize_line(line: &Vec<u8>) -> (tokens: Vec<Vec<u8>>)
    ensures
        seqs_of(tokens@) == spec_tokens(line@),
        forall|j: int| 0 <= j < tokens@.len() ==> (#[trigger] tokens@[j])@.len() > 0,
{
    let mut tokens: Vec<Vec<u8>> = Vec::new();
    let mut cur: Vec<u8> = Vec::new();
    let mut i: usize = 0;
    while i < line.len()
        invariant
            i <= line@.len(),
            spec_tokens(line@) == seqs_of(tokens@) + spec_tokens_from(line@, i as int, cur@),
            forall|j: int| 0 <= j < tokens@.len() ==> (#[trigger] tokens@[j])@.len() > 0,
        decreases line@.len() - i,
    {
        let b = line[i];
        if b == 32 || b == 9 || b == 11 || b == 12 || b == 13 {
            if cur.len() > 0 {
                let ghost pre = tokens@;
                let ghost curv = cur@;
                proof {
                    lemma_seqs_of_push(pre, cur);
                    assert(seqs_of(pre).push(curv) + spec_tokens_from(line@, i + 1, seq![])
                        =~= seqs_of(pre) + (seq![curv] + spec_tokens_from(line@, i + 1, seq![])));
                }
                tokens.push(cur);
                cur = Vec::new();
                proof {
                    assert(cur@ =~= seq![]);
                }
            } else {
                proof {
                    assert(cur@ =~= seq![]);
                }
            }
        } else {
            cur.push(b);
        }
        i += 1;
    }
    if cur.len() > 0 {
        proof {
            lemma_seqs_of_push(tokens@, cur);
            assert(seqs_of(tokens@).push(cur@) =~= seqs_of(tokens@) + seq![cur@]);
        }
        tokens.push(cur);
    } else {
        proof {
            assert(seqs_of(tokens@) + seq![] =~= seqs_of(tokens@));
        }
    }
    tokens
}

/// The register-naming surface: `a`..`n` are the fourteen general-purpose
/// registers 0..13, `pc` the program counter, `sp` the stack pointer.
pub open spec fn spec_register_index(t: Seq<u8>) -> Option<u8> {
    if t.len() == 1 && 97 <= t[0] <= 110 {
        Some((t[0] - 97) as u8)
    } else if t.len() == 2 && t[0] == 112 && t[1] == 99 {
        Some(14)
    } else if t.len() == 2 && t[0] == 115 && t[1] == 112 {
        Some(15)
    } else {
        None
    }
}

/// Register index of a token, if it names one.
pub fn register_name_to_index(t: &Vec<u8>) -> (r: Option<u8>)
    ensures
        r == spec_register_index(t@),
{
    if t.len() == 1 && 97 <= t[0] && t[0] <= 110 {
        // 'a' .. 'n'
        Some(t[0] - 97)
    } else if t.len() == 2 && t[0] == 112 && t[1] == 99 {
        // "pc"
        Some(14)
    } else if t.len() == 2 && t[0] == 115 && t[1] == 112 {
        // "sp"
        Some(15)
    } else {
        None
    }
}

pub open spec fn is_word_byte(t: Seq<u8>) -> bool {
    t.len() == 4 && t[0] == 98 && t[1] == 121 && t[2] == 116 && t[3] == 101
}

pub open spec fn is_word_dbyte(t: Seq<u8>) -> bool {
    t.len() == 5 && t[0] == 100 && t[1] == 98 && t[2] == 121 && t[3] == 116 && t[4] == 101
}

pub open spec fn is_word_qbyte(t: Seq<u8>) -> bool {
    t.len() == 5 && t[0] == 113 && t[1] == 98 && t[2] == 121 && t[3] == 116 && t[4] == 101
}

pub open spec fn is_word_obyte(t: Seq<u8>) -> bool {
    t.len() == 5 && t[0] == 111 && t[1] == 98 && t[2] == 121 && t[3] == 116 && t[4] == 101
}

/// The type-naming surface: `byte`, `dbyte`, `qbyte`, `obyte` are the type
/// tags 0..3.
pub open spec fn spec_type_index(t: Seq<u8>) -> Option<u8> {
    if is_word_byte(t) {
        Some(0)
    } else if is_word_dbyte(t) {
        Some(1)
    } else if is_word_qbyte(t) {
        Some(2)
    } else if is_word_obyte(t) {
        Some(3)
    } else {
        None
    }
}

/// Type tag of a token, if it names an operand type.
pub fn type_name_to_index(t: &Vec<u8>) -> (r: Option<u8>)
    ensures
        r == spec_type_index(t@),
{
    let n = t.len();
    if n == 4 && t[0] == 98 && t[1] == 121 && t[2] == 116 && t[3] == 101 {
        // "byte"
        Some(0)
    } else if n == 5 && t[0] == 100 && t[1] == 98 && t[2] == 121 && t[3] == 116 && t[4] == 101 {
        // "dbyte"
        Some(1)
    } else if n == 5 && t[0] == 113 && t[1] == 98 && t[2] == 121 && t[3] == 116 && t[4] == 101 {
        // "qbyte"
        Some(2)
    } else if n == 5 && t[0] == 111 && t[1] == 98 && t[2] == 121 && t[3] == 116 && t[4] == 101 {
        // "obyte"
        Some(3)
    } else {
        None
    }
}

pub open spec fn is_digit(b: u8) -> bool {
    48 <= b <= 57
}

pub open spec fn all_digits(s: Seq<u8>) -> bool {
    forall|i: int| 0 <= i < s.len() ==> is_digit(#[trigger] s[i])
}

/// The value of a digit string.
pub open spec fn digits_val(s: Seq<u8>) -> nat
    decreases s.len(),
{
    if s.len() == 0 {
        0
    } else {
        (digits_val(s.drop_last()) * 10 + (s.last() - 48)) as nat
    }
}

/// The digits of a numeric token: an optional leading `+` sign is skipped,
/// as Rust's unsigned parsing skips it.
pub open spec fn digits_part(t: Seq<u8>) -> Seq<u8> {
    if t.len() >= 1 && t[0] == 43 {
        t.drop_first()
    } else {
        t
    }
}

/// Parsing a token as an unsigned integer no greater than `max`: the
/// digits' value, or nothing when the token is empty, has a non-digit, or
/// exceeds `max`.
pub open spec fn spec_parse_int(t: Seq<u8>, max: nat) -> Option<u64> {
    let d = digits_part(t);
    if d.len() == 0 || !all_digits(d) || digits_val(d) > max {
        None
    } else {
        Some(digits_val(d) as u64)
    }
}

/// A digit string's value only grows as digits are appended.
proof fn lemma_digits_val_take(s: Seq<u8>, j: int)
    requires
        0 <= j <= s.len(),
        all_digits(s),
    ensures
        digits_val(s.take(j)) <= digits_val(s),
    decreases s.len(),
{
    if j < s.len() {
        assert(s.take(j) =~= s.drop_last().take(j));
        assert(all_digits(s.drop_last()));
        lemma_digits_val_take(s.drop_last(), j);
        assert(is_digit(s.last()));
        assert(digits_val(s) >= digits_val(s.drop_last()));
    } else {
        assert(s.take(j) =~= s);
    }
}

/// Parse a token as an unsigned integer bounded by `max`.
pub fn parse_int(t: &Vec<u8>, max: u64) -> (r: Option<u64>)
    ensures
        r == spec_parse_int(t@, max as nat),
{
    let ghost d = digits_part(t@);
    let start: usize = if t.len() >= 1 && t[0] == 43 {
        1
    } else {
        0
    };
    proof {
        assert(d.len() == t@.len() - start);
        assert(forall|k: int| 0 <= k < d.len() ==> d[k] == t@[k + start]);
    }
    if t.len() == start {
        return None;
    }
    let mut v: u64 = 0;
    let mut i: usize = start;
    while i < t.len()
        invariant
            start <= i <= t@.len(),
            start <= 1,
            d == digits_part(t@),
            d.len() == t@.len() - start,
            forall|k: int| 0 <= k < d.len() ==> d[k] == t@[k + start],
            all_digits(d.take(i - start)),
            v == digits_val(d.take(i - start)),
            v <= max,
        decreases t@.len() - i,
    {
        let b = t[i];
        if b < 48 || b > 57 {
            proof {
                assert(!is_digit(d[i - start]));
            }
            return None;
        }
        let dig = (b - 48) as u64;
        proof {
            assert(d.take(i - start + 1).drop_last() =~= d.take(i - start));
            assert(d.take(i - start + 1).last() == d[i - start]);
        }
        if v > max / 10 || (v == max / 10 && dig > max % 10) {
            proof {
                assert(digits_val(d.take(i - start + 1)) == v * 10 + dig);
                assert(v * 10 + dig > max) by {
                    assert(max == (max / 10) * 10 + max % 10);
                };
                if all_digits(d) {
                    lemma_digits_val_take(d, i - start + 1);
                }
            }
            return None;
        }
        proof {
            assert(v * 10 + dig <= max) by {
                assert(max == (max / 10) * 10 + max % 10);
            };
        }
        v = v * 10 + dig;
        i += 1;
    }
    proof {
        assert(d.take(t@.len() - start) =~= d);
    }
    Some(v)
}

pub open spec fn is_word_true(t: Seq<u8>) -> bool {
    t.len() == 4 && t[0] == 116 && t[1] == 114 && t[2] == 117 && t[3] == 101
}

pub open spec fn is_word_false(t: Seq<u8>) -> bool {
    t.len() == 5 && t[0] == 102 && t[1] == 97 && t[2] == 108 && t[3] == 115 && t[4] == 101
}

/// Parsing a token as a boolean: exactly `true` or `false`.
pub open spec fn spec_parse_bool(t: Seq<u8>) -> Option<bool> {
    if is_word_true(t) {
        Some(true)
    } else if is_word_false(t) {
        Some(false)
    } else {
        None
    }
}

/// Parse a token as a boolean condition.
pub fn parse_bool(t: &Vec<u8>) -> (r: Option<bool>)
    ensures
        r == spec_parse_bool(t@),
{
    let n = t.len();
    if n == 4 && t[0] == 116 && t[1] == 114 && t[2] == 117 && t[3] == 101 {
        // "true"
        Some(true)
    } else if n == 5 && t[0] == 102 && t[1] == 97 && t[2] == 108 && t[3] == 115 && t[4] == 101 {
        // "false"
        Some(false)
    } else {
        None
    }
}

/// What a line's first token selects.
pub enum Mnemonic {
    Move,
    Read,
    Write,
    Push,
    Pop,
    Jump,
    Add,
    Sub,
    Mul,
    Div,
    Equal,
    Less,
    Not,
    And,
    Or,
    Xor,
    ByteData,
    DbyteData,
    QbyteData,
    ObyteData,
    LabelDecl,
    Other,
}

pub open spec fn is_word_move(t: Seq<u8>) -> bool {
    t.len() == 4 && t[0] == 109 && t[1] == 111 && t[2] == 118 && t[3] == 101
}

pub open spec fn is_word_read(t: Seq<u8>) -> bool {
    t.len() == 4 && t[0] == 114 && t[1] == 101 && t[2] == 97 && t[3] == 100
}

pub open spec fn is_word_write(t: Seq<u8>) -> bool {
    t.len() == 5 && t[0] == 119 && t[1] == 114 && t[2] == 105 && t[3] == 116 && t[4] == 101
}

pub open spec fn is_word_push(t: Seq<u8>) -> bool {
    t.len() == 4 && t[0] == 112 && t[1] == 117 && t[2] == 115 && t[3] == 104
}

pub open spec fn is_word_pop(t: Seq<u8>) -> bool {
    t.len() == 3 && t[0] == 112 && t[1] == 111 && t[2] == 112
}

pub open spec fn is_word_jump(t: Seq<u8>) -> bool {
    t.len() == 4 && t[0] == 106 && t[1] == 117 && t[2] == 109 && t[3] == 112
}

pub open spec fn is_word_add(t: Seq<u8>) -> bool {
    t.len() == 3 && t[0] == 97 && t[1] == 100 && t[2] == 100
}

pub open spec fn is_word_sub(t: Seq<u8>) -> bool {
    t.len() == 3 && t[0] == 115 && t[1] == 117 && t[2] == 98
}

pub open spec fn is_word_mul(t: Seq<u8>) -> bool {
    t.len() == 3 && t[0] == 109 && t[1] == 117 && t[2] == 108
}

pub open spec fn is_word_div(t: Seq<u8>) -> bool {
    t.len() == 3 && t[0] == 100 && t[1] == 105 && t[2] == 118
}

pub open spec fn is_word_equal(t: Seq<u8>) -> bool {
    t.len() == 5 && t[0] == 101 && t[1] == 113 && t[2] == 117 && t[3] == 97 && t[4] == 108
}

pub open spec fn is_word_less(t: Seq<u8>) -> bool {
    t.len() == 4 && t[0] == 108 && t[1] == 101 && t[2] == 115 && t[3] == 115
}

pub open spec fn is_word_not(t: Seq<u8>) -> bool {
    t.len() == 3 && t[0] == 110 && t[1] == 111 && t[2] == 116
}

pub open spec fn is_word_and(t: Seq<u8>) -> bool {
    t.len() == 3 && t[0] == 97 && t[1] == 110 && t[2] == 100
}

pub open spec fn is_word_or(t: Seq<u8>) -> bool {
    t.len() == 2 && t[0] == 111 && t[1] == 114
}

pub open spec fn is_word_xor(t: Seq<u8>) -> bool {
    t.len() == 3 && t[0] == 120 && t[1] == 111 && t[2] == 114
}

/// The instruction or directive a line's first token selects: a known
/// mnemonic, a data directive, a label declaration (leading `:`), or
/// nothing, in which case the line is ignored.
pub open spec fn spec_mnemonic_of(t: Seq<u8>) -> Mnemonic {
    if is_word_move(t) {
        Mnemonic::Move
    } else if is_word_read(t) {
        Mnemonic::Read
    } else if is_word_write(t) {
        Mnemonic::Write
    } else if is_word_push(t) {
        Mnemonic::Push
    } else if is_word_pop(t) {
        Mnemonic::Pop
    } else if is_word_jump(t) {
        Mnemonic::Jump
    } else if is_word_add(t) {
        Mnemonic::Add
    } else if is_word_sub(t) {
        Mnemonic::Sub
    } else if is_word_mul(t) {
        Mnemonic::Mul
    } else if is_word_div(t) {
        Mnemonic::Div
    } else if is_word_equal(t) {
        Mnemonic::Equal
    } else if is_word_less(t) {
        Mnemonic::Less
    } else if is_word_not(t) {
        Mnemonic::Not
    } else if is_word_and(t) {
        Mnemonic::And
    } else if is_word_or(t) {
        Mnemonic::Or
    } else if is_word_xor(t) {
        Mnemonic::Xor
    } else if is_word_byte(t) {
        Mnemonic::ByteData
    } else if is_word_dbyte(t) {
        Mnemonic::DbyteData
    } else if is_word_qbyte(t) {
        Mnemonic::QbyteData
    } else if is_word_obyte(t) {
        Mnemonic::ObyteData
    } else if t.len() >= 1 && t[0] == 58 {
        Mnemonic::LabelDecl
    } else {
        Mnemonic::Other
    }
}

/// Select by a line's first token.
pub fn mnemonic_of(t: &Vec<u8>) -> (m: Mnemonic)
    ensures
        m == spec_mnemonic_of(t@),
{
    let n = t.len();
    if n == 4 && t[0] == 109 && t[1] == 111 && t[2] == 118 && t[3] == 101 {
        Mnemonic::Move  // "move"
    } else if n == 4 && t[0] == 114 && t[1] == 101 && t[2] == 97 && t[3] == 100 {
        Mnemonic::Read  // "read"
    } else if n == 5 && t[0] == 119 && t[1] == 114 && t[2] == 105 && t[3] == 116 && t[4] == 101 {
        Mnemonic::Write  // "write"
    } else if n == 4 && t[0] == 112 && t[1] == 117 && t[2] == 115 && t[3] == 104 {
        Mnemonic::Push  // "push"
    } else if n == 3 && t[0] == 112 && t[1] == 111 && t[2] == 112 {
        Mnemonic::Pop  // "pop"
    } else if n == 4 && t[0] == 106 && t[1] == 117 && t[2] == 109 && t[3] == 112 {
        Mnemonic::Jump  // "jump"
    } else if n == 3 && t[0] == 97 && t[1] == 100 && t[2] == 100 {
        Mnemonic::Add  // "add"
    } else if n == 3 && t[0] == 115 && t[1] == 117 && t[2] == 98 {
        Mnemonic::Sub  // "sub"
    } else if n == 3 && t[0] == 109 && t[1] == 117 && t[2] == 108 {
        Mnemonic::Mul  // "mul"
    } else if n == 3 && t[0] == 100 && t[1] == 105 && t[2] == 118 {
        Mnemonic::Div  // "div"
    } else if n == 5 && t[0] == 101 && t[1] == 113 && t[2] == 117 && t[3] == 97 && t[4] == 108 {
        Mnemonic::Equal  // "equal"
    } else if n == 4 && t[0] == 108 && t[1] == 101 && t[2] == 115 && t[3] == 115 {
        Mnemonic::Less  // "less"
    } else if n == 3 && t[0] == 110 && t[1] == 111 && t[2] == 116 {
        Mnemonic::Not  // "not"
    } else if n == 3 && t[0] == 97 && t[1] == 110 && t[2] == 100 {
        Mnemonic::And  // "and"
    } else if n == 2 && t[0] == 111 && t[1] == 114 {
        Mnemonic::Or  // "or"
    } else if n == 3 && t[0] == 120 && t[1] == 111 && t[2] == 114 {
        Mnemonic::Xor  // "xor"
    } else if n == 4 && t[0] == 98 && t[1] == 121 && t[2] == 116 && t[3] == 101 {
        Mnemonic::ByteData  // "byte"
    } else if n == 5 && t[0] == 100 && t[1] == 98 && t[2] == 121 && t[3] == 116 && t[4] == 101 {
        Mnemonic::DbyteData  // "dbyte"
    } else if n == 5 && t[0] == 113 && t[1] == 98 && t[2] == 121 && t[3] == 116 && t[4] == 101 {
        Mnemonic::QbyteData  // "qbyte"
    } else if n == 5 && t[0] == 111 && t[1] == 98 && t[2] == 121 && t[3] == 116 && t[4] == 101 {
        Mnemonic::ObyteData  // "obyte"
    } else if n >= 1 && t[0] == 58 {
        Mnemonic::LabelDecl  // leading ':'
    } else {
        Mnemonic::Other
    }
}

/// The largest literal an operand width holds.
pub open spec fn type_max(ty: u8) -> nat {
    (pow256(width(ty)) - 1) as nat
}

/// Executable form of `type_max`.
pub fn type_max_of(ty: u8) -> (m: u64)
    requires
        ty <= 3,
    ensures
        m as nat == type_max(ty),
{
    proof {
        crate::isa::lemma_pow256_values();
    }
    if ty == 0 {
        255
    } else if ty == 1 {
        65535
    } else if ty == 2 {
        4294967295
    } else {
        18446744073709551615
    }
}

/// The bytes a `move` line emits, or its error.
pub open spec fn spec_move_line(toks: Seq<Seq<u8>>, ln: int) -> Result<Seq<u8>, SpecAsmError> {
    if toks.len() < 2 {
        Err(SpecAsmError::MissingOperand { line: ln })
    } else {
        match spec_register_index(toks[1]) {
            Some(dst) => if toks.len() < 3 {
                Err(SpecAsmError::MissingOperand { line: ln })
            } else {
                match spec_register_index(toks[2]) {
                    None => Err(SpecAsmError::BadRegister { line: ln }),
                    Some(src) => Ok(encode(Instr::MoveReg { dst, src })),
                }
            },
            None => if toks.len() < 3 {
                Err(SpecAsmError::MissingOperand { line: ln })
            } else {
                match spec_register_index(toks[2]) {
                    None => Err(SpecAsmError::BadRegister { line: ln }),
                    Some(reg) => match spec_type_index(toks[1]) {
                        None => Err(SpecAsmError::BadType { line: ln }),
                        Some(ty) => if toks.len() < 4 {
                            Err(SpecAsmError::MissingOperand { line: ln })
                        } else if ty == 0 {
                            let v = match spec_parse_int(toks[3], 255) {
                                Some(v) => v,
                                None => toks[3][0] as u64,
                            };
                            Ok(encode(Instr::MoveLit { ty: 0, reg, value: v }))
                        } else {
                            match spec_parse_int(toks[3], type_max(ty)) {
                                None => Err(SpecAsmError::BadLiteral { line: ln }),
                                Some(v) => Ok(encode(Instr::MoveLit { ty, reg, value: v })),
                            }
                        },
                    },
                }
            },
        }
    }
}

/// The bytes a `read` line emits, or its error.
pub open spec fn spec_read_line(toks: Seq<Seq<u8>>, ln: int) -> Result<Seq<u8>, SpecAsmError> {
    if toks.len() < 3 {
        Err(SpecAsmError::MissingOperand { line: ln })
    } else {
        match spec_register_index(toks[2]) {
            None => Err(SpecAsmError::BadRegister { line: ln }),
            Some(reg) => if toks.len() < 4 {
                Err(SpecAsmError::MissingOperand { line: ln })
            } else {
                match spec_register_index(toks[3]) {
                    Some(addr_reg) => match spec_type_index(toks[1]) {
                        None => Err(SpecAsmError::BadType { line: ln }),
                        Some(ty) => Ok(encode(Instr::ReadReg { ty, reg, addr_reg })),
                    },
                    None => match spec_parse_int(toks[3], 0xFFFF_FFFF_FFFF_FFFF) {
                        None => Err(SpecAsmError::BadLiteral { line: ln }),
                        Some(addr) => match spec_type_index(toks[1]) {
                            None => Err(SpecAsmError::BadType { line: ln }),
                            Some(ty) => Ok(encode(Instr::ReadAddr { ty, reg, addr })),
                        },
                    },
                }
            },
        }
    }
}

/// The bytes a `write` line emits, or its error.
pub open spec fn spec_write_line(toks: Seq<Seq<u8>>, ln: int) -> Result<Seq<u8>, SpecAsmError> {
    if toks.len() < 2 {
        Err(SpecAsmError::MissingOperand { line: ln })
    } else {
        match spec_type_index(toks[1]) {
            None => Err(SpecAsmError::BadType { line: ln }),
            Some(ty) => if toks.len() < 3 {
                Err(SpecAsmError::MissingOperand { line: ln })
            } else {
                match spec_register_index(toks[2]) {
                    None => Err(SpecAsmError::BadRegister { line: ln }),
                    Some(reg) => if toks.len() < 4 {
                        Err(SpecAsmError::MissingOperand { line: ln })
                    } else {
                        match spec_register_index(toks[3]) {
                            Some(addr_reg) => Ok(encode(Instr::WriteReg { ty, reg, addr_reg })),
                            None => match spec_parse_int(toks[3], 0xFFFF_FFFF_FFFF_FFFF) {
                                None => Err(SpecAsmError::BadLiteral { line: ln }),
                                Some(addr) => Ok(encode(Instr::WriteAddr { ty, reg, addr })),
                            },
                        }
                    },
                }
            },
        }
    }
}

/// The bytes a `push` line emits, or its error.
pub open spec fn spec_push_line(toks: Seq<Seq<u8>>, ln: int) -> Result<Seq<u8>, SpecAsmError> {
    if toks.len() < 3 {
        Err(SpecAsmError::MissingOperand { line: ln })
    } else {
        match spec_register_index(toks[2]) {
            Some(reg) => match spec_type_index(toks[1]) {
                None => Err(SpecAsmError::BadType { line: ln }),
                Some(ty) => Ok(encode(Instr::PushReg { ty, reg })),
            },
            None => match spec_type_index(toks[1]) {
                None => Err(SpecAsmError::BadType { line: ln }),
                Some(ty) => match spec_parse_int(toks[2], type_max(ty)) {
                    None => Err(SpecAsmError::BadLiteral { line: ln }),
                    Some(v) => Ok(encode(Instr::PushLit { ty, value: v })),
                },
            },
        }
    }
}

/// The bytes a `pop` line emits, or its error.
pub open spec fn spec_pop_line(toks: Seq<Seq<u8>>, ln: int) -> Result<Seq<u8>, SpecAsmError> {
    if toks.len() < 3 {
        Err(SpecAsmError::MissingOperand { line: ln })
    } else {
        match spec_type_index(toks[1]) {
            None => Err(SpecAsmError::BadType { line: ln }),
            Some(ty) => match spec_register_index(toks[2]) {
                None => Err(SpecAsmError::BadRegister { line: ln }),
                Some(reg) => Ok(encode(Instr::Pop { ty, reg })),
            },
        }
    }
}

/// The bytes a data directive line (`byte`, `dbyte`, `qbyte`, `obyte` as the
/// first token) emits, or its error.
pub open spec fn spec_data_line(toks: Seq<Seq<u8>>, ln: int, ty: u8) -> Result<
    Seq<u8>,
    SpecAsmError,
> {
    if toks.len() < 2 {
        Err(SpecAsmError::MissingOperand { line: ln })
    } else {
        match spec_parse_int(toks[1], type_max(ty)) {
            None => Err(SpecAsmError::BadLiteral { line: ln }),
            Some(v) => Ok(be_bytes(v as nat, width(ty))),
        }
    }
}

/// A `jump` label reference's name: the token, its label-marker sigil
/// stripped when it carries one, so that `jump :target` and `jump target`
/// both reach the label `:target` declares.
pub open spec fn label_ref_name(t: Seq<u8>) -> Seq<u8> {
    if t.len() >= 1 && t[0] == 58 {
        t.drop_first()
    } else {
        t
    }
}

/// The bytes a `jump` line emits together with the pending label references
/// it records (label name, byte offset of the 8-byte address placeholder),
/// or its error. `offset` is the output offset the line starts at.
pub open spec fn spec_jump_line(toks: Seq<Seq<u8>>, ln: int, offset: int) -> Result<
    (Seq<u8>, Seq<(Seq<u8>, int)>),
    SpecAsmError,
> {
    if toks.len() < 2 {
        Err(SpecAsmError::MissingOperand { line: ln })
    } else {
        let t1 = toks[1];
        match spec_parse_int(t1, 0xFFFF_FFFF_FFFF_FFFF) {
            Some(addr) => if toks.len() >= 3 {
                match spec_parse_bool(toks[2]) {
                    None => Err(SpecAsmError::BadCondition { line: ln }),
                    Some(c) => Ok(
                        (
                            encode(
                                Instr::JumpIf {
                                    cond: if c {
                                        1
                                    } else {
                                        0
                                    },
                                    addr,
                                },
                            ),
                            seq![],
                        ),
                    ),
                }
            } else {
                Ok((encode(Instr::Jump { addr }), seq![]))
            },
            None => match spec_register_index(t1) {
                Some(reg) => if toks.len() >= 3 {
                    match spec_parse_bool(toks[2]) {
                        None => Err(SpecAsmError::BadCondition { line: ln }),
                        Some(c) => Ok(
                            (
                                encode(
                                    Instr::JumpIfReg {
                                        cond: if c {
                                            1
                                        } else {
                                            0
                                        },
                                        reg,
                                    },
                                ),
                                seq![],
                            ),
                        ),
                    }
                } else {
                    Ok((encode(Instr::JumpReg { reg }), seq![]))
                },
                None => if toks.len() >= 3 {
                    match spec_parse_bool(toks[2]) {
                        None => Err(SpecAsmError::BadCondition { line: ln }),
                        Some(c) => Ok(
                            (
                                encode(
                                    Instr::JumpIf {
                                        cond: if c {
                                            1
                                        } else {
                                            0
                                        },
                                        addr: 0,
                                    },
                                ),
                                seq![(label_ref_name(t1), offset + 2)],
                            ),
                        ),
                    }
                } else {
                    Ok((encode(Instr::Jump { addr: 0 }), seq![(label_ref_name(t1), offset + 1)]))
                },
            },
        }
    }
}

/// Every pending reference a `jump` line records lies fully inside the
/// bytes the line itself emits.
proof fn lemma_jump_pending_bounds(toks: Seq<Seq<u8>>, ln: int, offset: int)
    ensures
        spec_jump_line(toks, ln, offset) matches Ok(p) ==> forall|q: int|
            0 <= q < p.1.len() ==> offset <= (#[trigger] p.1[q]).1 && p.1[q].1 + 8 <= offset
                + p.0.len(),
{
    crate::isa::lemma_be_bytes_len(0, 8);
}

/// How an emitting line's executable result must relate to its
/// specification: on success the emitted bytes are appended and counted
/// exactly; on an error nothing is appended.
pub open spec fn emits(
    r: Result<usize, AsmError>,
    sr: Result<Seq<u8>, SpecAsmError>,
    pre: Seq<u8>,
    post: Seq<u8>,
) -> bool {
    match r {
        Ok(n) => sr matches Ok(b) && post == pre + b && n == b.len(),
        Err(e) => sr == Err::<Seq<u8>, SpecAsmError>(e@) && post == pre,
    }
}

/// Tokens all lines hand to the emitting functions are non-empty.
pub open spec fn toks_nonempty(toks: Seq<Seq<u8>>) -> bool {
    forall|j: int| 0 <= j < toks.len() ==> (#[trigger] toks[j]).len() > 0
}

/// Emit a `move` line: register to register, or a literal of the tagged
/// width into a register. Returns the number of bytes written, which always
/// equals the number appended to `out`.
pub fn move_instruction(tokens: &Vec<Vec<u8>>, line: usize, out: &mut Vec<u8>) -> (r: Result<
    usize,
    AsmError,
>)
    requires
        toks_nonempty(seqs_of(tokens@)),
    ensures
        emits(r, spec_move_line(seqs_of(tokens@), line as int), old(out)@, final(out)@),
{
    let ghost toks = seqs_of(tokens@);
    proof {
        crate::isa::lemma_pow256_values();
    }
    if tokens.len() < 2 {
        return Err(AsmError::MissingOperand { line });
    }
    if let Some(dst) = register_name_to_index(&tokens[1]) {
        if tokens.len() < 3 {
            return Err(AsmError::MissingOperand { line });
        }
        match register_name_to_index(&tokens[2]) {
            None => Err(AsmError::BadRegister { line }),
            Some(src) => {
                out.push(1);
                out.push(dst * 16 + src);
                proof {
                    assert(out@ =~= old(out)@ + encode(Instr::MoveReg { dst, src }));
                }
                Ok(2)
            },
        }
    } else {
        if tokens.len() < 3 {
            return Err(AsmError::MissingOperand { line });
        }
        let reg = match register_name_to_index(&tokens[2]) {
            None => {
                return Err(AsmError::BadRegister { line });
            },
            Some(reg) => reg,
        };
        let ty = match type_name_to_index(&tokens[1]) {
            None => {
                return Err(AsmError::BadType { line });
            },
            Some(ty) => ty,
        };
        if tokens.len() < 4 {
            return Err(AsmError::MissingOperand { line });
        }
        let max = type_max_of(ty);
        let value: u64 = match parse_int(&tokens[3], max) {
            Some(v) => v,
            None => {
                if ty != 0 {
                    return Err(AsmError::BadLiteral { line });
                }
                tokens[3][0] as u64
            },
        };
        let w = crate::isa::width_of(ty);
        out.push(2);
        out.push(ty);
        out.push(reg);
        crate::isa::push_be(out, value, w);
        proof {
            crate::isa::lemma_be_bytes_len(value as nat, w as nat);
            assert(out@ =~= old(out)@ + encode(Instr::MoveLit { ty, reg, value }));
        }
        Ok(3 + w)
    }
}

/// Emit a `read` line: a memory value of the tagged width into a register,
/// the address absolute or held in a register.
pub fn read_instruction(tokens: &Vec<Vec<u8>>, line: usize, out: &mut Vec<u8>) -> (r: Result<
    usize,
    AsmError,
>)
    ensures
        emits(r, spec_read_line(seqs_of(tokens@), line as int), old(out)@, final(out)@),
{
    let ghost toks = seqs_of(tokens@);
    if tokens.len() < 3 {
        return Err(AsmError::MissingOperand { line });
    }
    let reg = match register_name_to_index(&tokens[2]) {
        None => {
            return Err(AsmError::BadRegister { line });
        },
        Some(reg) => reg,
    };
    if tokens.len() < 4 {
        return Err(AsmError::MissingOperand { line });
    }
    if let Some(addr_reg) = register_name_to_index(&tokens[3]) {
        let ty = match type_name_to_index(&tokens[1]) {
            None => {
                return Err(AsmError::BadType { line });
            },
            Some(ty) => ty,
        };
        out.push(4);
        out.push(ty);
        out.push(reg * 16 + addr_reg);
        proof {
            assert(out@ =~= old(out)@ + encode(Instr::ReadReg { ty, reg, addr_reg }));
        }
        Ok(3)
    } else {
        let addr = match parse_int(&tokens[3], 18446744073709551615) {
            None => {
                return Err(AsmError::BadLiteral { line });
            },
            Some(addr) => addr,
        };
        let ty = match type_name_to_index(&tokens[1]) {
            None => {
                return Err(AsmError::BadType { line });
            },
            Some(ty) => ty,
        };
        out.push(3);
        out.push(ty);
        out.push(reg);
        crate::isa::push_be(out, addr, 8);
        proof {
            crate::isa::lemma_be_bytes_len(addr as nat, 8);
            assert(out@ =~= old(out)@ + encode(Instr::ReadAddr { ty, reg, addr }));
        }
        Ok(11)
    }
}

/// Emit a `write` line: a register's value, truncated to the tagged width,
/// to memory, the address absolute or held in a register.
pub fn write_instruction(tokens: &Vec<Vec<u8>>, line: usize, out: &mut Vec<u8>) -> (r: Result<
    usize,
    AsmError,
>)
    ensures
        emits(r, spec_write_line(seqs_of(tokens@), line as int), old(out)@, final(out)@),
{
    let ghost toks = seqs_of(tokens@);
    if tokens.len() < 2 {
        return Err(AsmError::MissingOperand { line });
    }
    let ty = match type_name_to_index(&tokens[1]) {
        None => {
            return Err(AsmError::BadType { line });
        },
        Some(ty) => ty,
    };
    if tokens.len() < 3 {
        return Err(AsmError::MissingOperand { line });
    }
    let reg = match register_name_to_index(&tokens[2]) {
        None => {
            return Err(AsmError::BadRegister { line });
        },
        Some(reg) => reg,
    };
    if tokens.len() < 4 {
        return Err(AsmError::MissingOperand { line });
    }
    if let Some(addr_reg) = register_name_to_index(&tokens[3]) {
        out.push(6);
        out.push(ty);
        out.push(reg * 16 + addr_reg);
        proof {
            assert(out@ =~= old(out)@ + encode(Instr::WriteReg { ty, reg, addr_reg }));
        }
        Ok(3)
    } else {
        let addr = match parse_int(&tokens[3], 18446744073709551615) {
            None => {
                return Err(AsmError::BadLiteral { line });
            },
            Some(addr) => addr,
        };
        out.push(5);
        out.push(ty);
        out.push(reg);
        crate::isa::push_be(out, addr, 8);
        proof {
            crate::isa::lemma_be_bytes_len(addr as nat, 8);
            assert(out@ =~= old(out)@ + encode(Instr::WriteAddr { ty, reg, addr }));
        }
        Ok(11)
    }
}

/// Emit a `push` line: a register's value or a literal, truncated to the
/// tagged width.
pub fn push_instruction(tokens: &Vec<Vec<u8>>, line: usize, out: &mut Vec<u8>) -> (r: Result<
    usize,
    AsmError,
>)
    ensures
        emits(r, spec_push_line(seqs_of(tokens@), line as int), old(out)@, final(out)@),
{
    let ghost toks = seqs_of(tokens@);
    if tokens.len() < 3 {
        return Err(AsmError::MissingOperand { line });
    }
    if let Some(reg) = register_name_to_index(&tokens[2]) {
        let ty = match type_name_to_index(&tokens[1]) {
            None => {
                return Err(AsmError::BadType { line });
            },
            Some(ty) => ty,
        };
        out.push(7);
        out.push(ty);
        out.push(reg);
        proof {
            assert(out@ =~= old(out)@ + encode(Instr::PushReg { ty, reg }));
        }
        Ok(3)
    } else {
        let ty = match type_name_to_index(&tokens[1]) {
            None => {
                return Err(AsmError::BadType { line });
            },
            Some(ty) => ty,
        };
        let max = type_max_of(ty);
        let value = match parse_int(&tokens[2], max) {
            None => {
                return Err(AsmError::BadLiteral { line });
            },
            Some(v) => v,
        };
        let w = crate::isa::width_of(ty);
        out.push(8);
        out.push(ty);
        crate::isa::push_be(out, value, w);
        proof {
            crate::isa::lemma_be_bytes_len(value as nat, w as nat);
            assert(out@ =~= old(out)@ + encode(Instr::PushLit { ty, value }));
        }
        Ok(2 + w)
    }
}

/// Emit a `pop` line: a value of the tagged width off the stack into a
/// register.
pub fn pop_instruction(tokens: &Vec<Vec<u8>>, line: usize, out: &mut Vec<u8>) -> (r: Result<
    usize,
    AsmError,
>)
    ensures
        emits(r, spec_pop_line(seqs_of(tokens@), line as int), old(out)@, final(out)@),
{
    let ghost toks = seqs_of(tokens@);
    if tokens.len() < 3 {
        return Err(AsmError::MissingOperand { line });
    }
    let ty = match type_name_to_index(&tokens[1]) {
        None => {
            return Err(AsmError::BadType { line });
        },
        Some(ty) => ty,
    };
    let reg = match register_name_to_index(&tokens[2]) {
        None => {
            return Err(AsmError::BadRegister { line });
        },
        Some(reg) => reg,
    };
    out.push(9);
    out.push(ty);
    out.push(reg);
    proof {
        assert(out@ =~= old(out)@ + encode(Instr::Pop { ty, reg }));
    }
    Ok(3)
}

/// Emit a data directive line: one bare literal of the tagged width.
pub fn data_directive(tokens: &Vec<Vec<u8>>, line: usize, ty: u8, out: &mut Vec<u8>) -> (r: Result<
    usize,
    AsmError,
>)
    requires
        ty <= 3,
    ensures
        emits(r, spec_data_line(seqs_of(tokens@), line as int, ty), old(out)@, final(out)@),
{
    let ghost toks = seqs_of(tokens@);
    if tokens.len() < 2 {
        return Err(AsmError::MissingOperand { line });
    }
    let max = type_max_of(ty);
    let value = match parse_int(&tokens[1], max) {
        None => {
            return Err(AsmError::BadLiteral { line });
        },
        Some(v) => v,
    };
    let w = crate::isa::width_of(ty);
    crate::isa::push_be(out, value, w);
    proof {
        crate::isa::lemma_be_bytes_len(value as nat, w as nat);
    }
    Ok(w)
}

/// The (name, patch offset) views of a pending-reference or label list.
pub open spec fn pairs_view(s: Seq<(Vec<u8>, usize)>) -> Seq<(Seq<u8>, int)> {
    Seq::new(s.len(), |i: int| (s[i].0@, s[i].1 as int))
}

/// Pushing a pair pushes its view.
proof fn lemma_pairs_view_push(s: Seq<(Vec<u8>, usize)>, x: (Vec<u8>, usize))
    ensures
        pairs_view(s.push(x)) == pairs_view(s).push((x.0@, x.1 as int)),
{
    assert(pairs_view(s.push(x)) =~= pairs_view(s).push((x.0@, x.1 as int)));
}

/// A copy of a byte vector's tail, from `from` on.
pub fn copy_tail(t: &Vec<u8>, from: usize) -> (r: Vec<u8>)
    requires
        from <= t@.len(),
    ensures
        r@ == t@.skip(from as int),
{
    let mut r: Vec<u8> = Vec::new();
    let mut i: usize = from;
    while i < t.len()
        invariant
            from <= i <= t@.len(),
            r@ =~= t@.subrange(from as int, i as int),
        decreases t@.len() - i,
    {
        r.push(t[i]);
        i += 1;
    }
    proof {
        assert(r@ =~= t@.skip(from as int));
    }
    r
}

/// Emit a `jump` line: to an absolute address, to a register's address, or
/// to a label, conditionally when a condition token follows. A label
/// reference emits an 8-byte zero placeholder and records where it must be
/// backpatched.
pub fn jump_instruction(
    pending: &mut Vec<(Vec<u8>, usize)>,
    tokens: &Vec<Vec<u8>>,
    line: usize,
    out: &mut Vec<u8>,
) -> (r: Result<usize, AsmError>)
    requires
        toks_nonempty(seqs_of(tokens@)),
    ensures
        ({
            let sr = spec_jump_line(seqs_of(tokens@), line as int, old(out)@.len() as int);
            match r {
                Ok(n) => sr matches Ok(p) && ({
                    &&& final(out)@ == old(out)@ + p.0
                    &&& n == p.0.len()
                    &&& pairs_view(final(pending)@) == pairs_view(old(pending)@) + p.1
                }),
                Err(e) => ({
                    &&& sr == Err::<(Seq<u8>, Seq<(Seq<u8>, int)>), SpecAsmError>(e@)
                    &&& final(out)@ == old(out)@
                    &&& final(pending)@ == old(pending)@
                }),
            }
        }),
{
    let ghost toks = seqs_of(tokens@);
    if tokens.len() < 2 {
        return Err(AsmError::MissingOperand { line });
    }
    let has_cond = tokens.len() >= 3;
    if let Some(addr) = parse_int(&tokens[1], 18446744073709551615) {
        if has_cond {
            let c = match parse_bool(&tokens[2]) {
                None => {
                    return Err(AsmError::BadCondition { line });
                },
                Some(c) => c,
            };
            let cond: u8 = if c {
                1
            } else {
                0
            };
            out.push(12);
            out.push(cond);
            crate::isa::push_be(out, addr, 8);
            proof {
                crate::isa::lemma_be_bytes_len(addr as nat, 8);
                assert(out@ =~= old(out)@ + encode(Instr::JumpIf { cond, addr }));
                assert(pairs_view(pending@) =~= pairs_view(old(pending)@) + seq![]);
            }
            Ok(10)
        } else {
            out.push(10);
            crate::isa::push_be(out, addr, 8);
            proof {
                crate::isa::lemma_be_bytes_len(addr as nat, 8);
                assert(out@ =~= old(out)@ + encode(Instr::Jump { addr }));
                assert(pairs_view(pending@) =~= pairs_view(old(pending)@) + seq![]);
            }
            Ok(9)
        }
    } else if let Some(reg) = register_name_to_index(&tokens[1]) {
        if has_cond {
            let c = match parse_bool(&tokens[2]) {
                None => {
                    return Err(AsmError::BadCondition { line });
                },
                Some(c) => c,
            };
            let cond: u8 = if c {
                1
            } else {
                0
            };
            out.push(13);
            out.push(cond);
            out.push(reg);
            proof {
                assert(out@ =~= old(out)@ + encode(Instr::JumpIfReg { cond, reg }));
                assert(pairs_view(pending@) =~= pairs_view(old(pending)@) + seq![]);
            }
            Ok(3)
        } else {
            out.push(11);
            out.push(reg);
            proof {
                assert(out@ =~= old(out)@ + encode(Instr::JumpReg { reg }));
                assert(pairs_view(pending@) =~= pairs_view(old(pending)@) + seq![]);
            }
            Ok(2)
        }
    } else {
        let name: Vec<u8> = if tokens[1][0] == 58 {
            copy_tail(&tokens[1], 1)
        } else {
            copy_tail(&tokens[1], 0)
        };
        proof {
            assert(name@ == label_ref_name(toks[1]));
        }
        if has_cond {
            let c = match parse_bool(&tokens[2]) {
                None => {
                    return Err(AsmError::BadCondition { line });
                },
                Some(c) => c,
            };
            let cond: u8 = if c {
                1
            } else {
                0
            };
            out.push(12);
            out.push(cond);
            crate::isa::push_be(out, 0, 8);
            proof {
                crate::isa::lemma_be_bytes_len(0, 8);
            }
            let patch = out.len() - 8;
            let ghost prepend = pending@;
            let ghost namev = name@;
            proof {
                lemma_pairs_view_push(prepend, (name, patch));
            }
            pending.push((name, patch));
            proof {
                crate::isa::lemma_be_bytes_len(0, 8);
                assert(out@ =~= old(out)@ + encode(Instr::JumpIf { cond, addr: 0 }));
                assert(pairs_view(pending@) =~= pairs_view(old(pending)@) + seq![
                    (namev, old(out)@.len() + 2 as int),
                ]);
            }
            Ok(10)
        } else {
            out.push(10);
            crate::isa::push_be(out, 0, 8);
            proof {
                crate::isa::lemma_be_bytes_len(0, 8);
            }
            let patch = out.len() - 8;
            let ghost prepend = pending@;
            let ghost namev = name@;
            proof {
                lemma_pairs_view_push(prepend, (name, patch));
            }
            pending.push((name, patch));
            proof {
                crate::isa::lemma_be_bytes_len(0, 8);
                assert(out@ =~= old(out)@ + encode(Instr::Jump { addr: 0 }));
                assert(pairs_view(pending@) =~= pairs_view(old(pending)@) + seq![
                    (namev, old(out)@.len() + 1 as int),
                ]);
            }
            Ok(9)
        }
    }
}

/// Emit an `add` line.
pub fn add_instruction(out: &mut Vec<u8>) -> (n: usize)
    ensures
        final(out)@ == old(out)@ + encode(Instr::Add),
        n == encode(Instr::Add).len(),
{
    out.push(14);
    proof {
        assert(out@ =~= old(out)@ + encode(Instr::Add));
    }
    1
}

/// Emit a `sub` line.
pub fn sub_instruction(out: &mut Vec<u8>) -> (n: usize)
    ensures
        final(out)@ == old(out)@ + encode(Instr::Sub),
        n == encode(Instr::Sub).len(),
{
    out.push(15);
    proof {
        assert(out@ =~= old(out)@ + encode(Instr::Sub));
    }
    1
}

/// Emit a `mul` line.
pub fn mul_instruction(out: &mut Vec<u8>) -> (n: usize)
    ensures
        final(out)@ == old(out)@ + encode(Instr::Mul),
        n == encode(Instr::Mul).len(),
{
    out.push(16);
    proof {
        assert(out@ =~= old(out)@ + encode(Instr::Mul));
    }
    1
}

/// Emit a `div` line.
pub fn div_instruction(out: &mut Vec<u8>) -> (n: usize)
    ensures
        final(out)@ == old(out)@ + encode(Instr::Div),
        n == encode(Instr::Div).len(),
{
    out.push(17);
    proof {
        assert(out@ =~= old(out)@ + encode(Instr::Div));
    }
    1
}

/// Emit an `equal` line.
pub fn equal_instruction(out: &mut Vec<u8>) -> (n: usize)
    ensures
        final(out)@ == old(out)@ + encode(Instr::Equal),
        n == encode(Instr::Equal).len(),
{
    out.push(18);
    proof {
        assert(out@ =~= old(out)@ + encode(Instr::Equal));
    }
    1
}

/// Emit a `less` line.
pub fn less_instruction(out: &mut Vec<u8>) -> (n: usize)
    ensures
        final(out)@ == old(out)@ + encode(Instr::Less),
        n == encode(Instr::Less).len(),
{
    out.push(19);
    proof {
        assert(out@ =~= old(out)@ + encode(Instr::Less));
    }
    1
}

/// Emit a `not` line.
pub fn not_instruction(out: &mut Vec<u8>) -> (n: usize)
    ensures
        final(out)@ == old(out)@ + encode(Instr::Not),
        n == encode(Instr::Not).len(),
{
    out.push(20);
    proof {
        assert(out@ =~= old(out)@ + encode(Instr::Not));
    }
    1
}

/// Emit an `and` line.
pub fn and_instruction(out: &mut Vec<u8>) -> (n: usize)
    ensures
        final(out)@ == old(out)@ + encode(Instr::And),
        n == encode(Instr::And).len(),
{
    out.push(21);
    proof {
        assert(out@ =~= old(out)@ + encode(Instr::And));
    }
    1
}

/// Emit an `or` line.
pub fn or_instruction(out: &mut Vec<u8>) -> (n: usize)
    ensures
        final(out)@ == old(out)@ + encode(Instr::Or),
        n == encode(Instr::Or).len(),
{
    out.push(22);
    proof {
        assert(out@ =~= old(out)@ + encode(Instr::Or));
    }
    1
}

/// Emit an `xor` line.
pub fn xor_instruction(out: &mut Vec<u8>) -> (n: usize)
    ensures
        final(out)@ == old(out)@ + encode(Instr::Xor),
        n == encode(Instr::Xor).len(),
{
    out.push(23);
    proof {
        assert(out@ =~= old(out)@ + encode(Instr::Xor));
    }
    1
}

/// Everything one line contributes to the first pass: emitted bytes, label
/// declarations (name, address), and pending label references (name, patch
/// offset) — or the line's error. `offset` is the output offset the line
/// starts at; `ln` its 1-based number.
pub open spec fn line_eval(toks: Seq<Seq<u8>>, ln: int, offset: int) -> Result<
    (Seq<u8>, Seq<(Seq<u8>, int)>, Seq<(Seq<u8>, int)>),
    SpecAsmError,
> {
    if toks.len() == 0 {
        Ok((seq![], seq![], seq![]))
    } else {
        let t0 = toks[0];
        match spec_mnemonic_of(t0) {
            Mnemonic::Move => only_bytes(spec_move_line(toks, ln)),
            Mnemonic::Read => only_bytes(spec_read_line(toks, ln)),
            Mnemonic::Write => only_bytes(spec_write_line(toks, ln)),
            Mnemonic::Push => only_bytes(spec_push_line(toks, ln)),
            Mnemonic::Pop => only_bytes(spec_pop_line(toks, ln)),
            Mnemonic::Jump => match spec_jump_line(toks, ln, offset) {
                Err(e) => Err(e),
                Ok(p) => Ok((p.0, seq![], p.1)),
            },
            Mnemonic::Add => Ok((encode(Instr::Add), seq![], seq![])),
            Mnemonic::Sub => Ok((encode(Instr::Sub), seq![], seq![])),
            Mnemonic::Mul => Ok((encode(Instr::Mul), seq![], seq![])),
            Mnemonic::Div => Ok((encode(Instr::Div), seq![], seq![])),
            Mnemonic::Equal => Ok((encode(Instr::Equal), seq![], seq![])),
            Mnemonic::Less => Ok((encode(Instr::Less), seq![], seq![])),
            Mnemonic::Not => Ok((encode(Instr::Not), seq![], seq![])),
            Mnemonic::And => Ok((encode(Instr::And), seq![], seq![])),
            Mnemonic::Or => Ok((encode(Instr::Or), seq![], seq![])),
            Mnemonic::Xor => Ok((encode(Instr::Xor), seq![], seq![])),
            Mnemonic::ByteData => only_bytes(spec_data_line(toks, ln, 0)),
            Mnemonic::DbyteData => only_bytes(spec_data_line(toks, ln, 1)),
            Mnemonic::QbyteData => only_bytes(spec_data_line(toks, ln, 2)),
            Mnemonic::ObyteData => only_bytes(spec_data_line(toks, ln, 3)),
            Mnemonic::LabelDecl => Ok((seq![], seq![(t0.drop_first(), offset)], seq![])),
            Mnemonic::Other => Ok((seq![], seq![], seq![])),
        }
    }
}

/// A line that only emits bytes, declaring no label and pending nothing.
pub open spec fn only_bytes(r: Result<Seq<u8>, SpecAsmError>) -> Result<
    (Seq<u8>, Seq<(Seq<u8>, int)>, Seq<(Seq<u8>, int)>),
    SpecAsmError,
> {
    match r {
        Err(e) => Err(e),
        Ok(b) => Ok((b, seq![], seq![])),
    }
}

/// The encoding pass from line `k` on: bytes emitted so far, labels
/// declared, references pending. Stops at the first erroneous line.
pub open spec fn first_pass_from(
    lines: Seq<Seq<u8>>,
    k: int,
    out: Seq<u8>,
    labels: Seq<(Seq<u8>, int)>,
    pending: Seq<(Seq<u8>, int)>,
) -> Result<(Seq<u8>, Seq<(Seq<u8>, int)>, Seq<(Seq<u8>, int)>), SpecAsmError>
    decreases lines.len() - k,
{
    if k < 0 || k >= lines.len() {
        Ok((out, labels, pending))
    } else {
        match line_eval(spec_tokens(lines[k]), k + 1, out.len() as int) {
            Err(e) => Err(e),
            Ok(t) => first_pass_from(lines, k + 1, out + t.0, labels + t.1, pending + t.2),
        }
    }
}

/// The address a label name resolves to: that of its latest declaration,
/// as a later declaration of the same name overwrites an earlier one.
pub open spec fn lookup_label(labels: Seq<(Seq<u8>, int)>, name: Seq<u8>) -> Option<int>
    decreases labels.len(),
{
    if labels.len() == 0 {
        None
    } else if labels.last().0 == name {
        Some(labels.last().1)
    } else {
        lookup_label(labels.drop_last(), name)
    }
}

/// The resolution pass from pending entry `j` on: each pending reference's
/// 8-byte placeholder overwritten with its label's address, or the first
/// undeclared label's error.
pub open spec fn resolve_from(
    out: Seq<u8>,
    labels: Seq<(Seq<u8>, int)>,
    pending: Seq<(Seq<u8>, int)>,
    j: int,
) -> Result<Seq<u8>, SpecAsmError>
    decreases pending.len() - j,
{
    if j < 0 || j >= pending.len() {
        Ok(out)
    } else {
        match lookup_label(labels, pending[j].0) {
            None => Err(SpecAsmError::LabelNotDeclared { name: pending[j].0 }),
            Some(a) => resolve_from(
                store_bytes(out, pending[j].1, be_bytes(a as nat, 8)),
                labels,
                pending,
                j + 1,
            ),
        }
    }
}

/// What assembling a comment-free source produces: the encoding pass over
/// its lines, then the resolution pass over the pending label references.
pub open spec fn asm_spec(src: Seq<u8>) -> Result<Seq<u8>, SpecAsmError> {
    match first_pass_from(spec_lines(src), 0, seq![], seq![], seq![]) {
        Err(e) => Err(e),
        Ok(t) => resolve_from(t.0, t.1, t.2, 0),
    }
}

/// Whether any pending reference from index `j` on claims byte `b`.
pub open spec fn touches(pending: Seq<(Seq<u8>, int)>, j: int, b: int) -> bool {
    exists|i: int| j <= i < pending.len() && (#[trigger] pending[i]).1 <= b < pending[i].1 + 8
}

/// Label resolution writes every pending reference's placeholder — forward
/// and backward references alike — with exactly the 8-byte big-endian
/// address its label's latest declaration recorded, and disturbs no other
/// byte of the stream. Holds of every successful resolution pass whose
/// patch sites lie inside the stream and do not overlap, from entry `j` on.
pub proof fn lemma_label_resolution(
    out: Seq<u8>,
    labels: Seq<(Seq<u8>, int)>,
    pending: Seq<(Seq<u8>, int)>,
    j: int,
    res: Seq<u8>,
)
    requires
        0 <= j <= pending.len(),
        resolve_from(out, labels, pending, j) == Ok::<Seq<u8>, SpecAsmError>(res),
        forall|i: int|
            j <= i < pending.len() ==> 0 <= (#[trigger] pending[i]).1 && pending[i].1 + 8
                <= out.len(),
        forall|i1: int, i2: int|
            j <= i1 < i2 < pending.len() ==> ((#[trigger] pending[i1]).1 + 8
                <= (#[trigger] pending[i2]).1 || pending[i2].1 + 8 <= pending[i1].1),
    ensures
        res.len() == out.len(),
        forall|i: int|
            j <= i < pending.len() ==> lookup_label(labels, (#[trigger] pending[i]).0) is Some,
        forall|i: int|
            j <= i < pending.len() ==> res.subrange((#[trigger] pending[i]).1, pending[i].1 + 8)
                == be_bytes(lookup_label(labels, pending[i].0).unwrap() as nat, 8),
        forall|b: int| 0 <= b < out.len() && !touches(pending, j, b) ==> res[b] == out[b],
    decreases pending.len() - j,
{
    if j < pending.len() {
        let off = pending[j].1;
        let a = lookup_label(labels, pending[j].0).unwrap();
        let enc = be_bytes(a as nat, 8);
        crate::isa::lemma_be_bytes_len(a as nat, 8);
        let out2 = store_bytes(out, off, enc);
        assert(out2.len() == out.len());
        lemma_label_resolution(out2, labels, pending, j + 1, res);
        assert forall|b: int| off <= b < off + 8 implies !(#[trigger] touches(pending, j + 1, b)) by {
            if touches(pending, j + 1, b) {
                let i = choose|i: int|
                    j + 1 <= i < pending.len() && (#[trigger] pending[i]).1 <= b < pending[i].1
                        + 8;
                assert(pending[j].1 + 8 <= pending[i].1 || pending[i].1 + 8 <= pending[j].1);
            }
        };
        assert(res.subrange(off, off + 8) =~= enc) by {
            assert forall|b: int| off <= b < off + 8 implies res[b] == enc[b - off] by {
                assert(res[b] == out2[b]);
            };
        };
        assert forall|b: int|
            0 <= b < out.len() && !touches(pending, j, b) implies res[b] == out[b] by {
            assert(!touches(pending, j + 1, b)) by {
                if touches(pending, j + 1, b) {
                    let i = choose|i: int|
                        j + 1 <= i < pending.len() && (#[trigger] pending[i]).1 <= b < pending[i].1
                            + 8;
                    assert(j <= i < pending.len() && pending[i].1 <= b < pending[i].1 + 8);
                }
            };
            assert(!(off <= b < off + 8)) by {
                if off <= b < off + 8 {
                    assert(j <= j < pending.len() && pending[j].1 <= b < pending[j].1 + 8);
                }
            };
            assert(res[b] == out2[b]);
        };
        assert forall|i: int|
            j <= i < pending.len() implies res.subrange(
            (#[trigger] pending[i]).1,
            pending[i].1 + 8,
        ) == be_bytes(lookup_label(labels, pending[i].0).unwrap() as nat, 8) by {
            if i == j {
                assert(res.subrange(off, off + 8) == enc);
            }
        };
    }
}

/// Referencing an undeclared label always fails resolution, with an error
/// that names an undeclared label; it never silently resolves, to address
/// 0 or otherwise.
pub proof fn lemma_undeclared_label_fails(
    out: Seq<u8>,
    labels: Seq<(Seq<u8>, int)>,
    pending: Seq<(Seq<u8>, int)>,
    j: int,
    k: int,
)
    requires
        0 <= j <= k < pending.len(),
        lookup_label(labels, pending[k].0) is None,
    ensures
        resolve_from(out, labels, pending, j) matches Err(SpecAsmError::LabelNotDeclared {
            name,
        }) && lookup_label(labels, name) is None,
    decreases k - j,
{
    if j < k {
        match lookup_label(labels, pending[j].0) {
            None => {},
            Some(a) => {
                lemma_undeclared_label_fails(
                    store_bytes(out, pending[j].1, be_bytes(a as nat, 8)),
                    labels,
                    pending,
                    j + 1,
                    k,
                );
            },
        }
    }
}

/// A well-formed pending-reference table for a stream of `n` bytes: every
/// patch site lies inside the stream, and no two overlap.
pub open spec fn pending_wf(pending: Seq<(Seq<u8>, int)>, n: int) -> bool {
    &&& forall|i: int|
        0 <= i < pending.len() ==> 0 <= (#[trigger] pending[i]).1 && pending[i].1 + 8 <= n
    &&& forall|i1: int, i2: int|
        0 <= i1 < i2 < pending.len() ==> ((#[trigger] pending[i1]).1 + 8
            <= (#[trigger] pending[i2]).1 || pending[i2].1 + 8 <= pending[i1].1)
}

/// A line records at most one pending reference, and its patch site lies
/// inside the bytes the line emits.
proof fn lemma_line_pending_bounds(toks: Seq<Seq<u8>>, ln: int, offset: int)
    ensures
        line_eval(toks, ln, offset) matches Ok(l) ==> l.2.len() <= 1 && forall|q: int|
            0 <= q < l.2.len() ==> offset <= (#[trigger] l.2[q]).1 && l.2[q].1 + 8 <= offset
                + l.0.len(),
{
    lemma_jump_pending_bounds(toks, ln, offset);
}

/// The encoding pass keeps its pending-reference table well formed: patch
/// sites stay inside the stream emitted so far and never overlap.
proof fn lemma_first_pass_pending_wf(
    lines: Seq<Seq<u8>>,
    k: int,
    out: Seq<u8>,
    labels: Seq<(Seq<u8>, int)>,
    pending: Seq<(Seq<u8>, int)>,
)
    requires
        first_pass_from(lines, k, out, labels, pending) is Ok,
        pending_wf(pending, out.len() as int),
    ensures
        ({
            let t = first_pass_from(lines, k, out, labels, pending)->Ok_0;
            pending_wf(t.2, t.0.len() as int)
        }),
    decreases lines.len() - k,
{
    if 0 <= k < lines.len() {
        match line_eval(spec_tokens(lines[k]), k + 1, out.len() as int) {
            Err(_) => {},
            Ok(l) => {
                lemma_line_pending_bounds(spec_tokens(lines[k]), k + 1, out.len() as int);
                let out2 = out + l.0;
                let pending2 = pending + l.2;
                assert(pending_wf(pending2, out2.len() as int)) by {
                    assert(forall|i: int|
                        0 <= i < pending.len() ==> pending2[i] == (#[trigger] pending[i]));
                    assert(forall|q: int|
                        0 <= q < l.2.len() ==> pending2[pending.len() + q] == (#[trigger] l.2[q]));
                };
                lemma_first_pass_pending_wf(lines, k + 1, out2, labels + l.1, pending2);
            },
        }
    }
}

/// Every successfully assembled stream has each of its label references —
/// forward and backward alike — overwritten with exactly the 8-byte
/// big-endian address its label's declaration recorded, and no byte outside
/// the patched placeholders differs from the encoding pass's stream.
pub proof fn lemma_assembled_references_resolved(src: Seq<u8>, res: Seq<u8>)
    requires
        asm_spec(src) == Ok::<Seq<u8>, SpecAsmError>(res),
    ensures
        first_pass_from(spec_lines(src), 0, seq![], seq![], seq![]) matches Ok(t) && ({
            &&& res.len() == t.0.len()
            &&& forall|i: int|
                0 <= i < t.2.len() ==> lookup_label(t.1, (#[trigger] t.2[i]).0) is Some
            &&& forall|i: int|
                0 <= i < t.2.len() ==> res.subrange((#[trigger] t.2[i]).1, t.2[i].1 + 8)
                    == be_bytes(lookup_label(t.1, t.2[i].0).unwrap() as nat, 8)
            &&& forall|b: int| 0 <= b < t.0.len() && !touches(t.2, 0, b) ==> res[b] == t.0[b]
        }),
{
    let empty_out: Seq<u8> = seq![];
    let empty_pairs: Seq<(Seq<u8>, int)> = seq![];
    lemma_first_pass_pending_wf(spec_lines(src), 0, empty_out, empty_pairs, empty_pairs);
    let t = first_pass_from(spec_lines(src), 0, empty_out, empty_pairs, empty_pairs)->Ok_0;
    lemma_label_resolution(t.0, t.1, t.2, 0, res);
}

/// A pending reference whose label no line declared fails the whole
/// assembly with an error naming an undeclared label; it never silently
/// resolves to address 0.
pub proof fn lemma_assembly_fails_on_undeclared(src: Seq<u8>, k: int)
    requires
        first_pass_from(spec_lines(src), 0, seq![], seq![], seq![]) matches Ok(t) && 0 <= k
            < t.2.len() && lookup_label(t.1, t.2[k].0) is None,
    ensures
        asm_spec(src) matches Err(SpecAsmError::LabelNotDeclared { name }) && lookup_label(
            (first_pass_from(spec_lines(src), 0, seq![], seq![], seq![])->Ok_0).1,
            name,
        ) is None,
{
    let t = first_pass_from(spec_lines(src), 0, seq![], seq![], seq![])->Ok_0;
    lemma_undeclared_label_fails(t.0, t.1, t.2, 0, k);
}

/// Byte-vector equality.
pub fn bytes_eq(a: &Vec<u8>, b: &Vec<u8>) -> (r: bool)
    ensures
        r == (a@ == b@),
{
    if a.len() != b.len() {
        return false;
    }
    let mut i: usize = 0;
    while i < a.len()
        invariant
            i <= a@.len(),
            a@.len() == b@.len(),
            forall|k: int| 0 <= k < i ==> a@[k] == b@[k],
        decreases a@.len() - i,
    {
        if a[i] != b[i] {
            return false;
        }
        i += 1;
    }
    proof {
        assert(a@ =~= b@);
    }
    true
}

/// Find a label's address, preferring the latest declaration.
pub fn lookup_label_address(labels: &Vec<(Vec<u8>, usize)>, name: &Vec<u8>) -> (r: Option<usize>)
    ensures
        match r {
            Some(a) => lookup_label(pairs_view(labels@), name@) == Some(a as int),
            None => lookup_label(pairs_view(labels@), name@) is None,
        },
{
    let ghost lv = pairs_view(labels@);
    let mut j: usize = labels.len();
    proof {
        assert(lv.take(labels@.len() as int) =~= lv);
    }
    while j > 0
        invariant
            j <= labels@.len(),
            lv == pairs_view(labels@),
            lookup_label(lv, name@) == lookup_label(lv.take(j as int), name@),
        decreases j,
    {
        j -= 1;
        proof {
            assert(lv.take(j + 1).last() == lv[j as int]);
            assert(lv.take(j + 1).drop_last() =~= lv.take(j as int));
        }
        if bytes_eq(&labels[j].0, name) {
            return Some(labels[j].1);
        }
    }
    None
}

/// Backpatch every pending label reference, or fail on the first label
/// never declared, naming it.
pub fn resolve_labels(
    out: &mut Vec<u8>,
    labels: &Vec<(Vec<u8>, usize)>,
    pending: &Vec<(Vec<u8>, usize)>,
) -> (r: Result<(), AsmError>)
    requires
        forall|k: int|
            0 <= k < pending@.len() ==> (#[trigger] pending@[k]).1 + 8 <= old(out)@.len(),
    ensures
        match r {
            Ok(()) => resolve_from(old(out)@, pairs_view(labels@), pairs_view(pending@), 0)
                == Ok::<Seq<u8>, SpecAsmError>(final(out)@),
            Err(e) => resolve_from(old(out)@, pairs_view(labels@), pairs_view(pending@), 0)
                == Err::<Seq<u8>, SpecAsmError>(e@),
        },
{
    let ghost lv = pairs_view(labels@);
    let ghost pv = pairs_view(pending@);
    let mut j: usize = 0;
    while j < pending.len()
        invariant
            j <= pending@.len(),
            lv == pairs_view(labels@),
            pv == pairs_view(pending@),
            out@.len() == old(out)@.len(),
            forall|k: int| 0 <= k < pv.len() ==> 0 <= (#[trigger] pv[k]).1 + 8 <= out@.len(),
            resolve_from(old(out)@, lv, pv, 0) == resolve_from(out@, lv, pv, j as int),
        decreases pending@.len() - j,
    {
        let name = &pending[j].0;
        let at = pending[j].1;
        match lookup_label_address(labels, name) {
            None => {
                let owned = copy_tail(name, 0);
                proof {
                    assert(owned@ =~= pv[j as int].0);
                }
                return Err(AsmError::LabelNotDeclared { name: owned });
            },
            Some(a) => {
                crate::isa::store_be(out, at, a as u64, 8);
            },
        }
        j += 1;
    }
    Ok(())
}

/// Assemble a comment-free mnemonic source into the binary instruction
/// stream `asm_spec` prescribes: encode each line in order, recording label
/// declarations and references, then backpatch every reference with its
/// label's absolute address.
pub fn assemble(src: &Vec<u8>) -> (r: Result<Vec<u8>, AsmError>)
    ensures
        match r {
            Ok(v) => asm_spec(src@) == Ok::<Seq<u8>, SpecAsmError>(v@),
            Err(e) => asm_spec(src@) == Err::<Seq<u8>, SpecAsmError>(e@),
        },
{
    let lines = split_lines(src);
    let ghost linesv = seqs_of(lines@);
    let mut out: Vec<u8> = Vec::new();
    let mut labels: Vec<(Vec<u8>, usize)> = Vec::new();
    let mut pending: Vec<(Vec<u8>, usize)> = Vec::new();
    proof {
        assert(out@ =~= Seq::<u8>::empty());
        assert(pairs_view(labels@) =~= Seq::<(Seq<u8>, int)>::empty());
        assert(pairs_view(pending@) =~= Seq::<(Seq<u8>, int)>::empty());
        assert(Seq::<u8>::empty() =~= seq![]);
        assert(Seq::<(Seq<u8>, int)>::empty() =~= seq![]);
    }
    let mut k: usize = 0;
    while k < lines.len()
        invariant
            k <= lines@.len(),
            linesv == seqs_of(lines@),
            linesv == spec_lines(src@),
            first_pass_from(linesv, 0, seq![], seq![], seq![]) == first_pass_from(
                linesv,
                k as int,
                out@,
                pairs_view(labels@),
                pairs_view(pending@),
            ),
            forall|q: int|
                0 <= q < pending@.len() ==> (#[trigger] pending@[q]).1 + 8 <= out@.len(),
        decreases lines@.len() - k,
    {
        let ghost pre_out = out@;
        let ghost pre_labels = pairs_view(labels@);
        let ghost pre_pending = pairs_view(pending@);
        proof {
            assert(forall|q: int|
                0 <= q < pre_pending.len() ==> (#[trigger] pre_pending[q]).1 + 8
                    <= pre_out.len());
        }
        let tokens = tokenize_line(&lines[k]);
        let ghost toks = spec_tokens(linesv[k as int]);
        proof {
            assert(seqs_of(tokens@) == toks);
        }
        let line = k + 1;
        if tokens.len() > 0 {
            let m = mnemonic_of(&tokens[0]);
            match m {
                Mnemonic::Move => {
                    if let Err(e) = move_instruction(&tokens, line, &mut out) {
                        return Err(e);
                    }
                },
                Mnemonic::Read => {
                    if let Err(e) = read_instruction(&tokens, line, &mut out) {
                        return Err(e);
                    }
                },
                Mnemonic::Write => {
                    if let Err(e) = write_instruction(&tokens, line, &mut out) {
                        return Err(e);
                    }
                },
                Mnemonic::Push => {
                    if let Err(e) = push_instruction(&tokens, line, &mut out) {
                        return Err(e);
                    }
                },
                Mnemonic::Pop => {
                    if let Err(e) = pop_instruction(&tokens, line, &mut out) {
                        return Err(e);
                    }
                },
                Mnemonic::Jump => {
                    match jump_instruction(&mut pending, &tokens, line, &mut out) {
                        Err(e) => {
                            return Err(e);
                        },
                        Ok(_) => {
                            proof {
                                lemma_jump_pending_bounds(toks, k + 1, pre_out.len() as int);
                                assert forall|q: int|
                                    0 <= q < pending@.len() implies (#[trigger] pending@[q]).1 + 8
                                    <= out@.len() by {
                                    assert(pairs_view(pending@)[q].1 == pending@[q].1 as int);
                                    if q < pre_pending.len() {
                                        assert(pairs_view(pending@)[q] == pre_pending[q]);
                                    }
                                };
                            }
                        },
                    }
                },
                Mnemonic::Add => {
                    add_instruction(&mut out);
                },
                Mnemonic::Sub => {
                    sub_instruction(&mut out);
                },
                Mnemonic::Mul => {
                    mul_instruction(&mut out);
                },
                Mnemonic::Div => {
                    div_instruction(&mut out);
                },
                Mnemonic::Equal => {
                    equal_instruction(&mut out);
                },
                Mnemonic::Less => {
                    less_instruction(&mut out);
                },
                Mnemonic::Not => {
                    not_instruction(&mut out);
                },
                Mnemonic::And => {
                    and_instruction(&mut out);
                },
                Mnemonic::Or => {
                    or_instruction(&mut out);
                },
                Mnemonic::Xor => {
                    xor_instruction(&mut out);
                },
                Mnemonic::ByteData => {
                    if let Err(e) = data_directive(&tokens, line, 0, &mut out) {
                        return Err(e);
                    }
                },
                Mnemonic::DbyteData => {
                    if let Err(e) = data_directive(&tokens, line, 1, &mut out) {
                        return Err(e);
                    }
                },
                Mnemonic::QbyteData => {
                    if let Err(e) = data_directive(&tokens, line, 2, &mut out) {
                        return Err(e);
                    }
                },
                Mnemonic::ObyteData => {
                    if let Err(e) = data_directive(&tokens, line, 3, &mut out) {
                        return Err(e);
                    }
                },
                Mnemonic::LabelDecl => {
                    let name = copy_tail(&tokens[0], 1);
                    let address = out.len();
                    let ghost prelabels = labels@;
                    let ghost namev = name@;
                    proof {
                        lemma_pairs_view_push(prelabels, (name, address));
                        assert(namev =~= toks[0].drop_first());
                    }
                    labels.push((name, address));
                    proof {
                        assert(pairs_view(labels@) =~= pre_labels + seq![
                            (toks[0].drop_first(), pre_out.len() as int),
                        ]);
                    }
                },
                Mnemonic::Other => {},
            }
        }
        proof {
            let ghost eb: Seq<u8> = seq![];
            let ghost ep: Seq<(Seq<u8>, int)> = seq![];
            assert(pre_out + eb =~= pre_out);
            assert(pre_labels + ep =~= pre_labels);
            assert(pre_pending + ep =~= pre_pending);
            assert(first_pass_from(linesv, k as int, pre_out, pre_labels, pre_pending)
                == first_pass_from(
                linesv,
                k + 1,
                out@,
                pairs_view(labels@),
                pairs_view(pending@),
            ));
        }
        k = line;
    }
    if let Err(e) = resolve_labels(&mut out, &labels, &pending) {
        return Err(e);
    }
    Ok(out)
}

} // verus!
