//! The shared instruction-set contract: operand widths, big- and little-endian
//! byte encodings of integers, and the binary encoding of instructions.

use vstd::prelude::*;

verus! {

/// Number of operand bytes selected by a type tag:
/// 0 = byte (1), 1 = dbyte (2), 2 = qbyte (4), 3 = obyte (8).
pub open spec fn width(ty: u8) -> nat {
    if ty == 0 {
        1
    } else if ty == 1 {
        2
    } else if ty == 2 {
        4
    } else {
        8
    }
}

/// Executable form of `width`.
pub fn width_of(ty: u8) -> (w: usize)
    requires
        ty <= 3,
    ensures
        w == width(ty),
{
    if ty == 0 {
        1
    } else if ty == 1 {
        2
    } else if ty == 2 {
        4
    } else {
        8
    }
}

/// 256 raised to `n`: the number of values representable in `n` bytes.
pub open spec fn pow256(n: nat) -> nat
    decreases n,
{
    if n == 0 {
        1
    } else {
        256 * pow256((n - 1) as nat)
    }
}

/// The value of a byte sequence read in big-endian order
/// (first byte most significant).
pub open spec fn be_val(s: Seq<u8>) -> nat
    decreases s.len(),
{
    if s.len() == 0 {
        0
    } else {
        (be_val(s.drop_last()) * 256 + s.last()) as nat
    }
}

/// The `n`-byte big-endian encoding of `v % pow256(n)`.
pub open spec fn be_bytes(v: nat, n: nat) -> Seq<u8>
    decreases n,
{
    if n == 0 {
        Seq::empty()
    } else {
        be_bytes(v / 256, (n - 1) as nat).push((v % 256) as u8)
    }
}

/// The value of a byte sequence read in little-endian order
/// (first byte least significant).
pub open spec fn le_val(s: Seq<u8>) -> nat
    decreases s.len(),
{
    if s.len() == 0 {
        0
    } else {
        (s.first() + 256 * le_val(s.drop_first())) as nat
    }
}

/// The `n`-byte little-endian encoding of `v % pow256(n)`.
pub open spec fn le_bytes(v: nat, n: nat) -> Seq<u8>
    decreases n,
{
    if n == 0 {
        Seq::empty()
    } else {
        seq![(v % 256) as u8] + le_bytes(v / 256, (n - 1) as nat)
    }
}

pub proof fn lemma_be_bytes_len(v: nat, n: nat)
    ensures
        be_bytes(v, n).len() == n,
    decreases n,
{
    if n > 0 {
        lemma_be_bytes_len(v / 256, (n - 1) as nat);
    }
}

pub proof fn lemma_le_bytes_len(v: nat, n: nat)
    ensures
        le_bytes(v, n).len() == n,
    decreases n,
{
    if n > 0 {
        lemma_le_bytes_len(v / 256, (n - 1) as nat);
    }
}

/// Decoding a big-endian encoding gives the value back, reduced modulo
/// the range of the encoded width.
pub proof fn lemma_be_round_trip(v: nat, n: nat)
    ensures
        be_val(be_bytes(v, n)) == v % pow256(n),
    decreases n,
{
    if n == 0 {
        assert(pow256(0) == 1);
    } else {
        lemma_be_round_trip(v / 256, (n - 1) as nat);
        lemma_be_bytes_len(v / 256, (n - 1) as nat);
        let s = be_bytes(v, n);
        assert(s.drop_last() =~= be_bytes(v / 256, (n - 1) as nat));
        assert(be_val(s) == (v / 256) % pow256((n - 1) as nat) * 256 + v % 256);
        lemma_mod_split(v, (n - 1) as nat);
    }
}

/// Decoding a little-endian encoding gives the value back, reduced modulo
/// the range of the encoded width.
pub proof fn lemma_le_round_trip(v: nat, n: nat)
    ensures
        le_val(le_bytes(v, n)) == v % pow256(n),
    decreases n,
{
    if n == 0 {
        assert(pow256(0) == 1);
    } else {
        lemma_le_round_trip(v / 256, (n - 1) as nat);
        let s = le_bytes(v, n);
        assert(s.drop_first() =~= le_bytes(v / 256, (n - 1) as nat));
        assert(le_val(s) == v % 256 + 256 * ((v / 256) % pow256((n - 1) as nat)));
        lemma_mod_split(v, (n - 1) as nat);
    }
}

/// `v % (256 * p)` decomposes into a low byte and the rest: the arithmetic
/// heart of both round trips.
proof fn lemma_mod_split(v: nat, n: nat)
    ensures
        v % pow256(n + 1) == (v / 256) % pow256(n) * 256 + v % 256,
{
    let p = pow256(n);
    lemma_pow256_pos(n);
    assert(pow256(n + 1) == 256 * p);
    vstd::arithmetic::div_mod::lemma_truncate_middle(v as int, 256, p as int);
    assert((v as int) % (256 * p as int) == 256 * ((v as int / 256) % p as int) + (v as int) % 256)
        by {
        vstd::arithmetic::div_mod::lemma_breakdown(v as int, 256, p as int);
    }
}

pub proof fn lemma_pow256_pos(n: nat)
    ensures
        pow256(n) >= 1,
    decreases n,
{
    if n > 0 {
        lemma_pow256_pos((n - 1) as nat);
    }
}

/// `s` with `b` written over its bytes starting at `at`; everything else
/// undisturbed.
pub open spec fn store_bytes(s: Seq<u8>, at: int, b: Seq<u8>) -> Seq<u8> {
    Seq::new(s.len(), |i: int| if at <= i < at + b.len() { b[i - at] } else { s[i] })
}

/// Overwrite `n` bytes of `out` at `at` with the big-endian encoding of
/// `value`'s low `n` bytes, leaving every other byte undisturbed.
pub fn store_be(out: &mut Vec<u8>, at: usize, value: u64, n: usize)
    requires
        n <= 8,
        at + n <= old(out)@.len(),
    ensures
        final(out)@ == store_bytes(old(out)@, at as int, be_bytes(value as nat, n as nat)),
{
    let ghost target = be_bytes(value as nat, n as nat);
    proof {
        lemma_be_bytes_len(value as nat, n as nat);
    }
    let mut v = value;
    let mut i: usize = n;
    let total = out.len();
    while i > 0
        invariant
            i <= n <= 8,
            at + n <= total,
            total == out@.len(),
            out@.len() == old(out)@.len(),
            target.len() == n,
            be_bytes(v as nat, i as nat) =~= target.take(i as int),
            out@ =~= Seq::new(
                old(out)@.len(),
                |k: int|
                    if at + i <= k < at + n {
                        target[k - at]
                    } else {
                        old(out)@[k]
                    },
            ),
        decreases i,
    {
        i -= 1;
        proof {
            assert(be_bytes(v as nat, (i + 1) as nat) == be_bytes((v as nat) / 256, i as nat).push(
                (v % 256) as u8,
            ));
            assert(target.take(i + 1).last() == target[i as int]);
            assert(be_bytes((v as nat) / 256, i as nat) =~= target.take(i + 1).drop_last());
            assert(target.take(i + 1).drop_last() =~= target.take(i as int));
        }
        out.set(at + i, (v % 256) as u8);
        v = v / 256;
    }
    proof {
        assert(out@ =~= store_bytes(old(out)@, at as int, target));
    }
}

/// Append the `n`-byte big-endian encoding of `value`'s low `n` bytes.
pub fn push_be(out: &mut Vec<u8>, value: u64, n: usize)
    requires
        n <= 8,
    ensures
        final(out)@ == old(out)@ + be_bytes(value as nat, n as nat),
    decreases n,
{
    if n == 0 {
        proof {
            assert(out@ =~= out@ + be_bytes(value as nat, 0));
        }
        return ;
    }
    push_be(out, value / 256, n - 1);
    out.push((value % 256) as u8);
    proof {
        assert(out@ =~= old(out)@ + be_bytes(value as nat, n as nat));
    }
}

/// A one-byte sequence reads as its byte, in either order.
pub proof fn lemma_val_one(b: u8)
    ensures
        be_val(seq![b]) == b,
        le_val(seq![b]) == b,
{
    assert(seq![b].drop_last() =~= Seq::<u8>::empty());
    assert(seq![b].drop_first() =~= Seq::<u8>::empty());
    assert(be_val(Seq::<u8>::empty()) == 0);
    assert(le_val(Seq::<u8>::empty()) == 0);
}

/// A big-endian value is bounded by the range of its length.
pub proof fn lemma_be_val_bound(s: Seq<u8>)
    ensures
        be_val(s) < pow256(s.len()),
    decreases s.len(),
{
    if s.len() > 0 {
        lemma_be_val_bound(s.drop_last());
    }
}

/// A little-endian value is bounded by the range of its length.
pub proof fn lemma_le_val_bound(s: Seq<u8>)
    ensures
        le_val(s) < pow256(s.len()),
    decreases s.len(),
{
    if s.len() > 0 {
        lemma_le_val_bound(s.drop_first());
    }
}

/// One decoded instruction: the transient unit of a decode-execute cycle.
///
/// `ty` is a type tag (0..3), register fields are indices (0..15), `value`
/// holds a literal zero-extended to 64 bits, `addr` an absolute address,
/// `cond` the branch-selecting constant baked in at assembly time.
#[derive(Clone, Copy, PartialEq, Eq, Structural, Debug)]
pub enum Instr {
    /// Opcode 0, and every unassigned opcode at decode time.
    Nop,
    /// Opcode 1: `dst` register gets the `src` register's value.
    MoveReg { dst: u8, src: u8 },
    /// Opcode 2: register gets a literal of the tagged width.
    MoveLit { ty: u8, reg: u8, value: u64 },
    /// Opcode 3: register gets a big-endian memory value at an absolute address.
    ReadAddr { ty: u8, reg: u8, addr: u64 },
    /// Opcode 4: register gets a big-endian memory value at the address held
    /// in `addr_reg`.
    ReadReg { ty: u8, reg: u8, addr_reg: u8 },
    /// Opcode 5: register's value, truncated to the tagged width, is written
    /// big-endian at an absolute address.
    WriteAddr { ty: u8, reg: u8, addr: u64 },
    /// Opcode 6: as opcode 5, at the address held in `addr_reg`.
    WriteReg { ty: u8, reg: u8, addr_reg: u8 },
    /// Opcode 7: push a register's value, truncated to the tagged width.
    PushReg { ty: u8, reg: u8 },
    /// Opcode 8: push a literal of the tagged width.
    PushLit { ty: u8, value: u64 },
    /// Opcode 9: pop a value of the tagged width into a register.
    Pop { ty: u8, reg: u8 },
    /// Opcode 10: unconditional jump to an absolute address.
    Jump { addr: u64 },
    /// Opcode 11: unconditional jump to the address held in a register.
    JumpReg { reg: u8 },
    /// Opcode 12: jump to an absolute address when register 2 equals `cond`.
    JumpIf { cond: u8, addr: u64 },
    /// Opcode 13: as opcode 12, to the address held in a register.
    JumpIfReg { cond: u8, reg: u8 },
    /// Opcodes 14..23: fixed-register ALU operations.
    Add,
    Sub,
    Mul,
    Div,
    Equal,
    Less,
    Not,
    And,
    Or,
    Xor,
}

impl Instr {
    /// Well-formed operands: register indices fit a nibble, type tags are
    /// assigned, literals fit their tagged width, conditions are 0 or 1.
    pub open spec fn wf(self) -> bool {
        match self {
            Instr::Nop => true,
            Instr::MoveReg { dst, src } => dst <= 15 && src <= 15,
            Instr::MoveLit { ty, reg, value } => ty <= 3 && reg <= 15 && value < pow256(
                width(ty),
            ),
            Instr::ReadAddr { ty, reg, addr: _ } => ty <= 3 && reg <= 15,
            Instr::ReadReg { ty, reg, addr_reg } => ty <= 3 && reg <= 15 && addr_reg <= 15,
            Instr::WriteAddr { ty, reg, addr: _ } => ty <= 3 && reg <= 15,
            Instr::WriteReg { ty, reg, addr_reg } => ty <= 3 && reg <= 15 && addr_reg <= 15,
            Instr::PushReg { ty, reg } => ty <= 3 && reg <= 15,
            Instr::PushLit { ty, value } => ty <= 3 && value < pow256(width(ty)),
            Instr::Pop { ty, reg } => ty <= 3 && reg <= 15,
            Instr::Jump { addr: _ } => true,
            Instr::JumpReg { reg } => reg <= 15,
            Instr::JumpIf { cond, addr: _ } => cond <= 1,
            Instr::JumpIfReg { cond, reg } => cond <= 1 && reg <= 15,
            _ => true,
        }
    }
}

/// The binary encoding of a well-formed instruction: the opcode byte
/// followed by its fixed-format operand bytes.
pub open spec fn encode(i: Instr) -> Seq<u8> {
    match i {
        Instr::Nop => seq![0u8],
        Instr::MoveReg { dst, src } => seq![1u8, (dst * 16 + src) as u8],
        Instr::MoveLit { ty, reg, value } => seq![2u8, ty, reg] + be_bytes(
            value as nat,
            width(ty),
        ),
        Instr::ReadAddr { ty, reg, addr } => seq![3u8, ty, reg] + be_bytes(addr as nat, 8),
        Instr::ReadReg { ty, reg, addr_reg } => seq![4u8, ty, (reg * 16 + addr_reg) as u8],
        Instr::WriteAddr { ty, reg, addr } => seq![5u8, ty, reg] + be_bytes(addr as nat, 8),
        Instr::WriteReg { ty, reg, addr_reg } => seq![6u8, ty, (reg * 16 + addr_reg) as u8],
        Instr::PushReg { ty, reg } => seq![7u8, ty, reg],
        Instr::PushLit { ty, value } => seq![8u8, ty] + be_bytes(value as nat, width(ty)),
        Instr::Pop { ty, reg } => seq![9u8, ty, reg],
        Instr::Jump { addr } => seq![10u8] + be_bytes(addr as nat, 8),
        Instr::JumpReg { reg } => seq![11u8, reg],
        Instr::JumpIf { cond, addr } => seq![12u8, cond] + be_bytes(addr as nat, 8),
        Instr::JumpIfReg { cond, reg } => seq![13u8, cond, reg],
        Instr::Add => seq![14u8],
        Instr::Sub => seq![15u8],
        Instr::Mul => seq![16u8],
        Instr::Div => seq![17u8],
        Instr::Equal => seq![18u8],
        Instr::Less => seq![19u8],
        Instr::Not => seq![20u8],
        Instr::And => seq![21u8],
        Instr::Or => seq![22u8],
        Instr::Xor => seq![23u8],
    }
}

/// Decoding one instruction from the head of `s`: the instruction and the
/// number of bytes it occupies, or `None` where the bytes are a fatal
/// decode fault (a truncated stream, an unassigned type tag under opcodes
/// 2 and 3, a register byte past 15 where one is indexed unconditionally).
///
/// Unassigned opcodes decode as `Nop` of length 1. An unassigned type tag
/// under opcodes 4..9 decodes as `Nop` covering the operand bytes already
/// consumed: those instructions are silently skipped, not faults.
pub open spec fn decode(s: Seq<u8>) -> Option<(Instr, int)> {
    if s.len() < 1 {
        None
    } else {
        let op = s[0];
        if op == 0 {
            Some((Instr::Nop, 1))
        } else if op == 1 {
            if s.len() < 2 {
                None
            } else {
                Some((Instr::MoveReg { dst: s[1] / 16, src: s[1] % 16 }, 2))
            }
        } else if op == 2 {
            if s.len() < 3 {
                None
            } else if s[1] > 3 || s[2] > 15 {
                None
            } else {
                let w = width(s[1]) as int;
                if s.len() < 3 + w {
                    None
                } else {
                    Some(
                        (
                            Instr::MoveLit {
                                ty: s[1],
                                reg: s[2],
                                value: be_val(s.subrange(3, 3 + w)) as u64,
                            },
                            3 + w,
                        ),
                    )
                }
            }
        } else if op == 3 {
            if s.len() < 11 {
                None
            } else if s[1] > 3 || s[2] > 15 {
                None
            } else {
                Some(
                    (
                        Instr::ReadAddr {
                            ty: s[1],
                            reg: s[2],
                            addr: be_val(s.subrange(3, 11)) as u64,
                        },
                        11,
                    ),
                )
            }
        } else if op == 4 {
            if s.len() < 3 {
                None
            } else if s[1] > 3 {
                Some((Instr::Nop, 3))
            } else {
                Some((Instr::ReadReg { ty: s[1], reg: s[2] / 16, addr_reg: s[2] % 16 }, 3))
            }
        } else if op == 5 {
            if s.len() < 11 {
                None
            } else if s[1] > 3 {
                Some((Instr::Nop, 11))
            } else if s[2] > 15 {
                None
            } else {
                Some(
                    (
                        Instr::WriteAddr {
                            ty: s[1],
                            reg: s[2],
                            addr: be_val(s.subrange(3, 11)) as u64,
                        },
                        11,
                    ),
                )
            }
        } else if op == 6 {
            if s.len() < 3 {
                None
            } else if s[1] > 3 {
                Some((Instr::Nop, 3))
            } else {
                Some((Instr::WriteReg { ty: s[1], reg: s[2] / 16, addr_reg: s[2] % 16 }, 3))
            }
        } else if op == 7 {
            if s.len() < 3 {
                None
            } else if s[1] > 3 {
                Some((Instr::Nop, 3))
            } else if s[2] > 15 {
                None
            } else {
                Some((Instr::PushReg { ty: s[1], reg: s[2] }, 3))
            }
        } else if op == 8 {
            if s.len() < 2 {
                None
            } else if s[1] > 3 {
                Some((Instr::Nop, 2))
            } else {
                let w = width(s[1]) as int;
                if s.len() < 2 + w {
                    None
                } else {
                    Some(
                        (
                            Instr::PushLit {
                                ty: s[1],
                                value: be_val(s.subrange(2, 2 + w)) as u64,
                            },
                            2 + w,
                        ),
                    )
                }
            }
        } else if op == 9 {
            if s.len() < 3 {
                None
            } else if s[1] > 3 {
                Some((Instr::Nop, 3))
            } else if s[2] > 15 {
                None
            } else {
                Some((Instr::Pop { ty: s[1], reg: s[2] }, 3))
            }
        } else if op == 10 {
            if s.len() < 9 {
                None
            } else {
                Some((Instr::Jump { addr: be_val(s.subrange(1, 9)) as u64 }, 9))
            }
        } else if op == 11 {
            if s.len() < 2 {
                None
            } else if s[1] > 15 {
                None
            } else {
                Some((Instr::JumpReg { reg: s[1] }, 2))
            }
        } else if op == 12 {
            if s.len() < 10 {
                None
            } else {
                Some(
                    (Instr::JumpIf { cond: s[1], addr: be_val(s.subrange(2, 10)) as u64 }, 10),
                )
            }
        } else if op == 13 {
            if s.len() < 3 {
                None
            } else {
                Some((Instr::JumpIfReg { cond: s[1], reg: s[2] }, 3))
            }
        } else if op == 14 {
            Some((Instr::Add, 1))
        } else if op == 15 {
            Some((Instr::Sub, 1))
        } else if op == 16 {
            Some((Instr::Mul, 1))
        } else if op == 17 {
            Some((Instr::Div, 1))
        } else if op == 18 {
            Some((Instr::Equal, 1))
        } else if op == 19 {
            Some((Instr::Less, 1))
        } else if op == 20 {
            Some((Instr::Not, 1))
        } else if op == 21 {
            Some((Instr::And, 1))
        } else if op == 22 {
            Some((Instr::Or, 1))
        } else if op == 23 {
            Some((Instr::Xor, 1))
        } else {
            Some((Instr::Nop, 1))
        }
    }
}

/// Encoding then decoding any well-formed instruction reproduces the
/// instruction exactly, consuming exactly its encoded length.
pub proof fn lemma_encode_decode(i: Instr)
    requires
        i.wf(),
    ensures
        decode(encode(i)) == Some((i, encode(i).len() as int)),
{
    let s = encode(i);
    match i {
        Instr::MoveLit { ty, reg, value } => {
            let w = width(ty);
            lemma_be_bytes_len(value as nat, w);
            assert(s.subrange(3, 3 + w as int) =~= be_bytes(value as nat, w));
            lemma_be_round_trip(value as nat, w);
            lemma_pow256_pos(w);
            assert(value as nat % pow256(w) == value as nat) by {
                vstd::arithmetic::div_mod::lemma_small_mod(value as nat, pow256(w));
            }
        },
        Instr::ReadAddr { ty: _, reg: _, addr } => {
            lemma_be_bytes_len(addr as nat, 8);
            assert(s.subrange(3, 11) =~= be_bytes(addr as nat, 8));
            lemma_addr_field(s, 3, addr);
        },
        Instr::WriteAddr { ty: _, reg: _, addr } => {
            lemma_be_bytes_len(addr as nat, 8);
            assert(s.subrange(3, 11) =~= be_bytes(addr as nat, 8));
            lemma_addr_field(s, 3, addr);
        },
        Instr::PushLit { ty, value } => {
            let w = width(ty);
            lemma_be_bytes_len(value as nat, w);
            assert(s.subrange(2, 2 + w as int) =~= be_bytes(value as nat, w));
            lemma_be_round_trip(value as nat, w);
            lemma_pow256_pos(w);
            assert(value as nat % pow256(w) == value as nat) by {
                vstd::arithmetic::div_mod::lemma_small_mod(value as nat, pow256(w));
            }
        },
        Instr::Jump { addr } => {
            lemma_be_bytes_len(addr as nat, 8);
            assert(s.subrange(1, 9) =~= be_bytes(addr as nat, 8));
            lemma_addr_field(s, 1, addr);
        },
        Instr::JumpIf { cond: _, addr } => {
            lemma_be_bytes_len(addr as nat, 8);
            assert(s.subrange(2, 10) =~= be_bytes(addr as nat, 8));
            lemma_addr_field(s, 2, addr);
        },
        _ => {},
    }
}

/// Eight bytes hold exactly the 64-bit range.
pub proof fn lemma_pow256_8()
    ensures
        pow256(8) == 0x1_0000_0000_0000_0000,
{
    reveal_with_fuel(pow256, 9);
}

/// The concrete range of each operand width.
pub proof fn lemma_pow256_values()
    ensures
        pow256(1) == 0x100,
        pow256(2) == 0x1_0000,
        pow256(3) == 0x100_0000,
        pow256(4) == 0x1_0000_0000,
        pow256(5) == 0x100_0000_0000,
        pow256(6) == 0x1_0000_0000_0000,
        pow256(7) == 0x100_0000_0000_0000,
        pow256(8) == 0x1_0000_0000_0000_0000,
{
    reveal_with_fuel(pow256, 9);
}

/// An 8-byte big-endian address field starting at `k` decodes to the address.
proof fn lemma_addr_field(s: Seq<u8>, k: int, addr: u64)
    requires
        0 <= k,
        s.len() >= k + 8,
        s.subrange(k, k + 8) == be_bytes(addr as nat, 8),
    ensures
        be_val(s.subrange(k, k + 8)) == addr,
{
    lemma_be_round_trip(addr as nat, 8);
    lemma_pow256_8();
    vstd::arithmetic::div_mod::lemma_small_mod(addr as nat, pow256(8));
}

} // verus!

