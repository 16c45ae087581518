//! The register-machine interpreter: a 16-slot register file, a flat byte
//! memory, and a fetch-decode-execute loop over the binary encoding of
//! `crate::isa`.

use vstd::prelude::*;

use crate::isa::{be_val, be_bytes, le_val, le_bytes, pow256, width, Instr, decode, store_bytes};
use crate::{RAM_SIZE, COUNTER_REG, STACK_REG};

verus! {

/// A fatal runtime fault. Execution terminates immediately; there is no
/// recovery inside the executed program.
#[derive(Clone, Copy, PartialEq, Eq, Structural, Debug)]
pub enum Fault {
    /// The program counter, or an operand byte of the current instruction,
    /// lies past the end of memory, or the instruction bytes are ones the
    /// machine aborts on (an unassigned type tag under opcodes 2 and 3, a
    /// register byte past 15).
    BadInstruction,
    /// A data read or write reaches past the end of memory.
    MemOutOfBounds,
    /// A push would grow the stack below address 0 or the stack pointer
    /// stands past the end of memory.
    StackOverflow,
    /// A pop would read past the end of memory.
    StackUnderflow,
    /// `div` with register 1 holding 0.
    DivideByZero,
}

/// The register machine's state in specification terms: 16 registers and
/// `RAM_SIZE` bytes of memory.
pub struct Emulator {
    registers: Vec<u64>,
    ram: Vec<u8>,
}

impl Emulator {
    /// The structural invariant every operation preserves.
    pub closed spec fn wf(self) -> bool {
        self.registers@.len() == 16 && self.ram@.len() == RAM_SIZE
    }

    /// The register file as a sequence of 16 values.
    pub closed spec fn spec_registers(self) -> Seq<u64> {
        self.registers@
    }

    /// The memory as a sequence of `RAM_SIZE` bytes.
    pub closed spec fn spec_ram(self) -> Seq<u8> {
        self.ram@
    }

    /// A fresh machine: the image copied verbatim to address 0, the rest of
    /// memory zero, every register 0 but the stack pointer, which starts at
    /// the last valid address.
    pub fn new(bin: &Vec<u8>) -> (e: Emulator)
        requires
            bin@.len() <= RAM_SIZE,
        ensures
            e.wf(),
            e.spec_ram() == bin@ + Seq::new((RAM_SIZE - bin@.len()) as nat, |i: int| 0u8),
            e.spec_registers() == Seq::new(16, |i: int| 0u64).update(
                STACK_REG as int,
                (RAM_SIZE - 1) as u64,
            ),
    {
        let mut ram: Vec<u8> = Vec::new();
        let mut i: usize = 0;
        while i < bin.len()
            invariant
                i <= bin@.len() <= RAM_SIZE,
                ram@ =~= bin@.take(i as int),
            decreases bin@.len() - i,
        {
            ram.push(bin[i]);
            i += 1;
        }
        while i < RAM_SIZE
            invariant
                bin@.len() <= i <= RAM_SIZE,
                ram@.len() == i,
                ram@ =~= bin@ + Seq::new((i - bin@.len()) as nat, |j: int| 0u8),
            decreases RAM_SIZE - i,
        {
            ram.push(0);
            i += 1;
        }
        let mut registers: Vec<u64> = Vec::new();
        let mut r: usize = 0;
        while r < 16
            invariant
                r <= 16,
                registers@ =~= Seq::new(r as nat, |j: int| 0u64),
            decreases 16 - r,
        {
            registers.push(0);
            r += 1;
        }
        registers.set(STACK_REG, (RAM_SIZE - 1) as u64);
        let e = Emulator { registers, ram };
        proof {
            assert(e.spec_ram() =~= bin@ + Seq::new((RAM_SIZE - bin@.len()) as nat, |i: int| 0u8));
            assert(e.spec_registers() =~= Seq::new(16, |i: int| 0u64).update(
                STACK_REG as int,
                (RAM_SIZE - 1) as u64,
            ));
        }
        e
    }

    /// One byte of memory.
    pub fn read_byte(&self, addr: usize) -> (r: u8)
        requires
            self.wf(),
            addr < RAM_SIZE,
        ensures
            r == self.spec_ram()[addr as int],
    {
        self.ram[addr]
    }

    /// Two bytes of memory at `addr`, big-endian.
    pub fn read_dbyte(&self, addr: usize) -> (r: u16)
        requires
            self.wf(),
            addr + 2 <= RAM_SIZE,
        ensures
            r == be_val(self.spec_ram().subrange(addr as int, addr + 2)),
    {
        let r = (self.ram[addr] as u16) * 256 + self.ram[addr + 1] as u16;
        proof {
            lemma_be_val_unfold(self.spec_ram(), addr as int, 2);
            lemma_be_val_unfold(self.spec_ram(), addr as int, 1);
            assert(self.spec_ram().subrange(addr as int, addr as int).len() == 0);
        }
        r
    }

    /// Four bytes of memory at `addr`, big-endian.
    pub fn read_qbyte(&self, addr: usize) -> (r: u32)
        requires
            self.wf(),
            addr + 4 <= RAM_SIZE,
        ensures
            r == be_val(self.spec_ram().subrange(addr as int, addr + 4)),
    {
        let mut r: u32 = 0;
        let mut i: usize = 0;
        while i < 4
            invariant
                self.wf(),
                addr + 4 <= RAM_SIZE,
                i <= 4,
                r == be_val(self.spec_ram().subrange(addr as int, addr + i)),
                r < pow256(i as nat),
            decreases 4 - i,
        {
            proof {
                crate::isa::lemma_pow256_values();
                lemma_pow256_le(i as nat, 3);
                lemma_pow256_le((i + 1) as nat, 4);
                crate::isa::lemma_be_val_bound(self.spec_ram().subrange(addr as int, addr + i));
                lemma_be_val_unfold(self.spec_ram(), addr as int, i + 1);
            }
            r = r * 256 + self.ram[addr + i] as u32;
            i += 1;
        }
        r
    }

    /// Eight bytes of memory at `addr`, big-endian.
    pub fn read_obyte(&self, addr: usize) -> (r: u64)
        requires
            self.wf(),
            addr + 8 <= RAM_SIZE,
        ensures
            r == be_val(self.spec_ram().subrange(addr as int, addr + 8)),
    {
        let mut r: u64 = 0;
        let mut i: usize = 0;
        while i < 8
            invariant
                self.wf(),
                addr + 8 <= RAM_SIZE,
                i <= 8,
                r == be_val(self.spec_ram().subrange(addr as int, addr + i)),
                r < pow256(i as nat),
            decreases 8 - i,
        {
            proof {
                crate::isa::lemma_pow256_values();
                lemma_pow256_le(i as nat, 7);
                lemma_pow256_le((i + 1) as nat, 8);
                crate::isa::lemma_be_val_bound(self.spec_ram().subrange(addr as int, addr + i));
                lemma_be_val_unfold(self.spec_ram(), addr as int, i + 1);
            }
            r = r * 256 + self.ram[addr + i] as u64;
            i += 1;
        }
        r
    }

    /// Overwrite one byte of memory.
    pub fn write_byte(&mut self, addr: usize, byte: u8)
        requires
            old(self).wf(),
            addr < RAM_SIZE,
        ensures
            final(self).wf(),
            final(self).spec_registers() == old(self).spec_registers(),
            final(self).spec_ram() == store_bytes(
                old(self).spec_ram(),
                addr as int,
                seq![byte],
            ),
    {
        self.ram.set(addr, byte);
        proof {
            assert(self.spec_ram() =~= store_bytes(old(self).spec_ram(), addr as int, seq![byte]));
        }
    }

    /// Write two bytes big-endian at `addr`.
    pub fn write_dbyte(&mut self, addr: usize, dbyte: u16)
        requires
            old(self).wf(),
            addr + 2 <= RAM_SIZE,
        ensures
            final(self).wf(),
            final(self).spec_registers() == old(self).spec_registers(),
            final(self).spec_ram() == store_bytes(
                old(self).spec_ram(),
                addr as int,
                be_bytes(dbyte as nat, 2),
            ),
    {
        self.write_be(addr, dbyte as u64, 2)
    }

    /// Write four bytes big-endian at `addr`.
    pub fn write_qbyte(&mut self, addr: usize, qbyte: u32)
        requires
            old(self).wf(),
            addr + 4 <= RAM_SIZE,
        ensures
            final(self).wf(),
            final(self).spec_registers() == old(self).spec_registers(),
            final(self).spec_ram() == store_bytes(
                old(self).spec_ram(),
                addr as int,
                be_bytes(qbyte as nat, 4),
            ),
    {
        self.write_be(addr, qbyte as u64, 4)
    }

    /// Write eight bytes big-endian at `addr`.
    pub fn write_obyte(&mut self, addr: usize, obyte: u64)
        requires
            old(self).wf(),
            addr + 8 <= RAM_SIZE,
        ensures
            final(self).wf(),
            final(self).spec_registers() == old(self).spec_registers(),
            final(self).spec_ram() == store_bytes(
                old(self).spec_ram(),
                addr as int,
                be_bytes(obyte as nat, 8),
            ),
    {
        self.write_be(addr, obyte, 8)
    }

    /// Write the low `n` bytes of `value` big-endian at `addr`.
    fn write_be(&mut self, addr: usize, value: u64, n: usize)
        requires
            old(self).wf(),
            1 <= n <= 8,
            addr + n <= RAM_SIZE,
        ensures
            final(self).wf(),
            final(self).spec_registers() == old(self).spec_registers(),
            final(self).spec_ram() == store_bytes(
                old(self).spec_ram(),
                addr as int,
                be_bytes(value as nat, n as nat),
            ),
    {
        let ghost target = be_bytes(value as nat, n as nat);
        proof {
            crate::isa::lemma_be_bytes_len(value as nat, n as nat);
        }
        let mut v = value;
        let mut i: usize = n;
        while i > 0
            invariant
                self.wf(),
                i <= n <= 8,
                addr + n <= RAM_SIZE,
                self.spec_registers() == old(self).spec_registers(),
                target.len() == n,
                be_bytes(v as nat, i as nat) =~= target.take(i as int),
                self.spec_ram() =~= Seq::new(
                    old(self).spec_ram().len(),
                    |k: int|
                        if addr + i <= k < addr + n {
                            target[k - addr]
                        } else {
                            old(self).spec_ram()[k]
                        },
                ),
            decreases i,
        {
            i -= 1;
            proof {
                assert(be_bytes(v as nat, (i + 1) as nat) == be_bytes((v as nat) / 256, i as nat)
                    .push((v % 256) as u8));
                assert(target.take(i + 1).last() == target[i as int]);
                assert(be_bytes((v as nat) / 256, i as nat) =~= target.take(i + 1).drop_last());
                assert(target.take(i + 1).drop_last() =~= target.take(i as int));
            }
            self.ram.set(addr + i, (v % 256) as u8);
            v = v / 256;
        }
        proof {
            assert(self.spec_ram() =~= store_bytes(old(self).spec_ram(), addr as int, target));
        }
    }

    /// Push `value`, truncated to `bytes` bytes, onto the stack: the stack
    /// pointer moves down by `bytes`, and that many little-endian bytes are
    /// written starting at the new stack-pointer address plus one.
    pub fn push(&mut self, value: u64, bytes: usize)
        requires
            old(self).wf(),
            1 <= bytes <= 8,
            bytes <= old(self).spec_registers()[STACK_REG as int],
            old(self).spec_registers()[STACK_REG as int] < RAM_SIZE,
        ensures
            final(self).wf(),
            final(self).spec_registers() == old(self).spec_registers().update(
                STACK_REG as int,
                (old(self).spec_registers()[STACK_REG as int] - bytes) as u64,
            ),
            final(self).spec_ram() == store_bytes(
                old(self).spec_ram(),
                old(self).spec_registers()[STACK_REG as int] - bytes + 1,
                le_bytes(value as nat, bytes as nat),
            ),
    {
        let ghost target = le_bytes(value as nat, bytes as nat);
        proof {
            crate::isa::lemma_le_bytes_len(value as nat, bytes as nat);
        }
        let sp = self.registers[STACK_REG];
        let value_offset = sp as usize - bytes + 1;
        let mut v = value;
        let mut i: usize = 0;
        while i < bytes
            invariant
                self.wf(),
                i <= bytes <= 8,
                value_offset + bytes <= RAM_SIZE,
                self.spec_registers() == old(self).spec_registers(),
                target.len() == bytes,
                le_bytes(v as nat, (bytes - i) as nat) =~= target.skip(i as int),
                self.spec_ram() =~= Seq::new(
                    old(self).spec_ram().len(),
                    |k: int|
                        if value_offset <= k < value_offset + i {
                            target[k - value_offset]
                        } else {
                            old(self).spec_ram()[k]
                        },
                ),
            decreases bytes - i,
        {
            proof {
                assert(le_bytes(v as nat, (bytes - i) as nat) == seq![(v % 256) as u8] + le_bytes(
                    (v as nat) / 256,
                    (bytes - i - 1) as nat,
                ));
                assert(target.skip(i as int)[0] == target[i as int]);
                assert(le_bytes((v as nat) / 256, (bytes - i - 1) as nat) =~= target.skip(i as int)
                    .drop_first());
                assert(target.skip(i as int).drop_first() =~= target.skip(i + 1));
            }
            self.ram.set(value_offset + i, (v % 256) as u8);
            v = v / 256;
            i += 1;
        }
        self.registers.set(STACK_REG, sp - bytes as u64);
        proof {
            assert(self.spec_ram() =~= store_bytes(
                old(self).spec_ram(),
                old(self).spec_registers()[STACK_REG as int] - bytes + 1,
                target,
            ));
        }
    }

    /// Pop a `bytes`-byte little-endian value: read starting one byte above
    /// the stack pointer, then move the stack pointer up by `bytes`.
    pub fn pop(&mut self, bytes: usize) -> (r: u64)
        requires
            old(self).wf(),
            1 <= bytes <= 8,
            old(self).spec_registers()[STACK_REG as int] + bytes < RAM_SIZE,
        ensures
            final(self).wf(),
            final(self).spec_ram() == old(self).spec_ram(),
            final(self).spec_registers() == old(self).spec_registers().update(
                STACK_REG as int,
                (old(self).spec_registers()[STACK_REG as int] + bytes) as u64,
            ),
            r == le_val(
                old(self).spec_ram().subrange(
                    old(self).spec_registers()[STACK_REG as int] + 1,
                    old(self).spec_registers()[STACK_REG as int] + 1 + bytes,
                ),
            ),
    {
        let sp = self.registers[STACK_REG];
        let base = sp as usize + 1;
        let mut r: u64 = 0;
        let mut i: usize = bytes;
        while i > 0
            invariant
                self.wf(),
                self == old(self),
                i <= bytes <= 8,
                base + bytes <= RAM_SIZE,
                base == old(self).spec_registers()[STACK_REG as int] + 1,
                r == le_val(self.spec_ram().subrange(base + i, base + bytes)),
                r < pow256((bytes - i) as nat),
            decreases i,
        {
            i -= 1;
            proof {
                crate::isa::lemma_pow256_values();
                lemma_pow256_le((bytes - i - 1) as nat, 7);
                lemma_pow256_le((bytes - i) as nat, 8);
                crate::isa::lemma_le_val_bound(
                    self.spec_ram().subrange(base + i + 1, base + bytes),
                );
                let s = self.spec_ram().subrange(base + i, base + bytes);
                assert(s.drop_first() =~= self.spec_ram().subrange(base + i + 1, base + bytes));
                assert(le_val(s) == s[0] + 256 * le_val(s.drop_first()));
                lemma_mul_le_pow256(le_val(s.drop_first()), (bytes - i - 1) as nat);
            }
            r = self.ram[base + i] as u64 + 256 * r;
        }
        self.registers.set(STACK_REG, sp + bytes as u64);
        r
    }
}

impl Emulator {
    /// The byte at the program counter; the program counter advances by one.
    pub fn read_next_byte(&mut self) -> (r: u8)
        requires
            old(self).wf(),
            old(self).spec_registers()[COUNTER_REG as int] + 1 <= RAM_SIZE,
        ensures
            final(self).wf(),
            final(self).spec_ram() == old(self).spec_ram(),
            final(self).spec_registers() == old(self).spec_registers().update(
                COUNTER_REG as int,
                (old(self).spec_registers()[COUNTER_REG as int] + 1) as u64,
            ),
            r == old(self).spec_ram()[old(self).spec_registers()[COUNTER_REG as int] as int],
    {
        let pc = self.registers[COUNTER_REG];
        let byte = self.ram[pc as usize];
        self.registers.set(COUNTER_REG, pc + 1);
        byte
    }

    /// Two big-endian bytes at the program counter, which advances by two.
    pub fn read_next_dbyte(&mut self) -> (r: u16)
        requires
            old(self).wf(),
            old(self).spec_registers()[COUNTER_REG as int] + 2 <= RAM_SIZE,
        ensures
            final(self).wf(),
            final(self).spec_ram() == old(self).spec_ram(),
            final(self).spec_registers() == old(self).spec_registers().update(
                COUNTER_REG as int,
                (old(self).spec_registers()[COUNTER_REG as int] + 2) as u64,
            ),
            r == be_val(
                old(self).spec_ram().subrange(
                    old(self).spec_registers()[COUNTER_REG as int] as int,
                    old(self).spec_registers()[COUNTER_REG as int] + 2,
                ),
            ),
    {
        let pc = self.registers[COUNTER_REG];
        let r = self.read_dbyte(pc as usize);
        self.registers.set(COUNTER_REG, pc + 2);
        r
    }

    /// Four big-endian bytes at the program counter, which advances by four.
    pub fn read_next_qbyte(&mut self) -> (r: u32)
        requires
            old(self).wf(),
            old(self).spec_registers()[COUNTER_REG as int] + 4 <= RAM_SIZE,
        ensures
            final(self).wf(),
            final(self).spec_ram() == old(self).spec_ram(),
            final(self).spec_registers() == old(self).spec_registers().update(
                COUNTER_REG as int,
                (old(self).spec_registers()[COUNTER_REG as int] + 4) as u64,
            ),
            r == be_val(
                old(self).spec_ram().subrange(
                    old(self).spec_registers()[COUNTER_REG as int] as int,
                    old(self).spec_registers()[COUNTER_REG as int] + 4,
                ),
            ),
    {
        let pc = self.registers[COUNTER_REG];
        let r = self.read_qbyte(pc as usize);
        self.registers.set(COUNTER_REG, pc + 4);
        r
    }

    /// Eight big-endian bytes at the program counter, which advances by eight.
    pub fn read_next_obyte(&mut self) -> (r: u64)
        requires
            old(self).wf(),
            old(self).spec_registers()[COUNTER_REG as int] + 8 <= RAM_SIZE,
        ensures
            final(self).wf(),
            final(self).spec_ram() == old(self).spec_ram(),
            final(self).spec_registers() == old(self).spec_registers().update(
                COUNTER_REG as int,
                (old(self).spec_registers()[COUNTER_REG as int] + 8) as u64,
            ),
            r == be_val(
                old(self).spec_ram().subrange(
                    old(self).spec_registers()[COUNTER_REG as int] as int,
                    old(self).spec_registers()[COUNTER_REG as int] + 8,
                ),
            ),
    {
        let pc = self.registers[COUNTER_REG];
        let r = self.read_obyte(pc as usize);
        self.registers.set(COUNTER_REG, pc + 8);
        r
    }

    /// Fetch the instruction at the program counter and decode it, advancing
    /// the program counter past it. A fault is raised exactly where the
    /// specification-level `decode` gives none: a truncated stream, an
    /// unassigned type tag under opcodes 2 or 3, or a register byte past 15.
    fn fetch_decode(&mut self) -> (r: Result<Instr, Fault>)
        requires
            old(self).wf(),
        ensures
            final(self).wf(),
            final(self).spec_ram() == old(self).spec_ram(),
            forall|j: int|
                0 <= j < 16 && j != COUNTER_REG ==> final(self).spec_registers()[j] == old(
                    self,
                ).spec_registers()[j],
            ({
                let pc = old(self).spec_registers()[COUNTER_REG as int] as int;
                let s = old(self).spec_ram().skip(pc);
                match r {
                    Ok(i) => ({
                        &&& pc < RAM_SIZE
                        &&& decode(s) matches Some(p) && ({
                            &&& p.0 == i
                            &&& decoded_ok(i)
                            &&& final(self).spec_registers() == old(self).spec_registers().update(
                                COUNTER_REG as int,
                                (pc + p.1) as u64,
                            )
                        })
                    }),
                    Err(f) => (pc >= RAM_SIZE || decode(s) is None) && f == Fault::BadInstruction,
                }
            }),
    {
        let ghost orig = *old(self);
        let pc0 = self.registers[COUNTER_REG];
        if pc0 >= RAM_SIZE as u64 {
            return Err(Fault::BadInstruction);
        }
        let ghost pcg = pc0 as int;
        let ghost s = orig.spec_ram().skip(pcg);
        proof {
            assert(s.len() == RAM_SIZE - pcg);
        }
        let limit = RAM_SIZE as u64;
        let op = self.read_next_byte();
        proof {
            assert(s[0] == orig.spec_ram()[pcg]);
        }
        match op {
            0 => {
                proof {
                    assert(self.spec_registers() =~= orig.spec_registers().update(COUNTER_REG as int, (pcg + 1) as u64));
                }
                Ok(Instr::Nop)
            },
            1 => {
                if pc0 + 2 > limit {
                    return Err(Fault::BadInstruction);
                }
                let b = self.read_next_byte();
                proof {
                    assert(s[1] == orig.spec_ram()[pcg + 1]);
                    assert(self.spec_registers() =~= orig.spec_registers().update(COUNTER_REG as int, (pcg + 2) as u64));
                }
                Ok(Instr::MoveReg { dst: b / 16, src: b % 16 })
            },
            2 => {
                if pc0 + 3 > limit {
                    return Err(Fault::BadInstruction);
                }
                let ty = self.read_next_byte();
                let reg = self.read_next_byte();
                proof {
                    assert(s[1] == orig.spec_ram()[pcg + 1]);
                    assert(s[2] == orig.spec_ram()[pcg + 2]);
                }
                if ty > 3 || reg > 15 {
                    return Err(Fault::BadInstruction);
                }
                let w = crate::isa::width_of(ty);
                if pc0 + 3 + w as u64 > limit {
                    return Err(Fault::BadInstruction);
                }
                let value: u64 = if ty == 0 {
                    let v = self.read_next_byte() as u64;
                    proof {
                        assert(s.subrange(3, 4) =~= seq![orig.spec_ram()[pcg + 3]]);
                        crate::isa::lemma_val_one(orig.spec_ram()[pcg + 3]);
                    }
                    v
                } else if ty == 1 {
                    let v = self.read_next_dbyte() as u64;
                    proof {
                        assert(s.subrange(3, 5) =~= orig.spec_ram().subrange(pcg + 3, pcg + 5));
                    }
                    v
                } else if ty == 2 {
                    let v = self.read_next_qbyte() as u64;
                    proof {
                        assert(s.subrange(3, 7) =~= orig.spec_ram().subrange(pcg + 3, pcg + 7));
                    }
                    v
                } else {
                    let v = self.read_next_obyte();
                    proof {
                        assert(s.subrange(3, 11) =~= orig.spec_ram().subrange(pcg + 3, pcg + 11));
                    }
                    v
                };
                proof {
                    assert(self.spec_registers() =~= orig.spec_registers().update(COUNTER_REG as int, (pcg + 3 + w) as u64));
                }
                Ok(Instr::MoveLit { ty, reg, value })
            },
            3 => {
                if pc0 + 11 > limit {
                    return Err(Fault::BadInstruction);
                }
                let ty = self.read_next_byte();
                let reg = self.read_next_byte();
                let addr = self.read_next_obyte();
                if ty > 3 || reg > 15 {
                    return Err(Fault::BadInstruction);
                }
                proof {
                    assert(s[1] == orig.spec_ram()[pcg + 1]);
                    assert(s[2] == orig.spec_ram()[pcg + 2]);
                    assert(s.subrange(3, 11) =~= orig.spec_ram().subrange(pcg + 3, pcg + 11));
                    assert(self.spec_registers() =~= orig.spec_registers().update(COUNTER_REG as int, (pcg + 11) as u64));
                }
                Ok(Instr::ReadAddr { ty, reg, addr })
            },
            4 => {
                if pc0 + 3 > limit {
                    return Err(Fault::BadInstruction);
                }
                let ty = self.read_next_byte();
                let b = self.read_next_byte();
                proof {
                    assert(s[1] == orig.spec_ram()[pcg + 1]);
                    assert(s[2] == orig.spec_ram()[pcg + 2]);
                    assert(self.spec_registers() =~= orig.spec_registers().update(COUNTER_REG as int, (pcg + 3) as u64));
                }
                if ty > 3 {
                    Ok(Instr::Nop)
                } else {
                    Ok(Instr::ReadReg { ty, reg: b / 16, addr_reg: b % 16 })
                }
            },
            5 => {
                if pc0 + 11 > limit {
                    return Err(Fault::BadInstruction);
                }
                let ty = self.read_next_byte();
                let reg = self.read_next_byte();
                let addr = self.read_next_obyte();
                proof {
                    assert(s[1] == orig.spec_ram()[pcg + 1]);
                    assert(s[2] == orig.spec_ram()[pcg + 2]);
                    assert(s.subrange(3, 11) =~= orig.spec_ram().subrange(pcg + 3, pcg + 11));
                    assert(self.spec_registers() =~= orig.spec_registers().update(COUNTER_REG as int, (pcg + 11) as u64));
                }
                if ty > 3 {
                    Ok(Instr::Nop)
                } else if reg > 15 {
                    Err(Fault::BadInstruction)
                } else {
                    Ok(Instr::WriteAddr { ty, reg, addr })
                }
            },
            6 => {
                if pc0 + 3 > limit {
                    return Err(Fault::BadInstruction);
                }
                let ty = self.read_next_byte();
                let b = self.read_next_byte();
                proof {
                    assert(s[1] == orig.spec_ram()[pcg + 1]);
                    assert(s[2] == orig.spec_ram()[pcg + 2]);
                    assert(self.spec_registers() =~= orig.spec_registers().update(COUNTER_REG as int, (pcg + 3) as u64));
                }
                if ty > 3 {
                    Ok(Instr::Nop)
                } else {
                    Ok(Instr::WriteReg { ty, reg: b / 16, addr_reg: b % 16 })
                }
            },
            7 => {
                if pc0 + 3 > limit {
                    return Err(Fault::BadInstruction);
                }
                let ty = self.read_next_byte();
                let reg = self.read_next_byte();
                proof {
                    assert(s[1] == orig.spec_ram()[pcg + 1]);
                    assert(s[2] == orig.spec_ram()[pcg + 2]);
                    assert(self.spec_registers() =~= orig.spec_registers().update(COUNTER_REG as int, (pcg + 3) as u64));
                }
                if ty > 3 {
                    Ok(Instr::Nop)
                } else if reg > 15 {
                    Err(Fault::BadInstruction)
                } else {
                    Ok(Instr::PushReg { ty, reg })
                }
            },
            8 => {
                if pc0 + 2 > limit {
                    return Err(Fault::BadInstruction);
                }
                let ty = self.read_next_byte();
                proof {
                    assert(s[1] == orig.spec_ram()[pcg + 1]);
                }
                if ty > 3 {
                    proof {
                        assert(self.spec_registers() =~= orig.spec_registers().update(COUNTER_REG as int, (pcg + 2) as u64));
                    }
                    return Ok(Instr::Nop);
                }
                let w = crate::isa::width_of(ty);
                if pc0 + 2 + w as u64 > limit {
                    return Err(Fault::BadInstruction);
                }
                let value: u64 = if ty == 0 {
                    let v = self.read_next_byte() as u64;
                    proof {
                        assert(s.subrange(2, 3) =~= seq![orig.spec_ram()[pcg + 2]]);
                        crate::isa::lemma_val_one(orig.spec_ram()[pcg + 2]);
                    }
                    v
                } else if ty == 1 {
                    let v = self.read_next_dbyte() as u64;
                    proof {
                        assert(s.subrange(2, 4) =~= orig.spec_ram().subrange(pcg + 2, pcg + 4));
                    }
                    v
                } else if ty == 2 {
                    let v = self.read_next_qbyte() as u64;
                    proof {
                        assert(s.subrange(2, 6) =~= orig.spec_ram().subrange(pcg + 2, pcg + 6));
                    }
                    v
                } else {
                    let v = self.read_next_obyte();
                    proof {
                        assert(s.subrange(2, 10) =~= orig.spec_ram().subrange(pcg + 2, pcg + 10));
                    }
                    v
                };
                proof {
                    assert(self.spec_registers() =~= orig.spec_registers().update(COUNTER_REG as int, (pcg + 2 + w) as u64));
                }
                Ok(Instr::PushLit { ty, value })
            },
            9 => {
                if pc0 + 3 > limit {
                    return Err(Fault::BadInstruction);
                }
                let ty = self.read_next_byte();
                let reg = self.read_next_byte();
                proof {
                    assert(s[1] == orig.spec_ram()[pcg + 1]);
                    assert(s[2] == orig.spec_ram()[pcg + 2]);
                    assert(self.spec_registers() =~= orig.spec_registers().update(COUNTER_REG as int, (pcg + 3) as u64));
                }
                if ty > 3 {
                    Ok(Instr::Nop)
                } else if reg > 15 {
                    Err(Fault::BadInstruction)
                } else {
                    Ok(Instr::Pop { ty, reg })
                }
            },
            10 => {
                if pc0 + 9 > limit {
                    return Err(Fault::BadInstruction);
                }
                let addr = self.read_next_obyte();
                proof {
                    assert(s.subrange(1, 9) =~= orig.spec_ram().subrange(pcg + 1, pcg + 9));
                    assert(self.spec_registers() =~= orig.spec_registers().update(COUNTER_REG as int, (pcg + 9) as u64));
                }
                Ok(Instr::Jump { addr })
            },
            11 => {
                if pc0 + 2 > limit {
                    return Err(Fault::BadInstruction);
                }
                let reg = self.read_next_byte();
                proof {
                    assert(s[1] == orig.spec_ram()[pcg + 1]);
                    assert(self.spec_registers() =~= orig.spec_registers().update(COUNTER_REG as int, (pcg + 2) as u64));
                }
                if reg > 15 {
                    Err(Fault::BadInstruction)
                } else {
                    Ok(Instr::JumpReg { reg })
                }
            },
            12 => {
                if pc0 + 10 > limit {
                    return Err(Fault::BadInstruction);
                }
                let cond = self.read_next_byte();
                let addr = self.read_next_obyte();
                proof {
                    assert(s[1] == orig.spec_ram()[pcg + 1]);
                    assert(s.subrange(2, 10) =~= orig.spec_ram().subrange(pcg + 2, pcg + 10));
                    assert(self.spec_registers() =~= orig.spec_registers().update(COUNTER_REG as int, (pcg + 10) as u64));
                }
                Ok(Instr::JumpIf { cond, addr })
            },
            13 => {
                if pc0 + 3 > limit {
                    return Err(Fault::BadInstruction);
                }
                let cond = self.read_next_byte();
                let reg = self.read_next_byte();
                proof {
                    assert(s[1] == orig.spec_ram()[pcg + 1]);
                    assert(s[2] == orig.spec_ram()[pcg + 2]);
                    assert(self.spec_registers() =~= orig.spec_registers().update(COUNTER_REG as int, (pcg + 3) as u64));
                }
                Ok(Instr::JumpIfReg { cond, reg })
            },
            _ => {
                proof {
                    assert(self.spec_registers() =~= orig.spec_registers().update(COUNTER_REG as int, (pcg + 1) as u64));
                }
                if op == 14 {
                    Ok(Instr::Add)
                } else if op == 15 {
                    Ok(Instr::Sub)
                } else if op == 16 {
                    Ok(Instr::Mul)
                } else if op == 17 {
                    Ok(Instr::Div)
                } else if op == 18 {
                    Ok(Instr::Equal)
                } else if op == 19 {
                    Ok(Instr::Less)
                } else if op == 20 {
                    Ok(Instr::Not)
                } else if op == 21 {
                    Ok(Instr::And)
                } else if op == 22 {
                    Ok(Instr::Or)
                } else if op == 23 {
                    Ok(Instr::Xor)
                } else {
                    Ok(Instr::Nop)
                }
            },
        }
    }

    /// Read `width(ty)` big-endian bytes at `addr` into `reg`, after the
    /// bounds check `read_mem_spec` demands.
    fn read_mem(&mut self, reg: u8, addr: u64, ty: u8) -> (r: Result<(), Fault>)
        requires
            old(self).wf(),
            reg <= 15,
            ty <= 3,
        ensures
            final(self).wf(),
            match r {
                Ok(()) => read_mem_spec(
                    old(self).spec_registers(),
                    old(self).spec_ram(),
                    reg,
                    addr,
                    width(ty),
                ) == Ok::<_, Fault>((final(self).spec_registers(), final(self).spec_ram())),
                Err(f) => read_mem_spec(
                    old(self).spec_registers(),
                    old(self).spec_ram(),
                    reg,
                    addr,
                    width(ty),
                ) == Err::<(Seq<u64>, Seq<u8>), _>(f) && *final(self) == *old(self),
            },
    {
        let w = crate::isa::width_of(ty);
        if addr > (RAM_SIZE - w) as u64 {
            return Err(Fault::MemOutOfBounds);
        }
        let a = addr as usize;
        let v: u64 = if ty == 0 {
            let b = self.read_byte(a);
            proof {
                assert(self.spec_ram().subrange(a as int, a + 1) =~= seq![
                    self.spec_ram()[a as int],
                ]);
                crate::isa::lemma_val_one(self.spec_ram()[a as int]);
            }
            b as u64
        } else if ty == 1 {
            self.read_dbyte(a) as u64
        } else if ty == 2 {
            self.read_qbyte(a) as u64
        } else {
            self.read_obyte(a)
        };
        self.registers.set(reg as usize, v);
        Ok(())
    }

    /// Write the low `width(ty)` bytes of `value` big-endian at `addr`, after
    /// the bounds check `write_mem_spec` demands.
    fn write_mem(&mut self, value: u64, addr: u64, ty: u8) -> (r: Result<(), Fault>)
        requires
            old(self).wf(),
            ty <= 3,
        ensures
            final(self).wf(),
            match r {
                Ok(()) => write_mem_spec(
                    old(self).spec_registers(),
                    old(self).spec_ram(),
                    value,
                    addr,
                    width(ty),
                ) == Ok::<_, Fault>((final(self).spec_registers(), final(self).spec_ram())),
                Err(f) => write_mem_spec(
                    old(self).spec_registers(),
                    old(self).spec_ram(),
                    value,
                    addr,
                    width(ty),
                ) == Err::<(Seq<u64>, Seq<u8>), _>(f) && *final(self) == *old(self),
            },
    {
        let w = crate::isa::width_of(ty);
        if addr > (RAM_SIZE - w) as u64 {
            return Err(Fault::MemOutOfBounds);
        }
        self.write_be(addr as usize, value, w);
        Ok(())
    }

    /// Execute one decoded instruction, the program counter already advanced
    /// past it. On a fault the machine is left exactly as it was.
    fn exec_instr(&mut self, i: Instr) -> (r: Result<(), Fault>)
        requires
            old(self).wf(),
            decoded_ok(i),
        ensures
            final(self).wf(),
            match r {
                Ok(()) => exec_spec(old(self).spec_registers(), old(self).spec_ram(), i) == Ok::<
                    _,
                    Fault,
                >((final(self).spec_registers(), final(self).spec_ram())),
                Err(f) => exec_spec(old(self).spec_registers(), old(self).spec_ram(), i) == Err::<
                    (Seq<u64>, Seq<u8>),
                    _,
                >(f) && *final(self) == *old(self),
            },
    {
        match i {
            Instr::Nop => Ok(()),
            Instr::MoveReg { dst, src } => {
                let v = self.registers[src as usize];
                self.registers.set(dst as usize, v);
                Ok(())
            },
            Instr::MoveLit { ty: _, reg, value } => {
                self.registers.set(reg as usize, value);
                Ok(())
            },
            Instr::ReadAddr { ty, reg, addr } => self.read_mem(reg, addr, ty),
            Instr::ReadReg { ty, reg, addr_reg } => {
                let addr = self.registers[addr_reg as usize];
                self.read_mem(reg, addr, ty)
            },
            Instr::WriteAddr { ty, reg, addr } => {
                let value = self.registers[reg as usize];
                self.write_mem(value, addr, ty)
            },
            Instr::WriteReg { ty, reg, addr_reg } => {
                let value = self.registers[reg as usize];
                let addr = self.registers[addr_reg as usize];
                self.write_mem(value, addr, ty)
            },
            Instr::PushReg { ty, reg } => {
                let value = self.registers[reg as usize];
                let w = crate::isa::width_of(ty);
                let sp = self.registers[STACK_REG];
                if w as u64 <= sp && sp < RAM_SIZE as u64 {
                    self.push(value, w);
                    Ok(())
                } else {
                    Err(Fault::StackOverflow)
                }
            },
            Instr::PushLit { ty, value } => {
                let w = crate::isa::width_of(ty);
                let sp = self.registers[STACK_REG];
                if w as u64 <= sp && sp < RAM_SIZE as u64 {
                    self.push(value, w);
                    Ok(())
                } else {
                    Err(Fault::StackOverflow)
                }
            },
            Instr::Pop { ty, reg } => {
                let w = crate::isa::width_of(ty);
                let sp = self.registers[STACK_REG];
                if sp >= (RAM_SIZE - w) as u64 {
                    return Err(Fault::StackUnderflow);
                }
                let v = self.pop(w);
                self.registers.set(reg as usize, v);
                Ok(())
            },
            Instr::Jump { addr } => {
                self.registers.set(COUNTER_REG, addr);
                Ok(())
            },
            Instr::JumpReg { reg } => {
                let v = self.registers[reg as usize];
                self.registers.set(COUNTER_REG, v);
                Ok(())
            },
            Instr::JumpIf { cond, addr } => {
                if cond as u64 == self.registers[2] {
                    self.registers.set(COUNTER_REG, addr);
                }
                Ok(())
            },
            Instr::JumpIfReg { cond, reg } => {
                if cond as u64 == self.registers[2] {
                    if reg > 15 {
                        return Err(Fault::BadInstruction);
                    }
                    let v = self.registers[reg as usize];
                    self.registers.set(COUNTER_REG, v);
                }
                Ok(())
            },
            Instr::Add => {
                let v = self.registers[0].wrapping_add(self.registers[1]);
                self.registers.set(2, v);
                Ok(())
            },
            Instr::Sub => {
                let v = self.registers[0].wrapping_sub(self.registers[1]);
                self.registers.set(2, v);
                Ok(())
            },
            Instr::Mul => {
                let v = self.registers[0].wrapping_mul(self.registers[1]);
                self.registers.set(2, v);
                Ok(())
            },
            Instr::Div => {
                let a = self.registers[0];
                let b = self.registers[1];
                if b == 0 {
                    return Err(Fault::DivideByZero);
                }
                self.registers.set(2, a / b);
                self.registers.set(3, a % b);
                Ok(())
            },
            Instr::Equal => {
                let v: u64 = if self.registers[0] == self.registers[1] {
                    1
                } else {
                    0
                };
                self.registers.set(2, v);
                Ok(())
            },
            Instr::Less => {
                let v: u64 = if self.registers[0] < self.registers[1] {
                    1
                } else {
                    0
                };
                self.registers.set(2, v);
                Ok(())
            },
            Instr::Not => {
                let v = !self.registers[0];
                self.registers.set(2, v);
                Ok(())
            },
            Instr::And => {
                let v = self.registers[0] & self.registers[1];
                self.registers.set(2, v);
                Ok(())
            },
            Instr::Or => {
                let v = self.registers[0] | self.registers[1];
                self.registers.set(2, v);
                Ok(())
            },
            Instr::Xor => {
                let v = self.registers[0] ^ self.registers[1];
                self.registers.set(2, v);
                Ok(())
            },
        }
    }

    /// One fetch-decode-execute cycle. The result and the new state are
    /// exactly those of `step_spec`; beside a fault, memory and every
    /// register but the program counter keep their values from the start of
    /// the cycle.
    pub fn step(&mut self) -> (r: Result<(), Fault>)
        requires
            old(self).wf(),
        ensures
            final(self).wf(),
            match r {
                Ok(()) => step_spec(old(self).spec_registers(), old(self).spec_ram()) == Ok::<
                    _,
                    Fault,
                >((final(self).spec_registers(), final(self).spec_ram())),
                Err(f) => ({
                    &&& step_spec(old(self).spec_registers(), old(self).spec_ram()) == Err::<
                        (Seq<u64>, Seq<u8>),
                        _,
                    >(f)
                    &&& final(self).spec_ram() == old(self).spec_ram()
                    &&& forall|j: int|
                        0 <= j < 16 && j != COUNTER_REG ==> final(self).spec_registers()[j] == old(
                            self,
                        ).spec_registers()[j]
                }),
            },
    {
        match self.fetch_decode() {
            Err(f) => Err(f),
            Ok(i) => self.exec_instr(i),
        }
    }

    /// Run up to `max_steps` fetch-decode-execute cycles, stopping early on
    /// a fatal fault. With `Ok` the machine is exactly the state `run_spec`
    /// reaches; with a fault, memory and every register but the program
    /// counter hold the values from the start of the faulting cycle.
    pub fn run(&mut self, max_steps: u64) -> (r: Result<(), Fault>)
        requires
            old(self).wf(),
        ensures
            final(self).wf(),
            ({
                let t = run_spec(old(self).spec_registers(), old(self).spec_ram(), max_steps as nat);
                match r {
                    Ok(()) => ({
                        &&& t.2 is None
                        &&& final(self).spec_registers() == t.0
                        &&& final(self).spec_ram() == t.1
                    }),
                    Err(f) => ({
                        &&& t.2 == Some(f)
                        &&& final(self).spec_ram() == t.1
                        &&& forall|j: int|
                            0 <= j < 16 && j != COUNTER_REG ==> final(self).spec_registers()[j]
                                == t.0[j]
                    }),
                }
            }),
    {
        let mut steps: u64 = 0;
        while steps < max_steps
            invariant
                self.wf(),
                steps <= max_steps,
                run_spec(old(self).spec_registers(), old(self).spec_ram(), max_steps as nat)
                    == run_spec(
                    self.spec_registers(),
                    self.spec_ram(),
                    (max_steps - steps) as nat,
                ),
            decreases max_steps - steps,
        {
            let ghost pre = *self;
            match self.step() {
                Err(f) => {
                    proof {
                        assert(run_spec(
                            pre.spec_registers(),
                            pre.spec_ram(),
                            (max_steps - steps) as nat,
                        ) == (pre.spec_registers(), pre.spec_ram(), Some(f)));
                    }
                    return Err(f);
                },
                Ok(()) => {
                    proof {
                        assert(run_spec(
                            pre.spec_registers(),
                            pre.spec_ram(),
                            (max_steps - steps) as nat,
                        ) == run_spec(
                            self.spec_registers(),
                            self.spec_ram(),
                            (max_steps - steps - 1) as nat,
                        ));
                    }
                },
            }
            steps += 1;
        }
        Ok(())
    }

    /// One register's live value.
    pub fn get_register(&self, index: usize) -> (r: u64)
        requires
            self.wf(),
            index < 16,
        ensures
            r == self.spec_registers()[index as int],
    {
        self.registers[index]
    }
}

/// Effect of a register-to-memory read: `reg` gets the `w`-byte big-endian
/// value at `addr`, or the machine faults past the end of memory.
pub open spec fn read_mem_spec(regs: Seq<u64>, ram: Seq<u8>, reg: u8, addr: u64, w: nat) -> Result<
    (Seq<u64>, Seq<u8>),
    Fault,
> {
    if addr + w > ram.len() {
        Err(Fault::MemOutOfBounds)
    } else {
        Ok((regs.update(reg as int, be_val(ram.subrange(addr as int, addr + w)) as u64), ram))
    }
}

/// Effect of a memory write: the low `w` bytes of `value`, big-endian, land
/// at `addr`, or the machine faults past the end of memory.
pub open spec fn write_mem_spec(regs: Seq<u64>, ram: Seq<u8>, value: u64, addr: u64, w: nat) -> Result<
    (Seq<u64>, Seq<u8>),
    Fault,
> {
    if addr + w > ram.len() {
        Err(Fault::MemOutOfBounds)
    } else {
        Ok((regs, store_bytes(ram, addr as int, be_bytes(value as nat, w))))
    }
}

/// Effect of a push: the stack pointer moves down by `w`, and the low `w`
/// bytes of `value`, little-endian, land just above it.
pub open spec fn push_spec(regs: Seq<u64>, ram: Seq<u8>, value: u64, w: nat) -> Result<
    (Seq<u64>, Seq<u8>),
    Fault,
> {
    let sp = regs[STACK_REG as int];
    if w <= sp && sp < ram.len() {
        Ok(
            (
                regs.update(STACK_REG as int, (sp - w) as u64),
                store_bytes(ram, sp - w + 1, le_bytes(value as nat, w)),
            ),
        )
    } else {
        Err(Fault::StackOverflow)
    }
}

/// Effect of a pop: `w` little-endian bytes just above the stack pointer are
/// read into `reg`, and the stack pointer moves up by `w`.
pub open spec fn pop_spec(regs: Seq<u64>, ram: Seq<u8>, reg: u8, w: nat) -> Result<
    (Seq<u64>, Seq<u8>),
    Fault,
> {
    let sp = regs[STACK_REG as int];
    if sp + w < ram.len() {
        Ok(
            (
                regs.update(STACK_REG as int, (sp + w) as u64).update(
                    reg as int,
                    le_val(ram.subrange(sp + 1, sp + 1 + w)) as u64,
                ),
                ram,
            ),
        )
    } else {
        Err(Fault::StackUnderflow)
    }
}

/// Effect of one decoded instruction on the machine state, the program
/// counter already advanced past the instruction. ALU results wrap modulo
/// 2^64; `div` with a zero divisor is the one ALU fault.
pub open spec fn exec_spec(regs: Seq<u64>, ram: Seq<u8>, i: Instr) -> Result<
    (Seq<u64>, Seq<u8>),
    Fault,
> {
    match i {
        Instr::Nop => Ok((regs, ram)),
        Instr::MoveReg { dst, src } => Ok((regs.update(dst as int, regs[src as int]), ram)),
        Instr::MoveLit { ty: _, reg, value } => Ok((regs.update(reg as int, value), ram)),
        Instr::ReadAddr { ty, reg, addr } => read_mem_spec(regs, ram, reg, addr, width(ty)),
        Instr::ReadReg { ty, reg, addr_reg } => read_mem_spec(
            regs,
            ram,
            reg,
            regs[addr_reg as int],
            width(ty),
        ),
        Instr::WriteAddr { ty, reg, addr } => write_mem_spec(
            regs,
            ram,
            regs[reg as int],
            addr,
            width(ty),
        ),
        Instr::WriteReg { ty, reg, addr_reg } => write_mem_spec(
            regs,
            ram,
            regs[reg as int],
            regs[addr_reg as int],
            width(ty),
        ),
        Instr::PushReg { ty, reg } => push_spec(regs, ram, regs[reg as int], width(ty)),
        Instr::PushLit { ty, value } => push_spec(regs, ram, value, width(ty)),
        Instr::Pop { ty, reg } => pop_spec(regs, ram, reg, width(ty)),
        Instr::Jump { addr } => Ok((regs.update(COUNTER_REG as int, addr), ram)),
        Instr::JumpReg { reg } => Ok((regs.update(COUNTER_REG as int, regs[reg as int]), ram)),
        Instr::JumpIf { cond, addr } => Ok(
            (
                if cond as u64 == regs[2] {
                    regs.update(COUNTER_REG as int, addr)
                } else {
                    regs
                },
                ram,
            ),
        ),
        Instr::JumpIfReg { cond, reg } => if cond as u64 == regs[2] {
            if reg > 15 {
                Err(Fault::BadInstruction)
            } else {
                Ok((regs.update(COUNTER_REG as int, regs[reg as int]), ram))
            }
        } else {
            Ok((regs, ram))
        },
        Instr::Add => Ok(
            (regs.update(2, vstd::wrapping::u64_specs::wrapping_add(regs[0], regs[1])), ram),
        ),
        Instr::Sub => Ok(
            (regs.update(2, vstd::wrapping::u64_specs::wrapping_sub(regs[0], regs[1])), ram),
        ),
        Instr::Mul => Ok(
            (regs.update(2, vstd::wrapping::u64_specs::wrapping_mul(regs[0], regs[1])), ram),
        ),
        Instr::Div => if regs[1] == 0 {
            Err(Fault::DivideByZero)
        } else {
            Ok(
                (
                    regs.update(2, (regs[0] as int / regs[1] as int) as u64).update(
                        3,
                        (regs[0] as int % regs[1] as int) as u64,
                    ),
                    ram,
                ),
            )
        },
        Instr::Equal => Ok(
            (
                regs.update(
                    2,
                    if regs[0] == regs[1] {
                        1u64
                    } else {
                        0u64
                    },
                ),
                ram,
            ),
        ),
        Instr::Less => Ok(
            (
                regs.update(
                    2,
                    if regs[0] < regs[1] {
                        1u64
                    } else {
                        0u64
                    },
                ),
                ram,
            ),
        ),
        Instr::Not => Ok((regs.update(2, !regs[0]), ram)),
        Instr::And => Ok((regs.update(2, regs[0] & regs[1]), ram)),
        Instr::Or => Ok((regs.update(2, regs[0] | regs[1]), ram)),
        Instr::Xor => Ok((regs.update(2, regs[0] ^ regs[1]), ram)),
    }
}

/// One full fetch-decode-execute cycle: fetch at the program counter,
/// advance it past the instruction, execute. A fault is the cycle's result
/// when fetching runs off memory, decoding aborts, or executing faults.
pub open spec fn step_spec(regs: Seq<u64>, ram: Seq<u8>) -> Result<(Seq<u64>, Seq<u8>), Fault> {
    let pc = regs[COUNTER_REG as int] as int;
    if pc >= ram.len() {
        Err(Fault::BadInstruction)
    } else {
        match decode(ram.skip(pc)) {
            None => Err(Fault::BadInstruction),
            Some(p) => exec_spec(regs.update(COUNTER_REG as int, (pc + p.1) as u64), ram, p.0),
        }
    }
}

/// `fuel` cycles from the given state: the final state, and the fault that
/// stopped execution early, if one did. The state beside `Some(fault)` is
/// the one in which the faulting cycle began.
pub open spec fn run_spec(regs: Seq<u64>, ram: Seq<u8>, fuel: nat) -> (
    Seq<u64>,
    Seq<u8>,
    Option<Fault>,
)
    decreases fuel,
{
    if fuel == 0 {
        (regs, ram, None)
    } else {
        match step_spec(regs, ram) {
            Err(f) => (regs, ram, Some(f)),
            Ok(p) => run_spec(p.0, p.1, (fuel - 1) as nat),
        }
    }
}

/// Operand fields a freshly decoded instruction is known to satisfy: every
/// register field the executor indexes unconditionally fits, and type tags
/// are assigned. (`JumpIfReg` checks its register only when the branch is
/// taken, so its field is unconstrained here.)
pub open spec fn decoded_ok(i: Instr) -> bool {
    match i {
        Instr::MoveReg { dst, src } => dst <= 15 && src <= 15,
        Instr::MoveLit { ty, reg, value: _ } => ty <= 3 && reg <= 15,
        Instr::ReadAddr { ty, reg, addr: _ } => ty <= 3 && reg <= 15,
        Instr::ReadReg { ty, reg, addr_reg } => ty <= 3 && reg <= 15 && addr_reg <= 15,
        Instr::WriteAddr { ty, reg, addr: _ } => ty <= 3 && reg <= 15,
        Instr::WriteReg { ty, reg, addr_reg } => ty <= 3 && reg <= 15 && addr_reg <= 15,
        Instr::PushReg { ty, reg } => ty <= 3 && reg <= 15,
        Instr::PushLit { ty, value: _ } => ty <= 3,
        Instr::Pop { ty, reg } => ty <= 3 && reg <= 15,
        Instr::JumpReg { reg } => reg <= 15,
        _ => true,
    }
}

/// Stack push and pop are inverse for every width: pushing a value of width
/// `w` and then popping width `w` succeeds, yields the value back into any
/// chosen register, and restores the stack pointer, for every value within
/// the width's representable range.
pub proof fn lemma_push_pop_inverse(regs: Seq<u64>, ram: Seq<u8>, value: u64, w: nat, reg: u8)
    requires
        regs.len() == 16,
        1 <= w <= 8,
        value < pow256(w),
        w <= regs[STACK_REG as int],
        regs[STACK_REG as int] < ram.len(),
        reg <= 15,
    ensures
        push_spec(regs, ram, value, w) matches Ok(mid) && ({
            &&& pop_spec(mid.0, mid.1, reg, w) matches Ok(fin) && ({
                &&& fin.0[reg as int] == value
                &&& reg != STACK_REG ==> fin.0[STACK_REG as int] == regs[STACK_REG as int]
            })
        }),
{
    let sp = regs[STACK_REG as int];
    let mid = push_spec(regs, ram, value, w).unwrap();
    crate::isa::lemma_le_bytes_len(value as nat, w);
    assert(mid.1.subrange(sp - w + 1, sp + 1) =~= le_bytes(value as nat, w));
    crate::isa::lemma_le_round_trip(value as nat, w);
    vstd::arithmetic::div_mod::lemma_small_mod(value as nat, pow256(w));
}

/// `be_val` of a subrange, peeled one byte at the high end: reading `n`
/// bytes is reading `n - 1` bytes then one more.
proof fn lemma_be_val_unfold(ram: Seq<u8>, addr: int, n: int)
    requires
        1 <= n,
        0 <= addr,
        addr + n <= ram.len(),
    ensures
        be_val(ram.subrange(addr, addr + n)) == be_val(ram.subrange(addr, addr + n - 1)) * 256
            + ram[addr + n - 1],
{
    let s = ram.subrange(addr, addr + n);
    assert(s.drop_last() =~= ram.subrange(addr, addr + n - 1));
}

/// `pow256` is monotone in its exponent.
proof fn lemma_pow256_le(a: nat, b: nat)
    requires
        a <= b,
    ensures
        pow256(a) <= pow256(b),
    decreases b,
{
    if a < b {
        crate::isa::lemma_pow256_pos((b - 1) as nat);
        lemma_pow256_le(a, (b - 1) as nat);
    }
}

/// `x < pow256(n)` gives `256 * x` room below `pow256(n + 1)`.
proof fn lemma_mul_le_pow256(x: nat, n: nat)
    requires
        x < pow256(n),
    ensures
        256 * x <= pow256(n + 1) - 256,
{
    assert(pow256(n + 1) == 256 * pow256(n));
}

} // verus!
