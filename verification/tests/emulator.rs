use bytevm::assembler::assemble;
use bytevm::emulator::{Emulator, Fault};
use bytevm::{COUNTER_REG, RAM_SIZE, STACK_REG};

fn load(src: &str) -> Emulator {
    let bin = assemble(&src.as_bytes().to_vec()).unwrap();
    Emulator::new(&bin)
}

#[test]
fn fresh_machine_state() {
    let e = Emulator::new(&vec![9, 8, 7]);
    assert_eq!(e.read_byte(0), 9);
    assert_eq!(e.read_byte(1), 8);
    assert_eq!(e.read_byte(2), 7);
    assert_eq!(e.read_byte(3), 0);
    assert_eq!(e.read_byte(RAM_SIZE - 1), 0);
    for i in 0..14 {
        assert_eq!(e.get_register(i), 0);
    }
    assert_eq!(e.get_register(COUNTER_REG), 0);
    assert_eq!(e.get_register(STACK_REG), (RAM_SIZE - 1) as u64);
}

#[test]
fn memory_reads_are_big_endian() {
    let mut e = Emulator::new(&vec![]);
    e.write_byte(100, 0xAB);
    assert_eq!(e.read_byte(100), 0xAB);
    e.write_dbyte(100, 0x0102);
    assert_eq!(e.read_byte(100), 0x01);
    assert_eq!(e.read_byte(101), 0x02);
    assert_eq!(e.read_dbyte(100), 0x0102);
    e.write_qbyte(200, 0x01020304);
    assert_eq!(e.read_byte(200), 0x01);
    assert_eq!(e.read_byte(203), 0x04);
    assert_eq!(e.read_qbyte(200), 0x01020304);
    e.write_obyte(300, 0x0102030405060708);
    assert_eq!(e.read_byte(300), 0x01);
    assert_eq!(e.read_byte(307), 0x08);
    assert_eq!(e.read_obyte(300), 0x0102030405060708);
}

#[test]
fn stack_bytes_are_little_endian() {
    // the byte-order asymmetry: memory is big-endian, the stack
    // little-endian
    let mut e = Emulator::new(&vec![]);
    let sp = (RAM_SIZE - 1) as usize;
    e.push(0x0102, 2);
    assert_eq!(e.read_byte(sp - 1), 0x02);
    assert_eq!(e.read_byte(sp), 0x01);
    assert_eq!(e.get_register(STACK_REG), (sp - 2) as u64);
}

#[test]
fn push_pop_inverse_all_widths() {
    let mut e = Emulator::new(&vec![]);
    e.push(0xAB, 1);
    assert_eq!(e.pop(1), 0xAB);
    e.push(0xABCD, 2);
    assert_eq!(e.pop(2), 0xABCD);
    e.push(0xDEADBEEF, 4);
    assert_eq!(e.pop(4), 0xDEADBEEF);
    e.push(0x0102030405060708, 8);
    assert_eq!(e.pop(8), 0x0102030405060708);
    assert_eq!(e.get_register(STACK_REG), (RAM_SIZE - 1) as u64);
}

#[test]
fn push_truncates_to_width() {
    let mut e = Emulator::new(&vec![]);
    e.push(0x1FF, 1);
    assert_eq!(e.pop(1), 0xFF);
}

#[test]
fn write_then_execute_stores_byte() {
    // move byte a 65; write byte a 0: memory byte 0 ends as 65
    let mut e = load("move byte a 65\nwrite byte a 0\n");
    assert_eq!(e.run(2), Ok(()));
    assert_eq!(e.read_byte(0), 65);
}

#[test]
fn add_fixed_registers() {
    // move byte a 5; move byte b 3; add: register 2 ends as 8
    let mut e = load("move byte a 5\nmove byte b 3\nadd\n");
    assert_eq!(e.run(3), Ok(()));
    assert_eq!(e.get_register(2), 8);
}

#[test]
fn jump_to_label_lands_after_declaration() {
    // the program counter lands exactly at the offset of the instruction
    // following the label
    let mut e = load("jump :target\nadd\n:target\nsub\n");
    assert_eq!(e.run(1), Ok(()));
    assert_eq!(e.get_register(COUNTER_REG), 10);
}

#[test]
fn division_by_zero_is_a_fatal_fault() {
    // div with register 1 == 0 raises a fault, never wraps
    let mut e = load("move byte a 7\nmove byte b 0\ndiv\n");
    assert_eq!(e.run(3), Err(Fault::DivideByZero));
}

#[test]
fn division_computes_quotient_and_remainder() {
    let mut e = load("move byte a 17\nmove byte b 5\ndiv\n");
    assert_eq!(e.run(3), Ok(()));
    assert_eq!(e.get_register(2), 3);
    assert_eq!(e.get_register(3), 2);
}

#[test]
fn arithmetic_wraps_modulo_64_bits() {
    let mut e = load("move obyte a 18446744073709551615\nmove byte b 1\nadd\n");
    assert_eq!(e.run(3), Ok(()));
    assert_eq!(e.get_register(2), 0);
}

#[test]
fn subtraction_wraps() {
    let mut e = load("move byte a 1\nmove byte b 2\nsub\n");
    assert_eq!(e.run(3), Ok(()));
    assert_eq!(e.get_register(2), u64::MAX);
}

#[test]
fn comparison_and_bitwise_results() {
    let mut e = load("move byte a 5\nmove byte b 5\nequal\n");
    assert_eq!(e.run(3), Ok(()));
    assert_eq!(e.get_register(2), 1);

    let mut e = load("move byte a 5\nmove byte b 3\nless\n");
    assert_eq!(e.run(3), Ok(()));
    assert_eq!(e.get_register(2), 0);

    let mut e = load("move byte a 12\nmove byte b 10\nand\n");
    assert_eq!(e.run(3), Ok(()));
    assert_eq!(e.get_register(2), 8);

    let mut e = load("move byte a 12\nmove byte b 10\nor\n");
    assert_eq!(e.run(3), Ok(()));
    assert_eq!(e.get_register(2), 14);

    let mut e = load("move byte a 12\nmove byte b 10\nxor\n");
    assert_eq!(e.run(3), Ok(()));
    assert_eq!(e.get_register(2), 6);

    let mut e = load("move byte a 0\nnot\n");
    assert_eq!(e.run(2), Ok(()));
    assert_eq!(e.get_register(2), u64::MAX);
}

#[test]
fn move_between_registers_executes() {
    let mut e = load("move byte b 9\nmove a b\n");
    assert_eq!(e.run(2), Ok(()));
    assert_eq!(e.get_register(0), 9);
}

#[test]
fn read_and_write_through_register_address() {
    // write register a's byte to the address in b, read it back into c
    let mut e = load("move byte a 77\nmove byte b 200\nwrite byte a b\nread byte c b\n");
    assert_eq!(e.run(4), Ok(()));
    assert_eq!(e.read_byte(200), 77);
    assert_eq!(e.get_register(2), 77);
}

#[test]
fn push_pop_through_instructions() {
    let mut e = load("push byte 65\npop byte c\n");
    assert_eq!(e.run(2), Ok(()));
    assert_eq!(e.get_register(2), 65);
    assert_eq!(e.get_register(STACK_REG), (RAM_SIZE - 1) as u64);
}

#[test]
fn conditional_jump_tests_register_two() {
    // condition true: jumps only when register 2 holds 1
    let mut e = load("move byte c 1\njump :end true\nmove byte a 9\n:end\n");
    assert_eq!(e.run(2), Ok(()));
    assert_eq!(e.get_register(COUNTER_REG), 14 + 4);

    // condition not met: falls through
    let mut e = load("move byte c 0\njump :end true\nmove byte a 9\n:end\n");
    assert_eq!(e.run(3), Ok(()));
    assert_eq!(e.get_register(0), 9);
}

#[test]
fn out_of_bounds_read_is_a_fatal_fault() {
    let mut e = load("read byte a 400000\n");
    assert_eq!(e.run(1), Err(Fault::MemOutOfBounds));
}

#[test]
fn out_of_bounds_write_is_a_fatal_fault() {
    let mut e = load("write byte a 319999\nwrite dbyte a 319999\n");
    assert_eq!(e.run(2), Err(Fault::MemOutOfBounds));
}

#[test]
fn stack_overflow_is_a_fatal_fault() {
    let mut e = load("move obyte sp 3\npush obyte a\n");
    assert_eq!(e.run(2), Err(Fault::StackOverflow));
}

#[test]
fn stack_underflow_is_a_fatal_fault() {
    let mut e = load("pop obyte a\n");
    assert_eq!(e.run(1), Err(Fault::StackUnderflow));
}

#[test]
fn unassigned_opcodes_are_no_ops() {
    let mut e = Emulator::new(&vec![0, 42, 99, 14]);
    assert_eq!(e.run(4), Ok(()));
    assert_eq!(e.get_register(COUNTER_REG), 4);
}

#[test]
fn step_budget_bounds_execution() {
    // with no explicit halt, the host-supplied step budget stops the run
    let mut e = load(":loop\njump :loop\n");
    assert_eq!(e.run(1000), Ok(()));
    assert_eq!(e.get_register(COUNTER_REG), 0);
}

#[test]
fn register_byte_past_fifteen_faults() {
    // a handcrafted image: jump through "register 16"
    let mut e = Emulator::new(&vec![11, 16]);
    assert_eq!(e.run(1), Err(Fault::BadInstruction));
}

#[test]
fn unassigned_type_tag_under_move_faults() {
    let mut e = Emulator::new(&vec![2, 9, 0, 0]);
    assert_eq!(e.run(1), Err(Fault::BadInstruction));
}

#[test]
fn unassigned_type_tag_under_push_skips() {
    // under opcode 7 an unassigned tag consumes its operand bytes and
    // does nothing, even with a register byte past 15
    let mut e = Emulator::new(&vec![7, 9, 200, 14]);
    assert_eq!(e.run(2), Ok(()));
    assert_eq!(e.get_register(COUNTER_REG), 4);
    assert_eq!(e.get_register(STACK_REG), (RAM_SIZE - 1) as u64);
}

#[test]
fn instruction_running_off_memory_faults() {
    let mut e = load("jump 319999\n");
    e.write_byte(RAM_SIZE - 1, 10);
    assert_eq!(e.run(2), Err(Fault::BadInstruction));
}

#[test]
fn program_counter_is_a_register() {
    let mut e = load("move byte a 5\n");
    assert_eq!(e.run(1), Ok(()));
    assert_eq!(e.get_register(COUNTER_REG), 4);
}

#[test]
fn jump_through_register() {
    let mut e = load("move byte a 15\njump a\n");
    assert_eq!(e.run(2), Ok(()));
    assert_eq!(e.get_register(COUNTER_REG), 15);
}
