use chip8::cpu::{Cpu, Fault};
use chip8::display::Display;

fn machine_with(rom: Vec<u8>) -> (Cpu, Display) {
    let mut cpu = Cpu::new();
    cpu.load(rom).unwrap();
    (cpu, Display::new(64, 32))
}

#[test]
fn fresh_machine_state() {
    let cpu = Cpu::new();
    assert_eq!(cpu.program_counter(), 0x200);
    assert_eq!(cpu.index_register(), 0);
    assert_eq!(cpu.delay_counter(), 0);
    assert_eq!(cpu.stack_depth(), 0);
    for r in 0..16 {
        assert_eq!(cpu.register(r), 0);
    }
}

#[test]
fn load_places_rom_from_0x200() {
    let (cpu, _) = machine_with(vec![0xAB, 0xCD, 0x12]);
    assert_eq!(cpu.memory_byte(0x200), 0xAB);
    assert_eq!(cpu.memory_byte(0x201), 0xCD);
    assert_eq!(cpu.memory_byte(0x202), 0x12);
    assert_eq!(cpu.memory_byte(0x203), 0x00);
}

#[test]
fn load_too_large_is_rejected() {
    let mut cpu = Cpu::new();
    assert_eq!(cpu.load(vec![0x77; 3585]), Err(Fault::LoadOverflow));
    assert_eq!(cpu.memory_byte(0x200), 0x00);
    let mut cpu2 = Cpu::new();
    assert_eq!(cpu2.load(vec![0x77; 3584]), Ok(()));
    assert_eq!(cpu2.memory_byte(4095), 0x77);
}

#[test]
fn set_register_advances_pc() {
    let (mut cpu, mut d) = machine_with(vec![0x6A, 0x05]);
    cpu.next(&mut d, 0).unwrap();
    assert_eq!(cpu.register(0xA), 5);
    assert_eq!(cpu.program_counter(), 0x202);
}

#[test]
fn skip_if_equal_takes_four() {
    let (mut cpu, mut d) = machine_with(vec![0x6A, 0x05, 0x3A, 0x05]);
    cpu.next(&mut d, 0).unwrap();
    cpu.next(&mut d, 0).unwrap();
    assert_eq!(cpu.program_counter(), 0x206);
}

#[test]
fn skip_if_equal_misses() {
    let (mut cpu, mut d) = machine_with(vec![0x3A, 0x05]);
    cpu.next(&mut d, 0).unwrap();
    assert_eq!(cpu.program_counter(), 0x202);
}

#[test]
fn skip_if_not_equal() {
    let (mut cpu, mut d) = machine_with(vec![0x4A, 0x05]);
    cpu.next(&mut d, 0).unwrap();
    assert_eq!(cpu.program_counter(), 0x204);
}

#[test]
fn skip_register_compare() {
    let (mut cpu, mut d) = machine_with(vec![0x50, 0x10]);
    cpu.next(&mut d, 0).unwrap();
    assert_eq!(cpu.program_counter(), 0x204);
    let (mut cpu2, mut d2) = machine_with(vec![0x60, 0x07, 0x90, 0x10]);
    cpu2.next(&mut d2, 0).unwrap();
    cpu2.next(&mut d2, 0).unwrap();
    assert_eq!(cpu2.program_counter(), 0x206);
}

#[test]
fn add_immediate_wraps_without_flag() {
    let (mut cpu, mut d) = machine_with(vec![0x6A, 0x02, 0x7A, 0xFF]);
    cpu.next(&mut d, 0).unwrap();
    cpu.next(&mut d, 0).unwrap();
    assert_eq!(cpu.register(0xA), 1);
    assert_eq!(cpu.register(0xF), 0);
}

#[test]
fn return_on_empty_stack_is_noop() {
    let (mut cpu, mut d) = machine_with(vec![0x00, 0xEE]);
    cpu.next(&mut d, 0).unwrap();
    assert_eq!(cpu.program_counter(), 0x202);
    assert_eq!(cpu.stack_depth(), 0);
}

#[test]
fn call_and_return() {
    let (mut cpu, mut d) = machine_with(vec![0x22, 0x04, 0x00, 0x00, 0x00, 0xEE]);
    cpu.next(&mut d, 0).unwrap();
    assert_eq!(cpu.program_counter(), 0x204);
    assert_eq!(cpu.stack_depth(), 1);
    cpu.next(&mut d, 0).unwrap();
    assert_eq!(cpu.program_counter(), 0x202);
    assert_eq!(cpu.stack_depth(), 0);
}

#[test]
fn jump_absolute() {
    let (mut cpu, mut d) = machine_with(vec![0x13, 0x45]);
    cpu.next(&mut d, 0).unwrap();
    assert_eq!(cpu.program_counter(), 0x345);
}

#[test]
fn jump_with_offset() {
    let (mut cpu, mut d) = machine_with(vec![0x60, 0x10, 0xB3, 0x00]);
    cpu.next(&mut d, 0).unwrap();
    cpu.next(&mut d, 0).unwrap();
    assert_eq!(cpu.program_counter(), 0x310);
}

#[test]
fn alu_assign_or_and_xor() {
    let (mut cpu, mut d) = machine_with(vec![
        0x60, 0x0C, 0x61, 0x0A, 0x82, 0x00, 0x82, 0x11, 0x63, 0x0C, 0x83, 0x12, 0x64, 0x0C, 0x84,
        0x13, 0x85, 0x00,
    ]);
    for _ in 0..9 {
        cpu.next(&mut d, 0).unwrap();
    }
    assert_eq!(cpu.register(2), 0x0C | 0x0A);
    assert_eq!(cpu.register(3), 0x0C & 0x0A);
    assert_eq!(cpu.register(4), 0x0C ^ 0x0A);
    assert_eq!(cpu.register(5), 0x0C);
}

#[test]
fn alu_add_sets_flag_only_on_overflow() {
    let (mut cpu, mut d) = machine_with(vec![
        0x6F, 0x07, 0x60, 0x05, 0x61, 0x03, 0x80, 0x14, 0x62, 0xFF, 0x63, 0x02, 0x82, 0x34,
    ]);
    for _ in 0..4 {
        cpu.next(&mut d, 0).unwrap();
    }
    assert_eq!(cpu.register(0), 8);
    assert_eq!(cpu.register(0xF), 7);
    for _ in 0..3 {
        cpu.next(&mut d, 0).unwrap();
    }
    assert_eq!(cpu.register(2), 1);
    assert_eq!(cpu.register(0xF), 1);
}

#[test]
fn alu_sub_sets_borrow_flag() {
    let (mut cpu, mut d) = machine_with(vec![
        0x60, 0x05, 0x61, 0x03, 0x80, 0x15, 0x62, 0x03, 0x63, 0x05, 0x82, 0x35,
    ]);
    for _ in 0..3 {
        cpu.next(&mut d, 0).unwrap();
    }
    assert_eq!(cpu.register(0), 2);
    assert_eq!(cpu.register(0xF), 0);
    for _ in 0..3 {
        cpu.next(&mut d, 0).unwrap();
    }
    assert_eq!(cpu.register(2), 254);
    assert_eq!(cpu.register(0xF), 1);
}

#[test]
fn alu_sub_reversed() {
    let (mut cpu, mut d) = machine_with(vec![0x60, 0x03, 0x61, 0x05, 0x80, 0x17]);
    for _ in 0..3 {
        cpu.next(&mut d, 0).unwrap();
    }
    assert_eq!(cpu.register(0), 2);
    assert_eq!(cpu.register(0xF), 0);
}

#[test]
fn alu_shifts_capture_moved_bit() {
    let (mut cpu, mut d) = machine_with(vec![0x60, 0x05, 0x80, 0x06, 0x61, 0x81, 0x81, 0x0E]);
    cpu.next(&mut d, 0).unwrap();
    cpu.next(&mut d, 0).unwrap();
    assert_eq!(cpu.register(0), 2);
    assert_eq!(cpu.register(0xF), 1);
    cpu.next(&mut d, 0).unwrap();
    cpu.next(&mut d, 0).unwrap();
    assert_eq!(cpu.register(1), 2);
    assert_eq!(cpu.register(0xF), 1);
}

#[test]
fn random_is_masked_by_immediate() {
    let (mut cpu, mut d) = machine_with(vec![0xC1, 0x00, 0xC2, 0x0F]);
    cpu.next(&mut d, 0).unwrap();
    assert_eq!(cpu.register(1), 0);
    cpu.next(&mut d, 0).unwrap();
    assert!(cpu.register(2) <= 0x0F);
    assert_eq!(cpu.program_counter(), 0x204);
}

#[test]
fn set_index_register() {
    let (mut cpu, mut d) = machine_with(vec![0xA3, 0x21]);
    cpu.next(&mut d, 0).unwrap();
    assert_eq!(cpu.index_register(), 0x321);
}

#[test]
fn draw_sets_collision_flag_on_second_pass() {
    // I = 0x206 where the sprite byte 0xFF sits; draw the row twice at (0, 0)
    let (mut cpu, mut d) = machine_with(vec![0xA2, 0x06, 0xD0, 0x01, 0xD0, 0x01, 0xFF, 0x00]);
    cpu.next(&mut d, 0).unwrap();
    assert_eq!(cpu.index_register(), 0x206);
    cpu.next(&mut d, 0).unwrap();
    assert_eq!(cpu.register(0xF), 0);
    assert_eq!(d.get_screen()[0], 1);
    assert_eq!(d.get_screen()[7], 1);
    cpu.next(&mut d, 0).unwrap();
    assert_eq!(cpu.register(0xF), 1);
    assert!(d.get_screen().iter().all(|&c| c == 0));
}

#[test]
fn draw_glyph_and_erase_it() {
    // V0 = 0, I = glyph 0, draw 5 rows, draw again: erased, flag set
    let (mut cpu, mut d) = machine_with(vec![0xF0, 0x29, 0xD0, 0x05, 0xD0, 0x05]);
    cpu.next(&mut d, 0).unwrap();
    assert_eq!(cpu.index_register(), 0);
    cpu.next(&mut d, 0).unwrap();
    assert_eq!(cpu.register(0xF), 0);
    assert_eq!(d.get_screen()[0], 1);
    cpu.next(&mut d, 0).unwrap();
    assert_eq!(cpu.register(0xF), 1);
    assert!(d.get_screen().iter().all(|&c| c == 0));
}

#[test]
fn key_skip_instructions() {
    let (mut cpu, mut d) = machine_with(vec![0x60, 0x07, 0xE0, 0x9E, 0xE0, 0xA1]);
    cpu.next(&mut d, 0).unwrap();
    cpu.next(&mut d, 7).unwrap();
    assert_eq!(cpu.program_counter(), 0x206);
    let mut cpu2 = Cpu::new();
    cpu2.load(vec![0x60, 0x07, 0xE0, 0x9E]).unwrap();
    let mut d2 = Display::new(64, 32);
    cpu2.next(&mut d2, 0).unwrap();
    cpu2.next(&mut d2, 3).unwrap();
    assert_eq!(cpu2.program_counter(), 0x204);
}

#[test]
fn wait_for_key_busy_waits() {
    let (mut cpu, mut d) = machine_with(vec![0xF5, 0x0A]);
    cpu.next(&mut d, 0).unwrap();
    assert_eq!(cpu.program_counter(), 0x200);
    cpu.next(&mut d, 0).unwrap();
    assert_eq!(cpu.program_counter(), 0x200);
    cpu.next(&mut d, 9).unwrap();
    assert_eq!(cpu.register(5), 9);
    assert_eq!(cpu.program_counter(), 0x202);
}

#[test]
fn delay_counter_decrements_on_read() {
    let (mut cpu, mut d) = machine_with(vec![0x60, 0x03, 0xF0, 0x15, 0xF1, 0x07, 0xF2, 0x07]);
    cpu.next(&mut d, 0).unwrap();
    cpu.next(&mut d, 0).unwrap();
    assert_eq!(cpu.delay_counter(), 3);
    cpu.next(&mut d, 0).unwrap();
    assert_eq!(cpu.register(1), 2);
    cpu.next(&mut d, 0).unwrap();
    assert_eq!(cpu.register(2), 1);
}

#[test]
fn delay_counter_floors_at_zero() {
    let (mut cpu, mut d) = machine_with(vec![0xF1, 0x07]);
    cpu.next(&mut d, 0).unwrap();
    assert_eq!(cpu.register(1), 0);
    assert_eq!(cpu.delay_counter(), 0);
}

#[test]
fn sound_timer_is_noop() {
    let (mut cpu, mut d) = machine_with(vec![0xF0, 0x18]);
    cpu.next(&mut d, 0).unwrap();
    assert_eq!(cpu.program_counter(), 0x202);
}

#[test]
fn add_to_index_register() {
    let (mut cpu, mut d) = machine_with(vec![0xA3, 0x00, 0x60, 0x22, 0xF0, 0x1E]);
    for _ in 0..3 {
        cpu.next(&mut d, 0).unwrap();
    }
    assert_eq!(cpu.index_register(), 0x322);
}

#[test]
fn glyph_address_is_five_times_digit() {
    let (mut cpu, mut d) = machine_with(vec![0x6A, 0x0B, 0xFA, 0x29]);
    cpu.next(&mut d, 0).unwrap();
    cpu.next(&mut d, 0).unwrap();
    assert_eq!(cpu.index_register(), 55);
}

#[test]
fn bcd_writes_hundreds_and_tens_only() {
    // pre-fill 0x301 with 99 through a register dump, then run BCD on 156
    let (mut cpu, mut d) = machine_with(vec![
        0x60, 0x63, 0xA3, 0x01, 0xF0, 0x55, 0x6A, 0x9C, 0xA3, 0x00, 0xFA, 0x33,
    ]);
    for _ in 0..6 {
        cpu.next(&mut d, 0).unwrap();
    }
    assert_eq!(cpu.memory_byte(0x300), 1);
    assert_eq!(cpu.memory_byte(0x301), 0x63);
    assert_eq!(cpu.memory_byte(0x302), 5);
}

#[test]
fn register_dump_and_load_round_trip() {
    let (mut cpu, mut d) = machine_with(vec![
        0x60, 0x01, 0x61, 0x02, 0x62, 0x03, 0xA3, 0x00, 0xF2, 0x55, 0x60, 0x00, 0x61, 0x00, 0x62,
        0x00, 0xF2, 0x65,
    ]);
    for _ in 0..5 {
        cpu.next(&mut d, 0).unwrap();
    }
    assert_eq!(cpu.memory_byte(0x300), 1);
    assert_eq!(cpu.memory_byte(0x301), 2);
    assert_eq!(cpu.memory_byte(0x302), 3);
    assert_eq!(cpu.memory_byte(0x303), 0);
    for _ in 0..4 {
        cpu.next(&mut d, 0).unwrap();
    }
    assert_eq!(cpu.register(0), 1);
    assert_eq!(cpu.register(1), 2);
    assert_eq!(cpu.register(2), 3);
    assert_eq!(cpu.index_register(), 0x300);
}

#[test]
fn unrecognized_instruction_is_decode_fault() {
    let (mut cpu, mut d) = machine_with(vec![0x00, 0x00]);
    let r = cpu.next(&mut d, 0);
    assert_eq!(r, Err(Fault::Decode { address: 0x200, instruction: 0x0000 }));
    assert_eq!(cpu.program_counter(), 0x200);
}

#[test]
fn unrecognized_alu_selector_is_decode_fault() {
    let (mut cpu, mut d) = machine_with(vec![0x80, 0x18]);
    let r = cpu.next(&mut d, 0);
    assert_eq!(r, Err(Fault::Decode { address: 0x200, instruction: 0x8018 }));
}

#[test]
fn fetch_outside_memory_is_address_fault() {
    let (mut cpu, mut d) = machine_with(vec![0x1F, 0xFF]);
    cpu.next(&mut d, 0).unwrap();
    assert_eq!(cpu.program_counter(), 0xFFF);
    let r = cpu.next(&mut d, 0);
    assert_eq!(r, Err(Fault::Address { address: 0x1000 }));
    assert_eq!(cpu.program_counter(), 0xFFF);
}

#[test]
fn sprite_read_outside_memory_is_address_fault() {
    let (mut cpu, mut d) = machine_with(vec![0xAF, 0xFF, 0xD0, 0x02]);
    cpu.next(&mut d, 0).unwrap();
    let r = cpu.next(&mut d, 0);
    assert_eq!(r, Err(Fault::Address { address: 0x1000 }));
}

#[test]
fn bcd_outside_memory_is_address_fault() {
    let (mut cpu, mut d) = machine_with(vec![0xAF, 0xFE, 0xFA, 0x33]);
    cpu.next(&mut d, 0).unwrap();
    let r = cpu.next(&mut d, 0);
    assert_eq!(r, Err(Fault::Address { address: 0x1000 }));
}

#[test]
fn register_dump_outside_memory_is_address_fault() {
    let (mut cpu, mut d) = machine_with(vec![0xAF, 0xFF, 0xF2, 0x55]);
    cpu.next(&mut d, 0).unwrap();
    let r = cpu.next(&mut d, 0);
    assert_eq!(r, Err(Fault::Address { address: 0x1001 }));
}

#[test]
fn register_load_outside_memory_is_address_fault() {
    let (mut cpu, mut d) = machine_with(vec![0xAF, 0xFF, 0xF2, 0x65]);
    cpu.next(&mut d, 0).unwrap();
    let r = cpu.next(&mut d, 0);
    assert_eq!(r, Err(Fault::Address { address: 0x1001 }));
    assert_eq!(cpu.register(0), 0);
}

#[test]
fn index_register_add_wraps_sixteen_bits() {
    let (mut cpu, mut d) = machine_with(vec![
        0xAF, 0xFF, 0x60, 0xFF, 0xF0, 0x1E, 0xF0, 0x1E, 0xF0, 0x1E,
    ]);
    for _ in 0..5 {
        cpu.next(&mut d, 0).unwrap();
    }
    // 0xFFF plus three times 0xFF stays within 16 bits here
    assert_eq!(cpu.index_register(), 0xFFF + 3 * 0xFF);
}
