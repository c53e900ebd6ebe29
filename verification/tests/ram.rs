use logic::circuit::Circuit;
use logic::gate::Gate;
use logic::line::Line;

/// Builds a circuit holding one RAM gate with every bus line broken out:
/// returns (circuit, address lines, data lines, write, read, clock, ram).
fn ram_rig(gate: Gate, width: usize) -> (Circuit, Vec<usize>, Vec<usize>, usize, usize, usize, usize) {
    let mut c = Circuit::new();
    let mut addr = Vec::new();
    for _ in 0..width {
        addr.push(c.add_line(Line::Low));
    }
    let mut data = Vec::new();
    for _ in 0..width {
        data.push(c.add_line(Line::Low));
    }
    let write = c.add_line(Line::Low);
    let read = c.add_line(Line::Low);
    let clock = c.add_line(Line::Low);
    let ram = c.add_gate(gate);
    for i in 0..width {
        c.set_gate_input(ram, i, addr[i]);
        c.set_gate_input(ram, width + i, data[i]);
    }
    c.set_gate_input(ram, 2 * width, write);
    c.set_gate_input(ram, 2 * width + 1, read);
    c.set_gate_input(ram, 2 * width + 2, clock);
    (c, addr, data, write, read, clock, ram)
}

fn drive_bits(c: &mut Circuit, lines: &[usize], value: usize) {
    for (i, &line) in lines.iter().enumerate() {
        c.set_line(
            line,
            if value >> i & 1 == 1 {
                Line::High
            } else {
                Line::Low
            },
        );
    }
}

fn read_bits(c: &Circuit, ram: usize, width: usize) -> usize {
    let mut v = 0;
    for i in 0..width {
        if c.get_output(ram, i).is_high() {
            v |= 1 << i;
        }
    }
    v
}

#[test]
fn transparent_ram_round_trip() {
    let (mut c, addr, data, write, read, clock, ram) = ram_rig(Gate::nor_latch_ram_8(), 8);
    drive_bits(&mut c, &addr, 73);
    drive_bits(&mut c, &data, 0b10110100);
    c.set_line(write, Line::High);
    c.set_line(clock, Line::High);
    c.eval();
    c.set_line(write, Line::Low);
    c.set_line(read, Line::High);
    c.eval();
    assert_eq!(read_bits(&c, ram, 8), 0b10110100);
}

#[test]
fn transparent_ram_read_after_write_same_pass() {
    let (mut c, addr, data, write, read, clock, ram) = ram_rig(Gate::nor_latch_ram_8(), 8);
    drive_bits(&mut c, &addr, 5);
    drive_bits(&mut c, &data, 0xA5);
    c.set_line(write, Line::High);
    c.set_line(read, Line::High);
    c.set_line(clock, Line::High);
    c.eval();
    assert_eq!(read_bits(&c, ram, 8), 0xA5);
}

#[test]
fn transparent_ram_distinct_addresses() {
    let (mut c, addr, data, write, read, clock, ram) = ram_rig(Gate::nor_latch_ram_8(), 8);
    c.set_line(clock, Line::High);
    c.set_line(write, Line::High);
    drive_bits(&mut c, &addr, 0);
    drive_bits(&mut c, &data, 17);
    c.eval();
    drive_bits(&mut c, &addr, 255);
    drive_bits(&mut c, &data, 200);
    c.eval();
    c.set_line(write, Line::Low);
    c.set_line(read, Line::High);
    drive_bits(&mut c, &addr, 0);
    c.eval();
    assert_eq!(read_bits(&c, ram, 8), 17);
    drive_bits(&mut c, &addr, 255);
    c.eval();
    assert_eq!(read_bits(&c, ram, 8), 200);
}

#[test]
fn buffered_ram_hides_write_until_falling_edge() {
    let (mut c, addr, data, write, read, clock, ram) = ram_rig(Gate::master_slave_flip_flop_ram_8(), 8);
    drive_bits(&mut c, &addr, 73);
    drive_bits(&mut c, &data, 0b10110100);
    c.set_line(write, Line::High);
    c.set_line(clock, Line::High);
    c.eval();
    // the write has landed in the master bank; a read while the clock is
    // still High must still serve the pre-write slave value
    c.set_line(write, Line::Low);
    c.set_line(read, Line::High);
    c.eval();
    assert_eq!(read_bits(&c, ram, 8), 0);
    // the falling edge commits the master bank, and the read now sees it
    c.set_line(clock, Line::Low);
    c.eval();
    assert_eq!(read_bits(&c, ram, 8), 0b10110100);
    // further passes with the clock Low change nothing
    for _ in 0..5 {
        c.eval();
        assert_eq!(read_bits(&c, ram, 8), 0b10110100);
    }
}

#[test]
fn buffered_ram_commits_whole_bank_once() {
    let (mut c, addr, data, write, read, clock, ram) = ram_rig(Gate::master_slave_flip_flop_ram_8(), 8);
    c.set_line(clock, Line::High);
    c.set_line(write, Line::High);
    drive_bits(&mut c, &addr, 1);
    drive_bits(&mut c, &data, 11);
    c.eval();
    drive_bits(&mut c, &addr, 2);
    drive_bits(&mut c, &data, 22);
    c.eval();
    c.set_line(write, Line::Low);
    c.set_line(clock, Line::Low);
    c.eval();
    c.set_line(read, Line::High);
    drive_bits(&mut c, &addr, 1);
    c.eval();
    assert_eq!(read_bits(&c, ram, 8), 11);
    drive_bits(&mut c, &addr, 2);
    c.eval();
    assert_eq!(read_bits(&c, ram, 8), 22);
}

#[test]
fn ram_rejects_evaluation_on_disconnected_input() {
    let (mut c, addr, data, write, read, clock, ram) = ram_rig(Gate::nor_latch_ram_8(), 8);
    drive_bits(&mut c, &addr, 9);
    drive_bits(&mut c, &data, 0xFF);
    c.set_line(write, Line::High);
    c.set_line(clock, Line::High);
    // one address bit undefined: the pass must be a complete no-op
    c.set_line(addr[3], Line::Disconnected);
    c.eval();
    c.set_line(addr[3], Line::Low);
    c.set_line(write, Line::Low);
    c.set_line(read, Line::High);
    drive_bits(&mut c, &addr, 9);
    c.eval();
    assert_eq!(read_bits(&c, ram, 8), 0);
}

#[test]
fn narrow_transparent_ram_round_trip() {
    let (mut c, addr, data, write, read, clock, ram) = ram_rig(Gate::transparent_ram(3, 3), 3);
    drive_bits(&mut c, &addr, 6);
    drive_bits(&mut c, &data, 0b101);
    c.set_line(write, Line::High);
    c.set_line(clock, Line::High);
    c.eval();
    c.set_line(write, Line::Low);
    c.set_line(read, Line::High);
    c.eval();
    assert_eq!(read_bits(&c, ram, 3), 0b101);
}

#[test]
fn wide_buffered_ram_round_trip() {
    let (mut c, addr, data, write, read, clock, ram) = ram_rig(Gate::master_slave_flip_flop_ram_16(), 16);
    drive_bits(&mut c, &addr, 40000);
    drive_bits(&mut c, &data, 0xBEEF);
    c.set_line(write, Line::High);
    c.set_line(clock, Line::High);
    c.eval();
    c.set_line(write, Line::Low);
    c.set_line(clock, Line::Low);
    c.eval();
    c.set_line(read, Line::High);
    c.eval();
    assert_eq!(read_bits(&c, ram, 16), 0xBEEF);
}
