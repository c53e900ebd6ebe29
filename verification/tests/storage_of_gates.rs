use logic::circuit::Circuit;
use logic::compose::{make_1bx256_dmux, make_1bx256_mux, make_1bx256_storage, make_8bx256_storage};
use logic::line::Line;

fn drive_bits(c: &mut Circuit, lines: &[usize], value: usize) {
    for (i, &line) in lines.iter().enumerate() {
        c.set_line(
            line,
            if value >> i & 1 == 1 {
                Line::High
            } else {
                Line::Low
            },
        );
    }
}

fn eight_lines(c: &mut Circuit) -> Vec<usize> {
    let mut v = Vec::new();
    for _ in 0..8 {
        v.push(c.add_line(Line::Low));
    }
    v
}

#[test]
fn one_bit_plane_round_trip() {
    let mut c = Circuit::new();
    let input = c.add_line(Line::Low);
    let address = eight_lines(&mut c);
    let write = c.add_line(Line::Low);
    let read = c.add_line(Line::Low);
    let clock = c.add_line(Line::Low);
    let out = make_1bx256_storage(input, &address, write, read, clock, &mut c);

    // write a High bit at address 73
    drive_bits(&mut c, &address, 73);
    c.set_line(input, Line::High);
    c.set_line(write, Line::High);
    c.set_line(clock, Line::High);
    c.eval_n_passes(2);
    // read it back
    c.set_line(write, Line::Low);
    c.set_line(clock, Line::Low);
    c.set_line(read, Line::High);
    c.eval_n_passes(3);
    assert!(c.get_line_state(out).is_high());
    // a neighbouring address stayed Low
    drive_bits(&mut c, &address, 74);
    c.eval_n_passes(3);
    assert!(c.get_line_state(out).is_low());
    drive_bits(&mut c, &address, 73);
    c.eval_n_passes(3);
    assert!(c.get_line_state(out).is_high());
}

#[test]
fn byte_wide_storage_round_trip() {
    let mut c = Circuit::new();
    let address = eight_lines(&mut c);
    let data = eight_lines(&mut c);
    let write = c.add_line(Line::Low);
    let read = c.add_line(Line::Low);
    let clock = c.add_line(Line::Low);
    let outs = make_8bx256_storage(&address, &data, write, read, clock, &mut c);
    assert_eq!(outs.len(), 8);

    drive_bits(&mut c, &address, 73);
    drive_bits(&mut c, &data, 0b10110100);
    c.set_line(write, Line::High);
    c.set_line(clock, Line::High);
    c.eval_n_passes(2);
    c.set_line(write, Line::Low);
    c.set_line(clock, Line::Low);
    c.set_line(read, Line::High);
    c.eval_n_passes(3);
    let mut got = 0;
    for i in 0..8 {
        if c.get_line_state(outs[i]).is_high() {
            got |= 1 << i;
        }
    }
    assert_eq!(got, 0b10110100);
}

#[test]
fn named_256_way_trees_have_the_expected_shape() {
    let mut c = Circuit::new();
    let controls = eight_lines(&mut c);
    let before = c.num_gates();
    let mux = make_1bx256_mux(&controls, &mut c);
    assert_eq!(mux.len(), 129);
    assert_eq!(c.num_gates(), before + 255);
    let dmux = make_1bx256_dmux(&controls, &mut c);
    assert_eq!(dmux.len(), 129);
    assert_eq!(c.num_gates(), before + 510);
}

#[test]
fn named_256_way_mux_selects() {
    let mut c = Circuit::new();
    let controls = eight_lines(&mut c);
    let feed = c.add_line(Line::Low);
    let mux = make_1bx256_mux(&controls, &mut c);
    // wire all 256 data inputs to one Low line except input 200
    let hot = c.add_line(Line::High);
    for i in 0..256 {
        c.set_gate_input(mux[i / 2], i % 2, if i == 200 { hot } else { feed });
    }
    let root = mux[128];
    drive_bits(&mut c, &controls, 200);
    c.eval_n_passes(2);
    assert!(c.get_output(root, 0).is_high());
    drive_bits(&mut c, &controls, 199);
    c.eval_n_passes(2);
    assert!(c.get_output(root, 0).is_low());
}
