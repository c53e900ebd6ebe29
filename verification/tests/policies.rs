use logic::circuit::Circuit;
use logic::gate::Gate;
use logic::line::Line;

#[test]
fn xor_gate_passes_disconnected_through_a_circuit() {
    // the pass-through policy of the bare operation holds in a circuit
    // too: with the first operand not High, a Disconnected second operand
    // propagates to the output
    let mut c = Circuit::new();
    let a = c.add_line(Line::Low);
    let b = c.add_line(Line::Disconnected);
    let x = c.add_gate(Gate::new_xor());
    c.set_gate_input(x, 0, a);
    c.set_gate_input(x, 1, b);
    c.eval();
    assert!(c.get_output(x, 0).is_disconnected());
    c.set_line(a, Line::High);
    c.eval();
    assert!(c.get_output(x, 0).is_high());
}

#[test]
fn xnor_gate_inverts_disconnected_through_a_circuit() {
    let mut c = Circuit::new();
    let a = c.add_line(Line::High);
    let b = c.add_line(Line::Disconnected);
    let x = c.add_gate(Gate::new_xnor());
    c.set_gate_input(x, 0, a);
    c.set_gate_input(x, 1, b);
    c.eval();
    assert!(c.get_output(x, 0).is_disconnected());
    c.set_line(a, Line::Low);
    c.eval();
    assert!(c.get_output(x, 0).is_high());
}

#[test]
fn unconnected_ports_read_disconnected() {
    let mut c = Circuit::new();
    let n = c.add_gate(Gate::new_not());
    let a = c.add_gate(Gate::new_and());
    let o = c.add_gate(Gate::new_or());
    c.eval();
    // not(Disconnected) == High; and/or treat it as a non-High operand
    assert!(c.get_output(n, 0).is_high());
    assert!(c.get_output(a, 0).is_low());
    assert!(c.get_output(o, 0).is_low());
}

#[test]
fn empty_circuit_evaluates() {
    let mut c = Circuit::new();
    c.eval();
    c.eval_n_passes(5);
    assert_eq!(c.num_gates(), 0);
    assert_eq!(c.num_lines(), 0);
}

#[test]
fn zero_passes_change_nothing() {
    let mut c = Circuit::new();
    let src = c.add_gate(Gate::new_source());
    c.set_high(src);
    let inv = c.add_gate(Gate::new_not());
    c.connect_i1(inv, src);
    c.eval_n_passes(0);
    assert!(c.get_output(inv, 0).is_low());
    assert!(c.get_output(src, 0).is_high());
}

#[test]
fn sink_captures_what_it_reads() {
    let mut c = Circuit::new();
    let src = c.add_gate(Gate::new_source());
    c.set_high(src);
    let sink = c.add_gate(Gate::new_sink());
    c.connect_i_single(sink, 0, src, 0);
    c.eval();
    assert!(c.gates[sink].sink_value().is_high());
    c.set_low(src);
    c.eval();
    assert!(c.gates[sink].sink_value().is_low());
}

#[test]
fn fresh_buffered_ram_commits_zeros_harmlessly() {
    // a fresh module with the clock Low performs its one commit of an
    // all-Low master bank; reads stay Low
    let mut c = Circuit::new();
    let lines: Vec<usize> = (0..7).map(|_| c.add_line(Line::Low)).collect();
    let ram = c.add_gate(Gate::buffered_ram(2, 2));
    for i in 0..4 {
        c.set_gate_input(ram, i, lines[i]);
    }
    c.set_gate_input(ram, 4, lines[4]);
    c.set_gate_input(ram, 5, lines[5]);
    c.set_gate_input(ram, 6, lines[6]);
    c.set_line(lines[5], Line::High);  // read
    c.eval_n_passes(3);
    assert!(c.get_output(ram, 0).is_low());
    assert!(c.get_output(ram, 1).is_low());
}

#[test]
fn wide_mux_sixteen_bits_eight_ways() {
    // the one-device equivalent of an 8-way, 16-bit-wide multiplexer
    let mut c = Circuit::new();
    let mut data = Vec::new();
    for _ in 0..128 {
        data.push(c.add_line(Line::Low));
    }
    let mut sels = Vec::new();
    for _ in 0..3 {
        sels.push(c.add_line(Line::Low));
    }
    let m = c.add_gate(Gate::wide_mux(3, 16));
    for i in 0..128 {
        c.set_gate_input(m, i, data[i]);
    }
    for s in 0..3 {
        c.set_gate_input(m, 128 + s, sels[s]);
    }
    // word 3 carries the pattern 0xC5A1
    let word: usize = 3;
    let pattern: u16 = 0xC5A1;
    for bit in 0..16 {
        if pattern >> bit & 1 == 1 {
            c.set_line(data[word * 16 + bit], Line::High);
        }
    }
    for s in 0..3 {
        c.set_line(
            sels[s],
            if word >> s & 1 == 1 {
                Line::High
            } else {
                Line::Low
            },
        );
    }
    c.eval();
    let mut got: u16 = 0;
    for bit in 0..16 {
        if c.get_output(m, bit).is_high() {
            got |= 1 << bit;
        }
    }
    assert_eq!(got, 0xC5A1);
}
