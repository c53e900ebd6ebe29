use logic::circuit::Circuit;
use logic::compose::{make_demux_tree, make_mux_tree};
use logic::gate::Gate;
use logic::line::Line;

fn drive_bits(c: &mut Circuit, lines: &[usize], value: usize) {
    for (i, &line) in lines.iter().enumerate() {
        c.set_line(
            line,
            if value >> i & 1 == 1 {
                Line::High
            } else {
                Line::Low
            },
        );
    }
}

#[test]
fn mux_gate_selects_and_forces_low_on_disconnected() {
    let mut c = Circuit::new();
    let i0 = c.add_line(Line::High);
    let i1 = c.add_line(Line::Low);
    let sel = c.add_line(Line::Low);
    let m = c.add_gate(Gate::new_mux());
    c.set_gate_input(m, 0, i0);
    c.set_gate_input(m, 1, i1);
    c.set_gate_input(m, 2, sel);
    c.eval();
    assert!(c.get_output(m, 0).is_high());
    c.set_line(sel, Line::High);
    c.eval();
    assert!(c.get_output(m, 0).is_low());
    c.set_line(sel, Line::Disconnected);
    c.set_line(i0, Line::High);
    c.set_line(i1, Line::High);
    c.eval();
    assert!(c.get_output(m, 0).is_low());
}

#[test]
fn demux_gate_routes_and_forces_other_side_low() {
    let mut c = Circuit::new();
    let input = c.add_line(Line::High);
    let sel = c.add_line(Line::Low);
    let d = c.add_gate(Gate::new_demux());
    c.set_gate_input(d, 0, input);
    c.set_gate_input(d, 1, sel);
    c.eval();
    assert!(c.get_output(d, 0).is_high());
    assert!(c.get_output(d, 1).is_low());
    c.set_line(sel, Line::High);
    c.eval();
    assert!(c.get_output(d, 0).is_low());
    assert!(c.get_output(d, 1).is_high());
    c.set_line(sel, Line::Disconnected);
    c.eval();
    assert!(c.get_output(d, 0).is_low());
    assert!(c.get_output(d, 1).is_low());
}

#[test]
fn wide_mux_gate_eight_way() {
    // one 8-way, 1-bit mux as a single data-driven gate: for every
    // selector value, the output equals exactly the addressed input
    let mut c = Circuit::new();
    let mut inputs = Vec::new();
    for _ in 0..8 {
        inputs.push(c.add_line(Line::Low));
    }
    let mut sels = Vec::new();
    for _ in 0..3 {
        sels.push(c.add_line(Line::Low));
    }
    let m = c.add_gate(Gate::wide_mux(3, 1));
    for i in 0..8 {
        c.set_gate_input(m, i, inputs[i]);
    }
    for s in 0..3 {
        c.set_gate_input(m, 8 + s, sels[s]);
    }
    for v in 0..8 {
        // drive a pattern with exactly one distinctive input per selector
        for i in 0..8 {
            c.set_line(
                inputs[i],
                if i == v {
                    Line::High
                } else {
                    Line::Low
                },
            );
        }
        drive_bits(&mut c, &sels, v);
        c.eval();
        assert!(c.get_output(m, 0).is_high(), "selector {v} missed its input");
        // and the complementary pattern
        for i in 0..8 {
            c.set_line(
                inputs[i],
                if i == v {
                    Line::Low
                } else {
                    Line::High
                },
            );
        }
        c.eval();
        assert!(c.get_output(m, 0).is_low());
    }
}

#[test]
fn wide_mux_gate_forces_low_on_disconnected_selector() {
    let mut c = Circuit::new();
    let mut inputs = Vec::new();
    for _ in 0..4 {
        inputs.push(c.add_line(Line::High));
    }
    let sel0 = c.add_line(Line::Disconnected);
    let sel1 = c.add_line(Line::Low);
    let m = c.add_gate(Gate::wide_mux(2, 1));
    for i in 0..4 {
        c.set_gate_input(m, i, inputs[i]);
    }
    c.set_gate_input(m, 4, sel0);
    c.set_gate_input(m, 5, sel1);
    c.eval();
    assert!(c.get_output(m, 0).is_low());
}

#[test]
fn wide_mux_gate_two_bits_wide() {
    let mut c = Circuit::new();
    let mut inputs = Vec::new();
    for _ in 0..4 {
        inputs.push(c.add_line(Line::Low));
    }
    let sel = c.add_line(Line::Low);
    let m = c.add_gate(Gate::wide_mux(1, 2));
    for i in 0..4 {
        c.set_gate_input(m, i, inputs[i]);
    }
    c.set_gate_input(m, 4, sel);
    // word 0 = (Low, High), word 1 = (High, Low)
    c.set_line(inputs[1], Line::High);
    c.set_line(inputs[2], Line::High);
    c.eval();
    assert!(c.get_output(m, 0).is_low());
    assert!(c.get_output(m, 1).is_high());
    c.set_line(sel, Line::High);
    c.eval();
    assert!(c.get_output(m, 0).is_high());
    assert!(c.get_output(m, 1).is_low());
}

#[test]
fn mux_tree_eight_way_every_selector() {
    // the recursive tree of 1-of-2 selectors: 3 levels, 8 data inputs
    let mut c = Circuit::new();
    let mut controls = Vec::new();
    for _ in 0..3 {
        controls.push(c.add_line(Line::Low));
    }
    let mut inputs = Vec::new();
    for _ in 0..8 {
        inputs.push(c.add_line(Line::Low));
    }
    let tree = make_mux_tree(&controls, 3, &mut c);
    assert_eq!(tree.len(), 5);
    let root = tree[4];
    for i in 0..8 {
        c.set_gate_input(tree[i / 2], i % 2, inputs[i]);
    }
    for v in 0..8 {
        for i in 0..8 {
            c.set_line(
                inputs[i],
                if i == v {
                    Line::High
                } else {
                    Line::Low
                },
            );
        }
        drive_bits(&mut c, &controls, v);
        // leaves stand before roots in gate order, so one pass settles
        // the whole tree; a second pass guards nothing changes
        c.eval();
        assert!(c.get_output(root, 0).is_high(), "selector {v} missed its input");
        c.eval();
        assert!(c.get_output(root, 0).is_high());
    }
}

#[test]
fn demux_tree_eight_way_every_selector() {
    let mut c = Circuit::new();
    let mut controls = Vec::new();
    for _ in 0..3 {
        controls.push(c.add_line(Line::Low));
    }
    let input = c.add_line(Line::High);
    let tree = make_demux_tree(&controls, 3, &mut c);
    assert_eq!(tree.len(), 5);
    let root = tree[4];
    c.set_gate_input(root, 0, input);
    for v in 0..8 {
        drive_bits(&mut c, &controls, v);
        c.eval();
        for i in 0..8 {
            let out = c.get_output(tree[i / 2], i % 2);
            if i == v {
                assert!(out.is_high(), "selector {v} did not route to output {i}");
            } else {
                assert!(out.is_low());
            }
        }
    }
}
