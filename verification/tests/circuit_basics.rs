use logic::circuit::Circuit;
use logic::gate::{Gate, GateKind, Slot};
use logic::line::Line;
use logic::registry::LineRegistry;

#[test]
fn combinational_gates_through_a_circuit() {
    let mut c = Circuit::new();
    let a = c.add_line(Line::High);
    let b = c.add_line(Line::Low);
    let and_g = c.add_gate(Gate::new_and());
    let or_g = c.add_gate(Gate::new_or());
    let xor_g = c.add_gate(Gate::new_xor());
    let nand_g = c.add_gate(Gate::new_nand());
    let nor_g = c.add_gate(Gate::new_nor());
    let xnor_g = c.add_gate(Gate::new_xnor());
    for &g in &[and_g, or_g, xor_g, nand_g, nor_g, xnor_g] {
        c.set_gate_input(g, 0, a);
        c.set_gate_input(g, 1, b);
    }
    let not_g = c.add_gate(Gate::new_not());
    c.set_gate_input(not_g, 0, a);
    c.eval();
    assert!(c.get_output(and_g, 0).is_low());
    assert!(c.get_output(or_g, 0).is_high());
    assert!(c.get_output(xor_g, 0).is_high());
    assert!(c.get_output(nand_g, 0).is_high());
    assert!(c.get_output(nor_g, 0).is_low());
    assert!(c.get_output(xnor_g, 0).is_low());
    assert!(c.get_output(not_g, 0).is_low());
}

#[test]
fn source_drives_and_sink_captures() {
    let mut c = Circuit::new();
    let src = c.add_gate(Gate::new_source());
    let sink = c.add_gate(Gate::new_sink());
    c.connect_i_single(sink, 0, src, 0);
    // the source's cell starts at its drive value; set_high is visible on
    // the cell at once
    c.set_high(src);
    c.eval();
    assert!(c.get_output(src, 0).is_high());
    c.set_low(src);
    c.eval();
    assert!(c.get_output(src, 0).is_low());
    c.set_source(src, Line::High);
    assert!(c.get_output(src, 0).is_high());
}

#[test]
fn rewiring_resets_outputs_to_the_default() {
    // a newly rewired but not-yet-evaluated gate never exposes a result
    // computed under the old topology
    let mut c = Circuit::new();
    let src = c.add_gate(Gate::new_source());
    c.set_high(src);
    let inv = c.add_gate(Gate::new_not());
    c.connect_i1(inv, src);
    c.eval();
    assert!(c.get_output(inv, 0).is_low());
    // an unconnected input reads Disconnected, so the next pass computes
    // not(Disconnected) == High; but the disconnect itself first resets
    // the output to the default Low
    c.disconnect_i1(inv);
    assert!(c.get_output(inv, 0).is_low());
    c.eval();
    assert!(c.get_output(inv, 0).is_high());
    // reconnecting likewise shows the default, never the stale value,
    // until that inverter is evaluated again
    c.connect_i1(inv, src);
    assert!(c.get_output(inv, 0).is_low());
    c.eval();
    assert!(c.get_output(inv, 0).is_low());
}

#[test]
fn feedback_settles_over_passes() {
    // a cross-coupled pair of nor gates: a hand-built latch out of two
    // primitives, settled by repeated synchronous passes
    let mut c = Circuit::new();
    let set = c.add_line(Line::Low);
    let reset = c.add_line(Line::Low);
    let n1 = c.add_gate(Gate::new_nor());
    let n2 = c.add_gate(Gate::new_nor());
    c.set_gate_input(n1, 0, reset);
    c.connect_i2(n1, n2);
    c.set_gate_input(n2, 0, set);
    c.connect_i2(n2, n1);
    // drive set: q (= n1 output) goes High within two passes
    c.set_line(set, Line::High);
    c.eval_n_passes(2);
    assert!(c.get_output(n1, 0).is_high());
    // release set: the loop holds the state
    c.set_line(set, Line::Low);
    c.eval_n_passes(4);
    assert!(c.get_output(n1, 0).is_high());
    // drive reset: q falls and holds
    c.set_line(reset, Line::High);
    c.eval_n_passes(2);
    assert!(c.get_output(n1, 0).is_low());
    c.set_line(reset, Line::Low);
    c.eval_n_passes(4);
    assert!(c.get_output(n1, 0).is_low());
}

#[test]
fn eval_n_evals_per_gate_settles_a_chain_in_one_sweep() {
    let mut c = Circuit::new();
    let src = c.add_gate(Gate::new_source());
    c.set_high(src);
    let inv1 = c.add_gate(Gate::new_not());
    let inv2 = c.add_gate(Gate::new_not());
    c.connect_i1(inv1, src);
    c.connect_i1(inv2, inv1);
    c.eval_n_evals_per_gate(1);
    assert!(c.get_output(inv2, 0).is_high());
}

#[test]
fn eval_single_gate_touches_only_that_gate() {
    let mut c = Circuit::new();
    let src = c.add_gate(Gate::new_source());
    let inv1 = c.add_gate(Gate::new_not());
    let inv2 = c.add_gate(Gate::new_not());
    c.connect_i1(inv1, src);
    c.connect_i1(inv2, src);
    // the source drives Low, so an evaluated inverter shows High while an
    // unevaluated one still shows its default Low
    c.eval_single_gate(inv1);
    assert!(c.get_output(inv1, 0).is_high());
    assert!(c.get_output(inv2, 0).is_low());
    c.eval_single_gate(inv2);
    assert!(c.get_output(inv2, 0).is_high());
}

#[test]
fn gate_accessors_and_ports() {
    let mut g = Gate::new_and();
    assert_eq!(g.num_inputs(), 2);
    assert_eq!(g.num_outputs(), 1);
    assert!(matches!(g.get_i1(), Slot::Free));
    assert!(matches!(g.get_i2(), Slot::Free));
    g.connect_i1(7);
    g.connect_i2(9);
    assert!(matches!(g.get_i1(), Slot::Local { line: 7 }));
    assert!(matches!(g.get_i2(), Slot::Local { line: 9 }));
    g.disconnect_i1();
    g.disconnect_i2();
    assert!(matches!(g.get_input(0), Slot::Free));
    assert!(matches!(g.get_input(1), Slot::Free));
    let ram = Gate::nor_latch_ram_16();
    assert_eq!(ram.num_inputs(), 35);
    assert_eq!(ram.num_outputs(), 16);
    let wide = Gate::wide_mux(3, 16);
    assert_eq!(wide.num_inputs(), 131);
    assert_eq!(wide.num_outputs(), 16);
    assert!(matches!(wide.kind, GateKind::WideMux { sel_bits: 3, data_bits: 16 }));
}

#[test]
fn standalone_gate_eval_against_a_registry_arena() {
    // Gate::eval runs against any line arena; LineRegistry supplies one
    let mut reg = LineRegistry::new();
    let a = reg.add_line();
    let b = reg.add_line();
    let out = reg.add_line();
    reg.drive_high(a);
    reg.drive_high(b);
    let mut g = Gate::new_and();
    g.connect_i1(a);
    g.connect_i2(b);
    g.set_output(0, out);
    g.eval(&mut reg.lines);
    assert!(reg.get_line_state(out).is_high());
    reg.drive_low(b);
    g.eval(&mut reg.lines);
    assert!(reg.get_line_state(out).is_low());
}

#[test]
fn registry_drives_and_removes_lines() {
    let mut reg = LineRegistry::new();
    let a = reg.add_line();
    let b = reg.add_line();
    assert_eq!(reg.num_lines(), 2);
    assert!(reg.get_line_state(a).is_low());
    reg.drive_high(a);
    reg.set_line_state(b, Line::Disconnected);
    assert!(reg.get_line_state(a).is_high());
    assert!(reg.get_line_state(b).is_disconnected());
    reg.remove(a);
    assert_eq!(reg.num_lines(), 1);
    // indices above the removed line shift down
    assert!(reg.get_line_state(0).is_disconnected());
}
