use logic::board::Board;
use logic::circuit::Circuit;
use logic::gate::{Gate, Slot};
use logic::line::Line;

#[test]
fn removed_gate_leaves_disconnected_inputs() {
    // an inverter fed by a source: removing the source must leave the
    // inverter's input reading Disconnected, and evaluation must keep
    // working and never see the removed gate's state again
    let mut c = Circuit::new();
    let src = c.add_gate(Gate::new_source());
    c.set_high(src);
    let inv = c.add_gate(Gate::new_not());
    c.connect_i1(inv, src);
    c.eval();
    let inv_after = inv - 1;  // handles above the removed gate shift down
    c.remove_gate(src);
    assert!(matches!(c.get_gate_input(inv_after, 0), Slot::Free));
    c.eval();
    // not(Disconnected) == High: the inverter runs on the cleared input
    assert!(c.get_output(inv_after, 0).is_high());
}

#[test]
fn removed_cells_read_disconnected() {
    let mut c = Circuit::new();
    let src = c.add_gate(Gate::new_source());
    c.set_high(src);
    let cell = c.get_gate_output(src, 0);
    assert!(c.get_line_state(cell).is_high());
    c.remove_gate(src);
    // the cell stays in the arena (no held index shifts) but is dead
    assert!(c.get_line_state(cell).is_disconnected());
}

#[test]
fn removal_only_clears_references_to_the_removed_gate() {
    let mut c = Circuit::new();
    let a = c.add_gate(Gate::new_source());
    let b = c.add_gate(Gate::new_source());
    c.set_high(b);
    let and_g = c.add_gate(Gate::new_and());
    c.connect_i1(and_g, a);
    c.connect_i2(and_g, b);
    c.remove_gate(a);
    let and_after = and_g - 1;
    let b_after = b - 1;
    assert!(matches!(c.get_gate_input(and_after, 0), Slot::Free));
    assert!(matches!(c.get_gate_input(and_after, 1), Slot::Local { .. }));
    c.eval();
    // and(Disconnected, High) == Low
    assert!(c.get_output(and_after, 0).is_low());
    assert!(c.get_output(b_after, 0).is_high());
}

#[test]
fn board_remove_gate_sweeps_every_circuit() {
    let mut b = Board::new();
    let mut producer = Circuit::new();
    let src = producer.add_gate(Gate::new_source());
    producer.set_high(src);
    let mut consumer = Circuit::new();
    let inv = consumer.add_gate(Gate::new_not());
    let pc = b.add_circuit(producer);
    let cc = b.add_circuit(consumer);
    b.cross_connect(cc, inv, 0, pc, src, 0);
    b.eval_all_n_passes(1);
    assert!(b.get_output(cc, inv, 0).is_low());
    // removing the source in one circuit clears the cross-circuit slot of
    // the other circuit's inverter
    b.remove_gate(pc, src);
    b.eval_all_n_passes(1);
    assert!(b.get_output(cc, inv, 0).is_high());
}

#[test]
fn board_remove_circuit_sweeps_and_shifts() {
    let mut b = Board::new();
    let mut first = Circuit::new();
    let s1 = first.add_gate(Gate::new_source());
    first.set_high(s1);
    let mut second = Circuit::new();
    let s2 = second.add_gate(Gate::new_source());
    second.set_high(s2);
    let mut third = Circuit::new();
    let inv_a = third.add_gate(Gate::new_not());
    let inv_b = third.add_gate(Gate::new_not());
    let c1 = b.add_circuit(first);
    let c2 = b.add_circuit(second);
    let c3 = b.add_circuit(third);
    b.cross_connect(c3, inv_a, 0, c1, s1, 0);
    b.cross_connect(c3, inv_b, 0, c2, s2, 0);
    b.eval_all_n_passes(1);
    assert!(b.get_output(c3, inv_a, 0).is_low());
    assert!(b.get_output(c3, inv_b, 0).is_low());
    // removing the first circuit clears slots into it and re-aims slots
    // into the second circuit at its shifted handle
    b.remove_circuit(c1);
    b.eval_all_n_passes(1);
    let c3_after = c3 - 1;
    assert!(b.get_output(c3_after, inv_a, 0).is_high());
    assert!(b.get_output(c3_after, inv_b, 0).is_low());
}
