use logic::board::Board;
use logic::circuit::Circuit;
use logic::gate::Gate;
use logic::line::Line;

#[test]
fn cross_circuit_wiring_carries_values() {
    let mut b = Board::new();
    let mut producer = Circuit::new();
    let src = producer.add_gate(Gate::new_source());
    producer.set_high(src);
    let mut consumer = Circuit::new();
    let inv = consumer.add_gate(Gate::new_not());
    let sink = consumer.add_gate(Gate::new_sink());
    consumer.connect_i_single(sink, 0, inv, 0);
    let pc = b.add_circuit(producer);
    let cc = b.add_circuit(consumer);
    b.cross_connect(cc, inv, 0, pc, src, 0);
    b.eval_all_n_passes(2);
    assert!(b.get_output(cc, inv, 0).is_low());
    b.set_source(pc, src, Line::Low);
    b.eval_all_n_passes(2);
    assert!(b.get_output(cc, inv, 0).is_high());
}

#[test]
fn a_circuit_alone_reads_cross_slots_as_disconnected() {
    // the same wiring, evaluated through the circuit's own eval instead of
    // the board's: the cross-circuit slot reads Disconnected
    let mut b = Board::new();
    let mut producer = Circuit::new();
    let src = producer.add_gate(Gate::new_source());
    producer.set_high(src);
    let mut consumer = Circuit::new();
    let and_g = consumer.add_gate(Gate::new_and());
    let local = consumer.add_gate(Gate::new_source());
    consumer.set_high(local);
    consumer.connect_i2(and_g, local);
    let pc = b.add_circuit(producer);
    let cc = b.add_circuit(consumer);
    b.cross_connect(cc, and_g, 0, pc, src, 0);
    b.eval_all_n_passes(1);
    assert!(b.get_output(cc, and_g, 0).is_high());
    // the circuit's own eval resolves only local slots: the cross slot
    // reads Disconnected, and(Disconnected, High) == Low
    b.circuits[cc].eval();
    assert!(b.circuits[cc].get_output(and_g, 0).is_low());
}

#[test]
fn feedback_across_circuit_boundaries_settles() {
    // a cross-coupled nor latch split over two circuits on one board
    let mut b = Board::new();
    let mut half_a = Circuit::new();
    let set = half_a.add_line(Line::Low);
    let n1 = half_a.add_gate(Gate::new_nor());
    half_a.set_gate_input(n1, 0, set);
    let mut half_b = Circuit::new();
    let reset = half_b.add_line(Line::Low);
    let n2 = half_b.add_gate(Gate::new_nor());
    half_b.set_gate_input(n2, 0, reset);
    let ca = b.add_circuit(half_a);
    let cb = b.add_circuit(half_b);
    b.cross_connect(ca, n1, 1, cb, n2, 0);
    b.cross_connect(cb, n2, 1, ca, n1, 0);
    b.set_line(ca, set, Line::High);
    b.eval_all_n_passes_n_passes(2, 2);
    assert!(b.get_output(cb, n2, 0).is_high());
    b.set_line(ca, set, Line::Low);
    b.eval_all_n_passes_n_passes(2, 2);
    assert!(b.get_output(cb, n2, 0).is_high());
    b.set_line(cb, reset, Line::High);
    b.eval_all_n_passes_n_passes(2, 2);
    assert!(b.get_output(cb, n2, 0).is_low());
}

#[test]
fn board_evaluates_circuits_independently_too() {
    let mut b = Board::new();
    let mut only = Circuit::new();
    let src = only.add_gate(Gate::new_source());
    only.set_high(src);
    let inv = only.add_gate(Gate::new_not());
    only.connect_i1(inv, src);
    let c = b.add_circuit(only);
    b.eval(c);
    assert!(b.get_output(c, inv, 0).is_low());
    b.eval_circuit_n_passes(c, 3);
    assert!(b.get_output(c, inv, 0).is_low());
    assert_eq!(b.num_circuits(), 1);
    assert!(b.get_line_state(c, 0).is_high());
}
