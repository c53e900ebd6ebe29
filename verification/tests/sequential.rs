use logic::circuit::Circuit;
use logic::gate::Gate;
use logic::line::Line;

/// Builds a circuit with a latch whose reset and set controls hang off
/// two fresh input lines; returns (circuit, reset line, set line, latch
/// handle).
fn latch_rig() -> (Circuit, usize, usize, usize) {
    let mut c = Circuit::new();
    let reset = c.add_line(Line::Low);
    let set = c.add_line(Line::Low);
    let latch = c.add_gate(Gate::nor_latch());
    c.set_gate_input(latch, 0, reset);
    c.set_gate_input(latch, 1, set);
    (c, reset, set, latch)
}

#[test]
fn nor_latch_set_then_holds_high() {
    let (mut c, _reset, set, latch) = latch_rig();
    c.set_line(set, Line::High);
    c.eval();
    assert!(c.get_output(latch, 0).is_high());
    c.set_line(set, Line::Low);
    for _ in 0..10 {
        c.eval();
        assert!(c.get_output(latch, 0).is_high());
    }
}

#[test]
fn nor_latch_reset_then_holds_low() {
    let (mut c, reset, set, latch) = latch_rig();
    c.set_line(set, Line::High);
    c.eval();
    assert!(c.get_output(latch, 0).is_high());
    c.set_line(set, Line::Low);
    c.set_line(reset, Line::High);
    c.eval();
    assert!(c.get_output(latch, 0).is_low());
    c.set_line(reset, Line::Low);
    for _ in 0..10 {
        c.eval();
        assert!(c.get_output(latch, 0).is_low());
    }
}

#[test]
fn nor_latch_set_wins_when_both_high() {
    let (mut c, reset, set, latch) = latch_rig();
    c.set_line(set, Line::High);
    c.set_line(reset, Line::High);
    c.eval();
    assert!(c.get_output(latch, 0).is_high());
}

#[test]
fn flip_flop_commits_exactly_once_per_falling_edge() {
    let mut c = Circuit::new();
    let d0 = c.add_line(Line::High);
    let d1 = c.add_line(Line::Low);
    let clock = c.add_line(Line::High);
    let ff = c.add_gate(Gate::master_slave_flip_flop());
    c.set_gate_input(ff, 0, d0);
    c.set_gate_input(ff, 1, d1);
    c.set_gate_input(ff, 2, clock);

    // one clock-High pass: the master captures xor(High, Low) = High, but
    // the slave output still shows its initial Low
    c.eval();
    assert!(c.get_output(ff, 0).is_low());

    // drive the clock Low: the first pass commits the master to the slave
    c.set_line(clock, Line::Low);
    c.eval();
    assert!(c.get_output(ff, 0).is_high());

    // the data inputs may keep moving: while the clock stays Low, no
    // further pass changes the output again
    c.set_line(d0, Line::Low);
    for _ in 0..10 {
        c.eval();
        assert!(c.get_output(ff, 0).is_high());
    }
}

#[test]
fn flip_flop_tracks_while_clock_high() {
    let mut c = Circuit::new();
    let d0 = c.add_line(Line::Low);
    let d1 = c.add_line(Line::Low);
    let clock = c.add_line(Line::High);
    let ff = c.add_gate(Gate::master_slave_flip_flop());
    c.set_gate_input(ff, 0, d0);
    c.set_gate_input(ff, 1, d1);
    c.set_gate_input(ff, 2, clock);

    // the master keeps tracking xor(d0, d1) while the clock reads High;
    // the last value before the falling edge is the one committed
    c.eval();
    c.set_line(d0, Line::High);
    c.set_line(d1, Line::High);
    c.eval();
    c.set_line(d1, Line::Low);
    c.eval();
    c.set_line(clock, Line::Low);
    c.eval();
    assert!(c.get_output(ff, 0).is_high());
}

#[test]
fn ms_flip_flop_builder_wires_the_composite() {
    let mut c = Circuit::new();
    let d0 = c.add_line(Line::High);
    let d1 = c.add_line(Line::Low);
    let clock = c.add_line(Line::High);
    let out = logic::compose::make_ms_flip_flop(d0, d1, clock, &mut c);
    c.eval();
    assert!(c.get_line_state(out).is_low());
    c.set_line(clock, Line::Low);
    c.eval();
    assert!(c.get_line_state(out).is_high());
    for _ in 0..5 {
        c.eval();
        assert!(c.get_line_state(out).is_high());
    }
}
