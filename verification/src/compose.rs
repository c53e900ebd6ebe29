//! Wide combinational composites, generated programmatically.
//!
//! Binary mux/demux trees of arbitrary depth are grown by one recursive
//! constructor each — one selector gate per split, one address bit per
//! level, the most significant bit selecting the outermost split — in
//! place of hand-enumerated tree nodes. On top of them, an
//! address-decoded one-bit storage plane and its byte-wide stack.
//!
//! Every constructor returns its gates in the same convention: the
//! `2^(depth-1)` leaf handles first, the root handle last, so data input
//! `i` of a mux tree belongs on leaf `i/2`, port `i%2`, and output `i` of
//! a demux tree comes off leaf `i/2`, cell `i%2`.

use vstd::prelude::*;
use crate::line::Line;
use crate::gate::{
    Gate, GateKind, GateV, Slot, pow2, pow2_of, lemma_pow2_le, lemma_pow2_pos, bits_to_nat,
    lemma_bits_to_nat_bound, spec_read_slot, spec_read_inputs, spec_cell_vals, kind_eval,
    gate_step, spec_mux, spec_demux, storage_len, write_cells, nat_to_bits,
};
use crate::circuit::{
    Circuit, CircuitV, lemma_reset_preserves_low, owned_in, run_gates, sweep, lemma_sweep_is_run,
    lemma_run_gates_compose, lemma_run_gates_frame, lemma_gate_step_frame,
};

verus! {

/// Handle `h` of the circuit is a selector gate whose data ports are
/// still free for the caller to wire.
pub open spec fn open_mux_leaf(c: crate::circuit::CircuitV, h: int) -> bool {
    &&& 0 <= h < c.gates.len()
    &&& c.gates[h].kind is Mux
    &&& c.gates[h].inputs.len() == 3
    &&& c.gates[h].outputs.len() == 1
}

/// Every output cell of gate `h` sits at arena index `base` or above —
/// its cells were allocated after the first `base` lines existed.
pub open spec fn cells_at_least(c: crate::circuit::CircuitV, h: int, base: int) -> bool {
    forall|o: int|
        0 <= o < c.gates[h].outputs.len() ==> base <= #[trigger] c.gates[h].outputs[o] as int
}

/// Handle `h` of the circuit is a router gate.
pub open spec fn demux_node(c: crate::circuit::CircuitV, h: int) -> bool {
    &&& 0 <= h < c.gates.len()
    &&& c.gates[h].kind is Demux
    &&& c.gates[h].inputs.len() == 2
    &&& c.gates[h].outputs.len() == 2
}

/// Grows a `2^depth`-way, 1-bit multiplexer tree over the given control
/// lines, least significant first; `controls[depth-1]` selects the
/// outermost split. Returns the `2^(depth-1)` leaf mux handles followed
/// by the root handle; data input `i` belongs on leaf `i/2`, port `i%2`,
/// and those leaf data ports are left free. Lines and gates already in
/// the circuit are untouched.
#[verifier::rlimit(60)]
pub fn make_mux_tree(controls: &Vec<usize>, depth: usize, circuit: &mut Circuit) -> (r: Vec<usize>)
    requires
        old(circuit).wf(),
        1 <= depth <= controls@.len(),
        forall|k: int| 0 <= k < controls@.len() ==> (#[trigger] controls@[k] as int) < old(
            circuit,
        )@.lines.len(),
        pow2(depth as nat) <= 0x1000_0000,
        old(circuit)@.lines.len() + pow2(depth as nat) <= usize::MAX,
        old(circuit)@.gates.len() + pow2(depth as nat) <= usize::MAX,
    ensures
        final(circuit).wf(),
        final(circuit)@.gates.len() == old(circuit)@.gates.len() + pow2(depth as nat) - 1,
        final(circuit)@.lines.len() == old(circuit)@.lines.len() + pow2(depth as nat) - 1,
        forall|h: int|
            0 <= h < old(circuit)@.gates.len() ==> #[trigger] final(circuit)@.gates[h] == old(
                circuit,
            )@.gates[h],
        forall|j: int|
            0 <= j < old(circuit)@.lines.len() ==> #[trigger] final(circuit)@.lines[j] == old(
                circuit,
            )@.lines[j],
        r@.len() == pow2((depth - 1) as nat) + 1,
        forall|k: int|
            0 <= k < r@.len() ==> old(circuit)@.gates.len() <= #[trigger] r@[k] as int
                && (r@[k] as int) < old(circuit)@.gates.len() + pow2(depth as nat) - 1,
        forall|k: int| 0 <= k < r@.len() ==> open_mux_leaf(final(circuit)@, #[trigger] r@[k] as int),
        forall|k: int|
            0 <= k < r@.len() ==> cells_at_least(
                final(circuit)@,
                #[trigger] r@[k] as int,
                old(circuit)@.lines.len() as int,
            ),
        forall|k: int|
            0 <= k < r@.len() - 1 ==> final(circuit)@.gates[#[trigger] r@[k] as int].inputs[0]
                == Slot::Free && final(circuit)@.gates[r@[k] as int].inputs[1] == Slot::Free,
        forall|k1: int, k2: int|
            0 <= k1 < k2 < r@.len() - 1 ==> #[trigger] r@[k1] != #[trigger] r@[k2],
        mux_tree_at(
            final(circuit)@,
            old(circuit)@.gates.len() as int,
            old(circuit)@.gates.len() + pow2(depth as nat) - 1,
            controls@,
            depth as nat,
        ),
        forall|k: int|
            0 <= k < r@.len() - 1 ==> #[trigger] r@[k] as int == tree_leaf(
                old(circuit)@.gates.len() as int,
                depth as nat,
                k,
            ),
        r@[r@.len() - 1] as int == old(circuit)@.gates.len() + pow2(depth as nat) - 2,
    decreases depth,
{
    proof {
        lemma_pow2_pos((depth - 1) as nat);
    }
    if depth == 1 {
        let m = circuit.add_gate(Gate::new_mux());
        circuit.set_gate_input(m, 2, controls[0]);
        let mut r: Vec<usize> = Vec::new();
        r.push(m);
        r.push(m);
        proof {
            assert(pow2(1) == 2 && pow2(0) == 1);
            assert(r@.len() == 2);
            let gm = circuit@.gates[m as int];
            assert(gm.kind is Mux);
            assert(gm.inputs.len() == 3);
            assert(gm.outputs.len() == 1);
            assert(gm.inputs[0] == Slot::Free);
            assert(gm.inputs[1] == Slot::Free);
            assert(cells_at_least(circuit@, m as int, old(circuit)@.lines.len() as int));
            assert(gm.inputs[2] == (Slot::Local { line: controls@[0] }));
            assert(mux_tree_at(
                circuit@,
                old(circuit)@.gates.len() as int,
                old(circuit)@.gates.len() as int + 1,
                controls@,
                1,
            ));
        }
        r
    } else {
        proof {
            lemma_pow2_le((depth - 1) as nat, depth as nat);
            assert(pow2(depth as nat) == 2 * pow2((depth - 1) as nat));
            assert(pow2((depth - 1) as nat) == 2 * pow2((depth - 2) as nat));
        }
        let ghost c0 = old(circuit)@;
        let low = make_mux_tree(controls, depth - 1, circuit);
        let ghost c1 = circuit@;
        let high = make_mux_tree(controls, depth - 1, circuit);
        let ghost c2 = circuit@;
        let root = circuit.add_gate(Gate::new_mux());
        let low_root = low[low.len() - 1];
        let high_root = high[high.len() - 1];
        circuit.connect_i_single(root, 0, low_root, 0);
        circuit.connect_i_single(root, 1, high_root, 0);
        circuit.set_gate_input(root, 2, controls[depth - 1]);
        let ghost c3 = circuit@;
        let half = pow2_of(depth - 2);
        proof {
            assert(low@.len() == pow2((depth - 2) as nat) + 1);
            assert(high@.len() == pow2((depth - 2) as nat) + 1);
            assert(c3.gates.len() == c2.gates.len() + 1);
            assert(root as int == c2.gates.len());
            // the three wiring steps touched only the root's own gate
            assert forall|h: int| 0 <= h < c2.gates.len() implies #[trigger] c3.gates[h]
                == c2.gates[h] by {}
            assert forall|j: int| 0 <= j < c0.lines.len() implies #[trigger] c3.lines[j]
                == c0.lines[j] by {
                assert(c2.lines[j] == c0.lines[j]);
            }
        }
        let mut r: Vec<usize> = Vec::new();
        let mut k: usize = 0;
        while k < half
            invariant
                k <= half,
                half == pow2((depth - 2) as nat),
                half < low@.len(),
                r@.len() == k,
                forall|t: int| 0 <= t < k ==> r@[t] == low@[t],
            decreases half - k,
        {
            r.push(low[k]);
            k = k + 1;
        }
        let mut k2: usize = 0;
        while k2 < half
            invariant
                k2 <= half,
                half == pow2((depth - 2) as nat),
                half < high@.len(),
                r@.len() == half + k2,
                forall|t: int| 0 <= t < half ==> r@[t] == low@[t],
                forall|t: int| 0 <= t < k2 ==> r@[half + t] == high@[t],
            decreases half - k2,
        {
            r.push(high[k2]);
            k2 = k2 + 1;
        }
        r.push(root);
        proof {
            let cf = circuit@;
            assert(cf == c3);
            assert(r@.len() == 2 * half + 1);
            assert(pow2((depth - 1) as nat) == 2 * pow2((depth - 2) as nat));
            assert forall|k: int| 0 <= k < r@.len() implies c0.gates.len() <= #[trigger] r@[k] as int
                && (r@[k] as int) < c0.gates.len() + pow2(depth as nat) - 1 by {
                if k < half {
                    assert(r@[k] == low@[k]);
                } else if k < 2 * half {
                    assert(r@[k] == high@[k - half]);
                } else {
                    assert(r@[k] == root);
                }
            }
            assert forall|k: int| 0 <= k < r@.len() implies open_mux_leaf(
                cf,
                #[trigger] r@[k] as int,
            ) by {
                if k < half {
                    assert(r@[k] == low@[k]);
                    assert(open_mux_leaf(c1, low@[k] as int));
                    assert(cf.gates[r@[k] as int] == c1.gates[low@[k] as int]);
                } else if k < 2 * half {
                    assert(r@[k] == high@[k - half]);
                    assert(open_mux_leaf(c2, high@[k - half] as int));
                    assert(cf.gates[r@[k] as int] == c2.gates[high@[k - half] as int]);
                } else {
                    assert(r@[k] == root);
                }
            }
            assert forall|k: int| 0 <= k < r@.len() - 1 implies cf.gates[#[trigger] r@[k] as int].inputs[0]
                == Slot::Free && cf.gates[r@[k] as int].inputs[1] == Slot::Free by {
                if k < half {
                    assert(r@[k] == low@[k]);
                    assert(cf.gates[r@[k] as int] == c1.gates[low@[k] as int]);
                } else {
                    assert(r@[k] == high@[k - half]);
                    assert(cf.gates[r@[k] as int] == c2.gates[high@[k - half] as int]);
                }
            }
            assert forall|k1: int, k2: int| 0 <= k1 < k2 < r@.len() - 1 implies #[trigger] r@[k1]
                != #[trigger] r@[k2] by {
                if k2 < half {
                    assert(r@[k1] == low@[k1] && r@[k2] == low@[k2]);
                } else if k1 >= half {
                    assert(r@[k1] == high@[k1 - half] && r@[k2] == high@[k2 - half]);
                } else {
                    assert(r@[k1] == low@[k1] && r@[k2] == high@[k2 - half]);
                    assert((low@[k1] as int) < c1.gates.len());
                    assert((high@[k2 - half] as int) >= c1.gates.len());
                }
            }
            assert forall|k: int| 0 <= k < r@.len() implies cells_at_least(
                cf,
                #[trigger] r@[k] as int,
                c0.lines.len() as int,
            ) by {
                if k < half {
                    assert(r@[k] == low@[k]);
                    assert(cells_at_least(c1, low@[k] as int, c0.lines.len() as int));
                    assert(cf.gates[r@[k] as int] == c1.gates[low@[k] as int]);
                } else if k < 2 * half {
                    assert(r@[k] == high@[k - half]);
                    assert(cells_at_least(c2, high@[k - half] as int, c1.lines.len() as int));
                    assert(cf.gates[r@[k] as int] == c2.gates[high@[k - half] as int]);
                } else {
                    assert(r@[k] == root);
                }
            }
            // the whole construction satisfies the selector tree shape:
            // the two subtrees carry their own shapes over unchanged, and
            // the root's three ports were just wired
            let s0 = c0.gates.len() as int;
            let mid = s0 + pow2((depth - 1) as nat) - 1;
            let e0 = s0 + pow2(depth as nat) - 1;
            assert(mid == c1.gates.len());
            assert(root as int == e0 - 1);
            assert forall|h: int| s0 <= h < mid implies #[trigger] cf.gates[h] == c1.gates[h] by {}
            lemma_mux_tree_segment_gates(c1, cf, s0, mid, controls@, (depth - 1) as nat);
            assert forall|h: int| mid <= h < e0 - 1 implies #[trigger] cf.gates[h]
                == c2.gates[h] by {}
            lemma_mux_tree_segment_gates(c2, cf, mid, e0 - 1, controls@, (depth - 1) as nat);
            assert(low_root as int == mid - 1);
            assert(high_root as int == e0 - 2);
            assert(cf.gates[e0 - 1].inputs[0] == (Slot::Local {
                line: cf.gates[mid - 1].outputs[0],
            }));
            assert(cf.gates[e0 - 1].inputs[1] == (Slot::Local {
                line: cf.gates[e0 - 2].outputs[0],
            }));
            assert(cf.gates[e0 - 1].inputs[2] == (Slot::Local { line: controls@[depth - 1] }));
            assert(mux_tree_at(cf, s0, e0, controls@, depth as nat));
            // and the returned leaves stand where the leaf map says
            assert forall|k: int| 0 <= k < r@.len() - 1 implies #[trigger] r@[k] as int
                == tree_leaf(s0, depth as nat, k) by {
                if k < half {
                    assert(r@[k] == low@[k]);
                    assert(low@[k] as int == tree_leaf(s0, (depth - 1) as nat, k));
                } else {
                    assert(r@[k] == high@[k - half]);
                    assert(high@[k - half] as int == tree_leaf(mid, (depth - 1) as nat, k - half));
                }
            }
        }
        r
    }
}

/// Grows a 1-to-`2^depth` router tree over the given control lines,
/// least significant first; `controls[depth-1]` steers the outermost
/// split. Returns the `2^(depth-1)` leaf router handles followed by the
/// root handle; routed output `i` comes off leaf `i/2`, cell `i%2`, and
/// the root's data port is left free for the caller. The root stands
/// before its subtrees in gate order, so one pass carries a value from
/// the root to every leaf. Lines and gates already in the circuit are
/// untouched.
#[verifier::rlimit(60)]
pub fn make_demux_tree(controls: &Vec<usize>, depth: usize, circuit: &mut Circuit) -> (r: Vec<
    usize,
>)
    requires
        old(circuit).wf(),
        1 <= depth <= controls@.len(),
        forall|k: int| 0 <= k < controls@.len() ==> (#[trigger] controls@[k] as int) < old(
            circuit,
        )@.lines.len(),
        pow2(depth as nat) <= 0x1000_0000,
        old(circuit)@.lines.len() + 2 * pow2(depth as nat) <= usize::MAX,
        old(circuit)@.gates.len() + pow2(depth as nat) <= usize::MAX,
    ensures
        final(circuit).wf(),
        final(circuit)@.gates.len() == old(circuit)@.gates.len() + pow2(depth as nat) - 1,
        final(circuit)@.lines.len() == old(circuit)@.lines.len() + 2 * (pow2(depth as nat) - 1),
        forall|h: int|
            0 <= h < old(circuit)@.gates.len() ==> #[trigger] final(circuit)@.gates[h] == old(
                circuit,
            )@.gates[h],
        forall|j: int|
            0 <= j < old(circuit)@.lines.len() ==> #[trigger] final(circuit)@.lines[j] == old(
                circuit,
            )@.lines[j],
        r@.len() == pow2((depth - 1) as nat) + 1,
        forall|k: int|
            0 <= k < r@.len() ==> old(circuit)@.gates.len() <= #[trigger] r@[k] as int
                && (r@[k] as int) < old(circuit)@.gates.len() + pow2(depth as nat) - 1,
        forall|k: int| 0 <= k < r@.len() ==> demux_node(final(circuit)@, #[trigger] r@[k] as int),
        forall|k: int|
            0 <= k < r@.len() ==> cells_at_least(
                final(circuit)@,
                #[trigger] r@[k] as int,
                old(circuit)@.lines.len() as int,
            ),
        final(circuit)@.gates[r@[r@.len() - 1] as int].inputs[0] == Slot::Free,
        forall|k1: int, k2: int|
            0 <= k1 < k2 < r@.len() - 1 ==> #[trigger] r@[k1] != #[trigger] r@[k2],
        demux_tree_at(
            final(circuit)@,
            old(circuit)@.gates.len() as int,
            old(circuit)@.gates.len() + pow2(depth as nat) - 1,
            controls@,
            depth as nat,
        ),
        forall|k: int|
            0 <= k < r@.len() - 1 ==> #[trigger] r@[k] as int == dtree_leaf(
                old(circuit)@.gates.len() as int,
                depth as nat,
                k,
            ),
        r@[r@.len() - 1] as int == old(circuit)@.gates.len(),
    decreases depth,
{
    proof {
        lemma_pow2_pos((depth - 1) as nat);
    }
    if depth == 1 {
        let g = circuit.add_gate(Gate::new_demux());
        circuit.set_gate_input(g, 1, controls[0]);
        let mut r: Vec<usize> = Vec::new();
        r.push(g);
        r.push(g);
        proof {
            assert(pow2(1) == 2 && pow2(0) == 1);
            assert(r@.len() == 2);
            let gv = circuit@.gates[g as int];
            assert(gv.kind is Demux);
            assert(gv.inputs.len() == 2);
            assert(gv.outputs.len() == 2);
            assert(gv.inputs[0] == Slot::Free);
            assert(cells_at_least(circuit@, g as int, old(circuit)@.lines.len() as int));
            assert(gv.inputs[1] == (Slot::Local { line: controls@[0] }));
            assert(demux_tree_at(
                circuit@,
                old(circuit)@.gates.len() as int,
                old(circuit)@.gates.len() as int + 1,
                controls@,
                1,
            ));
        }
        r
    } else {
        proof {
            lemma_pow2_le((depth - 1) as nat, depth as nat);
            assert(pow2(depth as nat) == 2 * pow2((depth - 1) as nat));
            assert(pow2((depth - 1) as nat) == 2 * pow2((depth - 2) as nat));
        }
        let ghost c0 = old(circuit)@;
        let root = circuit.add_gate(Gate::new_demux());
        let ghost ca = circuit@;
        circuit.set_gate_input(root, 1, controls[depth - 1]);
        let ghost c1 = circuit@;
        proof {
            assert(c1.gates[root as int].inputs[0] == Slot::Free);
            assert forall|j: int| 0 <= j < c0.lines.len() implies #[trigger] c1.lines[j]
                == c0.lines[j] by {
                lemma_reset_preserves_low(
                    ca.lines,
                    ca.gates[root as int].outputs,
                    j,
                    c0.lines.len() as int,
                );
            }
        }
        let low = make_demux_tree(controls, depth - 1, circuit);
        let ghost cb = circuit@;
        let low_root = low[low.len() - 1];
        circuit.connect_i_single(low_root, 0, root, 0);
        let ghost c2 = circuit@;
        proof {
            assert(c2.gates[root as int] == c1.gates[root as int]);
            assert forall|j: int| 0 <= j < c1.lines.len() implies #[trigger] c2.lines[j]
                == c1.lines[j] by {
                assert(cells_at_least(cb, low_root as int, c1.lines.len() as int));
                lemma_reset_preserves_low(
                    cb.lines,
                    cb.gates[low_root as int].outputs,
                    j,
                    c1.lines.len() as int,
                );
            }
        }
        let high = make_demux_tree(controls, depth - 1, circuit);
        let ghost cc = circuit@;
        let high_root = high[high.len() - 1];
        circuit.connect_i_single(high_root, 0, root, 1);
        let ghost c3 = circuit@;
        let half = pow2_of(depth - 2);
        proof {
            assert(low@.len() == pow2((depth - 2) as nat) + 1);
            assert(high@.len() == pow2((depth - 2) as nat) + 1);
            assert(c3.gates[root as int] == c1.gates[root as int]);
            assert forall|j: int| 0 <= j < c2.lines.len() implies #[trigger] c3.lines[j]
                == c2.lines[j] by {
                assert(cells_at_least(cc, high_root as int, c2.lines.len() as int));
                lemma_reset_preserves_low(
                    cc.lines,
                    cc.gates[high_root as int].outputs,
                    j,
                    c2.lines.len() as int,
                );
            }
            assert forall|j: int| 0 <= j < c0.lines.len() implies #[trigger] c3.lines[j]
                == c0.lines[j] by {
                assert(c2.lines[j] == c1.lines[j]);
                assert(c1.lines[j] == c0.lines[j]);
            }
        }
        let mut r: Vec<usize> = Vec::new();
        let mut k: usize = 0;
        while k < half
            invariant
                k <= half,
                half == pow2((depth - 2) as nat),
                half < low@.len(),
                r@.len() == k,
                forall|t: int| 0 <= t < k ==> r@[t] == low@[t],
            decreases half - k,
        {
            r.push(low[k]);
            k = k + 1;
        }
        let mut k2: usize = 0;
        while k2 < half
            invariant
                k2 <= half,
                half == pow2((depth - 2) as nat),
                half < high@.len(),
                r@.len() == half + k2,
                forall|t: int| 0 <= t < half ==> r@[t] == low@[t],
                forall|t: int| 0 <= t < k2 ==> r@[half + t] == high@[t],
            decreases half - k2,
        {
            r.push(high[k2]);
            k2 = k2 + 1;
        }
        r.push(root);
        proof {
            let cf = circuit@;
            assert(cf == c3);
            assert(r@.len() == 2 * half + 1);
            assert(pow2((depth - 1) as nat) == 2 * pow2((depth - 2) as nat));
            // the subtree calls and the two connects kept the low leaves as
            // the low call left them, and all handles in range
            assert forall|k: int| 0 <= k < r@.len() implies c0.gates.len() + 1
                <= #[trigger] r@[k] as int + 1 && (r@[k] as int) < c0.gates.len() + pow2(
                depth as nat,
            ) - 1 by {
                if k < half {
                    assert(r@[k] == low@[k]);
                } else if k < 2 * half {
                    assert(r@[k] == high@[k - half]);
                } else {
                    assert(r@[k] == root);
                }
            }
            assert forall|k: int| 0 <= k < r@.len() implies demux_node(
                cf,
                #[trigger] r@[k] as int,
            ) by {
                if k < half {
                    assert(r@[k] == low@[k]);
                    let ghost mid = c2;
                    assert(demux_node(c2, low@[k] as int) || demux_node(
                        circuit@,
                        low@[k] as int,
                    ));
                    if (low@[k] as int) != low_root as int {
                        assert(cf.gates[r@[k] as int] == c2.gates[low@[k] as int]);
                    } else {
                        assert(cf.gates[r@[k] as int].outputs == c2.gates[low@[k] as int].outputs);
                    }
                } else if k < 2 * half {
                    assert(r@[k] == high@[k - half]);
                    if (high@[k - half] as int) != high_root as int {
                        assert(cf.gates[r@[k] as int] == c3.gates[high@[k - half] as int]);
                    }
                } else {
                    assert(r@[k] == root);
                }
            }
            assert forall|k1: int, k2: int| 0 <= k1 < k2 < r@.len() - 1 implies #[trigger] r@[k1]
                != #[trigger] r@[k2] by {
                if k2 < half {
                    assert(r@[k1] == low@[k1] && r@[k2] == low@[k2]);
                } else if k1 >= half {
                    assert(r@[k1] == high@[k1 - half] && r@[k2] == high@[k2 - half]);
                } else {
                    assert(r@[k1] == low@[k1] && r@[k2] == high@[k2 - half]);
                    assert((low@[k1] as int) < c1.gates.len() + pow2((depth - 1) as nat) - 1);
                    assert((high@[k2 - half] as int) >= c2.gates.len());
                }
            }
            assert forall|k: int| 0 <= k < r@.len() implies cells_at_least(
                cf,
                #[trigger] r@[k] as int,
                c0.lines.len() as int,
            ) by {
                if k < half {
                    assert(r@[k] == low@[k]);
                    assert(cells_at_least(cb, low@[k] as int, c1.lines.len() as int));
                    assert(cf.gates[r@[k] as int].outputs == cb.gates[low@[k] as int].outputs);
                } else if k < 2 * half {
                    assert(r@[k] == high@[k - half]);
                    assert(cells_at_least(cc, high@[k - half] as int, c2.lines.len() as int));
                    assert(cf.gates[r@[k] as int].outputs == cc.gates[high@[k - half] as int].outputs);
                } else {
                    assert(r@[k] == root);
                    assert(cf.gates[root as int].outputs == ca.gates[root as int].outputs);
                }
            }
            // the whole construction satisfies the router tree shape: the
            // root's ports were wired first, each subtree carries its own
            // shape over, and the two connects pointed the subtree roots'
            // data ports at the root's cells
            let s0 = c0.gates.len() as int;
            let mid = s0 + pow2((depth - 1) as nat);
            let e0 = s0 + pow2(depth as nat) - 1;
            assert(root as int == s0);
            assert(low_root as int == s0 + 1);
            assert(high_root as int == mid);
            lemma_demux_tree_wire_root(cb, c2, s0 + 1, mid, controls@, (depth - 1) as nat);
            assert forall|g: int| s0 + 1 <= g < mid implies #[trigger] cc.gates[g]
                == c2.gates[g] by {}
            lemma_demux_tree_segment_gates(c2, cc, s0 + 1, mid, controls@, (depth - 1) as nat);
            assert forall|g: int| s0 + 1 <= g < mid implies #[trigger] c3.gates[g]
                == cc.gates[g] by {}
            lemma_demux_tree_segment_gates(cc, c3, s0 + 1, mid, controls@, (depth - 1) as nat);
            lemma_demux_tree_wire_root(cc, c3, mid, e0, controls@, (depth - 1) as nat);
            assert(cf.gates[s0].inputs[1] == (Slot::Local { line: controls@[depth - 1] }));
            assert(cf.gates[s0 + 1].inputs[0] == (Slot::Local { line: cf.gates[s0].outputs[0] }));
            assert(cf.gates[mid].inputs[0] == (Slot::Local { line: cf.gates[s0].outputs[1] }));
            assert(demux_tree_at(cf, s0, e0, controls@, depth as nat));
            // and the returned leaves stand where the leaf map says
            assert forall|k: int| 0 <= k < r@.len() - 1 implies #[trigger] r@[k] as int
                == dtree_leaf(s0, depth as nat, k) by {
                if k < half {
                    assert(r@[k] == low@[k]);
                    assert(low@[k] as int == dtree_leaf(s0 + 1, (depth - 1) as nat, k));
                } else {
                    assert(r@[k] == high@[k - half]);
                    assert(high@[k - half] as int == dtree_leaf(mid, (depth - 1) as nat, k - half));
                }
            }
        }
        r
    }
}

/// Adds one master/slave flip-flop wired to the given data and clock
/// lines and returns the arena index of its output cell.
pub fn make_ms_flip_flop(i0: usize, i1: usize, clock: usize, circuit: &mut Circuit) -> (r: usize)
    requires
        old(circuit).wf(),
        i0 < old(circuit)@.lines.len(),
        i1 < old(circuit)@.lines.len(),
        clock < old(circuit)@.lines.len(),
        old(circuit)@.lines.len() + 1 <= usize::MAX,
    ensures
        final(circuit).wf(),
        r == old(circuit)@.lines.len(),
        final(circuit)@.lines.len() == old(circuit)@.lines.len() + 1,
        final(circuit)@.gates.len() == old(circuit)@.gates.len() + 1,
        forall|j: int|
            0 <= j < old(circuit)@.lines.len() ==> #[trigger] final(circuit)@.lines[j] == old(
                circuit,
            )@.lines[j],
        forall|h: int|
            0 <= h < old(circuit)@.gates.len() ==> #[trigger] final(circuit)@.gates[h] == old(
                circuit,
            )@.gates[h],
        final(circuit)@.gates[old(circuit)@.gates.len() as int] == (GateV {
            kind: GateKind::MsFlipFlop,
            inputs: seq![
                Slot::Local { line: i0 },
                Slot::Local { line: i1 },
                Slot::Local { line: clock },
            ],
            outputs: seq![r],
            storage: seq![Line::Low, Line::Low, Line::Low],
        }),
{
    let ghost c0 = old(circuit)@;
    let g = circuit.add_gate(Gate::master_slave_flip_flop());
    let ghost ca = circuit@;
    circuit.set_gate_input(g, 0, i0);
    circuit.set_gate_input(g, 1, i1);
    circuit.set_gate_input(g, 2, clock);
    let r = circuit.get_gate_output(g, 0);
    proof {
        let cf = circuit@;
        assert(cf.gates[g as int].inputs =~= seq![
            Slot::Local { line: i0 },
            Slot::Local { line: i1 },
            Slot::Local { line: clock },
        ]);
        assert(cf.gates[g as int].outputs =~= seq![c0.lines.len() as usize]);
        assert(cf.gates[g as int].storage =~= seq![Line::Low, Line::Low, Line::Low]);
        assert(cf.gates[g as int] =~= (GateV {
            kind: GateKind::MsFlipFlop,
            inputs: seq![
                Slot::Local { line: i0 },
                Slot::Local { line: i1 },
                Slot::Local { line: clock },
            ],
            outputs: seq![c0.lines.len() as usize],
            storage: seq![Line::Low, Line::Low, Line::Low],
        }));
        assert forall|j: int| 0 <= j < c0.lines.len() implies #[trigger] cf.lines[j]
            == c0.lines[j] by {
            lemma_reset_preserves_low(
                ca.lines,
                ca.gates[g as int].outputs,
                j,
                c0.lines.len() as int,
            );
        }
    }
    r
}

/// A 256-way, 1-bit multiplexer tree over eight address lines: the 128
/// leaf mux handles, data ports free (input `i` belongs on leaf `i/2`,
/// port `i%2`), followed by the root handle.
pub fn make_1bx256_mux(controls: &Vec<usize>, circuit: &mut Circuit) -> (r: Vec<usize>)
    requires
        old(circuit).wf(),
        controls@.len() == 8,
        forall|k: int| 0 <= k < controls@.len() ==> (#[trigger] controls@[k] as int) < old(
            circuit,
        )@.lines.len(),
        old(circuit)@.lines.len() + 256 <= usize::MAX,
        old(circuit)@.gates.len() + 256 <= usize::MAX,
    ensures
        final(circuit).wf(),
        final(circuit)@.gates.len() == old(circuit)@.gates.len() + 255,
        final(circuit)@.lines.len() == old(circuit)@.lines.len() + 255,
        r@.len() == 129,
        forall|k: int| 0 <= k < r@.len() ==> open_mux_leaf(final(circuit)@, #[trigger] r@[k] as int),
        forall|k: int|
            0 <= k < r@.len() ==> cells_at_least(
                final(circuit)@,
                #[trigger] r@[k] as int,
                old(circuit)@.lines.len() as int,
            ),
        forall|k: int|
            0 <= k < r@.len() - 1 ==> final(circuit)@.gates[#[trigger] r@[k] as int].inputs[0]
                == Slot::Free && final(circuit)@.gates[r@[k] as int].inputs[1] == Slot::Free,
        forall|j: int|
            0 <= j < old(circuit)@.lines.len() ==> #[trigger] final(circuit)@.lines[j] == old(
                circuit,
            )@.lines[j],
        forall|h: int|
            0 <= h < old(circuit)@.gates.len() ==> #[trigger] final(circuit)@.gates[h] == old(
                circuit,
            )@.gates[h],
        mux_tree_at(
            final(circuit)@,
            old(circuit)@.gates.len() as int,
            old(circuit)@.gates.len() as int + 255,
            controls@,
            8,
        ),
        forall|k: int|
            0 <= k < 128 ==> #[trigger] r@[k] as int == tree_leaf(
                old(circuit)@.gates.len() as int,
                8,
                k,
            ),
        r@[128] as int == old(circuit)@.gates.len() as int + 254,
        forall|k1: int, k2: int| 0 <= k1 < k2 < 128 ==> #[trigger] r@[k1] != #[trigger] r@[k2],
{
    proof {
        assert(pow2(8) == 256 && pow2(7) == 128) by {
            reveal_with_fuel(pow2, 9);
        }
    }
    make_mux_tree(controls, 8, circuit)
}

/// A 1-to-256 router tree over eight address lines: the 128 leaf router
/// handles (routed output `i` comes off leaf `i/2`, cell `i%2`) followed
/// by the root handle, whose data port is free.
pub fn make_1bx256_dmux(controls: &Vec<usize>, circuit: &mut Circuit) -> (r: Vec<usize>)
    requires
        old(circuit).wf(),
        controls@.len() == 8,
        forall|k: int| 0 <= k < controls@.len() ==> (#[trigger] controls@[k] as int) < old(
            circuit,
        )@.lines.len(),
        old(circuit)@.lines.len() + 512 <= usize::MAX,
        old(circuit)@.gates.len() + 256 <= usize::MAX,
    ensures
        final(circuit).wf(),
        final(circuit)@.gates.len() == old(circuit)@.gates.len() + 255,
        final(circuit)@.lines.len() == old(circuit)@.lines.len() + 510,
        r@.len() == 129,
        forall|k: int| 0 <= k < r@.len() ==> demux_node(final(circuit)@, #[trigger] r@[k] as int),
        forall|k: int|
            0 <= k < r@.len() ==> cells_at_least(
                final(circuit)@,
                #[trigger] r@[k] as int,
                old(circuit)@.lines.len() as int,
            ),
        final(circuit)@.gates[r@[r@.len() - 1] as int].inputs[0] == Slot::Free,
        forall|j: int|
            0 <= j < old(circuit)@.lines.len() ==> #[trigger] final(circuit)@.lines[j] == old(
                circuit,
            )@.lines[j],
        forall|h: int|
            0 <= h < old(circuit)@.gates.len() ==> #[trigger] final(circuit)@.gates[h] == old(
                circuit,
            )@.gates[h],
        demux_tree_at(
            final(circuit)@,
            old(circuit)@.gates.len() as int,
            old(circuit)@.gates.len() as int + 255,
            controls@,
            8,
        ),
        forall|k: int|
            0 <= k < 128 ==> #[trigger] r@[k] as int == dtree_leaf(
                old(circuit)@.gates.len() as int,
                8,
                k,
            ),
        r@[128] as int == old(circuit)@.gates.len(),
        forall|k1: int, k2: int| 0 <= k1 < k2 < 128 ==> #[trigger] r@[k1] != #[trigger] r@[k2],
{
    proof {
        assert(pow2(8) == 256 && pow2(7) == 128) by {
            reveal_with_fuel(pow2, 9);
        }
    }
    make_demux_tree(controls, 8, circuit)
}

/// Word `i` of a storage plane laid out from `g0`: an enable gate
/// combining the router leaf for word `i` with the clock, set/reset gates
/// combining the enable with the data line and its inversion, the latch
/// they drive, and the selector leaf for word `i` reading the latch's
/// cell back.
pub open spec fn storage_cell_at(c: CircuitV, g0: int, input: usize, clock: usize, i: int) -> bool {
    let en = g0 + 511 + 4 * i;
    let set_g = en + 1;
    let reset_g = en + 2;
    let latch = en + 3;
    let inv = g0 + 255;
    &&& 0 <= g0 && latch < c.gates.len()
    &&& c.gates[en].kind is And
    &&& c.gates[en].inputs.len() == 2
    &&& c.gates[en].outputs.len() == 1
    &&& c.gates[en].inputs[0] == (Slot::Local {
        line: c.gates[dtree_leaf(g0, 8, i / 2)].outputs[i % 2],
    })
    &&& c.gates[en].inputs[1] == (Slot::Local { line: clock })
    &&& c.gates[set_g].kind is And
    &&& c.gates[set_g].inputs.len() == 2
    &&& c.gates[set_g].outputs.len() == 1
    &&& c.gates[set_g].inputs[0] == (Slot::Local { line: c.gates[en].outputs[0] })
    &&& c.gates[set_g].inputs[1] == (Slot::Local { line: input })
    &&& c.gates[reset_g].kind is And
    &&& c.gates[reset_g].inputs.len() == 2
    &&& c.gates[reset_g].outputs.len() == 1
    &&& c.gates[reset_g].inputs[0] == (Slot::Local { line: c.gates[en].outputs[0] })
    &&& c.gates[reset_g].inputs[1] == (Slot::Local { line: c.gates[inv].outputs[0] })
    &&& c.gates[latch].kind is NorLatch
    &&& c.gates[latch].inputs.len() == 2
    &&& c.gates[latch].outputs.len() == 1
    &&& c.gates[latch].inputs[0] == (Slot::Local { line: c.gates[reset_g].outputs[0] })
    &&& c.gates[latch].inputs[1] == (Slot::Local { line: c.gates[set_g].outputs[0] })
    &&& c.gates[tree_leaf(g0 + 256, 8, i / 2)].inputs[i % 2] == (Slot::Local {
        line: c.gates[latch].outputs[0],
    })
}

/// Gates `g0` to `g0 + 1535` (inclusive) form one 256-word, 1-bit storage
/// plane exactly as the constructor lays it out: a router tree over the
/// address lines steering the write strobe to one of 256 clock-gated
/// latch cells, a selector tree over the same address lines reading the
/// addressed cell back, an inverter deriving the latch resets from the
/// data line, and a read-gated output gate whose cell is the plane's read
/// port `r`.
pub open spec fn storage_plane_at(
    c: CircuitV,
    g0: int,
    input: usize,
    address: Seq<usize>,
    write: usize,
    read: usize,
    clock: usize,
    r: usize,
) -> bool {
    let inv = g0 + 255;
    let mux0 = g0 + 256;
    let out_gate = g0 + 1535;
    &&& 0 <= g0
    &&& out_gate < c.gates.len()
    &&& demux_tree_at(c, g0, g0 + 255, address, 8)
    &&& c.gates[g0].inputs[0] == (Slot::Local { line: write })
    &&& c.gates[inv].kind is Not
    &&& c.gates[inv].inputs.len() == 1
    &&& c.gates[inv].outputs.len() == 1
    &&& c.gates[inv].inputs[0] == (Slot::Local { line: input })
    &&& mux_tree_at(c, mux0, mux0 + 255, address, 8)
    &&& (forall|i: int| 0 <= i < 256 ==> #[trigger] storage_cell_at(c, g0, input, clock, i))
    &&& c.gates[out_gate].kind is And
    &&& c.gates[out_gate].inputs.len() == 2
    &&& c.gates[out_gate].outputs.len() == 1
    &&& c.gates[out_gate].inputs[0] == (Slot::Local { line: c.gates[mux0 + 254].outputs[0] })
    &&& c.gates[out_gate].inputs[1] == (Slot::Local { line: read })
    &&& r == c.gates[out_gate].outputs[0]
}

/// The plane predicates read only the gates of their own segment, so they
/// carry over to any state that keeps those gates.
pub proof fn lemma_storage_plane_segment_gates(
    c: CircuitV,
    c2: CircuitV,
    g0: int,
    input: usize,
    address: Seq<usize>,
    write: usize,
    read: usize,
    clock: usize,
    r: usize,
)
    requires
        storage_plane_at(c, g0, input, address, write, read, clock, r),
        g0 + 1536 <= c2.gates.len(),
        forall|g: int| g0 <= g < g0 + 1536 ==> #[trigger] c2.gates[g] == c.gates[g],
    ensures
        storage_plane_at(c2, g0, input, address, write, read, clock, r),
{
    lemma_demux_tree_segment_gates(c, c2, g0, g0 + 255, address, 8);
    lemma_mux_tree_segment_gates(c, c2, g0 + 256, g0 + 511, address, 8);
    assert forall|i: int| 0 <= i < 256 implies #[trigger] storage_cell_at(
        c2,
        g0,
        input,
        clock,
        i,
    ) by {
        assert(storage_cell_at(c, g0, input, clock, i));
        lemma_dtree_leaf_in_range(g0, g0 + 255, 8, i / 2);
        lemma_tree_leaf_in_range(g0 + 256, g0 + 511, 8, i / 2);
    }
}

/// A leaf of a router tree stands inside the tree's gate range.
pub proof fn lemma_dtree_leaf_in_range(s: int, e: int, d: nat, k: int)
    requires
        d >= 1,
        e == s + pow2(d) - 1,
        0 <= k < pow2((d - 1) as nat),
    ensures
        s <= dtree_leaf(s, d, k) < e,
    decreases d,
{
    lemma_pow2_pos(d);
    if d > 1 {
        lemma_pow2_pos((d - 2) as nat);
        let m = s + pow2((d - 1) as nat);
        if k < pow2((d - 2) as nat) {
            lemma_dtree_leaf_in_range(s + 1, m, (d - 1) as nat, k);
        } else {
            lemma_dtree_leaf_in_range(m, e, (d - 1) as nat, k - pow2((d - 2) as nat));
        }
    }
}

/// Builds a 256-word, 1-bit storage plane out of gates: a router tree
/// decodes the address and steers the write strobe to one of 256 latch
/// cells, each cell gated by the clock and fed `set`/`reset` from the
/// data bit, and a multiplexer tree reads the addressed cell back out,
/// gated by the read strobe. Returns the arena index of the read output
/// line. A write takes effect on a pass with write and clock `High`; a
/// read appears after passes with read `High` (the trees settle over a
/// few passes).
#[verifier::rlimit(100)]
pub fn make_1bx256_storage(
    input: usize,
    address: &Vec<usize>,
    write: usize,
    read: usize,
    clock: usize,
    circuit: &mut Circuit,
) -> (r: usize)
    requires
        old(circuit).wf(),
        address@.len() == 8,
        input < old(circuit)@.lines.len(),
        write < old(circuit)@.lines.len(),
        read < old(circuit)@.lines.len(),
        clock < old(circuit)@.lines.len(),
        forall|k: int| 0 <= k < address@.len() ==> (#[trigger] address@[k] as int) < old(
            circuit,
        )@.lines.len(),
        old(circuit)@.lines.len() + 2048 <= usize::MAX,
        old(circuit)@.gates.len() + 2048 <= usize::MAX,
    ensures
        final(circuit).wf(),
        final(circuit)@.lines.len() == old(circuit)@.lines.len() + 1791,
        final(circuit)@.gates.len() == old(circuit)@.gates.len() + 1536,
        (r as int) < final(circuit)@.lines.len(),
        forall|h: int|
            0 <= h < old(circuit)@.gates.len() ==> #[trigger] final(circuit)@.gates[h] == old(
                circuit,
            )@.gates[h],
        storage_plane_at(
            final(circuit)@,
            old(circuit)@.gates.len() as int,
            input,
            address@,
            write,
            read,
            clock,
            r,
        ),
{
    let ghost c0 = old(circuit)@;
    let ghost sg = c0.gates.len() as int;
    let dmux = make_1bx256_dmux(address, circuit);
    let ghost cd = circuit@;
    let dmux_root = dmux[128];
    circuit.set_gate_input(dmux_root, 0, write);
    let ghost ce = circuit@;
    proof {
        // wiring the write strobe touched only the router root's data port
        assert forall|g: int| sg < g < sg + 255 implies #[trigger] ce.gates[g]
            == cd.gates[g] by {}
        lemma_demux_tree_wire_root(cd, ce, sg, sg + 255, address@, 8);
        assert(ce.gates[sg].inputs[0] == (Slot::Local { line: write }));
    }
    let inv = circuit.add_gate(Gate::new_not());
    circuit.set_gate_input(inv, 0, input);
    let ghost cf1 = circuit@;
    proof {
        assert(inv as int == sg + 255);
        assert(cf1.gates[inv as int].inputs[0] == (Slot::Local { line: input }));
        assert forall|g: int| sg <= g < sg + 255 implies #[trigger] cf1.gates[g]
            == ce.gates[g] by {}
        lemma_demux_tree_segment_gates(ce, cf1, sg, sg + 255, address@, 8);
    }
    let mux = make_1bx256_mux(address, circuit);
    let ghost cg = circuit@;
    let ghost g0 = circuit@.gates.len();
    let ghost l0 = circuit@.lines.len();
    proof {
        assert(l0 == c0.lines.len() + 766);
        assert(g0 == c0.gates.len() + 511);
        assert forall|g: int| sg <= g < sg + 256 implies #[trigger] cg.gates[g]
            == cf1.gates[g] by {}
        lemma_demux_tree_segment_gates(cf1, cg, sg, sg + 255, address@, 8);
    }
    let mut i: usize = 0;
    while i < 256
        invariant
            i <= 256,
            circuit.wf(),
            dmux@.len() == 129,
            mux@.len() == 129,
            input < circuit@.lines.len(),
            write < circuit@.lines.len(),
            read < circuit@.lines.len(),
            clock < circuit@.lines.len(),
            (inv as int) < circuit@.gates.len(),
            circuit@.gates[inv as int].outputs.len() == 1,
            forall|k: int|
                0 <= k < 129 ==> (#[trigger] dmux@[k] as int) < circuit@.gates.len()
                    && circuit@.gates[dmux@[k] as int].outputs.len() == 2,
            forall|k: int|
                0 <= k < 129 ==> (#[trigger] mux@[k] as int) < circuit@.gates.len()
                    && circuit@.gates[mux@[k] as int].inputs.len() == 3
                    && circuit@.gates[mux@[k] as int].outputs.len() == 1,
            circuit@.lines.len() == l0 + 4 * i,
            circuit@.gates.len() == g0 + 4 * i,
            l0 + 2048 <= usize::MAX + 766,
            circuit@.lines.len() + 8 <= usize::MAX,
            sg == c0.gates.len(),
            g0 == sg + 511,
            inv as int == sg + 255,
            demux_tree_at(circuit@, sg, sg + 255, address@, 8),
            circuit@.gates[sg].inputs[0] == (Slot::Local { line: write }),
            circuit@.gates[inv as int].kind is Not,
            circuit@.gates[inv as int].inputs.len() == 1,
            circuit@.gates[inv as int].inputs[0] == (Slot::Local { line: input }),
            mux_tree_at(circuit@, sg + 256, sg + 511, address@, 8),
            forall|k: int| 0 <= k < 128 ==> #[trigger] dmux@[k] as int == dtree_leaf(sg, 8, k),
            forall|k: int|
                0 <= k < 128 ==> #[trigger] mux@[k] as int == tree_leaf(sg + 256, 8, k),
            mux@[128] as int == sg + 510,
            forall|k1: int, k2: int|
                0 <= k1 < k2 < 128 ==> #[trigger] mux@[k1] != #[trigger] mux@[k2],
            forall|q: int|
                0 <= q < i ==> #[trigger] storage_cell_at(circuit@, sg, input, clock, q),
            forall|h: int| 0 <= h < sg ==> #[trigger] circuit@.gates[h] == c0.gates[h],
        decreases 256 - i,
    {
        let ghost cpre0 = circuit@;
        let en = circuit.add_gate(Gate::new_and());
        circuit.connect_i_single(en, 0, dmux[i / 2], i % 2);
        circuit.set_gate_input(en, 1, clock);
        let set_g = circuit.add_gate(Gate::new_and());
        circuit.connect_i_single(set_g, 0, en, 0);
        circuit.set_gate_input(set_g, 1, input);
        let reset_g = circuit.add_gate(Gate::new_and());
        circuit.connect_i_single(reset_g, 0, en, 0);
        circuit.connect_i_single(reset_g, 1, inv, 0);
        let cell = circuit.add_gate(Gate::nor_latch());
        circuit.connect_i_single(cell, 0, reset_g, 0);
        circuit.connect_i_single(cell, 1, set_g, 0);
        let ghost cpre = circuit@;
        circuit.connect_i_single(mux[i / 2], i % 2, cell, 0);
        proof {
            let ii = i as int;
            // the nine ops before the selector wiring touched no gate of
            // the two trees, and the tenth touched only one selector leaf
            assert forall|g: int| sg <= g < sg + 511 implies #[trigger] cpre.gates[g]
                == cpre0.gates[g] by {}
            lemma_mux_tree_segment_gates(cpre0, cpre, sg + 256, sg + 511, address@, 8);
            assert forall|g: int|
                sg + 256 <= g < sg + 511 && g != tree_leaf(sg + 256, 8, ii / 2) implies
                #[trigger] circuit@.gates[g] == cpre.gates[g] by {}
            lemma_mux_tree_wire_leaf(cpre, circuit@, sg + 256, sg + 511, address@, 8, ii / 2);
            assert forall|g: int| sg <= g < sg + 255 implies #[trigger] circuit@.gates[g]
                == cpre0.gates[g] by {
                lemma_tree_leaf_in_range(sg + 256, sg + 511, 8, ii / 2);
            }
            lemma_demux_tree_segment_gates(cpre0, circuit@, sg, sg + 255, address@, 8);
            // the new word cell stands wired as the plane expects
            assert(en as int == sg + 511 + 4 * ii);
            lemma_dtree_leaf_in_range(sg, sg + 255, 8, ii / 2);
            lemma_tree_leaf_in_range(sg + 256, sg + 511, 8, ii / 2);
            assert(storage_cell_at(circuit@, sg, input, clock, ii));
            // earlier word cells are untouched: only their selector leaf
            // may be the one just rewired, and then on its other port
            assert forall|q: int| 0 <= q < ii implies #[trigger] storage_cell_at(
                circuit@,
                sg,
                input,
                clock,
                q,
            ) by {
                assert(storage_cell_at(cpre0, sg, input, clock, q));
                lemma_dtree_leaf_in_range(sg, sg + 255, 8, q / 2);
                lemma_tree_leaf_in_range(sg + 256, sg + 511, 8, q / 2);
                if q / 2 == ii / 2 {
                    assert(q % 2 != ii % 2) by (nonlinear_arith)
                        requires
                            q / 2 == ii / 2,
                            0 <= q < ii,
                    ;
                } else {
                    assert(mux@[q / 2] != mux@[ii / 2]);
                    assert(tree_leaf(sg + 256, 8, q / 2) != tree_leaf(sg + 256, 8, ii / 2));
                }
            }
        }
        i = i + 1;
    }
    let ghost cloop = circuit@;
    let out_gate = circuit.add_gate(Gate::new_and());
    circuit.connect_i_single(out_gate, 0, mux[128], 0);
    circuit.set_gate_input(out_gate, 1, read);
    let r = circuit.get_gate_output(out_gate, 0);
    proof {
        let cf2 = circuit@;
        assert(out_gate as int == sg + 1535);
        assert forall|g: int| 0 <= g < cloop.gates.len() implies #[trigger] cf2.gates[g]
            == cloop.gates[g] by {}
        lemma_demux_tree_segment_gates(cloop, cf2, sg, sg + 255, address@, 8);
        lemma_mux_tree_segment_gates(cloop, cf2, sg + 256, sg + 511, address@, 8);
        assert forall|q: int| 0 <= q < 256 implies #[trigger] storage_cell_at(
            cf2,
            sg,
            input,
            clock,
            q,
        ) by {
            assert(storage_cell_at(cloop, sg, input, clock, q));
            lemma_dtree_leaf_in_range(sg, sg + 255, 8, q / 2);
            lemma_tree_leaf_in_range(sg + 256, sg + 511, 8, q / 2);
        }
        assert(cf2.gates[sg + 1535].inputs[0] == (Slot::Local {
            line: cf2.gates[sg + 510].outputs[0],
        }));
        assert(storage_plane_at(cf2, sg, input, address@, write, read, clock, r));
    }
    r
}

/// Builds eight 1-bit storage planes sharing one address bus and one set
/// of strobes: a 256-byte memory of gates. Returns the eight read output
/// lines, least significant bit first.
pub fn make_8bx256_storage(
    address: &Vec<usize>,
    write_value: &Vec<usize>,
    write: usize,
    read: usize,
    clock: usize,
    circuit: &mut Circuit,
) -> (r: Vec<usize>)
    requires
        old(circuit).wf(),
        address@.len() == 8,
        write_value@.len() == 8,
        write < old(circuit)@.lines.len(),
        read < old(circuit)@.lines.len(),
        clock < old(circuit)@.lines.len(),
        forall|k: int| 0 <= k < address@.len() ==> (#[trigger] address@[k] as int) < old(
            circuit,
        )@.lines.len(),
        forall|k: int| 0 <= k < write_value@.len() ==> (#[trigger] write_value@[k] as int) < old(
            circuit,
        )@.lines.len(),
        old(circuit)@.lines.len() + 16384 <= usize::MAX,
        old(circuit)@.gates.len() + 16384 <= usize::MAX,
    ensures
        final(circuit).wf(),
        r@.len() == 8,
        forall|k: int| 0 <= k < 8 ==> (#[trigger] r@[k] as int) < final(circuit)@.lines.len(),
        final(circuit)@.lines.len() == old(circuit)@.lines.len() + 8 * 1791,
        final(circuit)@.gates.len() == old(circuit)@.gates.len() + 8 * 1536,
        forall|h: int|
            0 <= h < old(circuit)@.gates.len() ==> #[trigger] final(circuit)@.gates[h] == old(
                circuit,
            )@.gates[h],
        forall|i: int|
            0 <= i < 8 ==> #[trigger] storage_plane_at(
                final(circuit)@,
                old(circuit)@.gates.len() + 1536 * i,
                write_value@[i],
                address@,
                write,
                read,
                clock,
                r@[i],
            ),
{
    let mut r: Vec<usize> = Vec::new();
    let mut b: usize = 0;
    while b < 8
        invariant
            b <= 8,
            circuit.wf(),
            r@.len() == b,
            address@.len() == 8,
            write_value@.len() == 8,
            write < circuit@.lines.len(),
            read < circuit@.lines.len(),
            clock < circuit@.lines.len(),
            forall|k: int| 0 <= k < 8 ==> (#[trigger] address@[k] as int) < circuit@.lines.len(),
            forall|k: int|
                0 <= k < 8 ==> (#[trigger] write_value@[k] as int) < circuit@.lines.len(),
            forall|k: int| 0 <= k < b ==> (#[trigger] r@[k] as int) < circuit@.lines.len(),
            circuit@.lines.len() == old(circuit)@.lines.len() + b * 1791,
            circuit@.gates.len() == old(circuit)@.gates.len() + b * 1536,
            old(circuit)@.lines.len() + 16384 <= usize::MAX,
            old(circuit)@.gates.len() + 16384 <= usize::MAX,
            forall|h: int|
                0 <= h < old(circuit)@.gates.len() ==> #[trigger] circuit@.gates[h] == old(
                    circuit,
                )@.gates[h],
            forall|q: int|
                0 <= q < b ==> #[trigger] storage_plane_at(
                    circuit@,
                    old(circuit)@.gates.len() + 1536 * q,
                    write_value@[q],
                    address@,
                    write,
                    read,
                    clock,
                    r@[q],
                ),
        decreases 8 - b,
    {
        let ghost cprev = circuit@;
        let line = make_1bx256_storage(write_value[b], address, write, read, clock, circuit);
        r.push(line);
        proof {
            let base0 = old(circuit)@.gates.len() as int;
            // the planes already built sit below the new one and are
            // untouched by its construction
            assert forall|q: int| 0 <= q < b implies #[trigger] storage_plane_at(
                circuit@,
                base0 + 1536 * q,
                write_value@[q],
                address@,
                write,
                read,
                clock,
                r@[q],
            ) by {
                assert(storage_plane_at(
                    cprev,
                    base0 + 1536 * q,
                    write_value@[q],
                    address@,
                    write,
                    read,
                    clock,
                    r@[q],
                ));
                assert(1536 * q + 1536 <= 1536 * b) by (nonlinear_arith)
                    requires
                        0 <= q < b,
                ;
                lemma_storage_plane_segment_gates(
                    cprev,
                    circuit@,
                    base0 + 1536 * q,
                    write_value@[q],
                    address@,
                    write,
                    read,
                    clock,
                    r@[q],
                );
            }
            assert(storage_plane_at(
                circuit@,
                base0 + 1536 * (b as int),
                write_value@[b as int],
                address@,
                write,
                read,
                clock,
                line,
            ));
        }
        b = b + 1;
    }
    r
}

/// Gates `s` to `s + 2^d - 2` (inclusive) form a complete binary
/// selector tree of depth `d` over the control lines, least significant
/// first, laid out as the recursive constructor builds it: the two
/// subtrees first, then the root, whose select port reads `controls[d-1]`
/// — the most significant bit selects the outermost split — and whose
/// data ports read the subtree roots' cells.
pub open spec fn mux_tree_at(c: CircuitV, s: int, e: int, controls: Seq<usize>, d: nat) -> bool
    decreases d,
{
    &&& d >= 1
    &&& controls.len() >= d
    &&& 0 <= s
    &&& e == s + pow2(d) - 1
    &&& e <= c.gates.len()
    &&& c.gates[e - 1].kind is Mux
    &&& c.gates[e - 1].inputs.len() == 3
    &&& c.gates[e - 1].outputs.len() == 1
    &&& c.gates[e - 1].inputs[2] == (Slot::Local { line: controls[d - 1] })
    &&& (d > 1 ==> {
        let m = s + pow2((d - 1) as nat) - 1;
        &&& mux_tree_at(c, s, m, controls, (d - 1) as nat)
        &&& mux_tree_at(c, m, e - 1, controls, (d - 1) as nat)
        &&& c.gates[e - 1].inputs[0] == (Slot::Local { line: c.gates[m - 1].outputs[0] })
        &&& c.gates[e - 1].inputs[1] == (Slot::Local { line: c.gates[e - 2].outputs[0] })
    })
}

/// The handle of leaf `k` of a depth-`d` tree laid out from `s`.
pub open spec fn tree_leaf(s: int, d: nat, k: int) -> int
    decreases d,
{
    if d <= 1 {
        s
    } else if k < pow2((d - 2) as nat) {
        tree_leaf(s, (d - 1) as nat, k)
    } else {
        tree_leaf(s + pow2((d - 1) as nat) - 1, (d - 1) as nat, k - pow2((d - 2) as nat))
    }
}

/// The slot through which data input `i` of the tree is read: port `i%2`
/// of leaf `i/2`.
pub open spec fn tree_input_slot(c: CircuitV, s: int, d: nat, i: int) -> Slot {
    c.gates[tree_leaf(s, d, i / 2)].inputs[i % 2]
}

/// A slot whose reading cannot change while the gates `s..e` run: it is
/// free, cross-circuit, or wired to a line that none of those gates owns.
pub open spec fn slot_stable(c: CircuitV, s: int, e: int, sl: Slot) -> bool {
    sl matches Slot::Local { line } ==> !owned_in(c, s, e, line as int)
}

/// Every gate of a selector tree is a mux of the standard shape.
pub proof fn lemma_mux_tree_all_mux(c: CircuitV, s: int, e: int, controls: Seq<usize>, d: nat)
    requires
        mux_tree_at(c, s, e, controls, d),
    ensures
        forall|g: int|
            s <= g < e ==> (#[trigger] c.gates[g]).kind is Mux && c.gates[g].inputs.len() == 3
                && c.gates[g].outputs.len() == 1,
    decreases d,
{
    if d > 1 {
        let m = s + pow2((d - 1) as nat) - 1;
        lemma_mux_tree_all_mux(c, s, m, controls, (d - 1) as nat);
        lemma_mux_tree_all_mux(c, m, e - 1, controls, (d - 1) as nat);
    }
}

/// A leaf of a selector tree stands inside the tree's gate range.
pub proof fn lemma_tree_leaf_in_range(s: int, e: int, d: nat, k: int)
    requires
        d >= 1,
        e == s + pow2(d) - 1,
        0 <= k < pow2((d - 1) as nat),
    ensures
        s <= tree_leaf(s, d, k) < e,
    decreases d,
{
    lemma_pow2_pos(d);
    if d > 1 {
        lemma_pow2_pos((d - 2) as nat);
        let m = s + pow2((d - 1) as nat) - 1;
        if k < pow2((d - 2) as nat) {
            lemma_tree_leaf_in_range(s, m, (d - 1) as nat, k);
        } else {
            lemma_tree_leaf_in_range(m, e - 1, (d - 1) as nat, k - pow2((d - 2) as nat));
        }
    }
}

/// Data input `i` of the whole tree is data input `i` of the low subtree
/// when `i` is below `2^(d-1)`, and data input `i - 2^(d-1)` of the high
/// subtree otherwise.
pub proof fn lemma_tree_slot_split(c: CircuitV, s: int, d: nat, i: int)
    requires
        d >= 2,
        0 <= i < pow2(d),
    ensures
        i < pow2((d - 1) as nat) ==> tree_input_slot(c, s, d, i) == tree_input_slot(
            c,
            s,
            (d - 1) as nat,
            i,
        ),
        i >= pow2((d - 1) as nat) ==> tree_input_slot(c, s, d, i) == tree_input_slot(
            c,
            s + pow2((d - 1) as nat) - 1,
            (d - 1) as nat,
            i - pow2((d - 1) as nat),
        ),
{
    let p1 = pow2((d - 1) as nat) as int;
    let p2 = pow2((d - 2) as nat) as int;
    assert(p1 == 2 * p2);
    if i < p1 {
        assert(i / 2 < p2) by (nonlinear_arith)
            requires
                0 <= i < 2 * p2,
        ;
    } else {
        assert((i - p1) / 2 == i / 2 - p2 && i / 2 >= p2 && (i - p1) % 2 == i % 2)
            by (nonlinear_arith)
            requires
                p1 == 2 * p2,
                i >= p1 >= 2,
        ;
    }
}

/// Selection, proved for the whole selector tree: running the tree's
/// gates once, in layout order, drives the root's output cell to exactly
/// the value read through the data slot that the control lines address.
/// `bits` are the values sitting on the control lines, all driven; the
/// addressed input is their little-endian value. Holds for every depth,
/// every selector value and every input assignment whose lines none of
/// the tree's gates drive.
pub proof fn lemma_mux_tree_run_selects(
    c: CircuitV,
    s: int,
    e: int,
    controls: Seq<usize>,
    d: nat,
    bits: Seq<Line>,
)
    requires
        c.wf(),
        mux_tree_at(c, s, e, controls, d),
        bits.len() == d,
        forall|i: int| 0 <= i < d ==> #[trigger] bits[i] != Line::Disconnected,
        forall|i: int|
            0 <= i < d ==> (#[trigger] controls[i] as int) < c.lines.len() && c.lines[controls[i] as int]
                == bits[i],
        forall|i: int| 0 <= i < d ==> !owned_in(c, s, e, #[trigger] controls[i] as int),
        forall|i: int|
            0 <= i < pow2(d) ==> slot_stable(c, s, e, #[trigger] tree_input_slot(c, s, d, i)),
    ensures
        run_gates(c, s, e).lines[c.gates[e - 1].outputs[0] as int] == spec_read_slot(
            c.lines,
            tree_input_slot(c, s, d, bits_to_nat(bits) as int),
        ),
    decreases d,
{
    lemma_pow2_pos(d);
    lemma_mux_tree_all_mux(c, s, e, controls, d);
    lemma_bits_to_nat_bound(bits);
    let v = bits_to_nat(bits) as int;
    assert(c.gate_ok(e - 1));
    let root_cell = c.gates[e - 1].outputs[0] as int;
    if d == 1 {
        assert(e == s + 1);
        let g = c.gates[s];
        let vals = spec_read_inputs(c.lines, g.inputs);
        assert(vals[2] == c.lines[controls[0] as int]);
        assert(vals[2] == bits[0]);
        let out = spec_mux(vals[0], vals[1], bits[0]);
        assert(run_gates(c, s, e) == run_gates(run_gates(c, s, s), s, e));
        let r = kind_eval(g.kind, vals, spec_cell_vals(c.lines, g.outputs), g.storage);
        assert(r.0 == seq![out]);
        assert(bits.drop_first() =~= Seq::<Line>::empty());
        assert(v == (if bits[0] == Line::High {
            1int
        } else {
            0int
        }));
        assert(tree_leaf(s, d, v / 2) == s);
        assert(write_cells(c.lines, g.outputs, r.0, 0) == c.lines);
        assert(r.0.len() == 1);
        assert(write_cells(c.lines, g.outputs, r.0, 1) == c.lines.update(root_cell, out));
        assert(run_gates(c, s, e).lines[root_cell] == out);
    } else {
        let m = s + pow2((d - 1) as nat) - 1;
        let p1 = pow2((d - 1) as nat) as int;
        assert(pow2(d) == 2 * pow2((d - 1) as nat));
        let bl = bits.drop_last();
        crate::gate::lemma_bits_split_last(bits);
        lemma_bits_to_nat_bound(bl);
        let vl = bits_to_nat(bl) as int;
        let msb = bits.last();
        assert(bl.len() == d - 1);
        assert(forall|i: int| 0 <= i < d - 1 ==> #[trigger] bl[i] == bits[i]);

        // the low subtree's inputs and controls are stable over its own
        // segment, a sub-segment of the tree's
        assert forall|i: int| 0 <= i < pow2((d - 1) as nat) implies slot_stable(
            c,
            s,
            m,
            #[trigger] tree_input_slot(c, s, (d - 1) as nat, i),
        ) by {
            lemma_tree_slot_split(c, s, d, i);
            assert(tree_input_slot(c, s, (d - 1) as nat, i) == tree_input_slot(c, s, d, i));
            assert(slot_stable(c, s, e, tree_input_slot(c, s, d, i)));
        }
        assert forall|i: int| 0 <= i < d - 1 implies !owned_in(
            c,
            s,
            m,
            #[trigger] controls[i] as int,
        ) by {
            assert(!owned_in(c, s, e, controls[i] as int));
        }
        lemma_mux_tree_run_selects(c, s, m, controls, (d - 1) as nat, bl);
        let c1 = run_gates(c, s, m);
        let low_cell = c.gates[m - 1].outputs[0] as int;
        assert(c1.lines[low_cell] == spec_read_slot(
            c.lines,
            tree_input_slot(c, s, (d - 1) as nat, vl),
        ));

        // the low segment's gates are storage-free muxes, so the run kept
        // every gate and every line it does not own
        lemma_mux_tree_all_mux(c, s, m, controls, (d - 1) as nat);
        assert forall|g: int| s <= g < m implies (#[trigger] c.gates[g]).wf() && storage_len(
            c.gates[g].kind,
        ) == 0 by {
            assert(c.gate_ok(g));
        }
        lemma_run_gates_frame(c, s, m);
        assert(c1.gates == c.gates);
        assert(c1.lines.len() == c.lines.len());
        assert(c1.wf()) by {
            assert forall|i: int| 0 <= i < c1.gates.len() implies #[trigger] c1.gate_ok(i) by {
                assert(c.gate_ok(i));
            }
        }

        // the high subtree at the state the low run left behind
        assert(mux_tree_at(c1, m, e - 1, controls, (d - 1) as nat)) by {
            lemma_mux_tree_same_gates(c, c1, m, e - 1, controls, (d - 1) as nat);
        }
        assert forall|i: int| 0 <= i < d - 1 implies (#[trigger] controls[i] as int)
            < c1.lines.len() && c1.lines[controls[i] as int] == bl[i] by {
            assert(!owned_in(c, s, m, controls[i] as int));
        }
        assert forall|i: int| 0 <= i < d - 1 implies !owned_in(
            c1,
            m,
            e - 1,
            #[trigger] controls[i] as int,
        ) by {
            if owned_in(c1, m, e - 1, controls[i] as int) {
                assert(owned_in(c, s, e, controls[i] as int));
            }
        }
        assert forall|i: int| 0 <= i < pow2((d - 1) as nat) implies slot_stable(
            c1,
            m,
            e - 1,
            #[trigger] tree_input_slot(c1, m, (d - 1) as nat, i),
        ) by {
            lemma_tree_slot_split(c, s, d, i + p1);
            assert(tree_input_slot(c1, m, (d - 1) as nat, i) == tree_input_slot(c, s, d, i + p1));
            assert(slot_stable(c, s, e, tree_input_slot(c, s, d, i + p1)));
            match tree_input_slot(c, s, d, i + p1) {
                Slot::Local { line } => {
                    if owned_in(c1, m, e - 1, line as int) {
                        assert(owned_in(c, s, e, line as int));
                    }
                },
                _ => {},
            }
        }
        lemma_mux_tree_run_selects(c1, m, e - 1, controls, (d - 1) as nat, bl);
        let c2 = run_gates(c1, m, e - 1);
        let high_cell = c.gates[e - 2].outputs[0] as int;
        assert(c2.lines[high_cell] == spec_read_slot(
            c1.lines,
            tree_input_slot(c1, m, (d - 1) as nat, vl),
        ));

        // read through the high subtree's selected slot is the same in
        // the original state: the slot is stable over the low segment
        lemma_tree_slot_split(c, s, d, vl + p1);
        let high_slot = tree_input_slot(c, s, d, vl + p1);
        assert(tree_input_slot(c1, m, (d - 1) as nat, vl) == high_slot);
        assert(spec_read_slot(c1.lines, high_slot) == spec_read_slot(c.lines, high_slot)) by {
            assert(slot_stable(c, s, e, high_slot));
            match high_slot {
                Slot::Local { line } => {
                    assert(!owned_in(c, s, m, line as int));
                },
                _ => {},
            }
        }

        // the high run kept the low result: the low root's cell belongs
        // to gate m-1, which no gate of the high segment owns
        lemma_mux_tree_all_mux(c1, m, e - 1, controls, (d - 1) as nat);
        assert forall|g: int| m <= g < e - 1 implies (#[trigger] c1.gates[g]).wf() && storage_len(
            c1.gates[g].kind,
        ) == 0 by {
            assert(c1.gate_ok(g));
        }
        lemma_run_gates_frame(c1, m, e - 1);
        assert(c2.gates == c.gates);
        assert(c2.lines.len() == c.lines.len());
        assert(c2.lines[low_cell] == c1.lines[low_cell]) by {
            assert(s <= m - 1 < m);
            if owned_in(c1, m, e - 1, low_cell) {
                let (g, o) = choose|g: int, o: int|
                    m <= g < e - 1 && 0 <= o < c1.gates[g].outputs.len()
                        && #[trigger] c1.gates[g].outputs[o] == low_cell as usize;
                assert(c.gates[g].outputs[o] == c.gates[m - 1].outputs[0]);
                assert(false);
            }
            assert(0 <= low_cell < c1.lines.len()) by {
                assert(c.gate_ok(m - 1));
            }
        }

        // the controls survive both runs
        assert(c2.lines[controls[d - 1] as int] == msb) by {
            assert(!owned_in(c, s, m, controls[d - 1] as int));
            assert(!owned_in(c1, m, e - 1, controls[d - 1] as int)) by {
                if owned_in(c1, m, e - 1, controls[d - 1] as int) {
                    assert(owned_in(c, s, e, controls[d - 1] as int));
                }
            }
        }

        // the final step: the root reads both subtree roots and the most
        // significant control line, and writes its own cell
        lemma_run_gates_compose(c, s, m, e - 1);
        assert(c2 == run_gates(c, s, e - 1));
        assert(run_gates(c, s, e) == CircuitV {
            gates: c2.gates.update(e - 1, gate_step(c2.lines, c2.gates[e - 1]).1),
            lines: gate_step(c2.lines, c2.gates[e - 1]).0,
        });
        let g = c2.gates[e - 1];
        assert(g == c.gates[e - 1]);
        let vals = spec_read_inputs(c2.lines, g.inputs);
        assert(vals[0] == c2.lines[low_cell]) by {
            assert(g.inputs[0] == (Slot::Local { line: c.gates[m - 1].outputs[0] }));
            assert(0 <= low_cell < c2.lines.len());
        }
        assert(vals[1] == c2.lines[high_cell]) by {
            assert(g.inputs[1] == (Slot::Local { line: c.gates[e - 2].outputs[0] }));
            assert(c.gate_ok(e - 2));
        }
        assert(vals[2] == msb) by {
            assert(g.inputs[2] == (Slot::Local { line: controls[d - 1] }));
        }
        let out = spec_mux(vals[0], vals[1], msb);
        let r = kind_eval(g.kind, vals, spec_cell_vals(c2.lines, g.outputs), g.storage);
        assert(r.0 == seq![out]);
        assert(run_gates(c, s, e).lines[root_cell] == out) by {
            assert(0 <= root_cell < c2.lines.len());
            assert(write_cells(c2.lines, g.outputs, r.0, 0) == c2.lines);
            assert(r.0.len() == 1);
            assert(write_cells(c2.lines, g.outputs, r.0, 1) == c2.lines.update(root_cell, out));
        }

        // and the selected slot of the whole tree is the selected slot of
        // the chosen subtree
        lemma_tree_slot_split(c, s, d, v);
        if msb == Line::High {
            assert(v == vl + p1);
            assert(out == spec_read_slot(c.lines, high_slot));
        } else {
            assert(msb == Line::Low);
            assert(v == vl);
            assert(out == spec_read_slot(c.lines, tree_input_slot(c, s, (d - 1) as nat, vl)));
            assert(tree_input_slot(c, s, d, v) == tree_input_slot(c, s, (d - 1) as nat, vl));
        }
    }
}

/// The tree predicate reads only the gates of its own segment, so it
/// carries over to any state that keeps those gates.
pub proof fn lemma_mux_tree_segment_gates(
    c: CircuitV,
    c2: CircuitV,
    s: int,
    e: int,
    controls: Seq<usize>,
    d: nat,
)
    requires
        mux_tree_at(c, s, e, controls, d),
        e <= c2.gates.len(),
        forall|g: int| s <= g < e ==> #[trigger] c2.gates[g] == c.gates[g],
    ensures
        mux_tree_at(c2, s, e, controls, d),
    decreases d,
{
    if d > 1 {
        let m = s + pow2((d - 1) as nat) - 1;
        lemma_pow2_pos((d - 1) as nat);
        lemma_mux_tree_segment_gates(c, c2, s, m, controls, (d - 1) as nat);
        lemma_mux_tree_segment_gates(c, c2, m, e - 1, controls, (d - 1) as nat);
    }
}

/// Gates `s` to `s + 2^d - 2` (inclusive) form a complete binary router
/// tree of depth `d` over the control lines, least significant first,
/// laid out as the recursive constructor builds it: the root first —
/// steering on `controls[d-1]`, the most significant bit at the
/// outermost split — then the two subtrees, each subtree root's data port
/// reading one of the root's two cells.
pub open spec fn demux_tree_at(c: CircuitV, s: int, e: int, controls: Seq<usize>, d: nat) -> bool
    decreases d,
{
    &&& d >= 1
    &&& controls.len() >= d
    &&& 0 <= s
    &&& e == s + pow2(d) - 1
    &&& e <= c.gates.len()
    &&& c.gates[s].kind is Demux
    &&& c.gates[s].inputs.len() == 2
    &&& c.gates[s].outputs.len() == 2
    &&& c.gates[s].inputs[1] == (Slot::Local { line: controls[d - 1] })
    &&& (d > 1 ==> {
        let m = s + pow2((d - 1) as nat);
        &&& demux_tree_at(c, s + 1, m, controls, (d - 1) as nat)
        &&& demux_tree_at(c, m, e, controls, (d - 1) as nat)
        &&& c.gates[s + 1].inputs[0] == (Slot::Local { line: c.gates[s].outputs[0] })
        &&& c.gates[m].inputs[0] == (Slot::Local { line: c.gates[s].outputs[1] })
    })
}

/// The handle of leaf `k` of a depth-`d` router tree laid out from `s`;
/// routed output `i` of the tree comes off leaf `i/2`, cell `i%2`.
pub open spec fn dtree_leaf(s: int, d: nat, k: int) -> int
    decreases d,
{
    if d <= 1 {
        s
    } else if k < pow2((d - 2) as nat) {
        dtree_leaf(s + 1, (d - 1) as nat, k)
    } else {
        dtree_leaf(s + pow2((d - 1) as nat), (d - 1) as nat, k - pow2((d - 2) as nat))
    }
}

/// The router tree predicate reads only the gates of its own segment, so
/// it carries over to any state that keeps those gates.
pub proof fn lemma_demux_tree_segment_gates(
    c: CircuitV,
    c2: CircuitV,
    s: int,
    e: int,
    controls: Seq<usize>,
    d: nat,
)
    requires
        demux_tree_at(c, s, e, controls, d),
        e <= c2.gates.len(),
        forall|g: int| s <= g < e ==> #[trigger] c2.gates[g] == c.gates[g],
    ensures
        demux_tree_at(c2, s, e, controls, d),
    decreases d,
{
    if d > 1 {
        let m = s + pow2((d - 1) as nat);
        lemma_pow2_pos((d - 1) as nat);
        lemma_demux_tree_segment_gates(c, c2, s + 1, m, controls, (d - 1) as nat);
        lemma_demux_tree_segment_gates(c, c2, m, e, controls, (d - 1) as nat);
    }
}

/// Every gate of a router tree is a demux of the standard shape.
pub proof fn lemma_demux_tree_all_demux(c: CircuitV, s: int, e: int, controls: Seq<usize>, d: nat)
    requires
        demux_tree_at(c, s, e, controls, d),
    ensures
        forall|g: int|
            s <= g < e ==> (#[trigger] c.gates[g]).kind is Demux && c.gates[g].inputs.len() == 2
                && c.gates[g].outputs.len() == 2,
    decreases d,
{
    if d > 1 {
        let m = s + pow2((d - 1) as nat);
        lemma_demux_tree_all_demux(c, s + 1, m, controls, (d - 1) as nat);
        lemma_demux_tree_all_demux(c, m, e, controls, (d - 1) as nat);
    }
}

/// Routed output `i` of the whole router tree is routed output `i` of the
/// low subtree when `i` is below `2^(d-1)`, and routed output
/// `i - 2^(d-1)` of the high subtree otherwise.
pub proof fn lemma_dtree_leaf_split(s: int, d: nat, i: int)
    requires
        d >= 2,
        0 <= i < pow2(d),
    ensures
        i < pow2((d - 1) as nat) ==> dtree_leaf(s, d, i / 2) == dtree_leaf(
            s + 1,
            (d - 1) as nat,
            i / 2,
        ),
        i >= pow2((d - 1) as nat) ==> dtree_leaf(s, d, i / 2) == dtree_leaf(
            s + pow2((d - 1) as nat),
            (d - 1) as nat,
            (i - pow2((d - 1) as nat)) / 2,
        ) && (i - pow2((d - 1) as nat)) % 2 == i % 2,
{
    let p1 = pow2((d - 1) as nat) as int;
    let p2 = pow2((d - 2) as nat) as int;
    assert(p1 == 2 * p2);
    if i < p1 {
        assert(i / 2 < p2) by (nonlinear_arith)
            requires
                0 <= i < 2 * p2,
        ;
    } else {
        assert((i - p1) / 2 == i / 2 - p2 && i / 2 >= p2 && (i - p1) % 2 == i % 2)
            by (nonlinear_arith)
            requires
                p1 == 2 * p2,
                i >= p1 >= 2,
        ;
    }
}

/// Wiring the root's data port preserves the router tree shape: the shape
/// constrains only the root's select port.
pub proof fn lemma_demux_tree_wire_root(
    c: CircuitV,
    c2: CircuitV,
    s: int,
    e: int,
    controls: Seq<usize>,
    d: nat,
)
    requires
        demux_tree_at(c, s, e, controls, d),
        e <= c2.gates.len(),
        forall|g: int| s < g < e ==> #[trigger] c2.gates[g] == c.gates[g],
        c2.gates[s].kind == c.gates[s].kind,
        c2.gates[s].inputs.len() == c.gates[s].inputs.len(),
        c2.gates[s].outputs == c.gates[s].outputs,
        c2.gates[s].inputs[1] == c.gates[s].inputs[1],
    ensures
        demux_tree_at(c2, s, e, controls, d),
    decreases d,
{
    if d > 1 {
        let m = s + pow2((d - 1) as nat);
        lemma_pow2_pos((d - 1) as nat);
        lemma_demux_tree_segment_gates(c, c2, s + 1, m, controls, (d - 1) as nat);
        lemma_demux_tree_segment_gates(c, c2, m, e, controls, (d - 1) as nat);
    }
}

/// Wiring a leaf's data ports preserves the tree shape: the shape
/// constrains only a leaf's select port, so pointing leaf `k`'s data
/// ports at new lines — as a caller does after the constructor returns —
/// leaves the predicate standing.
pub proof fn lemma_mux_tree_wire_leaf(
    c: CircuitV,
    c2: CircuitV,
    s: int,
    e: int,
    controls: Seq<usize>,
    d: nat,
    k: int,
)
    requires
        mux_tree_at(c, s, e, controls, d),
        e <= c2.gates.len(),
        0 <= k < pow2((d - 1) as nat),
        forall|g: int|
            s <= g < e && g != tree_leaf(s, d, k) ==> #[trigger] c2.gates[g] == c.gates[g],
        c2.gates[tree_leaf(s, d, k)].kind == c.gates[tree_leaf(s, d, k)].kind,
        c2.gates[tree_leaf(s, d, k)].inputs.len() == c.gates[tree_leaf(s, d, k)].inputs.len(),
        c2.gates[tree_leaf(s, d, k)].outputs == c.gates[tree_leaf(s, d, k)].outputs,
        c2.gates[tree_leaf(s, d, k)].inputs[2] == c.gates[tree_leaf(s, d, k)].inputs[2],
    ensures
        mux_tree_at(c2, s, e, controls, d),
    decreases d,
{
    let lf = tree_leaf(s, d, k);
    if d == 1 {
        assert(lf == s && e == s + 1);
    } else {
        let m = s + pow2((d - 1) as nat) - 1;
        let p2 = pow2((d - 2) as nat);
        lemma_pow2_pos((d - 2) as nat);
        if k < p2 {
            assert(lf == tree_leaf(s, (d - 1) as nat, k));
            lemma_tree_leaf_in_range(s, m, (d - 1) as nat, k);
            lemma_mux_tree_wire_leaf(c, c2, s, m, controls, (d - 1) as nat, k);
            lemma_mux_tree_segment_gates(c, c2, m, e - 1, controls, (d - 1) as nat);
        } else {
            assert(lf == tree_leaf(m, (d - 1) as nat, k - p2));
            lemma_tree_leaf_in_range(m, e - 1, (d - 1) as nat, k - p2);
            lemma_mux_tree_wire_leaf(c, c2, m, e - 1, controls, (d - 1) as nat, k - p2);
            lemma_mux_tree_segment_gates(c, c2, s, m, controls, (d - 1) as nat);
        }
        assert(c2.gates[e - 1] == c.gates[e - 1]);
        assert(c2.gates[m - 1].outputs == c.gates[m - 1].outputs);
        assert(c2.gates[e - 2].outputs == c.gates[e - 2].outputs);
    }
}

/// Routing, proved for the whole router tree: running the tree's gates
/// once, in layout order (the root stands first, so one pass carries the
/// value down), drives the addressed leaf cell to exactly the value read
/// through the root's data port and every other leaf cell to `Low`.
/// `bits` are the values sitting on the control lines, all driven; the
/// addressed output is their little-endian value.
pub proof fn lemma_demux_tree_run_routes(
    c: CircuitV,
    s: int,
    e: int,
    controls: Seq<usize>,
    d: nat,
    bits: Seq<Line>,
)
    requires
        c.wf(),
        demux_tree_at(c, s, e, controls, d),
        bits.len() == d,
        forall|i: int| 0 <= i < d ==> #[trigger] bits[i] != Line::Disconnected,
        forall|i: int|
            0 <= i < d ==> (#[trigger] controls[i] as int) < c.lines.len() && c.lines[controls[i] as int]
                == bits[i],
        forall|i: int| 0 <= i < d ==> !owned_in(c, s, e, #[trigger] controls[i] as int),
        slot_stable(c, s, e, c.gates[s].inputs[0]),
    ensures
        forall|i: int|
            0 <= i < pow2(d) ==> run_gates(c, s, e).lines[#[trigger] c.gates[dtree_leaf(
                s,
                d,
                i / 2,
            )].outputs[i % 2] as int] == (if i == bits_to_nat(bits) {
                spec_read_slot(c.lines, c.gates[s].inputs[0])
            } else {
                Line::Low
            }),
    decreases d,
{
    lemma_pow2_pos(d);
    lemma_demux_tree_all_demux(c, s, e, controls, d);
    lemma_bits_to_nat_bound(bits);
    let v = bits_to_nat(bits) as int;
    assert(c.gate_ok(s));
    let x = spec_read_slot(c.lines, c.gates[s].inputs[0]);
    if d == 1 {
        assert(e == s + 1);
        let g = c.gates[s];
        let vals = spec_read_inputs(c.lines, g.inputs);
        assert(vals[0] == x);
        assert(vals[1] == bits[0]);
        let r = kind_eval(g.kind, vals, spec_cell_vals(c.lines, g.outputs), g.storage);
        assert(r.0 == spec_demux(x, bits[0]));
        assert(bits.drop_first() =~= Seq::<Line>::empty());
        assert(v == (if bits[0] == Line::High {
            1int
        } else {
            0int
        }));
        assert(write_cells(c.lines, g.outputs, r.0, 0) == c.lines);
        assert(write_cells(c.lines, g.outputs, r.0, 1) == c.lines.update(
            g.outputs[0] as int,
            r.0[0],
        ));
        assert(write_cells(c.lines, g.outputs, r.0, 2) == c.lines.update(
            g.outputs[0] as int,
            r.0[0],
        ).update(g.outputs[1] as int, r.0[1]));
        assert(g.outputs[1] != g.outputs[0]);
        assert(run_gates(c, s, s) == c);
        assert(run_gates(c, s, e).lines == c.lines.update(g.outputs[0] as int, r.0[0]).update(
            g.outputs[1] as int,
            r.0[1],
        ));
    } else {
        let m = s + pow2((d - 1) as nat);
        let p1 = pow2((d - 1) as nat) as int;
        assert(pow2(d) == 2 * pow2((d - 1) as nat));
        let bl = bits.drop_last();
        crate::gate::lemma_bits_split_last(bits);
        lemma_bits_to_nat_bound(bl);
        let vl = bits_to_nat(bl) as int;
        let msb = bits.last();
        assert(bl.len() == d - 1);
        assert(forall|i: int| 0 <= i < d - 1 ==> #[trigger] bl[i] == bits[i]);

        // the root steps first and writes its two cells
        let c1 = run_gates(c, s, s + 1);
        let g = c.gates[s];
        let vals = spec_read_inputs(c.lines, g.inputs);
        assert(vals[0] == x);
        assert(vals[1] == msb);
        let r = kind_eval(g.kind, vals, spec_cell_vals(c.lines, g.outputs), g.storage);
        assert(r.0 == spec_demux(x, msb));
        crate::circuit::lemma_stateless_gate_step(c.lines, g);
        assert(run_gates(c, s, s) == c);
        assert(c1.gates =~= c.gates);
        assert(write_cells(c.lines, g.outputs, r.0, 0) == c.lines);
        assert(write_cells(c.lines, g.outputs, r.0, 1) == c.lines.update(
            g.outputs[0] as int,
            r.0[0],
        ));
        assert(write_cells(c.lines, g.outputs, r.0, 2) == c.lines.update(
            g.outputs[0] as int,
            r.0[0],
        ).update(g.outputs[1] as int, r.0[1]));
        assert(g.outputs[1] != g.outputs[0]);
        assert(c1.lines == c.lines.update(g.outputs[0] as int, r.0[0]).update(
            g.outputs[1] as int,
            r.0[1],
        ));
        assert(c1.lines.len() == c.lines.len());
        assert(c1.wf()) by {
            assert forall|i: int| 0 <= i < c1.gates.len() implies #[trigger] c1.gate_ok(i) by {
                assert(c.gate_ok(i));
            }
        }
        let x_low: Line = if msb == Line::High {
            Line::Low
        } else {
            x
        };
        let x_high: Line = if msb == Line::High {
            x
        } else {
            Line::Low
        };
        assert(c1.lines[g.outputs[0] as int] == x_low);
        assert(c1.lines[g.outputs[1] as int] == x_high);

        // the low subtree routes its half from the root's first cell
        assert(demux_tree_at(c1, s + 1, m, controls, (d - 1) as nat)) by {
            lemma_demux_tree_same_gates_d(c, c1, s + 1, m, controls, (d - 1) as nat);
        }
        assert(c1.gates[s + 1].inputs[0] == (Slot::Local { line: g.outputs[0] }));
        assert forall|i: int| 0 <= i < d - 1 implies (#[trigger] controls[i] as int)
            < c1.lines.len() && c1.lines[controls[i] as int] == bl[i] by {
            assert(!owned_in(c, s, e, controls[i] as int));
            assert(controls[i] as int != g.outputs[0] as int && controls[i] as int
                != g.outputs[1] as int) by {
                if controls[i] == g.outputs[0] || controls[i] == g.outputs[1] {
                    assert(owned_in(c, s, e, controls[i] as int));
                }
            }
        }
        assert forall|i: int| 0 <= i < d - 1 implies !owned_in(
            c1,
            s + 1,
            m,
            #[trigger] controls[i] as int,
        ) by {
            if owned_in(c1, s + 1, m, controls[i] as int) {
                assert(owned_in(c, s, e, controls[i] as int));
            }
        }
        assert(slot_stable(c1, s + 1, m, c1.gates[s + 1].inputs[0])) by {
            if owned_in(c1, s + 1, m, g.outputs[0] as int) {
                let (gg, oo) = choose|gg: int, oo: int|
                    s + 1 <= gg < m && 0 <= oo < c1.gates[gg].outputs.len()
                        && #[trigger] c1.gates[gg].outputs[oo] == g.outputs[0];
                assert(c.gates[gg].outputs[oo] == c.gates[s].outputs[0]);
                assert(false);
            }
        }
        assert(spec_read_slot(c1.lines, c1.gates[s + 1].inputs[0]) == x_low);
        lemma_demux_tree_run_routes(c1, s + 1, m, controls, (d - 1) as nat, bl);
        let c2 = run_gates(c1, s + 1, m);

        // the low run kept every gate and every line it does not own
        lemma_demux_tree_all_demux(c1, s + 1, m, controls, (d - 1) as nat);
        assert forall|gg: int| s + 1 <= gg < m implies (#[trigger] c1.gates[gg]).wf()
            && storage_len(c1.gates[gg].kind) == 0 by {
            assert(c1.gate_ok(gg));
        }
        lemma_run_gates_frame(c1, s + 1, m);
        assert(c2.gates == c1.gates);
        assert(c2.lines.len() == c1.lines.len());
        assert(c2.wf()) by {
            assert forall|i: int| 0 <= i < c2.gates.len() implies #[trigger] c2.gate_ok(i) by {
                assert(c1.gate_ok(i));
            }
        }

        // the high subtree routes its half from the root's second cell
        assert(demux_tree_at(c2, m, e, controls, (d - 1) as nat)) by {
            lemma_demux_tree_same_gates_d(c, c2, m, e, controls, (d - 1) as nat);
        }
        assert(c2.gates[m].inputs[0] == (Slot::Local { line: g.outputs[1] }));
        assert forall|i: int| 0 <= i < d - 1 implies (#[trigger] controls[i] as int)
            < c2.lines.len() && c2.lines[controls[i] as int] == bl[i] by {
            assert(!owned_in(c1, s + 1, m, controls[i] as int)) by {
                if owned_in(c1, s + 1, m, controls[i] as int) {
                    assert(owned_in(c, s, e, controls[i] as int));
                }
            }
        }
        assert forall|i: int| 0 <= i < d - 1 implies !owned_in(
            c2,
            m,
            e,
            #[trigger] controls[i] as int,
        ) by {
            if owned_in(c2, m, e, controls[i] as int) {
                assert(owned_in(c, s, e, controls[i] as int));
            }
        }
        assert(slot_stable(c2, m, e, c2.gates[m].inputs[0])) by {
            if owned_in(c2, m, e, g.outputs[1] as int) {
                let (gg, oo) = choose|gg: int, oo: int|
                    m <= gg < e && 0 <= oo < c2.gates[gg].outputs.len()
                        && #[trigger] c2.gates[gg].outputs[oo] == g.outputs[1];
                assert(c.gates[gg].outputs[oo] == c.gates[s].outputs[1]);
                assert(false);
            }
        }
        assert(c2.lines[g.outputs[1] as int] == x_high) by {
            assert(!owned_in(c1, s + 1, m, g.outputs[1] as int)) by {
                if owned_in(c1, s + 1, m, g.outputs[1] as int) {
                    let (gg, oo) = choose|gg: int, oo: int|
                        s + 1 <= gg < m && 0 <= oo < c1.gates[gg].outputs.len()
                            && #[trigger] c1.gates[gg].outputs[oo] == g.outputs[1];
                    assert(c.gates[gg].outputs[oo] == c.gates[s].outputs[1]);
                    assert(false);
                }
            }
        }
        assert(spec_read_slot(c2.lines, c2.gates[m].inputs[0]) == x_high);
        lemma_demux_tree_run_routes(c2, m, e, controls, (d - 1) as nat, bl);
        let c3 = run_gates(c2, m, e);

        // stitch the runs back together
        lemma_run_gates_compose(c, s, s + 1, e);
        lemma_run_gates_compose(c1, s + 1, m, e);
        assert(run_gates(c, s, e) == c3);
        lemma_demux_tree_all_demux(c2, m, e, controls, (d - 1) as nat);
        assert forall|gg: int| m <= gg < e implies (#[trigger] c2.gates[gg]).wf() && storage_len(
            c2.gates[gg].kind,
        ) == 0 by {
            assert(c2.gate_ok(gg));
        }
        lemma_run_gates_frame(c2, m, e);

        // every output of the whole tree is an output of one half
        assert forall|i: int| 0 <= i < pow2(d) implies run_gates(c, s, e).lines[
        #[trigger] c.gates[dtree_leaf(s, d, i / 2)].outputs[i % 2] as int] == (if i == v {
            x
        } else {
            Line::Low
        }) by {
            lemma_dtree_leaf_split(s, d, i);
            if i < p1 {
                lemma_dtree_leaf_in_range(s + 1, m, (d - 1) as nat, i / 2);
                let lf = dtree_leaf(s + 1, (d - 1) as nat, i / 2);
                let cell = c.gates[lf].outputs[i % 2] as int;
                assert(c2.lines[cell] == (if i == vl {
                    x_low
                } else {
                    Line::Low
                }));
                // the high run does not own a low leaf's cell
                assert(c3.lines[cell] == c2.lines[cell]) by {
                    assert(c2.gate_ok(lf));
                    if owned_in(c2, m, e, cell) {
                        let (gg, oo) = choose|gg: int, oo: int|
                            m <= gg < e && 0 <= oo < c2.gates[gg].outputs.len()
                                && #[trigger] c2.gates[gg].outputs[oo] == cell as usize;
                        assert(c.gates[gg].outputs[oo] == c.gates[lf].outputs[i % 2]);
                        assert(false);
                    }
                }
                assert(i == v <==> (msb != Line::High && i == vl));
            } else {
                lemma_dtree_leaf_in_range(m, e, (d - 1) as nat, (i - p1) / 2);
                let lf = dtree_leaf(m, (d - 1) as nat, (i - p1) / 2);
                let cell = c.gates[lf].outputs[i % 2] as int;
                assert(c3.lines[cell] == (if i - p1 == vl {
                    x_high
                } else {
                    Line::Low
                }));
                assert(i == v <==> (msb == Line::High && i - p1 == vl));
            }
        }
    }
}

/// The router tree predicate reads only gates, so it carries over to any
/// state whose gate list is equal.
pub proof fn lemma_demux_tree_same_gates_d(
    c: CircuitV,
    c2: CircuitV,
    s: int,
    e: int,
    controls: Seq<usize>,
    d: nat,
)
    requires
        demux_tree_at(c, s, e, controls, d),
        c2.gates == c.gates,
    ensures
        demux_tree_at(c2, s, e, controls, d),
    decreases d,
{
    if d > 1 {
        let m = s + pow2((d - 1) as nat);
        lemma_demux_tree_same_gates_d(c, c2, s + 1, m, controls, (d - 1) as nat);
        lemma_demux_tree_same_gates_d(c, c2, m, e, controls, (d - 1) as nat);
    }
}

/// The tree predicate reads only gates, so it carries over to any state
/// whose gate list is equal.
pub proof fn lemma_mux_tree_same_gates(
    c: CircuitV,
    c2: CircuitV,
    s: int,
    e: int,
    controls: Seq<usize>,
    d: nat,
)
    requires
        mux_tree_at(c, s, e, controls, d),
        c2.gates == c.gates,
    ensures
        mux_tree_at(c2, s, e, controls, d),
    decreases d,
{
    if d > 1 {
        let m = s + pow2((d - 1) as nat) - 1;
        lemma_mux_tree_same_gates(c, c2, s, m, controls, (d - 1) as nat);
        lemma_mux_tree_same_gates(c, c2, m, e - 1, controls, (d - 1) as nat);
    }
}

/// The law of the selector tree, at the synchronous pass: for every
/// selector value and every input assignment, one `eval` of a circuit
/// whose gates form a wired selector tree — the leaf data ports and the
/// control lines reading lines no gate drives, the control lines spelling
/// the selector value — drives the root's output cell to exactly the
/// value read through the addressed data input. The 8-way, 1-bit device
/// of the tests is the instance `d == 3`.
pub proof fn lemma_mux_tree_sweep_selects(c: CircuitV, controls: Seq<usize>, d: nat, v: nat)
    requires
        c.wf(),
        mux_tree_at(c, 0, c.gates.len() as int, controls, d),
        v < pow2(d),
        forall|i: int|
            0 <= i < d ==> (#[trigger] controls[i] as int) < c.lines.len() && c.lines[controls[i] as int]
                == nat_to_bits(v, d)[i],
        forall|i: int|
            0 <= i < d ==> !owned_in(c, 0, c.gates.len() as int, #[trigger] controls[i] as int),
        forall|i: int|
            0 <= i < pow2(d) ==> slot_stable(
                c,
                0,
                c.gates.len() as int,
                #[trigger] tree_input_slot(c, 0, d, i),
            ),
    ensures
        sweep(c, c.gates.len() as int).lines[c.gates[c.gates.len() - 1].outputs[0] as int]
            == spec_read_slot(c.lines, tree_input_slot(c, 0, d, v as int)),
{
    let e = c.gates.len() as int;
    crate::gate::lemma_bits_round_trip(v, d);
    let bits = nat_to_bits(v, d);
    lemma_sweep_is_run(c, e);
    lemma_mux_tree_run_selects(c, 0, e, controls, d, bits);
}

/// The law of the router tree, at the synchronous pass: for every
/// selector value and every input, one `eval` of a circuit whose gates
/// form a router tree — the root's data port and the control lines
/// reading lines no gate drives, the control lines spelling the selector
/// value — routes the data value to exactly the addressed output cell and
/// forces every other output cell `Low`.
pub proof fn lemma_demux_tree_sweep_routes(c: CircuitV, controls: Seq<usize>, d: nat, v: nat)
    requires
        c.wf(),
        demux_tree_at(c, 0, c.gates.len() as int, controls, d),
        v < pow2(d),
        forall|i: int|
            0 <= i < d ==> (#[trigger] controls[i] as int) < c.lines.len() && c.lines[controls[i] as int]
                == nat_to_bits(v, d)[i],
        forall|i: int|
            0 <= i < d ==> !owned_in(c, 0, c.gates.len() as int, #[trigger] controls[i] as int),
        slot_stable(c, 0, c.gates.len() as int, c.gates[0].inputs[0]),
    ensures
        forall|i: int|
            0 <= i < pow2(d) ==> sweep(c, c.gates.len() as int).lines[#[trigger] c.gates[dtree_leaf(
                0,
                d,
                i / 2,
            )].outputs[i % 2] as int] == (if i == v {
                spec_read_slot(c.lines, c.gates[0].inputs[0])
            } else {
                Line::Low
            }),
{
    let e = c.gates.len() as int;
    crate::gate::lemma_bits_round_trip(v, d);
    let bits = nat_to_bits(v, d);
    lemma_sweep_is_run(c, e);
    lemma_demux_tree_run_routes(c, 0, e, controls, d, bits);
}

} // verus!
