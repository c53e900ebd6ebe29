//! An owning collection of circuits plus cross-circuit wiring.
//!
//! A gate's output cell in one circuit may be referenced by a gate's
//! input port in a different circuit of the same board, through the same
//! slot mechanism as intra-circuit wiring. Board-driven evaluation
//! resolves those references; the settling discipline is the one used
//! inside a circuit, at a coarser grain. Removing a gate or a whole
//! circuit sweeps every circuit on the board and clears any input port
//! referencing a removed output cell.

use vstd::prelude::*;
use crate::line::Line;
use crate::gate::{
    Gate, GateV, Slot, kind_eval, spec_cell_vals, write_cells, lemma_kind_eval_lens,
    lemma_write_cells_len, cell_vals, eval_kind,
};
use crate::circuit::{Circuit, CircuitV, remove_gate_spec, cells_reset, lemma_remove_gate_wf};

verus! {

/// An owning collection of circuits.
pub struct Board {
    pub circuits: Vec<Circuit>,
}

/// The mathematical shape of a board.
#[verifier::ext_equal]
pub ghost struct BoardV {
    pub circuits: Seq<CircuitV>,
}

impl View for Board {
    type V = BoardV;

    open spec fn view(&self) -> BoardV {
        BoardV { circuits: Seq::new(self.circuits@.len(), |i: int| self.circuits@[i]@) }
    }
}

impl BoardV {
    /// Every circuit on the board is well formed. Cross-circuit slots
    /// need no separate bound: board reads are guarded, and the removal
    /// sweeps keep them from dangling.
    pub open spec fn wf(self) -> bool {
        forall|c: int| 0 <= c < self.circuits.len() ==> (#[trigger] self.circuits[c]).wf()
    }
}

/// The value an input port of circuit `me` reads under board-driven
/// evaluation: local slots read `me`'s arena, cross slots the named
/// circuit's arena; anything out of range reads `Disconnected`.
pub open spec fn board_read_slot(cs: Seq<CircuitV>, me: int, s: Slot) -> Line {
    match s {
        Slot::Free => Line::Disconnected,
        Slot::Local { line } => if (line as int) < cs[me].lines.len() {
            cs[me].lines[line as int]
        } else {
            Line::Disconnected
        },
        Slot::Cross { circuit, line } => if (circuit as int) < cs.len() && (line as int)
            < cs[circuit as int].lines.len() {
            cs[circuit as int].lines[line as int]
        } else {
            Line::Disconnected
        },
    }
}

/// The values a run of slots reads under board-driven evaluation.
pub open spec fn board_read_inputs(cs: Seq<CircuitV>, me: int, slots: Seq<Slot>) -> Seq<Line> {
    Seq::new(slots.len(), |i: int| board_read_slot(cs, me, slots[i]))
}

/// One evaluation of gate `gi` of circuit `ci` at board scope: its inputs
/// are resolved across the whole board, and only circuit `ci`'s arena and
/// that gate's storage change.
pub open spec fn board_gate_step(cs: Seq<CircuitV>, ci: int, gi: int) -> Seq<CircuitV> {
    let c = cs[ci];
    let g = c.gates[gi];
    let vals = board_read_inputs(cs, ci, g.inputs);
    let r = kind_eval(g.kind, vals, spec_cell_vals(c.lines, g.outputs), g.storage);
    let c1 = CircuitV {
        gates: c.gates.update(gi, GateV { storage: r.1, ..g }),
        lines: write_cells(c.lines, g.outputs, r.0, r.0.len() as int),
    };
    cs.update(ci, c1)
}

/// One synchronous sweep over the first `n` gates of circuit `ci`, at
/// board scope.
pub open spec fn board_sweep(cs: Seq<CircuitV>, ci: int, n: int) -> Seq<CircuitV>
    decreases n,
{
    if n <= 0 {
        cs
    } else {
        board_gate_step(board_sweep(cs, ci, n - 1), ci, n - 1)
    }
}

/// `k` whole sweeps of circuit `ci`, at board scope.
pub open spec fn board_sweep_n(cs: Seq<CircuitV>, ci: int, k: int) -> Seq<CircuitV>
    decreases k,
{
    if k <= 0 {
        cs
    } else {
        let prev = board_sweep_n(cs, ci, k - 1);
        board_sweep(prev, ci, prev[ci].gates.len() as int)
    }
}

/// The first `n` circuits each given `k` sweeps, in board order.
pub open spec fn board_all_n(cs: Seq<CircuitV>, n: int, k: int) -> Seq<CircuitV>
    decreases n,
{
    if n <= 0 {
        cs
    } else {
        board_sweep_n(board_all_n(cs, n - 1, k), n - 1, k)
    }
}

/// `rounds` outer iterations, each giving every circuit `k` sweeps.
pub open spec fn board_rounds(cs: Seq<CircuitV>, rounds: int, k: int) -> Seq<CircuitV>
    decreases rounds,
{
    if rounds <= 0 {
        cs
    } else {
        let prev = board_rounds(cs, rounds - 1, k);
        board_all_n(prev, prev.len() as int, k)
    }
}

/// The slot after a gate in circuit `rc` was removed: a cross-circuit
/// reference to one of its dead cells is cleared, anything else is
/// untouched.
pub open spec fn slot_cross_cleared(s: Slot, rc: int, dead: Seq<usize>) -> Slot {
    match s {
        Slot::Cross { circuit, line } => if circuit == rc && dead.contains(line) {
            Slot::Free
        } else {
            s
        },
        _ => s,
    }
}

/// A gate after the board-wide removal sweep over its input slots.
pub open spec fn gate_cross_cleared(g: GateV, rc: int, dead: Seq<usize>) -> GateV {
    GateV {
        inputs: Seq::new(g.inputs.len(), |p: int| slot_cross_cleared(g.inputs[p], rc, dead)),
        ..g
    }
}

/// The circuit after the board-wide removal sweep over all its gates.
pub open spec fn circuit_cross_cleared(c: CircuitV, rc: int, dead: Seq<usize>) -> CircuitV {
    CircuitV { gates: c.gates.map_values(|g: GateV| gate_cross_cleared(g, rc, dead)), ..c }
}

/// The board after gate `g` of circuit `c` is removed: circuit `c` goes
/// through its own removal (local slots cleared, cells marked dead), and
/// every circuit's cross-circuit slots that referenced one of the dead
/// cells are cleared too.
pub open spec fn board_remove_gate_spec(cs: Seq<CircuitV>, c: int, g: int) -> Seq<CircuitV> {
    let dead = cs[c].gates[g].outputs;
    Seq::new(
        cs.len(),
        |x: int|
            circuit_cross_cleared(
                if x == c {
                    remove_gate_spec(cs[c], g)
                } else {
                    cs[x]
                },
                c,
                dead,
            ),
    )
}

/// The slot after circuit `rc` left the board: a cross-circuit reference
/// into `rc` is cleared, one into a later circuit shifts down with the
/// circuit handles, anything else is untouched.
pub open spec fn slot_circuit_removed(s: Slot, rc: int) -> Slot {
    match s {
        Slot::Cross { circuit, line } => if circuit == rc {
            Slot::Free
        } else if circuit > rc {
            Slot::Cross { circuit: (circuit - 1) as usize, line }
        } else {
            s
        },
        _ => s,
    }
}

/// A gate after the sweep that follows a circuit removal.
pub open spec fn gate_circuit_removed(g: GateV, rc: int) -> GateV {
    GateV {
        inputs: Seq::new(g.inputs.len(), |p: int| slot_circuit_removed(g.inputs[p], rc)),
        ..g
    }
}

/// The circuit after the sweep that follows a circuit removal.
pub open spec fn circuit_circuit_removed(c: CircuitV, rc: int) -> CircuitV {
    CircuitV { gates: c.gates.map_values(|g: GateV| gate_circuit_removed(g, rc)), ..c }
}

/// The board after circuit `rc` is removed: handles above `rc` shift
/// down, every cross-circuit slot into `rc` is cleared and every one into
/// a later circuit is re-aimed at its shifted handle.
pub open spec fn board_remove_circuit_spec(cs: Seq<CircuitV>, rc: int) -> Seq<CircuitV> {
    cs.remove(rc).map_values(|c: CircuitV| circuit_circuit_removed(c, rc))
}

/// Clears, in place, every one of `g`'s cross-circuit slots that references
/// one of the dead cells of circuit `rc`.
fn clear_cross_slots(g: &mut Gate, rc: usize, dead: &Vec<usize>)
    ensures
        final(g)@ == gate_cross_cleared(old(g)@, rc as int, dead@),
{
    let n = g.num_inputs();
    let mut p: usize = 0;
    while p < n
        invariant
            p <= n,
            n == g@.inputs.len(),
            g@.kind == old(g)@.kind,
            g@.outputs == old(g)@.outputs,
            g@.storage == old(g)@.storage,
            g@.inputs.len() == old(g)@.inputs.len(),
            forall|q: int|
                0 <= q < p ==> g@.inputs[q] == slot_cross_cleared(
                    old(g)@.inputs[q],
                    rc as int,
                    dead@,
                ),
            forall|q: int| p <= q < n ==> g@.inputs[q] == old(g)@.inputs[q],
        decreases n - p,
    {
        match g.get_input(p) {
            Slot::Cross { circuit, line } => {
                if circuit == rc && crate::circuit::contains_usize(dead, line) {
                    g.set_input(p, Slot::Free);
                }
            },
            _ => {},
        }
        p = p + 1;
    }
    proof {
        assert(g@ =~= gate_cross_cleared(old(g)@, rc as int, dead@));
    }
}

/// Rewrites, in place, every one of `g`'s cross-circuit slots after circuit
/// `rc` left the board: references into `rc` are cleared, references into
/// later circuits shift down.
fn fix_slots_after_circuit_removed(g: &mut Gate, rc: usize)
    ensures
        final(g)@ == gate_circuit_removed(old(g)@, rc as int),
{
    let n = g.num_inputs();
    let mut p: usize = 0;
    while p < n
        invariant
            p <= n,
            n == g@.inputs.len(),
            g@.kind == old(g)@.kind,
            g@.outputs == old(g)@.outputs,
            g@.storage == old(g)@.storage,
            g@.inputs.len() == old(g)@.inputs.len(),
            forall|q: int|
                0 <= q < p ==> g@.inputs[q] == slot_circuit_removed(old(g)@.inputs[q], rc as int),
            forall|q: int| p <= q < n ==> g@.inputs[q] == old(g)@.inputs[q],
        decreases n - p,
    {
        match g.get_input(p) {
            Slot::Cross { circuit, line } => {
                if circuit == rc {
                    g.set_input(p, Slot::Free);
                } else if circuit > rc {
                    g.set_input(p, Slot::Cross { circuit: circuit - 1, line });
                }
            },
            _ => {},
        }
        p = p + 1;
    }
    proof {
        assert(g@ =~= gate_circuit_removed(old(g)@, rc as int));
    }
}

/// Clearing cross-circuit slots touches neither arities, nor local slots,
/// nor cells, so a well-formed circuit stays well formed.
pub proof fn lemma_circuit_cross_cleared_wf(c: CircuitV, rc: int, dead: Seq<usize>)
    requires
        c.wf(),
    ensures
        circuit_cross_cleared(c, rc, dead).wf(),
{
    let r = circuit_cross_cleared(c, rc, dead);
    assert forall|i: int| 0 <= i < r.gates.len() implies #[trigger] r.gate_ok(i) by {
        assert(c.gate_ok(i));
        assert(r.gates[i] == gate_cross_cleared(c.gates[i], rc, dead));
        assert forall|p: int| 0 <= p < r.gates[i].inputs.len() implies ((
        #[trigger] r.gates[i].inputs[p]) matches Slot::Local { line } ==> (line as int)
            < r.lines.len()) by {
            assert(r.gates[i].inputs[p] == slot_cross_cleared(c.gates[i].inputs[p], rc, dead));
        }
    }
    assert forall|i1: int, o1: int, i2: int, o2: int|
        0 <= i1 < r.gates.len() && 0 <= o1 < r.gates[i1].outputs.len() && 0 <= i2 < r.gates.len()
            && 0 <= o2 < r.gates[i2].outputs.len() && (i1 != i2 || o1 != o2) implies #[trigger] r.gates[i1].outputs[o1]
        != #[trigger] r.gates[i2].outputs[o2] by {
        assert(r.gates[i1].outputs == c.gates[i1].outputs);
        assert(r.gates[i2].outputs == c.gates[i2].outputs);
    }
}

/// The same, for the sweep that follows a circuit removal.
pub proof fn lemma_circuit_circuit_removed_wf(c: CircuitV, rc: int)
    requires
        c.wf(),
    ensures
        circuit_circuit_removed(c, rc).wf(),
{
    let r = circuit_circuit_removed(c, rc);
    assert forall|i: int| 0 <= i < r.gates.len() implies #[trigger] r.gate_ok(i) by {
        assert(c.gate_ok(i));
        assert(r.gates[i] == gate_circuit_removed(c.gates[i], rc));
        assert forall|p: int| 0 <= p < r.gates[i].inputs.len() implies ((
        #[trigger] r.gates[i].inputs[p]) matches Slot::Local { line } ==> (line as int)
            < r.lines.len()) by {
            assert(r.gates[i].inputs[p] == slot_circuit_removed(c.gates[i].inputs[p], rc));
        }
    }
    assert forall|i1: int, o1: int, i2: int, o2: int|
        0 <= i1 < r.gates.len() && 0 <= o1 < r.gates[i1].outputs.len() && 0 <= i2 < r.gates.len()
            && 0 <= o2 < r.gates[i2].outputs.len() && (i1 != i2 || o1 != o2) implies #[trigger] r.gates[i1].outputs[o1]
        != #[trigger] r.gates[i2].outputs[o2] by {
        assert(r.gates[i1].outputs == c.gates[i1].outputs);
        assert(r.gates[i2].outputs == c.gates[i2].outputs);
    }
}

/// Sweeps one circuit's gates, clearing every cross-circuit slot that
/// references a dead cell of circuit `rc`.
fn sweep_cross_in_circuit(c: &mut Circuit, rc: usize, dead: &Vec<usize>)
    ensures
        final(c)@ == circuit_cross_cleared(old(c)@, rc as int, dead@),
{
    let n = c.gates.len();
    let mut h: usize = 0;
    while h < n
        invariant
            h <= n,
            n == c@.gates.len(),
            c@.lines == old(c)@.lines,
            c@.gates.len() == old(c)@.gates.len(),
            forall|q: int|
                0 <= q < h ==> c@.gates[q] == gate_cross_cleared(
                    old(c)@.gates[q],
                    rc as int,
                    dead@,
                ),
            forall|q: int| h <= q < n ==> c@.gates[q] == old(c)@.gates[q],
        decreases n - h,
    {
        let ghost prev = c@.gates;
        let gr = &mut c.gates[h];
        clear_cross_slots(gr, rc, dead);
        proof {
            assert(c@.gates =~= prev.update(
                h as int,
                gate_cross_cleared(old(c)@.gates[h as int], rc as int, dead@),
            ));
        }
        h = h + 1;
    }
    proof {
        assert(c@ =~= circuit_cross_cleared(old(c)@, rc as int, dead@));
    }
}

/// Sweeps one circuit's gates after circuit `rc` left the board, clearing
/// or re-aiming every cross-circuit slot.
fn sweep_circuit_removed_in_circuit(c: &mut Circuit, rc: usize)
    ensures
        final(c)@ == circuit_circuit_removed(old(c)@, rc as int),
{
    let n = c.gates.len();
    let mut h: usize = 0;
    while h < n
        invariant
            h <= n,
            n == c@.gates.len(),
            c@.lines == old(c)@.lines,
            c@.gates.len() == old(c)@.gates.len(),
            forall|q: int|
                0 <= q < h ==> c@.gates[q] == gate_circuit_removed(old(c)@.gates[q], rc as int),
            forall|q: int| h <= q < n ==> c@.gates[q] == old(c)@.gates[q],
        decreases n - h,
    {
        let ghost prev = c@.gates;
        let gr = &mut c.gates[h];
        fix_slots_after_circuit_removed(gr, rc);
        proof {
            assert(c@.gates =~= prev.update(
                h as int,
                gate_circuit_removed(old(c)@.gates[h as int], rc as int),
            ));
        }
        h = h + 1;
    }
    proof {
        assert(c@ =~= circuit_circuit_removed(old(c)@, rc as int));
    }
}

/// The values a run of slots reads, executably.
fn board_read_inputs_exec(circuits: &Vec<Circuit>, me: usize, slots: &Vec<Slot>) -> (r: Vec<Line>)
    requires
        me < circuits@.len(),
    ensures
        r@ == board_read_inputs(
            Seq::new(circuits@.len(), |i: int| circuits@[i]@),
            me as int,
            slots@,
        ),
{
    let ghost cs = Seq::new(circuits@.len(), |i: int| circuits@[i]@);
    let mut r: Vec<Line> = Vec::new();
    let mut i: usize = 0;
    while i < slots.len()
        invariant
            i <= slots@.len(),
            me < circuits@.len(),
            cs == Seq::new(circuits@.len(), |i: int| circuits@[i]@),
            r@ =~= board_read_inputs(cs, me as int, slots@).subrange(0, i as int),
        decreases slots@.len() - i,
    {
        let v = match slots[i] {
            Slot::Free => Line::Disconnected,
            Slot::Local { line } => {
                if line < circuits[me].lines.len() {
                    circuits[me].lines[line]
                } else {
                    Line::Disconnected
                }
            },
            Slot::Cross { circuit, line } => {
                if circuit < circuits.len() && line < circuits[circuit].lines.len() {
                    circuits[circuit].lines[line]
                } else {
                    Line::Disconnected
                }
            },
        };
        r.push(v);
        proof {
            assert(r@ =~= board_read_inputs(cs, me as int, slots@).subrange(0, i + 1));
        }
        i = i + 1;
    }
    proof {
        assert(r@ =~= board_read_inputs(cs, me as int, slots@));
    }
    r
}

impl Board {
    pub open spec fn wf(&self) -> bool {
        self@.wf()
    }

    /// An empty board.
    pub fn new() -> (b: Board)
        ensures
            b.wf(),
            b@.circuits == Seq::<CircuitV>::empty(),
    {
        let b = Board { circuits: Vec::new() };
        proof {
            assert(b@.circuits =~= Seq::<CircuitV>::empty());
        }
        b
    }

    /// How many circuits the board holds.
    pub fn num_circuits(&self) -> (n: usize)
        ensures
            n == self@.circuits.len(),
    {
        self.circuits.len()
    }

    /// Adopts a circuit and returns its handle.
    pub fn add_circuit(&mut self, circuit: Circuit) -> (h: usize)
        requires
            old(self).wf(),
            circuit.wf(),
        ensures
            final(self).wf(),
            h == old(self)@.circuits.len(),
            final(self)@.circuits == old(self)@.circuits.push(circuit@),
    {
        let h = self.circuits.len();
        self.circuits.push(circuit);
        proof {
            assert(final(self)@.circuits =~= old(self)@.circuits.push(circuit@));
        }
        h
    }

    /// The value currently on output cell `o` of gate `g` of circuit `c`.
    pub fn get_output(&self, c: usize, g: usize, o: usize) -> (r: Line)
        requires
            self.wf(),
            c < self@.circuits.len(),
            g < self@.circuits[c as int].gates.len(),
            o < self@.circuits[c as int].gates[g as int].outputs.len(),
        ensures
            r == self@.circuits[c as int].lines[self@.circuits[c as int].gates[g as int].outputs[o as int] as int],
    {
        self.circuits[c].get_output(g, o)
    }

    /// The state currently on an arena line of circuit `c`.
    pub fn get_line_state(&self, c: usize, line: usize) -> (r: Line)
        requires
            c < self@.circuits.len(),
            line < self@.circuits[c as int].lines.len(),
        ensures
            r == self@.circuits[c as int].lines[line as int],
    {
        self.circuits[c].get_line_state(line)
    }

    /// Drives an arena line of circuit `c` to the given state.
    pub fn set_line(&mut self, c: usize, line: usize, state: Line)
        requires
            old(self).wf(),
            c < old(self)@.circuits.len(),
            line < old(self)@.circuits[c as int].lines.len(),
        ensures
            final(self).wf(),
            final(self)@.circuits == old(self)@.circuits.update(
                c as int,
                CircuitV {
                    lines: old(self)@.circuits[c as int].lines.update(line as int, state),
                    ..old(self)@.circuits[c as int]
                },
            ),
    {
        let cr = &mut self.circuits[c];
        cr.set_line(line, state);
        proof {
            assert(final(self)@.circuits =~= old(self)@.circuits.update(
                c as int,
                CircuitV {
                    lines: old(self)@.circuits[c as int].lines.update(line as int, state),
                    ..old(self)@.circuits[c as int]
                },
            ));
        }
    }

    /// Evaluates gate `g` of circuit `c` once, resolving its input slots
    /// across the whole board.
    fn eval_gate_at(&mut self, c: usize, g: usize)
        requires
            old(self).wf(),
            c < old(self)@.circuits.len(),
            g < old(self)@.circuits[c as int].gates.len(),
        ensures
            final(self).wf(),
            final(self)@.circuits == board_gate_step(old(self)@.circuits, c as int, g as int),
            final(self)@.circuits.len() == old(self)@.circuits.len(),
            final(self)@.circuits[c as int].gates.len() == old(self)@.circuits[c as int].gates.len(),
    {
        proof {
            assert(old(self)@.circuits[c as int].wf());
            assert(old(self)@.circuits[c as int].gate_ok(g as int));
        }
        let vals = board_read_inputs_exec(&self.circuits, c, &self.circuits[c].gates[g].inputs);
        let cur = cell_vals(&self.circuits[c].gates[g].outputs, &self.circuits[c].lines);
        let (new_outs, new_st) = eval_kind(
            self.circuits[c].gates[g].kind,
            &vals,
            &cur,
            &self.circuits[c].gates[g].storage,
        );
        proof {
            let cs = old(self)@.circuits;
            let gv = cs[c as int].gates[g as int];
            lemma_kind_eval_lens(
                gv.kind,
                board_read_inputs(cs, c as int, gv.inputs),
                spec_cell_vals(cs[c as int].lines, gv.outputs),
                gv.storage,
            );
        }
        let cr = &mut self.circuits[c];
        cr.write_gate_results(g, &new_outs, new_st);
        proof {
            assert(final(self)@.circuits =~= board_gate_step(
                old(self)@.circuits,
                c as int,
                g as int,
            ));
        }
    }

    /// One synchronous sweep of circuit `c` at board scope: every gate of
    /// the circuit, in index order, recomputes its outputs from the cells
    /// it references, across circuit boundaries.
    pub fn eval(&mut self, c: usize)
        requires
            old(self).wf(),
            c < old(self)@.circuits.len(),
        ensures
            final(self).wf(),
            final(self)@.circuits == board_sweep(
                old(self)@.circuits,
                c as int,
                old(self)@.circuits[c as int].gates.len() as int,
            ),
            final(self)@.circuits.len() == old(self)@.circuits.len(),
    {
        let n = self.circuits[c].num_gates();
        let mut i: usize = 0;
        while i < n
            invariant
                i <= n,
                c < self@.circuits.len(),
                n == old(self)@.circuits[c as int].gates.len(),
                self.wf(),
                self@.circuits == board_sweep(old(self)@.circuits, c as int, i as int),
                self@.circuits.len() == old(self)@.circuits.len(),
                self@.circuits[c as int].gates.len() == n,
            decreases n - i,
        {
            self.eval_gate_at(c, i);
            i = i + 1;
        }
    }

    /// `passes` whole sweeps of circuit `c`, back to back.
    pub fn eval_circuit_n_passes(&mut self, c: usize, passes: usize)
        requires
            old(self).wf(),
            c < old(self)@.circuits.len(),
        ensures
            final(self).wf(),
            final(self)@.circuits == board_sweep_n(old(self)@.circuits, c as int, passes as int),
            final(self)@.circuits.len() == old(self)@.circuits.len(),
    {
        let mut k: usize = 0;
        while k < passes
            invariant
                k <= passes,
                c < self@.circuits.len(),
                self.wf(),
                self@.circuits == board_sweep_n(old(self)@.circuits, c as int, k as int),
                self@.circuits.len() == old(self)@.circuits.len(),
            decreases passes - k,
        {
            self.eval(c);
            k = k + 1;
        }
    }

    /// Gives every circuit on the board, in order, `passes` whole sweeps,
    /// so feedback that spans circuit boundaries settles the same way
    /// intra-circuit feedback does.
    pub fn eval_all_n_passes(&mut self, passes: usize)
        requires
            old(self).wf(),
        ensures
            final(self).wf(),
            final(self)@.circuits == board_all_n(
                old(self)@.circuits,
                old(self)@.circuits.len() as int,
                passes as int,
            ),
            final(self)@.circuits.len() == old(self)@.circuits.len(),
    {
        let n = self.circuits.len();
        let mut c: usize = 0;
        while c < n
            invariant
                c <= n,
                n == old(self)@.circuits.len(),
                self.wf(),
                self@.circuits == board_all_n(old(self)@.circuits, c as int, passes as int),
                self@.circuits.len() == n,
            decreases n - c,
        {
            self.eval_circuit_n_passes(c, passes);
            c = c + 1;
        }
    }

    /// `c_passes` outer iterations, each giving every circuit `g_passes`
    /// sweeps.
    pub fn eval_all_n_passes_n_passes(&mut self, c_passes: usize, g_passes: usize)
        requires
            old(self).wf(),
        ensures
            final(self).wf(),
            final(self)@.circuits == board_rounds(
                old(self)@.circuits,
                c_passes as int,
                g_passes as int,
            ),
    {
        let mut r: usize = 0;
        while r < c_passes
            invariant
                r <= c_passes,
                self.wf(),
                self@.circuits == board_rounds(old(self)@.circuits, r as int, g_passes as int),
            decreases c_passes - r,
        {
            self.eval_all_n_passes(g_passes);
            r = r + 1;
        }
    }

    /// Wires input port `ti` of gate `tg` in circuit `tc` to output cell
    /// `so` of gate `sg` in circuit `sc` — the identical reference
    /// mechanism as intra-circuit wiring, spanning circuit boundaries —
    /// then resets the target gate's output cells to the default.
    pub fn cross_connect(&mut self, tc: usize, tg: usize, ti: usize, sc: usize, sg: usize, so: usize)
        requires
            old(self).wf(),
            tc < old(self)@.circuits.len(),
            tg < old(self)@.circuits[tc as int].gates.len(),
            ti < old(self)@.circuits[tc as int].gates[tg as int].inputs.len(),
            sc < old(self)@.circuits.len(),
            sg < old(self)@.circuits[sc as int].gates.len(),
            so < old(self)@.circuits[sc as int].gates[sg as int].outputs.len(),
        ensures
            final(self).wf(),
            final(self)@.circuits == old(self)@.circuits.update(
                tc as int,
                CircuitV {
                    gates: old(self)@.circuits[tc as int].gates.update(
                        tg as int,
                        GateV {
                            inputs: old(self)@.circuits[tc as int].gates[tg as int].inputs.update(
                                ti as int,
                                Slot::Cross {
                                    circuit: sc,
                                    line: old(
                                        self,
                                    )@.circuits[sc as int].gates[sg as int].outputs[so as int],
                                },
                            ),
                            ..old(self)@.circuits[tc as int].gates[tg as int]
                        },
                    ),
                    lines: cells_reset(
                        old(self)@.circuits[tc as int].lines,
                        old(self)@.circuits[tc as int].gates[tg as int].outputs,
                    ),
                },
            ),
    {
        let cell = self.circuits[sc].gates[sg].get_output(so);
        let cr = &mut self.circuits[tc];
        proof {
            assert(old(self)@.circuits[tc as int].wf());
        }
        let gr = &mut cr.gates[tg];
        gr.set_input(ti, Slot::Cross { circuit: sc, line: cell });
        proof {
            assert(cr@.gates =~= old(self)@.circuits[tc as int].gates.update(
                tg as int,
                GateV {
                    inputs: old(self)@.circuits[tc as int].gates[tg as int].inputs.update(
                        ti as int,
                        Slot::Cross { circuit: sc, line: cell },
                    ),
                    ..old(self)@.circuits[tc as int].gates[tg as int]
                },
            ));
            let mid = cr@;
            assert forall|j: int| 0 <= j < mid.gates.len() implies #[trigger] mid.gate_ok(j) by {
                assert(old(self)@.circuits[tc as int].gate_ok(j));
            }
        }
        cr.reset_cells(tg);
        proof {
            assert(final(self)@.circuits =~= old(self)@.circuits.update(
                tc as int,
                CircuitV {
                    gates: old(self)@.circuits[tc as int].gates.update(
                        tg as int,
                        GateV {
                            inputs: old(self)@.circuits[tc as int].gates[tg as int].inputs.update(
                                ti as int,
                                Slot::Cross { circuit: sc, line: cell },
                            ),
                            ..old(self)@.circuits[tc as int].gates[tg as int]
                        },
                    ),
                    lines: cells_reset(
                        old(self)@.circuits[tc as int].lines,
                        old(self)@.circuits[tc as int].gates[tg as int].outputs,
                    ),
                },
            ));
        }
    }

    /// Destroys gate `g` of circuit `c`. Circuit `c` goes through its own
    /// removal — cells marked `Disconnected`, local references cleared —
    /// and then every circuit on the board, not just the edited one, is
    /// swept: any cross-circuit input slot referencing one of the removed
    /// cells is cleared.
    pub fn remove_gate(&mut self, c: usize, g: usize)
        requires
            old(self).wf(),
            c < old(self)@.circuits.len(),
            g < old(self)@.circuits[c as int].gates.len(),
        ensures
            final(self).wf(),
            final(self)@.circuits == board_remove_gate_spec(old(self)@.circuits, c as int, g as int),
    {
        proof {
            assert(old(self)@.circuits[c as int].wf());
            assert(old(self)@.circuits[c as int].gate_ok(g as int));
        }
        let ghost cs0 = old(self)@.circuits;
        let ghost dead_s = cs0[c as int].gates[g as int].outputs;
        let dead = crate::circuit::clone_usizes(&self.circuits[c].gates[g].outputs);
        let cr = &mut self.circuits[c];
        cr.remove_gate(g);
        proof {
            assert(self@.circuits =~= cs0.update(
                c as int,
                remove_gate_spec(cs0[c as int], g as int),
            ));
        }
        let ghost mid = self@.circuits;
        let n = self.circuits.len();
        let mut x: usize = 0;
        while x < n
            invariant
                x <= n,
                n == self@.circuits.len(),
                dead@ == dead_s,
                self@.circuits.len() == mid.len(),
                forall|q: int|
                    0 <= q < x ==> self@.circuits[q] == circuit_cross_cleared(
                        mid[q],
                        c as int,
                        dead_s,
                    ),
                forall|q: int| x <= q < n ==> self@.circuits[q] == mid[q],
            decreases n - x,
        {
            let ghost prev = self@.circuits;
            let cx = &mut self.circuits[x];
            sweep_cross_in_circuit(cx, c, &dead);
            proof {
                assert(self@.circuits =~= prev.update(
                    x as int,
                    circuit_cross_cleared(mid[x as int], c as int, dead_s),
                ));
            }
            x = x + 1;
        }
        proof {
            assert(self@.circuits =~= board_remove_gate_spec(cs0, c as int, g as int));
            lemma_remove_gate_wf(cs0[c as int], g as int);
            assert forall|q: int| 0 <= q < self@.circuits.len() implies (
            #[trigger] self@.circuits[q]).wf() by {
                assert(self@.circuits[q] == circuit_cross_cleared(mid[q], c as int, dead_s));
                if q == c as int {
                    lemma_circuit_cross_cleared_wf(
                        remove_gate_spec(cs0[c as int], g as int),
                        c as int,
                        dead_s,
                    );
                } else {
                    assert(cs0[q].wf());
                    lemma_circuit_cross_cleared_wf(cs0[q], c as int, dead_s);
                }
            }
        }
    }

    /// Destroys circuit `c` whole. Circuit handles above `c` shift down;
    /// every remaining circuit is swept, clearing cross-circuit slots into
    /// `c` and re-aiming those into later circuits at their shifted
    /// handles.
    pub fn remove_circuit(&mut self, c: usize)
        requires
            old(self).wf(),
            c < old(self)@.circuits.len(),
        ensures
            final(self).wf(),
            final(self)@.circuits == board_remove_circuit_spec(old(self)@.circuits, c as int),
    {
        let ghost cs0 = old(self)@.circuits;
        let _removed = self.circuits.remove(c);
        proof {
            assert(self@.circuits =~= cs0.remove(c as int));
        }
        let ghost mid = self@.circuits;
        let n = self.circuits.len();
        let mut x: usize = 0;
        while x < n
            invariant
                x <= n,
                n == self@.circuits.len(),
                self@.circuits.len() == mid.len(),
                forall|q: int|
                    0 <= q < x ==> self@.circuits[q] == circuit_circuit_removed(mid[q], c as int),
                forall|q: int| x <= q < n ==> self@.circuits[q] == mid[q],
            decreases n - x,
        {
            let ghost prev = self@.circuits;
            let cx = &mut self.circuits[x];
            sweep_circuit_removed_in_circuit(cx, c);
            proof {
                assert(self@.circuits =~= prev.update(
                    x as int,
                    circuit_circuit_removed(mid[x as int], c as int),
                ));
            }
            x = x + 1;
        }
        proof {
            assert(self@.circuits =~= board_remove_circuit_spec(cs0, c as int));
            assert forall|q: int| 0 <= q < self@.circuits.len() implies (
            #[trigger] self@.circuits[q]).wf() by {
                let oq = if q < c as int {
                    q
                } else {
                    q + 1
                };
                assert(cs0.remove(c as int)[q] == cs0[oq]);
                assert(self@.circuits[q] == circuit_circuit_removed(cs0[oq], c as int));
                assert(cs0[oq].wf());
                lemma_circuit_circuit_removed_wf(cs0[oq], c as int);
            }
        }
    }

    /// Overrides a source gate's drive inside circuit `c`.
    pub fn set_source(&mut self, c: usize, g: usize, v: Line)
        requires
            old(self).wf(),
            c < old(self)@.circuits.len(),
            g < old(self)@.circuits[c as int].gates.len(),
            old(self)@.circuits[c as int].gates[g as int].kind is Source,
        ensures
            final(self).wf(),
            final(self)@.circuits == old(self)@.circuits.update(
                c as int,
                CircuitV {
                    gates: old(self)@.circuits[c as int].gates.update(
                        g as int,
                        GateV {
                            storage: seq![v],
                            ..old(self)@.circuits[c as int].gates[g as int]
                        },
                    ),
                    lines: old(self)@.circuits[c as int].lines.update(
                        old(self)@.circuits[c as int].gates[g as int].outputs[0] as int,
                        v,
                    ),
                },
            ),
    {
        let cr = &mut self.circuits[c];
        cr.set_source(g, v);
        proof {
            assert(final(self)@.circuits =~= old(self)@.circuits.update(
                c as int,
                CircuitV {
                    gates: old(self)@.circuits[c as int].gates.update(
                        g as int,
                        GateV {
                            storage: seq![v],
                            ..old(self)@.circuits[c as int].gates[g as int]
                        },
                    ),
                    lines: old(self)@.circuits[c as int].lines.update(
                        old(self)@.circuits[c as int].gates[g as int].outputs[0] as int,
                        v,
                    ),
                },
            ));
        }
    }
}

} // verus!
