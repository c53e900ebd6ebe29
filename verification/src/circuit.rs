//! An owning collection of gates plus the wiring between their ports.
//!
//! The circuit owns one line arena; every gate's output cells live there
//! and input slots reference cells by arena index, so feedback cycles are
//! expressed without any pointer aliasing. `eval` performs exactly one
//! synchronous sweep over the gates in index order — no topological
//! ordering is attempted, and a feedback loop settles over the repeated
//! passes of `eval_n_passes`, whose count the caller supplies.
//!
//! Removing a gate marks its cells `Disconnected` and clears, by cell
//! identity, every remaining input slot that referenced one of them; the
//! cells themselves stay in the arena as dead entries so that no held
//! line index ever shifts.

use vstd::prelude::*;
use crate::line::Line;
use crate::gate::{
    Gate, GateV, GateKind, Slot, gate_step, out_arity, storage_len, spec_read_slot, write_cells,
    kind_eval, spec_read_inputs, spec_cell_vals, lemma_kind_eval_lens, lemma_write_cells_len,
};

verus! {

/// An owning collection of gates plus the line arena their cells live in.
pub struct Circuit {
    pub gates: Vec<Gate>,
    pub lines: Vec<Line>,
}

/// The mathematical shape of a circuit.
#[verifier::ext_equal]
pub ghost struct CircuitV {
    pub gates: Seq<GateV>,
    pub lines: Seq<Line>,
}

impl View for Circuit {
    type V = CircuitV;

    open spec fn view(&self) -> CircuitV {
        CircuitV {
            gates: Seq::new(self.gates@.len(), |i: int| self.gates@[i]@),
            lines: self.lines@,
        }
    }
}

impl CircuitV {
    /// Gate `i` is well formed and fully inside the arena: its arities
    /// match its kind, its output cells and locally wired input slots all
    /// point at arena lines.
    pub open spec fn gate_ok(self, i: int) -> bool {
        &&& self.gates[i].wf()
        &&& forall|o: int|
            0 <= o < self.gates[i].outputs.len() ==> (#[trigger] self.gates[i].outputs[o] as int)
                < self.lines.len()
        &&& forall|p: int|
            0 <= p < self.gates[i].inputs.len() ==> ((#[trigger] self.gates[i].inputs[p]) matches
            Slot::Local { line } ==> (line as int) < self.lines.len())
    }

    /// Output cells are uniquely owned: no two gate output ports share an
    /// arena cell.
    pub open spec fn distinct_cells(self) -> bool {
        forall|i1: int, o1: int, i2: int, o2: int|
            0 <= i1 < self.gates.len() && 0 <= o1 < self.gates[i1].outputs.len() && 0 <= i2
                < self.gates.len() && 0 <= o2 < self.gates[i2].outputs.len() && (i1 != i2 || o1
                != o2) ==> #[trigger] self.gates[i1].outputs[o1] != #[trigger] self.gates[i2].outputs[o2]
    }

    /// The circuit invariant: every gate well formed and in the arena,
    /// every output cell uniquely owned.
    pub open spec fn wf(self) -> bool {
        (forall|i: int| 0 <= i < self.gates.len() ==> #[trigger] self.gate_ok(i))
            && self.distinct_cells()
    }
}

/// One synchronous sweep over the first `n` gates in index order: each
/// gate recomputes its outputs from whatever values currently sit in the
/// cells it references — last pass's value for a gate later in the sweep,
/// this pass's value for an earlier one.
pub open spec fn sweep(c: CircuitV, n: int) -> CircuitV
    decreases n,
{
    if n <= 0 {
        c
    } else {
        let prev = sweep(c, n - 1);
        let r = gate_step(prev.lines, prev.gates[n - 1]);
        CircuitV { gates: prev.gates.update(n - 1, r.1), lines: r.0 }
    }
}

/// The gates `s` to `e` (exclusive) evaluated once each, in index order,
/// each at its own position: the tail of a sweep. `sweep(c, n)` is
/// `run_gates(c, 0, n)`.
pub open spec fn run_gates(c: CircuitV, s: int, e: int) -> CircuitV
    decreases e - s,
{
    if e <= s {
        c
    } else {
        let prev = run_gates(c, s, e - 1);
        let r = gate_step(prev.lines, prev.gates[e - 1]);
        CircuitV { gates: prev.gates.update(e - 1, r.1), lines: r.0 }
    }
}

/// A sweep is the run of all its gates from the first.
pub proof fn lemma_sweep_is_run(c: CircuitV, n: int)
    ensures
        sweep(c, n) == run_gates(c, 0, n),
    decreases n,
{
    if n > 0 {
        lemma_sweep_is_run(c, n - 1);
    }
}

/// Runs compose: the gates `s..e` can be run as `s..m` and then `m..e`.
pub proof fn lemma_run_gates_compose(c: CircuitV, s: int, m: int, e: int)
    requires
        s <= m <= e,
    ensures
        run_gates(c, s, e) == run_gates(run_gates(c, s, m), m, e),
    decreases e - m,
{
    if e > m {
        lemma_run_gates_compose(c, s, m, e - 1);
    }
}

/// Line `l` is an output cell of one of the gates `s` to `e` (exclusive).
pub open spec fn owned_in(c: CircuitV, s: int, e: int, l: int) -> bool {
    exists|g: int, o: int|
        s <= g < e && 0 <= o < c.gates[g].outputs.len() && #[trigger] c.gates[g].outputs[o] == l
            as usize
}

/// Writing a run of cells touches no other line.
pub proof fn lemma_write_cells_frame(
    lines: Seq<Line>,
    outs: Seq<usize>,
    vals: Seq<Line>,
    n: int,
    j: int,
)
    requires
        0 <= j < lines.len(),
        n <= outs.len(),
        forall|o: int| 0 <= o < outs.len() ==> #[trigger] outs[o] != j as usize,
    ensures
        write_cells(lines, outs, vals, n)[j] == lines[j],
    decreases n,
{
    if n > 0 {
        lemma_write_cells_frame(lines, outs, vals, n - 1, j);
        lemma_write_cells_len(lines, outs, vals, n - 1);
        if 0 <= n - 1 < outs.len() {
            assert(outs[n - 1] != j as usize);
        }
    }
}

/// One gate step writes only that gate's own cells: every line outside
/// them is untouched.
pub proof fn lemma_gate_step_frame(c: CircuitV, i: int, j: int)
    requires
        0 <= i < c.gates.len(),
        0 <= j < c.lines.len(),
        c.gates[i].wf(),
        forall|o: int|
            0 <= o < c.gates[i].outputs.len() ==> #[trigger] c.gates[i].outputs[o] != j as usize,
    ensures
        gate_step(c.lines, c.gates[i]).0[j] == c.lines[j],
{
    let g = c.gates[i];
    let r = kind_eval(
        g.kind,
        spec_read_inputs(c.lines, g.inputs),
        spec_cell_vals(c.lines, g.outputs),
        g.storage,
    );
    lemma_kind_eval_lens(
        g.kind,
        spec_read_inputs(c.lines, g.inputs),
        spec_cell_vals(c.lines, g.outputs),
        g.storage,
    );
    lemma_write_cells_frame(c.lines, g.outputs, r.0, r.0.len() as int, j);
}

/// A step of a storage-free gate leaves that gate's own value exactly
/// as it was.
pub proof fn lemma_stateless_gate_step(lines: Seq<Line>, g: GateV)
    requires
        storage_len(g.kind) == 0,
        g.storage.len() == 0,
    ensures
        gate_step(lines, g).1 == g,
{
    let vals = spec_read_inputs(lines, g.inputs);
    let cur = spec_cell_vals(lines, g.outputs);
    let new_st = kind_eval(g.kind, vals, cur, g.storage).1;
    match g.kind {
        GateKind::RamTransparent { addr_bits, data_bits } => {
            assert(new_st.len() == 0);
            assert(new_st =~= g.storage);
        },
        _ => {
            assert(new_st =~= g.storage);
        },
    }
    assert(gate_step(lines, g).1 =~= g);
}

/// Running a segment of storage-free gates leaves every gate value as it
/// was, every line outside the segment's cells as it was, and the arena
/// length unchanged.
pub proof fn lemma_run_gates_frame(c: CircuitV, s: int, e: int)
    requires
        0 <= s <= e <= c.gates.len(),
        forall|g: int|
            s <= g < e ==> (#[trigger] c.gates[g]).wf() && storage_len(c.gates[g].kind) == 0,
    ensures
        run_gates(c, s, e).gates == c.gates,
        run_gates(c, s, e).lines.len() == c.lines.len(),
        forall|j: int|
            0 <= j < c.lines.len() && !owned_in(c, s, e, j) ==> run_gates(c, s, e).lines[j]
                == c.lines[j],
    decreases e - s,
{
    if e > s {
        lemma_run_gates_frame(c, s, e - 1);
        let prev = run_gates(c, s, e - 1);
        let g = prev.gates[e - 1];
        assert(g == c.gates[e - 1]);
        lemma_stateless_gate_step(prev.lines, g);
        assert(run_gates(c, s, e).gates =~= prev.gates);
        let r = kind_eval(
            g.kind,
            spec_read_inputs(prev.lines, g.inputs),
            spec_cell_vals(prev.lines, g.outputs),
            g.storage,
        );
        lemma_write_cells_len(prev.lines, g.outputs, r.0, r.0.len() as int);
        assert forall|j: int| 0 <= j < c.lines.len() && !owned_in(c, s, e, j) implies run_gates(
            c,
            s,
            e,
        ).lines[j] == c.lines[j] by {
            assert(!owned_in(c, s, e - 1, j));
            assert forall|o: int| 0 <= o < g.outputs.len() implies #[trigger] g.outputs[o] != j
                as usize by {
                if g.outputs[o] == j as usize {
                    assert(owned_in(c, s, e, j));
                }
            }
            lemma_gate_step_frame(prev, e - 1, j);
        }
    }
}

/// `k` whole sweeps.
pub open spec fn sweep_n(c: CircuitV, k: int) -> CircuitV
    decreases k,
{
    if k <= 0 {
        c
    } else {
        let prev = sweep_n(c, k - 1);
        sweep(prev, prev.gates.len() as int)
    }
}

/// Gate `g` evaluated `k` times in a row against the arena.
pub open spec fn gate_step_n(lines: Seq<Line>, g: GateV, k: int) -> (Seq<Line>, GateV)
    decreases k,
{
    if k <= 0 {
        (lines, g)
    } else {
        let prev = gate_step_n(lines, g, k - 1);
        gate_step(prev.0, prev.1)
    }
}

/// One sweep in which each of the first `n` gates is evaluated `k` times
/// in a row before the sweep moves on.
pub open spec fn sweep_multi(c: CircuitV, n: int, k: int) -> CircuitV
    decreases n,
{
    if n <= 0 {
        c
    } else {
        let prev = sweep_multi(c, n - 1, k);
        let r = gate_step_n(prev.lines, prev.gates[n - 1], k);
        CircuitV { gates: prev.gates.update(n - 1, r.1), lines: r.0 }
    }
}

/// The slot after the removal sweep: a local reference to a dead cell is
/// cleared, anything else is untouched.
pub open spec fn slot_cleared(s: Slot, dead: Seq<usize>) -> Slot {
    match s {
        Slot::Local { line } => if dead.contains(line) {
            Slot::Free
        } else {
            s
        },
        _ => s,
    }
}

/// A gate after the removal sweep over its input slots.
pub open spec fn gate_cleared(g: GateV, dead: Seq<usize>) -> GateV {
    GateV { inputs: Seq::new(g.inputs.len(), |p: int| slot_cleared(g.inputs[p], dead)), ..g }
}

/// The circuit after gate `k` is removed: that gate leaves the collection
/// (handles above `k` shift down by one), its cells stay in the arena but
/// are marked `Disconnected`, and every remaining input slot that
/// referenced one of them — by cell identity — is cleared.
pub open spec fn remove_gate_spec(c: CircuitV, k: int) -> CircuitV {
    let dead = c.gates[k].outputs;
    CircuitV {
        gates: c.gates.remove(k).map_values(|g: GateV| gate_cleared(g, dead)),
        lines: Seq::new(
            c.lines.len(),
            |j: int|
                if dead.contains(j as usize) {
                    Line::Disconnected
                } else {
                    c.lines[j]
                },
        ),
    }
}

/// A gate as a circuit adopts it: every input slot freed, output cell
/// `o` homed at arena index `base + o`.
pub open spec fn adopted_gate(g: GateV, base: nat) -> GateV {
    GateV {
        inputs: Seq::new(g.inputs.len(), |p: int| Slot::Free),
        outputs: Seq::new(g.outputs.len(), |o: int| (base + o) as usize),
        ..g
    }
}

/// The initial values of a gate's freshly allocated cells: a source's
/// cell starts at its drive value, every other cell at `Low`.
pub open spec fn fresh_cells(g: GateV) -> Seq<Line> {
    Seq::new(
        g.outputs.len(),
        |o: int|
            if g.kind is Source {
                g.storage[0]
            } else {
                Line::Low
            },
    )
}

/// The arena after every cell of the run has been reset to the default
/// `Low`, as the wiring methods do after a structural change.
pub open spec fn cells_reset(lines: Seq<Line>, outs: Seq<usize>) -> Seq<Line> {
    Seq::new(
        lines.len(),
        |j: int|
            if outs.contains(j as usize) {
                Line::Low
            } else {
                lines[j]
            },
    )
}

/// Resetting a gate's cells leaves every line below its cell range
/// untouched.
pub proof fn lemma_reset_preserves_low(lines: Seq<Line>, outs: Seq<usize>, j: int, base: int)
    requires
        0 <= j < base,
        j < lines.len(),
        forall|o: int| 0 <= o < outs.len() ==> base <= #[trigger] outs[o] as int,
    ensures
        cells_reset(lines, outs)[j] == lines[j],
{
    if outs.contains(j as usize) {
        let o = choose|o: int| 0 <= o < outs.len() && outs[o] == j as usize;
        assert(base <= outs[o] as int);
        assert(false);
    }
}

/// Whether the run holds the given index.
pub fn contains_usize(v: &Vec<usize>, x: usize) -> (r: bool)
    ensures
        r == v@.contains(x),
{
    let mut i: usize = 0;
    while i < v.len()
        invariant
            i <= v@.len(),
            forall|j: int| 0 <= j < i ==> v@[j] != x,
        decreases v@.len() - i,
    {
        if v[i] == x {
            return true;
        }
        i = i + 1;
    }
    false
}

/// The copy of a run of indices.
pub fn clone_usizes(v: &Vec<usize>) -> (r: Vec<usize>)
    ensures
        r@ == v@,
{
    let mut r: Vec<usize> = Vec::new();
    let mut i: usize = 0;
    while i < v.len()
        invariant
            i <= v@.len(),
            r@ =~= v@.subrange(0, i as int),
        decreases v@.len() - i,
    {
        r.push(v[i]);
        proof {
            assert(r@ =~= v@.subrange(0, i + 1));
        }
        i = i + 1;
    }
    proof {
        assert(r@ =~= v@);
    }
    r
}

/// Clears, in place, every one of `g`'s input slots that locally references
/// one of the dead cells.
fn clear_dead_slots(g: &mut Gate, dead: &Vec<usize>)
    ensures
        final(g)@ == gate_cleared(old(g)@, dead@),
{
    let n = g.inputs.len();
    let mut p: usize = 0;
    while p < n
        invariant
            p <= n,
            n == g@.inputs.len(),
            g@.kind == old(g)@.kind,
            g@.outputs == old(g)@.outputs,
            g@.storage == old(g)@.storage,
            g@.inputs.len() == old(g)@.inputs.len(),
            forall|q: int|
                0 <= q < p ==> g@.inputs[q] == slot_cleared(old(g)@.inputs[q], dead@),
            forall|q: int| p <= q < n ==> g@.inputs[q] == old(g)@.inputs[q],
        decreases n - p,
    {
        match g.get_input(p) {
            Slot::Local { line } => {
                if contains_usize(dead, line) {
                    g.set_input(p, Slot::Free);
                }
            },
            _ => {},
        }
        p = p + 1;
    }
    proof {
        assert(g@ =~= gate_cleared(old(g)@, dead@));
    }
}

impl Circuit {
    pub open spec fn wf(&self) -> bool {
        self@.wf()
    }

    /// An empty circuit: no gates, an empty arena.
    pub fn new() -> (c: Circuit)
        ensures
            c.wf(),
            c@.gates == Seq::<GateV>::empty(),
            c@.lines == Seq::<Line>::empty(),
    {
        let c = Circuit { gates: Vec::new(), lines: Vec::new() };
        proof {
            assert(c@.gates =~= Seq::<GateV>::empty());
        }
        c
    }

    /// How many gates the circuit holds.
    pub fn num_gates(&self) -> (n: usize)
        ensures
            n == self@.gates.len(),
    {
        self.gates.len()
    }

    /// How many lines the arena holds.
    pub fn num_lines(&self) -> (n: usize)
        ensures
            n == self@.lines.len(),
    {
        self.lines.len()
    }

    /// Adds a free-standing line to the arena — a circuit input, driven
    /// through `set_line` — and returns its index.
    pub fn add_line(&mut self, initial: Line) -> (h: usize)
        requires
            old(self).wf(),
        ensures
            final(self).wf(),
            h == old(self)@.lines.len(),
            final(self)@.lines == old(self)@.lines.push(initial),
            final(self)@.gates == old(self)@.gates,
    {
        let h = self.lines.len();
        self.lines.push(initial);
        proof {
            assert(final(self)@.gates =~= old(self)@.gates);
            assert forall|i: int| 0 <= i < self@.gates.len() implies #[trigger] self@.gate_ok(
                i,
            ) by {
                assert(old(self)@.gate_ok(i));
            }
        }
        h
    }

    /// Drives an arena line to the given state.
    pub fn set_line(&mut self, line: usize, state: Line)
        requires
            old(self).wf(),
            line < old(self)@.lines.len(),
        ensures
            final(self).wf(),
            final(self)@.lines == old(self)@.lines.update(line as int, state),
            final(self)@.gates == old(self)@.gates,
    {
        self.lines.set(line, state);
        proof {
            assert(final(self)@.gates =~= old(self)@.gates);
            assert forall|i: int| 0 <= i < self@.gates.len() implies #[trigger] self@.gate_ok(
                i,
            ) by {
                assert(old(self)@.gate_ok(i));
            }
        }
    }

    /// The state currently on an arena line.
    pub fn get_line_state(&self, line: usize) -> (r: Line)
        requires
            line < self@.lines.len(),
        ensures
            r == self@.lines[line as int],
    {
        self.lines[line]
    }

    /// Where input port `i` of gate `g` takes its value from.
    pub fn get_gate_input(&self, g: usize, i: usize) -> (s: Slot)
        requires
            g < self@.gates.len(),
            i < self@.gates[g as int].inputs.len(),
        ensures
            s == self@.gates[g as int].inputs[i as int],
    {
        self.gates[g].get_input(i)
    }

    /// The arena index of output cell `o` of gate `g`.
    pub fn get_gate_output(&self, g: usize, o: usize) -> (cell: usize)
        requires
            g < self@.gates.len(),
            o < self@.gates[g as int].outputs.len(),
        ensures
            cell == self@.gates[g as int].outputs[o as int],
    {
        self.gates[g].get_output(o)
    }

    /// The value currently on output cell `o` of gate `g`.
    pub fn get_output(&self, g: usize, o: usize) -> (r: Line)
        requires
            self.wf(),
            g < self@.gates.len(),
            o < self@.gates[g as int].outputs.len(),
        ensures
            r == self@.lines[self@.gates[g as int].outputs[o as int] as int],
    {
        proof {
            assert(self@.gate_ok(g as int));
        }
        let cell = self.gates[g].get_output(o);
        self.lines[cell]
    }

    /// Adopts a gate: allocates one fresh arena cell per output port (a
    /// source's cell starts at its drive value, any other at `Low`),
    /// points its output ports at them, frees every input slot, and
    /// returns the new handle.
    pub fn add_gate(&mut self, gate: Gate) -> (h: usize)
        requires
            old(self).wf(),
            gate.wf(),
            old(self)@.lines.len() + out_arity(gate@.kind) <= usize::MAX,
        ensures
            final(self).wf(),
            h == old(self)@.gates.len(),
            final(self)@.gates == old(self)@.gates.push(
                adopted_gate(gate@, old(self)@.lines.len()),
            ),
            final(self)@.lines == old(self)@.lines + fresh_cells(gate@),
    {
        let h = self.gates.len();
        let base = self.lines.len();
        let mut g = gate;
        let n_in = g.num_inputs();
        let mut p: usize = 0;
        while p < n_in
            invariant
                p <= n_in,
                n_in == g@.inputs.len(),
                g@.kind == gate@.kind,
                g@.outputs == gate@.outputs,
                g@.storage == gate@.storage,
                g@.inputs.len() == gate@.inputs.len(),
                forall|q: int| 0 <= q < p ==> g@.inputs[q] == Slot::Free,
                forall|q: int| p <= q < n_in ==> g@.inputs[q] == gate@.inputs[q],
            decreases n_in - p,
        {
            g.set_input(p, Slot::Free);
            p = p + 1;
        }
        let fill = match g.kind {
            GateKind::Source => g.storage[0],
            _ => Line::Low,
        };
        let n_out = g.num_outputs();
        let mut o: usize = 0;
        while o < n_out
            invariant
                o <= n_out,
                n_out == g@.outputs.len(),
                base == old(self)@.lines.len(),
                base + n_out <= usize::MAX,
                g@.kind == gate@.kind,
                g@.storage == gate@.storage,
                g@.outputs.len() == gate@.outputs.len(),
                g@.inputs == Seq::new(gate@.inputs.len(), |q: int| Slot::Free),
                forall|q: int| 0 <= q < o ==> g@.outputs[q] == (base + q) as usize,
                forall|q: int| o <= q < n_out ==> g@.outputs[q] == gate@.outputs[q],
                self@.gates == old(self)@.gates,
                self@.lines =~= old(self)@.lines + Seq::new(o as nat, |q: int| fill),
            decreases n_out - o,
        {
            self.lines.push(fill);
            g.set_output(o, base + o);
            proof {
                assert(self@.lines =~= old(self)@.lines + Seq::new((o + 1) as nat, |q: int| fill));
                assert(self@.gates =~= old(self)@.gates);
            }
            o = o + 1;
        }
        self.gates.push(g);
        proof {
            assert(g@ =~= adopted_gate(gate@, old(self)@.lines.len()));
            assert(final(self)@.gates =~= old(self)@.gates.push(
                adopted_gate(gate@, old(self)@.lines.len()),
            ));
            assert(final(self)@.lines =~= old(self)@.lines + fresh_cells(gate@));
            let new = final(self)@;
            let n = new.gates.len();
            assert forall|i: int| 0 <= i < n implies #[trigger] new.gate_ok(i) by {
                if i < n - 1 {
                    assert(old(self)@.gate_ok(i));
                    assert(new.gates[i] == old(self)@.gates[i]);
                } else {
                    assert(new.gates[i] == adopted_gate(gate@, old(self)@.lines.len()));
                }
            }
            assert forall|i1: int, o1: int, i2: int, o2: int|
                0 <= i1 < new.gates.len() && 0 <= o1 < new.gates[i1].outputs.len() && 0 <= i2
                    < new.gates.len() && 0 <= o2 < new.gates[i2].outputs.len() && (i1 != i2 || o1
                    != o2) implies #[trigger] new.gates[i1].outputs[o1]
                != #[trigger] new.gates[i2].outputs[o2] by {
                if i1 < n - 1 {
                    assert(old(self)@.gate_ok(i1));
                }
                if i2 < n - 1 {
                    assert(old(self)@.gate_ok(i2));
                }
            }
        }
        h
    }

    /// Resets every output cell of gate `g` to the default `Low`, so that
    /// a newly rewired but not-yet-evaluated gate never exposes a result
    /// computed under the old topology.
    pub(crate) fn reset_cells(&mut self, g: usize)
        requires
            old(self).wf(),
            g < old(self)@.gates.len(),
        ensures
            final(self).wf(),
            final(self)@.gates == old(self)@.gates,
            final(self)@.lines == cells_reset(old(self)@.lines, old(self)@.gates[g as int].outputs),
    {
        proof {
            assert(old(self)@.gate_ok(g as int));
        }
        let n = self.gates[g].num_outputs();
        let total = self.lines.len();
        let mut k: usize = 0;
        while k < n
            invariant
                k <= n,
                g < self@.gates.len(),
                self@.gates == old(self)@.gates,
                n == self@.gates[g as int].outputs.len(),
                old(self)@.gate_ok(g as int),
                total == self@.lines.len(),
                self@.lines.len() == old(self)@.lines.len(),
                forall|j: int|
                    0 <= j < self@.lines.len() ==> self@.lines[j] == (if (exists|t: int|
                        0 <= t < k && old(self)@.gates[g as int].outputs[t] == j as usize) {
                        Line::Low
                    } else {
                        old(self)@.lines[j]
                    }),
            decreases n - k,
        {
            let cell = self.gates[g].get_output(k);
            self.lines.set(cell, Line::Low);
            proof {
                assert(self@.gates =~= old(self)@.gates);
                let outs = old(self)@.gates[g as int].outputs;
                assert forall|j: int| 0 <= j < self@.lines.len() implies self@.lines[j] == (if (
                exists|t: int| 0 <= t < k + 1 && outs[t] == j as usize) {
                    Line::Low
                } else {
                    old(self)@.lines[j]
                }) by {
                    if j == cell as int {
                        assert(outs[k as int] == j as usize);
                    } else if exists|t: int| 0 <= t < k + 1 && outs[t] == j as usize {
                        let t = choose|t: int| 0 <= t < k + 1 && outs[t] == j as usize;
                        assert(0 <= t < k && outs[t] == j as usize);
                    }
                }
            }
            k = k + 1;
        }
        proof {
            assert(final(self)@.lines =~= cells_reset(
                old(self)@.lines,
                old(self)@.gates[g as int].outputs,
            ));
            assert forall|i: int| 0 <= i < self@.gates.len() implies #[trigger] self@.gate_ok(
                i,
            ) by {
                assert(old(self)@.gate_ok(i));
            }
        }
    }

    /// Wires input port `i` of gate `g` straight to an arena line (a
    /// circuit input made by `add_line`), then resets `g`'s output cells
    /// to the default.
    pub fn set_gate_input(&mut self, g: usize, i: usize, line: usize)
        requires
            old(self).wf(),
            g < old(self)@.gates.len(),
            i < old(self)@.gates[g as int].inputs.len(),
            line < old(self)@.lines.len(),
        ensures
            final(self).wf(),
            final(self)@.gates == old(self)@.gates.update(
                g as int,
                GateV {
                    inputs: old(self)@.gates[g as int].inputs.update(
                        i as int,
                        Slot::Local { line },
                    ),
                    ..old(self)@.gates[g as int]
                },
            ),
            final(self)@.lines == cells_reset(old(self)@.lines, old(self)@.gates[g as int].outputs),
    {
        proof {
            assert(old(self)@.gate_ok(g as int));
        }
        let gr = &mut self.gates[g];
        gr.set_input(i, Slot::Local { line });
        proof {
            assert(self@.gates =~= old(self)@.gates.update(
                g as int,
                GateV {
                    inputs: old(self)@.gates[g as int].inputs.update(
                        i as int,
                        Slot::Local { line },
                    ),
                    ..old(self)@.gates[g as int]
                },
            ));
            let mid = self@;
            assert forall|j: int| 0 <= j < mid.gates.len() implies #[trigger] mid.gate_ok(j) by {
                assert(old(self)@.gate_ok(j));
            }
        }
        self.reset_cells(g);
    }

    /// Wires input port `ti` of gate `tg` to output cell `so` of gate
    /// `sg` — a non-owning shared reference to the producer's cell — then
    /// resets `tg`'s output cells to the default.
    pub fn connect_i_single(&mut self, tg: usize, ti: usize, sg: usize, so: usize)
        requires
            old(self).wf(),
            tg < old(self)@.gates.len(),
            ti < old(self)@.gates[tg as int].inputs.len(),
            sg < old(self)@.gates.len(),
            so < old(self)@.gates[sg as int].outputs.len(),
        ensures
            final(self).wf(),
            final(self)@.gates == old(self)@.gates.update(
                tg as int,
                GateV {
                    inputs: old(self)@.gates[tg as int].inputs.update(
                        ti as int,
                        Slot::Local { line: old(self)@.gates[sg as int].outputs[so as int] },
                    ),
                    ..old(self)@.gates[tg as int]
                },
            ),
            final(self)@.lines == cells_reset(
                old(self)@.lines,
                old(self)@.gates[tg as int].outputs,
            ),
    {
        proof {
            assert(old(self)@.gate_ok(sg as int));
        }
        let cell = self.gates[sg].get_output(so);
        self.set_gate_input(tg, ti, cell);
    }

    /// Clears input port `ti` of gate `tg` back to `Disconnected`, then
    /// resets `tg`'s output cells to the default.
    pub fn disconnect_i_single(&mut self, tg: usize, ti: usize)
        requires
            old(self).wf(),
            tg < old(self)@.gates.len(),
            ti < old(self)@.gates[tg as int].inputs.len(),
        ensures
            final(self).wf(),
            final(self)@.gates == old(self)@.gates.update(
                tg as int,
                GateV {
                    inputs: old(self)@.gates[tg as int].inputs.update(ti as int, Slot::Free),
                    ..old(self)@.gates[tg as int]
                },
            ),
            final(self)@.lines == cells_reset(
                old(self)@.lines,
                old(self)@.gates[tg as int].outputs,
            ),
    {
        let gr = &mut self.gates[tg];
        gr.set_input(ti, Slot::Free);
        proof {
            assert(self@.gates =~= old(self)@.gates.update(
                tg as int,
                GateV {
                    inputs: old(self)@.gates[tg as int].inputs.update(ti as int, Slot::Free),
                    ..old(self)@.gates[tg as int]
                },
            ));
            let mid = self@;
            assert forall|j: int| 0 <= j < mid.gates.len() implies #[trigger] mid.gate_ok(j) by {
                assert(old(self)@.gate_ok(j));
            }
        }
        self.reset_cells(tg);
    }

    /// Overrides a source gate's drive: the stored value and the output
    /// cell both take the new state at once.
    pub fn set_source(&mut self, g: usize, v: Line)
        requires
            old(self).wf(),
            g < old(self)@.gates.len(),
            old(self)@.gates[g as int].kind is Source,
        ensures
            final(self).wf(),
            final(self)@.gates == old(self)@.gates.update(
                g as int,
                GateV { storage: seq![v], ..old(self)@.gates[g as int] },
            ),
            final(self)@.lines == old(self)@.lines.update(
                old(self)@.gates[g as int].outputs[0] as int,
                v,
            ),
    {
        proof {
            assert(old(self)@.gate_ok(g as int));
        }
        let gr = &mut self.gates[g];
        gr.set_source_value(v);
        let cell = self.gates[g].get_output(0);
        self.lines.set(cell, v);
        proof {
            assert(final(self)@.gates =~= old(self)@.gates.update(
                g as int,
                GateV { storage: seq![v], ..old(self)@.gates[g as int] },
            ));
            let new = final(self)@;
            assert forall|j: int| 0 <= j < new.gates.len() implies #[trigger] new.gate_ok(j) by {
                assert(old(self)@.gate_ok(j));
            }
        }
    }

    /// Drives a source gate `High`.
    pub fn set_high(&mut self, g: usize)
        requires
            old(self).wf(),
            g < old(self)@.gates.len(),
            old(self)@.gates[g as int].kind is Source,
        ensures
            final(self).wf(),
            final(self)@.gates == old(self)@.gates.update(
                g as int,
                GateV { storage: seq![Line::High], ..old(self)@.gates[g as int] },
            ),
            final(self)@.lines == old(self)@.lines.update(
                old(self)@.gates[g as int].outputs[0] as int,
                Line::High,
            ),
    {
        self.set_source(g, Line::High);
    }

    /// Wires the first input port of gate `tg` to output cell 0 of gate
    /// `sg`.
    pub fn connect_i1(&mut self, tg: usize, sg: usize)
        requires
            old(self).wf(),
            tg < old(self)@.gates.len(),
            old(self)@.gates[tg as int].inputs.len() >= 1,
            sg < old(self)@.gates.len(),
            old(self)@.gates[sg as int].outputs.len() >= 1,
        ensures
            final(self).wf(),
            final(self)@.gates == old(self)@.gates.update(
                tg as int,
                GateV {
                    inputs: old(self)@.gates[tg as int].inputs.update(
                        0,
                        Slot::Local { line: old(self)@.gates[sg as int].outputs[0] },
                    ),
                    ..old(self)@.gates[tg as int]
                },
            ),
            final(self)@.lines == cells_reset(
                old(self)@.lines,
                old(self)@.gates[tg as int].outputs,
            ),
    {
        self.connect_i_single(tg, 0, sg, 0);
    }

    /// Wires the second input port of gate `tg` to output cell 0 of gate
    /// `sg`.
    pub fn connect_i2(&mut self, tg: usize, sg: usize)
        requires
            old(self).wf(),
            tg < old(self)@.gates.len(),
            old(self)@.gates[tg as int].inputs.len() >= 2,
            sg < old(self)@.gates.len(),
            old(self)@.gates[sg as int].outputs.len() >= 1,
        ensures
            final(self).wf(),
            final(self)@.gates == old(self)@.gates.update(
                tg as int,
                GateV {
                    inputs: old(self)@.gates[tg as int].inputs.update(
                        1,
                        Slot::Local { line: old(self)@.gates[sg as int].outputs[0] },
                    ),
                    ..old(self)@.gates[tg as int]
                },
            ),
            final(self)@.lines == cells_reset(
                old(self)@.lines,
                old(self)@.gates[tg as int].outputs,
            ),
    {
        self.connect_i_single(tg, 1, sg, 0);
    }

    /// Clears the first input port of gate `g`.
    pub fn disconnect_i1(&mut self, g: usize)
        requires
            old(self).wf(),
            g < old(self)@.gates.len(),
            old(self)@.gates[g as int].inputs.len() >= 1,
        ensures
            final(self).wf(),
            final(self)@.gates == old(self)@.gates.update(
                g as int,
                GateV {
                    inputs: old(self)@.gates[g as int].inputs.update(0, Slot::Free),
                    ..old(self)@.gates[g as int]
                },
            ),
            final(self)@.lines == cells_reset(old(self)@.lines, old(self)@.gates[g as int].outputs),
    {
        self.disconnect_i_single(g, 0);
    }

    /// Clears the second input port of gate `g`.
    pub fn disconnect_i2(&mut self, g: usize)
        requires
            old(self).wf(),
            g < old(self)@.gates.len(),
            old(self)@.gates[g as int].inputs.len() >= 2,
        ensures
            final(self).wf(),
            final(self)@.gates == old(self)@.gates.update(
                g as int,
                GateV {
                    inputs: old(self)@.gates[g as int].inputs.update(1, Slot::Free),
                    ..old(self)@.gates[g as int]
                },
            ),
            final(self)@.lines == cells_reset(old(self)@.lines, old(self)@.gates[g as int].outputs),
    {
        self.disconnect_i_single(g, 1);
    }

    /// Lands one gate evaluation's results: writes the new output values
    /// onto gate `g`'s cells, in port order, and replaces its storage.
    pub(crate) fn write_gate_results(&mut self, g: usize, new_outs: &Vec<Line>, new_st: Vec<Line>)
        requires
            old(self).wf(),
            g < old(self)@.gates.len(),
            new_outs@.len() == old(self)@.gates[g as int].outputs.len(),
            new_st@.len() == storage_len(old(self)@.gates[g as int].kind),
        ensures
            final(self).wf(),
            final(self)@.gates == old(self)@.gates.update(
                g as int,
                GateV { storage: new_st@, ..old(self)@.gates[g as int] },
            ),
            final(self)@.lines == write_cells(
                old(self)@.lines,
                old(self)@.gates[g as int].outputs,
                new_outs@,
                new_outs@.len() as int,
            ),
    {
        proof {
            assert(old(self)@.gate_ok(g as int));
        }
        let ghost outs_s = old(self)@.gates[g as int].outputs;
        let n = self.gates[g].num_outputs();
        let total = self.lines.len();
        let mut k: usize = 0;
        while k < n
            invariant
                k <= n,
                g < self@.gates.len(),
                self@.gates == old(self)@.gates,
                n == self@.gates[g as int].outputs.len(),
                n == new_outs@.len(),
                total == self@.lines.len(),
                self@.lines == write_cells(old(self)@.lines, outs_s, new_outs@, k as int),
                outs_s == old(self)@.gates[g as int].outputs,
            decreases n - k,
        {
            proof {
                lemma_write_cells_len(old(self)@.lines, outs_s, new_outs@, k as int);
            }
            let o = self.gates[g].get_output(k);
            if o < total {
                self.lines.set(o, new_outs[k]);
            }
            proof {
                assert(self@.gates =~= old(self)@.gates);
            }
            k = k + 1;
        }
        let gr = &mut self.gates[g];
        gr.storage = new_st;
        proof {
            assert(final(self)@.gates =~= old(self)@.gates.update(
                g as int,
                GateV { storage: new_st@, ..old(self)@.gates[g as int] },
            ));
            lemma_write_cells_len(old(self)@.lines, outs_s, new_outs@, new_outs@.len() as int);
            let new = final(self)@;
            assert forall|i: int| 0 <= i < new.gates.len() implies #[trigger] new.gate_ok(i) by {
                assert(old(self)@.gate_ok(i));
            }
            assert forall|i1: int, o1: int, i2: int, o2: int|
                0 <= i1 < new.gates.len() && 0 <= o1 < new.gates[i1].outputs.len() && 0 <= i2
                    < new.gates.len() && 0 <= o2 < new.gates[i2].outputs.len() && (i1 != i2 || o1
                    != o2) implies #[trigger] new.gates[i1].outputs[o1]
                != #[trigger] new.gates[i2].outputs[o2] by {
                assert(new.gates[i1].outputs == old(self)@.gates[i1].outputs);
                assert(new.gates[i2].outputs == old(self)@.gates[i2].outputs);
            }
        }
    }

    /// Evaluates gate `g` once against the current arena.
    pub fn eval_single_gate(&mut self, g: usize)
        requires
            old(self).wf(),
            g < old(self)@.gates.len(),
        ensures
            final(self).wf(),
            final(self)@.gates == old(self)@.gates.update(
                g as int,
                gate_step(old(self)@.lines, old(self)@.gates[g as int]).1,
            ),
            final(self)@.lines == gate_step(old(self)@.lines, old(self)@.gates[g as int]).0,
            final(self)@.lines.len() == old(self)@.lines.len(),
            final(self)@.gates.len() == old(self)@.gates.len(),
    {
        proof {
            assert(old(self)@.gate_ok(g as int));
        }
        let gr = &mut self.gates[g];
        gr.eval(&mut self.lines);
        proof {
            let c0 = old(self)@;
            let gv = c0.gates[g as int];
            let r = gate_step(c0.lines, gv);
            assert(final(self)@.gates =~= c0.gates.update(g as int, r.1));
            lemma_kind_eval_lens(
                gv.kind,
                spec_read_inputs(c0.lines, gv.inputs),
                spec_cell_vals(c0.lines, gv.outputs),
                gv.storage,
            );
            lemma_write_cells_len(
                c0.lines,
                gv.outputs,
                kind_eval(
                    gv.kind,
                    spec_read_inputs(c0.lines, gv.inputs),
                    spec_cell_vals(c0.lines, gv.outputs),
                    gv.storage,
                ).0,
                kind_eval(
                    gv.kind,
                    spec_read_inputs(c0.lines, gv.inputs),
                    spec_cell_vals(c0.lines, gv.outputs),
                    gv.storage,
                ).0.len() as int,
            );
            let new = final(self)@;
            assert forall|i: int| 0 <= i < new.gates.len() implies #[trigger] new.gate_ok(i) by {
                assert(c0.gate_ok(i));
            }
            assert(new.distinct_cells()) by {
                assert forall|i1: int, o1: int, i2: int, o2: int|
                    0 <= i1 < new.gates.len() && 0 <= o1 < new.gates[i1].outputs.len() && 0 <= i2
                        < new.gates.len() && 0 <= o2 < new.gates[i2].outputs.len() && (i1 != i2
                        || o1 != o2) implies #[trigger] new.gates[i1].outputs[o1]
                    != #[trigger] new.gates[i2].outputs[o2] by {
                    assert(new.gates[i1].outputs == c0.gates[i1].outputs);
                    assert(new.gates[i2].outputs == c0.gates[i2].outputs);
                }
            }
        }
    }

    /// One synchronous sweep: every gate, in index order, recomputes its
    /// outputs from whatever values currently sit in the cells it
    /// references. Feedback loops settle over repeated sweeps.
    pub fn eval(&mut self)
        requires
            old(self).wf(),
        ensures
            final(self).wf(),
            final(self)@ == sweep(old(self)@, old(self)@.gates.len() as int),
            final(self)@.gates.len() == old(self)@.gates.len(),
            final(self)@.lines.len() == old(self)@.lines.len(),
    {
        let n = self.gates.len();
        let mut i: usize = 0;
        while i < n
            invariant
                i <= n,
                n == old(self)@.gates.len(),
                self.wf(),
                self@ == sweep(old(self)@, i as int),
                self@.gates.len() == n,
                self@.lines.len() == old(self)@.lines.len(),
            decreases n - i,
        {
            let ghost before = self@;
            self.eval_single_gate(i);
            proof {
                assert(self@ =~= sweep(old(self)@, i + 1));
            }
            i = i + 1;
        }
    }

    /// `passes` whole sweeps, back to back: the caller supplies a pass
    /// count sufficient for the longest feedback path in the topology.
    pub fn eval_n_passes(&mut self, passes: usize)
        requires
            old(self).wf(),
        ensures
            final(self).wf(),
            final(self)@ == sweep_n(old(self)@, passes as int),
    {
        let mut k: usize = 0;
        while k < passes
            invariant
                k <= passes,
                self.wf(),
                self@ == sweep_n(old(self)@, k as int),
            decreases passes - k,
        {
            self.eval();
            k = k + 1;
        }
    }

    /// One sweep in which each gate in turn is evaluated `evals` times in
    /// a row before the sweep moves on to the next gate.
    pub fn eval_n_evals_per_gate(&mut self, evals: usize)
        requires
            old(self).wf(),
        ensures
            final(self).wf(),
            final(self)@ == sweep_multi(old(self)@, old(self)@.gates.len() as int, evals as int),
    {
        let n = self.gates.len();
        let mut i: usize = 0;
        while i < n
            invariant
                i <= n,
                n == old(self)@.gates.len(),
                self.wf(),
                self@ == sweep_multi(old(self)@, i as int, evals as int),
                self@.gates.len() == n,
            decreases n - i,
        {
            let ghost entry = self@;
            let mut k: usize = 0;
            while k < evals
                invariant
                    k <= evals,
                    i < n,
                    n == entry.gates.len(),
                    self.wf(),
                    self@.gates.len() == n,
                    self@.gates == entry.gates.update(
                        i as int,
                        gate_step_n(entry.lines, entry.gates[i as int], k as int).1,
                    ),
                    self@.lines == gate_step_n(entry.lines, entry.gates[i as int], k as int).0,
                decreases evals - k,
            {
                proof {
                    assert(self@.gates[i as int] == gate_step_n(
                        entry.lines,
                        entry.gates[i as int],
                        k as int,
                    ).1);
                }
                self.eval_single_gate(i);
                proof {
                    assert(self@.gates =~= entry.gates.update(
                        i as int,
                        gate_step_n(entry.lines, entry.gates[i as int], k + 1).1,
                    ));
                }
                k = k + 1;
            }
            proof {
                if evals == 0 {
                    assert(self@.gates =~= entry.gates.update(i as int, entry.gates[i as int]));
                }
                assert(self@ =~= sweep_multi(old(self)@, i + 1, evals as int));
            }
            i = i + 1;
        }
    }

    /// Destroys gate `g`. Its output cells are marked `Disconnected` and
    /// stay in the arena (no held line index shifts); every remaining
    /// gate's input slot that referenced one of them, by cell identity, is
    /// cleared, so no dangling reference survives. Gate handles above `g`
    /// shift down by one.
    pub fn remove_gate(&mut self, g: usize)
        requires
            old(self).wf(),
            g < old(self)@.gates.len(),
        ensures
            final(self).wf(),
            final(self)@ == remove_gate_spec(old(self)@, g as int),
    {
        proof {
            assert(old(self)@.gate_ok(g as int));
        }
        let ghost c0 = old(self)@;
        let ghost dead_s = c0.gates[g as int].outputs;
        let dead = clone_usizes(&self.gates[g].outputs);
        let total = self.lines.len();
        let mut k: usize = 0;
        while k < dead.len()
            invariant
                k <= dead@.len(),
                dead@ == dead_s,
                g < self@.gates.len(),
                self@.gates == c0.gates,
                c0.gate_ok(g as int),
                dead_s == c0.gates[g as int].outputs,
                total == self@.lines.len(),
                self@.lines.len() == c0.lines.len(),
                forall|j: int|
                    0 <= j < self@.lines.len() ==> self@.lines[j] == (if (exists|t: int|
                        0 <= t < k && dead_s[t] == j as usize) {
                        Line::Disconnected
                    } else {
                        c0.lines[j]
                    }),
            decreases dead@.len() - k,
        {
            let cell = dead[k];
            self.lines.set(cell, Line::Disconnected);
            proof {
                assert(self@.gates =~= c0.gates);
                assert forall|j: int| 0 <= j < self@.lines.len() implies self@.lines[j] == (if (
                exists|t: int| 0 <= t < k + 1 && dead_s[t] == j as usize) {
                    Line::Disconnected
                } else {
                    c0.lines[j]
                }) by {
                    if j == cell as int {
                        assert(dead_s[k as int] == j as usize);
                    } else if exists|t: int| 0 <= t < k + 1 && dead_s[t] == j as usize {
                        let t = choose|t: int| 0 <= t < k + 1 && dead_s[t] == j as usize;
                        assert(0 <= t < k && dead_s[t] == j as usize);
                    }
                }
            }
            k = k + 1;
        }
        proof {
            assert(self@.lines =~= remove_gate_spec(c0, g as int).lines);
        }
        let ghost marked_lines = self@.lines;
        let _removed = self.gates.remove(g);
        proof {
            assert(self@.gates =~= c0.gates.remove(g as int));
            assert(self@.lines == marked_lines);
        }
        let ghost mid_gates = self@.gates;
        let n = self.gates.len();
        let mut h: usize = 0;
        while h < n
            invariant
                h <= n,
                n == self@.gates.len(),
                self@.lines == marked_lines,
                dead@ == dead_s,
                self@.gates.len() == mid_gates.len(),
                forall|q: int| 0 <= q < h ==> self@.gates[q] == gate_cleared(mid_gates[q], dead_s),
                forall|q: int| h <= q < n ==> self@.gates[q] == mid_gates[q],
            decreases n - h,
        {
            let ghost prev = self@.gates;
            let gr = &mut self.gates[h];
            clear_dead_slots(gr, &dead);
            proof {
                assert(self@.gates =~= prev.update(
                    h as int,
                    gate_cleared(mid_gates[h as int], dead_s),
                ));
            }
            h = h + 1;
        }
        proof {
            let r = remove_gate_spec(c0, g as int);
            assert(self@.gates =~= c0.gates.remove(g as int).map_values(
                |gv: GateV| gate_cleared(gv, dead_s),
            ));
            assert(self@ =~= r);
            lemma_remove_gate_wf(c0, g as int);
        }
    }
}

/// Removal preserves the circuit invariant: the surviving gates keep
/// their arities, every cleared slot is free, every untouched slot still
/// points into the unchanged arena, and cell ownership stays distinct.
pub proof fn lemma_remove_gate_wf(c: CircuitV, k: int)
    requires
        c.wf(),
        0 <= k < c.gates.len(),
    ensures
        remove_gate_spec(c, k).wf(),
        remove_gate_spec(c, k).gates.len() == c.gates.len() - 1,
        remove_gate_spec(c, k).lines.len() == c.lines.len(),
{
    let dead = c.gates[k].outputs;
    let r = remove_gate_spec(c, k);
    assert forall|i: int| 0 <= i < r.gates.len() implies #[trigger] r.gate_ok(i) by {
        let oi = if i < k {
            i
        } else {
            i + 1
        };
        assert(c.gates.remove(k)[i] == c.gates[oi]);
        assert(r.gates[i] == gate_cleared(c.gates[oi], dead));
        assert(c.gate_ok(oi));
        assert forall|p: int| 0 <= p < r.gates[i].inputs.len() implies ((
        #[trigger] r.gates[i].inputs[p]) matches Slot::Local { line } ==> (line as int)
            < r.lines.len()) by {
            assert(r.gates[i].inputs[p] == slot_cleared(c.gates[oi].inputs[p], dead));
        }
    }
    assert forall|i1: int, o1: int, i2: int, o2: int|
        0 <= i1 < r.gates.len() && 0 <= o1 < r.gates[i1].outputs.len() && 0 <= i2 < r.gates.len()
            && 0 <= o2 < r.gates[i2].outputs.len() && (i1 != i2 || o1 != o2) implies #[trigger] r.gates[i1].outputs[o1]
        != #[trigger] r.gates[i2].outputs[o2] by {
        let a1 = if i1 < k {
            i1
        } else {
            i1 + 1
        };
        let a2 = if i2 < k {
            i2
        } else {
            i2 + 1
        };
        assert(c.gates.remove(k)[i1] == c.gates[a1]);
        assert(c.gates.remove(k)[i2] == c.gates[a2]);
        assert(r.gates[i1].outputs == c.gates[a1].outputs);
        assert(r.gates[i2].outputs == c.gates[a2].outputs);
    }
}

/// Gate removal leaves no dangling reference behind: after
/// `remove_gate(k)`, any input port of any surviving gate that had been
/// wired to one of the removed gate's output cells is cleared, so it
/// reads `Disconnected` on every later pass; every other slot is exactly
/// as it was, the arena keeps its length, and the circuit stays well
/// formed, so evaluation never touches the removed gate's freed state.
pub proof fn lemma_remove_gate_clears(c: CircuitV, k: int, h: int, p: int)
    requires
        c.wf(),
        0 <= k < c.gates.len(),
        0 <= h < c.gates.len() - 1,
        0 <= p < remove_gate_spec(c, k).gates[h].inputs.len(),
    ensures
        remove_gate_spec(c, k).wf(),
        ({
            let oh = if h < k {
                h
            } else {
                h + 1
            };
            let r = remove_gate_spec(c, k);
            &&& r.gates[h].inputs.len() == c.gates[oh].inputs.len()
            &&& (c.gates[oh].inputs[p] matches Slot::Local { line } && c.gates[k].outputs.contains(
                line,
            ) ==> {
                &&& r.gates[h].inputs[p] == Slot::Free
                &&& spec_read_slot(r.lines, r.gates[h].inputs[p]) == Line::Disconnected
            })
            &&& (!(c.gates[oh].inputs[p] matches Slot::Local { line } && c.gates[k].outputs.contains(
                line,
            )) ==> r.gates[h].inputs[p] == c.gates[oh].inputs[p])
        }),
{
    lemma_remove_gate_wf(c, k);
    let oh = if h < k {
        h
    } else {
        h + 1
    };
    let dead = c.gates[k].outputs;
    let r = remove_gate_spec(c, k);
    assert(c.gates.remove(k)[h] == c.gates[oh]);
    assert(r.gates[h] == gate_cleared(c.gates[oh], dead));
    assert(r.gates[h].inputs[p] == slot_cleared(c.gates[oh].inputs[p], dead));
}

impl Circuit {
    /// Drives a source gate `Low`.
    pub fn set_low(&mut self, g: usize)
        requires
            old(self).wf(),
            g < old(self)@.gates.len(),
            old(self)@.gates[g as int].kind is Source,
        ensures
            final(self).wf(),
            final(self)@.gates == old(self)@.gates.update(
                g as int,
                GateV { storage: seq![Line::Low], ..old(self)@.gates[g as int] },
            ),
            final(self)@.lines == old(self)@.lines.update(
                old(self)@.gates[g as int].outputs[0] as int,
                Line::Low,
            ),
    {
        self.set_source(g, Line::Low);
    }
}

} // verus!
