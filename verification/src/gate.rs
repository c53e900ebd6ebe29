//! A single device: fixed input/output arity, optional persistent
//! storage, pure evaluation rule.
//!
//! One data-driven representation covers every device kind: a vector of
//! input slots, a vector of owned output cells (indices into the owning
//! circuit's line arena), an optional storage buffer and an evaluation
//! rule selected by [`GateKind`]. Evaluation is a pure function of the
//! current input values, the current output cell values and the storage;
//! it writes only that device's own output cells and storage.

use vstd::prelude::*;
use crate::line::{Line, spec_and, spec_nand, spec_nor, spec_not, spec_or, spec_xnor, spec_xor};

verus! {

/// Two to the given power.
pub open spec fn pow2(e: nat) -> nat
    decreases e,
{
    if e == 0 {
        1
    } else {
        2 * pow2((e - 1) as nat)
    }
}

pub proof fn lemma_pow2_pos(e: nat)
    ensures
        pow2(e) >= 1,
    decreases e,
{
    if e > 0 {
        lemma_pow2_pos((e - 1) as nat);
    }
}

pub proof fn lemma_pow2_le(e1: nat, e2: nat)
    requires
        e1 <= e2,
    ensures
        pow2(e1) <= pow2(e2),
    decreases e2,
{
    if e1 < e2 {
        lemma_pow2_le(e1, (e2 - 1) as nat);
        lemma_pow2_pos(e1);
    }
}

/// The little-endian value of a run of address lines: bit `i` is worth
/// `2^i` and reads as 1 exactly when the line is `High`.
pub open spec fn bits_to_nat(bits: Seq<Line>) -> nat
    decreases bits.len(),
{
    if bits.len() == 0 {
        0
    } else {
        (if bits[0] == Line::High {
            1nat
        } else {
            0nat
        }) + 2 * bits_to_nat(bits.drop_first())
    }
}

pub proof fn lemma_bits_to_nat_bound(bits: Seq<Line>)
    ensures
        bits_to_nat(bits) < pow2(bits.len()),
    decreases bits.len(),
{
    if bits.len() > 0 {
        lemma_bits_to_nat_bound(bits.drop_first());
    }
}

/// The most significant line is worth `2^(len-1)` on top of the rest.
pub proof fn lemma_bits_split_last(bits: Seq<Line>)
    requires
        bits.len() >= 1,
    ensures
        bits_to_nat(bits) == bits_to_nat(bits.drop_last()) + (if bits.last() == Line::High {
            pow2((bits.len() - 1) as nat)
        } else {
            0nat
        }),
    decreases bits.len(),
{
    if bits.len() == 1 {
        assert(bits.drop_last() =~= Seq::<Line>::empty());
        assert(bits.drop_first() =~= Seq::<Line>::empty());
        assert(bits_to_nat(bits.drop_last()) == 0);
        assert(bits_to_nat(bits) == (if bits[0] == Line::High {
            1nat
        } else {
            0nat
        }));
        assert(bits.last() == bits[0]);
        assert(pow2(0) == 1);
    } else {
        let tail = bits.drop_first();
        lemma_bits_split_last(tail);
        let head: nat = if bits[0] == Line::High {
            1
        } else {
            0
        };
        assert(bits_to_nat(bits) == head + 2 * bits_to_nat(tail));
        assert(bits.drop_last().len() == bits.len() - 1);
        assert(bits.drop_last()[0] == bits[0]);
        assert(bits.drop_last().drop_first() =~= tail.drop_last());
        assert(bits_to_nat(bits.drop_last()) == head + 2 * bits_to_nat(tail.drop_last()));
        assert(tail.last() == bits.last());
        assert(pow2((bits.len() - 1) as nat) == 2 * pow2((bits.len() - 2) as nat));
        assert(bits_to_nat(tail) == bits_to_nat(tail.drop_last()) + (if tail.last() == Line::High {
            pow2((tail.len() - 1) as nat)
        } else {
            0nat
        }));
        if bits.last() == Line::High {
            assert(bits_to_nat(bits) == bits_to_nat(bits.drop_last()) + pow2(
                (bits.len() - 1) as nat,
            ));
        } else {
            assert(bits_to_nat(bits) == bits_to_nat(bits.drop_last()));
        }
    }
}

/// The little-endian line encoding of a value on `n` lines.
pub open spec fn nat_to_bits(v: nat, n: nat) -> Seq<Line>
    decreases n,
{
    if n == 0 {
        Seq::empty()
    } else {
        seq![
            if v % 2 == 1 {
                Line::High
            } else {
                Line::Low
            },
        ].add(nat_to_bits(v / 2, (n - 1) as nat))
    }
}

pub proof fn lemma_bits_round_trip(v: nat, n: nat)
    requires
        v < pow2(n),
    ensures
        nat_to_bits(v, n).len() == n,
        bits_to_nat(nat_to_bits(v, n)) == v,
        forall|i: int| 0 <= i < n ==> nat_to_bits(v, n)[i] != Line::Disconnected,
    decreases n,
{
    if n > 0 {
        lemma_bits_round_trip(v / 2, (n - 1) as nat);
        let bits = nat_to_bits(v, n);
        assert(bits.drop_first() =~= nat_to_bits(v / 2, (n - 1) as nat));
        assert(v % 2 + 2 * (v / 2) == v) by (nonlinear_arith);
    }
}

/// The latch state after evaluating once for each `(reset, set)` control
/// pair in turn.
pub open spec fn latch_run(state: Line, ctrl: Seq<(Line, Line)>) -> Line
    decreases ctrl.len(),
{
    if ctrl.len() == 0 {
        state
    } else {
        latch_run(spec_latch_next(state, ctrl[0].0, ctrl[0].1), ctrl.drop_first())
    }
}

/// The latch holds its state through any number of passes in which
/// neither control input reads `High`. In particular, one pass with `set`
/// `High` drives the state `High` and it then stays `High` through every
/// further pass with both controls low, and symmetrically one pass with
/// `reset` `High` drives and holds `Low`.
pub proof fn lemma_nor_latch_holds(state: Line, ctrl: Seq<(Line, Line)>)
    requires
        forall|i: int|
            0 <= i < ctrl.len() ==> ctrl[i].0 != Line::High && ctrl[i].1 != Line::High,
    ensures
        latch_run(state, ctrl) == state,
    decreases ctrl.len(),
{
    if ctrl.len() > 0 {
        lemma_nor_latch_holds(state, ctrl.drop_first());
    }
}

/// The flip-flop storage after evaluating once for each `(d0, d1, clock)`
/// input triple in turn.
pub open spec fn msff_run(st: Seq<Line>, steps: Seq<(Line, Line, Line)>) -> Seq<Line>
    decreases steps.len(),
{
    if steps.len() == 0 {
        st
    } else {
        msff_run(spec_msff_next(st, steps[0].0, steps[0].1, steps[0].2), steps.drop_first())
    }
}

/// Once the transfer-done flag is set, passes in which the clock does not
/// read `High` leave the flip-flop storage (and so the visible slave
/// output) unchanged, whatever the data inputs do.
pub proof fn lemma_msff_low_hold(st: Seq<Line>, steps: Seq<(Line, Line, Line)>)
    requires
        st.len() == 3,
        st[2] == Line::High,
        forall|i: int| 0 <= i < steps.len() ==> steps[i].2 != Line::High,
    ensures
        msff_run(st, steps) == st,
    decreases steps.len(),
{
    if steps.len() > 0 {
        lemma_msff_low_hold(st, steps.drop_first());
    }
}

/// Exactly one output update per falling edge: a clock-High pass leaves
/// the storage `[master, slave, Low]`; across any non-empty run of passes
/// in which the clock never reads `High`, the first pass copies the master
/// to the slave and sets the transfer-done flag, and every later pass
/// changes nothing, so the slave output changes exactly once.
pub proof fn lemma_msff_falling_edge(m: Line, sl: Line, steps: Seq<(Line, Line, Line)>)
    requires
        steps.len() >= 1,
        forall|i: int| 0 <= i < steps.len() ==> steps[i].2 != Line::High,
    ensures
        msff_run(seq![m, sl, Line::Low], steps) == seq![m, m, Line::High],
{
    let st0 = seq![m, sl, Line::Low];
    let st1 = spec_msff_next(st0, steps[0].0, steps[0].1, steps[0].2);
    assert(st1 =~= seq![m, m, Line::High]);
    lemma_msff_low_hold(st1, steps.drop_first());
}

/// For every selector value `v` and every input assignment whose select
/// lines encode `v`, the wide multiplexer's outputs are exactly data word
/// `v`: output `j` equals data input `v*w + j`.
pub proof fn lemma_wide_mux_selects(s: nat, w: nat, vals: Seq<Line>, v: nat)
    requires
        w >= 1,
        vals.len() == w * pow2(s) + s,
        v < pow2(s),
        vals.subrange((w * pow2(s)) as int, (w * pow2(s) + s) as int) == nat_to_bits(v, s),
    ensures
        spec_wide_mux(s, w, vals).len() == w,
        forall|j: int| 0 <= j < w ==> spec_wide_mux(s, w, vals)[j] == vals[v * w + j],
{
    lemma_bits_round_trip(v, s);
    let sel = vals.subrange((w * pow2(s)) as int, (w * pow2(s) + s) as int);
    assert(!spec_any_disconnected(sel));
    assert(v * w + w <= w * pow2(s)) by (nonlinear_arith)
        requires
            v < pow2(s),
            w >= 1,
    ;
}

/// A transparent RAM round trip, for every address and every driven data
/// word: a pass with clock and write `High` lands the data word at the
/// addressed word, and any later pass with clock and read `High` that
/// addresses the same word (with write no longer `High`) returns exactly
/// that word, bit for bit.
pub proof fn lemma_transparent_ram_round_trip(
    a: nat,
    w: nat,
    wvals: Seq<Line>,
    rvals: Seq<Line>,
    outs0: Seq<Line>,
    outs1: Seq<Line>,
    st: Seq<Line>,
)
    requires
        w >= 1,
        wvals.len() == a + w + 3,
        rvals.len() == a + w + 3,
        outs0.len() == w,
        outs1.len() == w,
        st.len() == w * pow2(a),
        !spec_any_disconnected(wvals),
        !spec_any_disconnected(rvals),
        rvals.subrange(0, a as int) == wvals.subrange(0, a as int),
        wvals[a as int + w] == Line::High,  // write
        wvals[a as int + w + 2] == Line::High,  // clock
        rvals[a as int + w] != Line::High,
        rvals[a as int + w + 1] == Line::High,  // read
        rvals[a as int + w + 2] == Line::High,
    ensures
        spec_ram_t(a, w, rvals, outs1, spec_ram_t(a, w, wvals, outs0, st).1).0 == wvals.subrange(
            a as int,
            a as int + w,
        ),
{
    let addr = bits_to_nat(wvals.subrange(0, a as int)) as int;
    lemma_bits_to_nat_bound(wvals.subrange(0, a as int));
    assert(w * addr + w <= w * pow2(a)) by (nonlinear_arith)
        requires
            addr < pow2(a),
            w >= 1,
    ;
    let data = wvals.subrange(a as int, a as int + w);
    let st1 = spec_ram_t(a, w, wvals, outs0, st).1;
    assert(st1 == write_word(st, w * addr, data));
    assert(spec_ram_t(a, w, rvals, outs1, st1).0 =~= data);
}

/// The double-buffered RAM commits exactly at the falling edge, for every
/// address and every driven data word: while the clock stays `High` a
/// write lands only in the master bank and the whole slave bank — so
/// every read — is unchanged; the first pass with the clock not `High`
/// copies the master bank over, and a read then returns the written word,
/// bit for bit.
pub proof fn lemma_buffered_ram_commits_on_falling_edge(
    a: nat,
    w: nat,
    wvals: Seq<Line>,
    cvals: Seq<Line>,
    rvals: Seq<Line>,
    outs0: Seq<Line>,
    outs1: Seq<Line>,
    outs2: Seq<Line>,
    st: Seq<Line>,
)
    requires
        w >= 1,
        wvals.len() == a + w + 3,
        cvals.len() == a + w + 3,
        rvals.len() == a + w + 3,
        outs0.len() == w,
        outs1.len() == w,
        outs2.len() == w,
        st.len() == 2 * (w * pow2(a)) + 1,
        !spec_any_disconnected(wvals),
        !spec_any_disconnected(cvals),
        !spec_any_disconnected(rvals),
        cvals.subrange(0, a as int) == wvals.subrange(0, a as int),
        rvals.subrange(0, a as int) == wvals.subrange(0, a as int),
        wvals[a as int + w] == Line::High,  // write
        wvals[a as int + w + 2] == Line::High,  // clock
        cvals[a as int + w + 2] != Line::High,  // the falling edge
        rvals[a as int + w + 2] != Line::High,
        rvals[a as int + w] != Line::High,
        rvals[a as int + w + 1] == Line::High,  // read
    ensures
        ({
            let bank = (w * pow2(a)) as int;
            let addr = bits_to_nat(wvals.subrange(0, a as int)) as int;
            let st1 = spec_ram_b(a, w, wvals, outs0, st).1;
            let st2 = spec_ram_b(a, w, cvals, outs1, st1).1;
            // the write pass leaves the whole slave bank untouched
            &&& (forall|j: int| bank <= j < 2 * bank ==> st1[j] == st[j])
            // the read after the falling edge returns the written word
            &&& spec_ram_b(a, w, rvals, outs2, st2).0 == wvals.subrange(a as int, a as int + w)
        }),
{
    let bank = (w * pow2(a)) as int;
    let addr = bits_to_nat(wvals.subrange(0, a as int)) as int;
    lemma_bits_to_nat_bound(wvals.subrange(0, a as int));
    assert(w * addr + w <= w * pow2(a)) by (nonlinear_arith)
        requires
            addr < pow2(a),
            w >= 1,
    ;
    let data = wvals.subrange(a as int, a as int + w);
    let st1 = spec_ram_b(a, w, wvals, outs0, st).1;
    assert(st1 == write_word(st.update(2 * bank, Line::Low), w * addr, data));
    assert(forall|j: int| bank <= j < 2 * bank ==> st1[j] == st[j]);
    assert(st1[2 * bank] == Line::Low);
    let st2 = spec_ram_b(a, w, cvals, outs1, st1).1;
    assert(st2 == ram_commit(st1, bank));
    assert(st2[2 * bank] == Line::High);
    let outs = spec_ram_b(a, w, rvals, outs2, st2).0;
    assert(outs =~= data);
}

/// Where one gate input port takes its value from.
#[derive(Clone, Copy, Debug, PartialEq, Eq, Structural)]
pub enum Slot {
    /// Unconnected: the port reads `Disconnected`.
    Free,
    /// An output cell (arena line) of the owning circuit.
    Local { line: usize },
    /// An output cell of another circuit on the same board; resolved only
    /// when a board drives the evaluation, and read as `Disconnected` by a
    /// circuit evaluated on its own.
    Cross { circuit: usize, line: usize },
}

/// The evaluation rule of a device, together with the bus widths of the
/// data-driven wide devices.
#[derive(Clone, Copy, Debug)]
pub enum GateKind {
    And,
    Or,
    Xor,
    Nand,
    Nor,
    Xnor,
    Not,
    /// No inputs, one output; drives its stored value onto its cell.
    Source,
    /// One input, no outputs; captures the value it reads into storage.
    Sink,
    /// Inputs `[i0, i1, select]`: `Low` selects `i0`, `High` selects `i1`,
    /// `Disconnected` forces the output `Low`.
    Mux,
    /// Inputs `[input, select]`, two outputs: the selected side carries the
    /// input, the other side is forced `Low`; a `Disconnected` select
    /// forces both sides `Low`.
    Demux,
    /// Inputs `[reset, set]`; holds one stored line. `set` `High` drives
    /// the state `High`, else `reset` `High` drives it `Low`, else the
    /// state is held; when both read `High`, `set` wins.
    NorLatch,
    /// Inputs `[d0, d1, clock]`; stores `[master, slave, transfer-done]`.
    /// While the clock reads `High` the master tracks `xor(d0, d1)`; the
    /// master is copied to the slave exactly once per falling edge.
    MsFlipFlop,
    /// Address-decoded storage written and read in the same pass: inputs
    /// are `addr_bits` address lines, `data_bits` write-data lines, then
    /// `write`, `read` and `clock`; `data_bits` outputs.
    RamTransparent { addr_bits: usize, data_bits: usize },
    /// The same bus, but writes land in a master bank and are copied to
    /// the slave bank exactly once per falling edge; reads serve from the
    /// slave bank.
    RamBuffered { addr_bits: usize, data_bits: usize },
    /// A `2^sel_bits`-way, `data_bits`-wide multiplexer in one device:
    /// inputs are the `2^sel_bits * data_bits` data lines followed by the
    /// `sel_bits` select lines.
    WideMux { sel_bits: usize, data_bits: usize },
}

/// How many input ports a device of this kind has.
pub open spec fn in_arity(k: GateKind) -> nat {
    match k {
        GateKind::And => 2,
        GateKind::Or => 2,
        GateKind::Xor => 2,
        GateKind::Nand => 2,
        GateKind::Nor => 2,
        GateKind::Xnor => 2,
        GateKind::Not => 1,
        GateKind::Source => 0,
        GateKind::Sink => 1,
        GateKind::Mux => 3,
        GateKind::Demux => 2,
        GateKind::NorLatch => 2,
        GateKind::MsFlipFlop => 3,
        GateKind::RamTransparent { addr_bits, data_bits } => (addr_bits + data_bits + 3) as nat,
        GateKind::RamBuffered { addr_bits, data_bits } => (addr_bits + data_bits + 3) as nat,
        GateKind::WideMux { sel_bits, data_bits } => ((data_bits as nat) * pow2(sel_bits as nat)
            + sel_bits) as nat,
    }
}

/// How many output cells a device of this kind owns.
pub open spec fn out_arity(k: GateKind) -> nat {
    match k {
        GateKind::Sink => 0,
        GateKind::Demux => 2,
        GateKind::RamTransparent { addr_bits: _, data_bits } => data_bits as nat,
        GateKind::RamBuffered { addr_bits: _, data_bits } => data_bits as nat,
        GateKind::WideMux { sel_bits: _, data_bits } => data_bits as nat,
        _ => 1,
    }
}

/// How many lines of persistent storage a device of this kind carries.
pub open spec fn storage_len(k: GateKind) -> nat {
    match k {
        GateKind::Source => 1,
        GateKind::Sink => 1,
        GateKind::NorLatch => 1,
        GateKind::MsFlipFlop => 3,
        GateKind::RamTransparent { addr_bits, data_bits } => (data_bits as nat) * pow2(
            addr_bits as nat,
        ),
        GateKind::RamBuffered { addr_bits, data_bits } => 2 * ((data_bits as nat) * pow2(
            addr_bits as nat,
        )) + 1,
        _ => 0,
    }
}

/// The kind's widths stay within what a vector can hold; trivially true
/// for every fixed-arity kind.
pub open spec fn kind_ok(k: GateKind) -> bool {
    match k {
        GateKind::RamTransparent { addr_bits, data_bits } => pow2(addr_bits as nat) <= usize::MAX
            && data_bits >= 1 && in_arity(k) <= usize::MAX && storage_len(k) <= usize::MAX,
        GateKind::RamBuffered { addr_bits, data_bits } => pow2(addr_bits as nat) <= usize::MAX
            && data_bits >= 1 && in_arity(k) <= usize::MAX && storage_len(k) <= usize::MAX,
        GateKind::WideMux { sel_bits, data_bits } => pow2(sel_bits as nat) <= usize::MAX
            && data_bits >= 1 && in_arity(k) <= usize::MAX,
        _ => true,
    }
}

/// The storage a freshly constructed device starts from: a sink has seen
/// no value yet, everything else holds `Low`.
pub open spec fn storage_init(k: GateKind) -> Seq<Line> {
    Seq::new(
        storage_len(k),
        |i: int|
            if k is Sink {
                Line::Disconnected
            } else {
                Line::Low
            },
    )
}

/// True when some line of the run reads `Disconnected`.
pub open spec fn spec_any_disconnected(vals: Seq<Line>) -> bool {
    exists|i: int| 0 <= i < vals.len() && vals[i] == Line::Disconnected
}

/// The 1-of-2 selector rule: `Low` selects `i0`, `High` selects `i1`, a
/// `Disconnected` select forces the output `Low`.
pub open spec fn spec_mux(i0: Line, i1: Line, sel: Line) -> Line {
    match sel {
        Line::High => i1,
        Line::Low => i0,
        Line::Disconnected => Line::Low,
    }
}

/// The 1-to-2 router rule: the selected side carries the input, the other
/// side is forced `Low`; a `Disconnected` select forces both sides `Low`.
pub open spec fn spec_demux(input: Line, sel: Line) -> Seq<Line> {
    match sel {
        Line::High => seq![Line::Low, input],
        Line::Low => seq![input, Line::Low],
        Line::Disconnected => seq![Line::Low, Line::Low],
    }
}

/// The latch update rule: `set` `High` drives the state `High` (and wins
/// when both controls read `High`), else `reset` `High` drives it `Low`,
/// else the state is held unchanged.
pub open spec fn spec_latch_next(state: Line, reset: Line, set: Line) -> Line {
    if set == Line::High {
        Line::High
    } else if reset == Line::High {
        Line::Low
    } else {
        state
    }
}

/// The flip-flop storage update: while the clock reads `High` the master
/// tracks `xor(d0, d1)` and the transfer-done flag is cleared; on a pass
/// where the clock does not read `High` and the flag is clear, the master
/// is copied to the slave and the flag set, so the copy happens exactly
/// once per falling edge.
pub open spec fn spec_msff_next(st: Seq<Line>, d0: Line, d1: Line, clock: Line) -> Seq<Line> {
    if clock == Line::High {
        seq![spec_xor(d0, d1), st[1], Line::Low]
    } else if st[2] != Line::High {
        seq![st[0], st[0], Line::High]
    } else {
        st
    }
}

/// The word `word` laid over `st` starting at `base`.
pub open spec fn write_word(st: Seq<Line>, base: int, word: Seq<Line>) -> Seq<Line> {
    Seq::new(
        st.len(),
        |j: int|
            if base <= j < base + word.len() {
                word[j - base]
            } else {
                st[j]
            },
    )
}

/// The whole master bank `[0, bank)` copied over the slave bank
/// `[bank, 2*bank)`, with the transfer-done flag at `2*bank` set.
pub open spec fn ram_commit(st: Seq<Line>, bank: int) -> Seq<Line> {
    Seq::new(
        st.len(),
        |j: int|
            if bank <= j < 2 * bank {
                st[j - bank]
            } else if j == 2 * bank {
                Line::High
            } else {
                st[j]
            },
    )
}

/// The transparent RAM pass: a no-op when any input reads `Disconnected`;
/// otherwise, on clock `High`, a `High` write lands the data word at the
/// addressed word and a `High` read copies the addressed word (after the
/// write) to the outputs in the same pass.
pub open spec fn spec_ram_t(a: nat, w: nat, vals: Seq<Line>, outs: Seq<Line>, st: Seq<Line>) -> (
    Seq<Line>,
    Seq<Line>,
) {
    if spec_any_disconnected(vals) {
        (outs, st)
    } else {
        let addr = bits_to_nat(vals.subrange(0, a as int)) as int;
        let wr = vals[a as int + w];
        let rd = vals[a as int + w + 1];
        let ck = vals[a as int + w + 2];
        let st1 = if ck == Line::High && wr == Line::High {
            write_word(st, w * addr, vals.subrange(a as int, a as int + w))
        } else {
            st
        };
        let outs1 = if ck == Line::High && rd == Line::High {
            st1.subrange(w * addr, w * addr + w)
        } else {
            outs
        };
        (outs1, st1)
    }
}

/// The double-buffered RAM pass: a no-op when any input reads
/// `Disconnected`; otherwise writes on clock `High` land in the master
/// bank (and the transfer-done flag is cleared while the clock is
/// `High`), the master bank is copied to the slave bank exactly once per
/// falling edge, and a `High` read serves the addressed word from the
/// slave bank.
pub open spec fn spec_ram_b(a: nat, w: nat, vals: Seq<Line>, outs: Seq<Line>, st: Seq<Line>) -> (
    Seq<Line>,
    Seq<Line>,
) {
    if spec_any_disconnected(vals) {
        (outs, st)
    } else {
        let bank = (w * pow2(a)) as int;
        let addr = bits_to_nat(vals.subrange(0, a as int)) as int;
        let wr = vals[a as int + w];
        let rd = vals[a as int + w + 1];
        let ck = vals[a as int + w + 2];
        let st1 = if ck == Line::High {
            let st0 = st.update(2 * bank, Line::Low);
            if wr == Line::High {
                write_word(st0, w * addr, vals.subrange(a as int, a as int + w))
            } else {
                st0
            }
        } else if st[2 * bank] != Line::High {
            ram_commit(st, bank)
        } else {
            st
        };
        let outs1 = if rd == Line::High {
            st1.subrange(bank + w * addr, bank + w * addr + w)
        } else {
            outs
        };
        (outs1, st1)
    }
}

/// The wide multiplexer pass: the select lines are decoded little-endian
/// and the addressed data word passes through unchanged; if any select
/// line reads `Disconnected`, every output is forced `Low`.
pub open spec fn spec_wide_mux(s: nat, w: nat, vals: Seq<Line>) -> Seq<Line> {
    let sel = vals.subrange((w * pow2(s)) as int, (w * pow2(s) + s) as int);
    if spec_any_disconnected(sel) {
        Seq::new(w, |j: int| Line::Low)
    } else {
        let v = bits_to_nat(sel) as int;
        vals.subrange(v * w, v * w + w)
    }
}

/// One evaluation of a device: from the kind, the values read at the
/// input ports, the current values of the owned output cells and the
/// storage, the new output cell values and the new storage.
pub open spec fn kind_eval(k: GateKind, vals: Seq<Line>, outs: Seq<Line>, st: Seq<Line>) -> (
    Seq<Line>,
    Seq<Line>,
) {
    match k {
        GateKind::And => (seq![spec_and(vals[0], vals[1])], st),
        GateKind::Or => (seq![spec_or(vals[0], vals[1])], st),
        GateKind::Xor => (seq![spec_xor(vals[0], vals[1])], st),
        GateKind::Nand => (seq![spec_nand(vals[0], vals[1])], st),
        GateKind::Nor => (seq![spec_nor(vals[0], vals[1])], st),
        GateKind::Xnor => (seq![spec_xnor(vals[0], vals[1])], st),
        GateKind::Not => (seq![spec_not(vals[0])], st),
        GateKind::Source => (seq![st[0]], st),
        GateKind::Sink => (outs, seq![vals[0]]),
        GateKind::Mux => (seq![spec_mux(vals[0], vals[1], vals[2])], st),
        GateKind::Demux => (spec_demux(vals[0], vals[1]), st),
        GateKind::NorLatch => {
            let next = spec_latch_next(st[0], vals[0], vals[1]);
            (seq![next], seq![next])
        },
        GateKind::MsFlipFlop => {
            let next = spec_msff_next(st, vals[0], vals[1], vals[2]);
            (seq![next[1]], next)
        },
        GateKind::RamTransparent { addr_bits, data_bits } => spec_ram_t(
            addr_bits as nat,
            data_bits as nat,
            vals,
            outs,
            st,
        ),
        GateKind::RamBuffered { addr_bits, data_bits } => spec_ram_b(
            addr_bits as nat,
            data_bits as nat,
            vals,
            outs,
            st,
        ),
        GateKind::WideMux { sel_bits, data_bits } => (
            spec_wide_mux(sel_bits as nat, data_bits as nat, vals),
            st,
        ),
    }
}

/// The evaluation rule keeps the device's arities: as many new output
/// values as output cells, and the storage length unchanged.
pub proof fn lemma_kind_eval_lens(k: GateKind, vals: Seq<Line>, outs: Seq<Line>, st: Seq<Line>)
    requires
        vals.len() == in_arity(k),
        outs.len() == out_arity(k),
        st.len() == storage_len(k),
        kind_ok(k),
    ensures
        kind_eval(k, vals, outs, st).0.len() == out_arity(k),
        kind_eval(k, vals, outs, st).1.len() == storage_len(k),
{
    match k {
        GateKind::RamTransparent { addr_bits, data_bits } => {
            let a = addr_bits as nat;
            let w = data_bits as nat;
            if !spec_any_disconnected(vals) {
                let addr = bits_to_nat(vals.subrange(0, a as int));
                lemma_bits_to_nat_bound(vals.subrange(0, a as int));
                assert(addr < pow2(a));
                assert(w * addr + w <= w * pow2(a)) by (nonlinear_arith)
                    requires
                        addr < pow2(a),
                        w >= 1,
                ;
            }
        },
        GateKind::RamBuffered { addr_bits, data_bits } => {
            let a = addr_bits as nat;
            let w = data_bits as nat;
            if !spec_any_disconnected(vals) {
                let addr = bits_to_nat(vals.subrange(0, a as int));
                lemma_bits_to_nat_bound(vals.subrange(0, a as int));
                assert(w * addr + w <= w * pow2(a)) by (nonlinear_arith)
                    requires
                        addr < pow2(a),
                        w >= 1,
                ;
            }
        },
        GateKind::WideMux { sel_bits, data_bits } => {
            let s = sel_bits as nat;
            let w = data_bits as nat;
            let sel = vals.subrange((w * pow2(s)) as int, (w * pow2(s) + s) as int);
            if !spec_any_disconnected(sel) {
                let v = bits_to_nat(sel);
                lemma_bits_to_nat_bound(sel);
                assert(v < pow2(s));
                assert(v * w + w <= w * pow2(s)) by (nonlinear_arith)
                    requires
                        v < pow2(s),
                        w >= 1,
                ;
            }
        },
        _ => {},
    }
}

/// The value an input port reads from a line arena: a free slot reads
/// `Disconnected`, a local slot reads its cell (or `Disconnected` when the
/// index is out of the arena), and a cross-circuit slot reads
/// `Disconnected` outside board-driven evaluation.
pub open spec fn spec_read_slot(lines: Seq<Line>, s: Slot) -> Line {
    match s {
        Slot::Free => Line::Disconnected,
        Slot::Local { line } => if (line as int) < lines.len() {
            lines[line as int]
        } else {
            Line::Disconnected
        },
        Slot::Cross { circuit, line } => Line::Disconnected,
    }
}

/// The values a run of input slots reads from a line arena.
pub open spec fn spec_read_inputs(lines: Seq<Line>, slots: Seq<Slot>) -> Seq<Line> {
    Seq::new(slots.len(), |i: int| spec_read_slot(lines, slots[i]))
}

/// The current values of a run of output cells.
pub open spec fn spec_cell_vals(lines: Seq<Line>, outs: Seq<usize>) -> Seq<Line> {
    Seq::new(
        outs.len(),
        |i: int|
            if (outs[i] as int) < lines.len() {
                lines[outs[i] as int]
            } else {
                Line::Disconnected
            },
    )
}

/// The arena after the first `n` output cells have been written with their
/// new values, in order; an out-of-arena cell index writes nothing.
pub open spec fn write_cells(lines: Seq<Line>, outs: Seq<usize>, vals: Seq<Line>, n: int) -> Seq<
    Line,
>
    decreases n,
{
    if n <= 0 {
        lines
    } else {
        let prev = write_cells(lines, outs, vals, n - 1);
        if (outs[n - 1] as int) < prev.len() {
            prev.update(outs[n - 1] as int, vals[n - 1])
        } else {
            prev
        }
    }
}

pub proof fn lemma_write_cells_len(lines: Seq<Line>, outs: Seq<usize>, vals: Seq<Line>, n: int)
    ensures
        write_cells(lines, outs, vals, n).len() == lines.len(),
    decreases n,
{
    if n > 0 {
        lemma_write_cells_len(lines, outs, vals, n - 1);
    }
}

/// One synchronous evaluation of one gate against a line arena: the new
/// arena and the new gate. Only that gate's own output cells and its
/// storage change.
pub open spec fn gate_step(lines: Seq<Line>, g: GateV) -> (Seq<Line>, GateV) {
    let vals = spec_read_inputs(lines, g.inputs);
    let cur = spec_cell_vals(lines, g.outputs);
    let r = kind_eval(g.kind, vals, cur, g.storage);
    (write_cells(lines, g.outputs, r.0, r.0.len() as int), GateV { storage: r.1, ..g })
}

/// The values a run of input slots reads, executably.
pub fn read_inputs(slots: &Vec<Slot>, lines: &Vec<Line>) -> (r: Vec<Line>)
    ensures
        r@ == spec_read_inputs(lines@, slots@),
{
    let mut r: Vec<Line> = Vec::new();
    let mut i: usize = 0;
    while i < slots.len()
        invariant
            i <= slots@.len(),
            r@ =~= spec_read_inputs(lines@, slots@).subrange(0, i as int),
        decreases slots@.len() - i,
    {
        let v = match slots[i] {
            Slot::Free => Line::Disconnected,
            Slot::Local { line } => if line < lines.len() {
                lines[line]
            } else {
                Line::Disconnected
            },
            Slot::Cross { circuit: _, line: _ } => Line::Disconnected,
        };
        r.push(v);
        proof {
            assert(r@ =~= spec_read_inputs(lines@, slots@).subrange(0, i + 1));
        }
        i = i + 1;
    }
    proof {
        assert(r@ =~= spec_read_inputs(lines@, slots@));
    }
    r
}

/// The current values of a run of output cells, executably.
pub fn cell_vals(outs: &Vec<usize>, lines: &Vec<Line>) -> (r: Vec<Line>)
    ensures
        r@ == spec_cell_vals(lines@, outs@),
{
    let mut r: Vec<Line> = Vec::new();
    let mut i: usize = 0;
    while i < outs.len()
        invariant
            i <= outs@.len(),
            r@ =~= spec_cell_vals(lines@, outs@).subrange(0, i as int),
        decreases outs@.len() - i,
    {
        let o = outs[i];
        let v = if o < lines.len() {
            lines[o]
        } else {
            Line::Disconnected
        };
        r.push(v);
        proof {
            assert(r@ =~= spec_cell_vals(lines@, outs@).subrange(0, i + 1));
        }
        i = i + 1;
    }
    proof {
        assert(r@ =~= spec_cell_vals(lines@, outs@));
    }
    r
}

/// One device: its rule, its input slots, the arena indices of its owned
/// output cells, and its storage buffer.
pub struct Gate {
    pub kind: GateKind,
    pub inputs: Vec<Slot>,
    pub outputs: Vec<usize>,
    pub storage: Vec<Line>,
}

/// The mathematical shape of a gate.
#[verifier::ext_equal]
pub ghost struct GateV {
    pub kind: GateKind,
    pub inputs: Seq<Slot>,
    pub outputs: Seq<usize>,
    pub storage: Seq<Line>,
}

impl View for Gate {
    type V = GateV;

    open spec fn view(&self) -> GateV {
        GateV {
            kind: self.kind,
            inputs: self.inputs@,
            outputs: self.outputs@,
            storage: self.storage@,
        }
    }
}

impl GateV {
    /// Slot count, cell count and storage length all match the kind.
    pub open spec fn wf(self) -> bool {
        &&& kind_ok(self.kind)
        &&& self.inputs.len() == in_arity(self.kind)
        &&& self.outputs.len() == out_arity(self.kind)
        &&& self.storage.len() == storage_len(self.kind)
    }
}

impl Gate {
    pub open spec fn wf(&self) -> bool {
        self@.wf()
    }

    /// A fresh device of the given kind: every input slot free, every
    /// output cell index zeroed until a circuit adopts it and
    /// allocates its cells, storage at its initial value.
    pub fn new_of_kind(kind: GateKind) -> (g: Gate)
        requires
            kind_ok(kind),
            in_arity(kind) <= usize::MAX,
            out_arity(kind) <= usize::MAX,
            storage_len(kind) <= usize::MAX,
        ensures
            g.wf(),
            g@ == fresh_gate(kind),
    {
        let n_in = in_arity_of(kind);
        let n_out = out_arity_of(kind);
        let n_st = storage_len_of(kind);
        let mut inputs: Vec<Slot> = Vec::new();
        let mut i: usize = 0;
        while i < n_in
            invariant
                i <= n_in,
                inputs@ =~= Seq::new(i as nat, |j: int| Slot::Free),
            decreases n_in - i,
        {
            inputs.push(Slot::Free);
            i = i + 1;
        }
        let mut outputs: Vec<usize> = Vec::new();
        let mut o: usize = 0;
        while o < n_out
            invariant
                o <= n_out,
                outputs@ =~= Seq::new(o as nat, |j: int| 0usize),
            decreases n_out - o,
        {
            outputs.push(0);
            o = o + 1;
        }
        let fill = match kind {
            GateKind::Sink => Line::Disconnected,
            _ => Line::Low,
        };
        let mut storage: Vec<Line> = Vec::new();
        let mut s: usize = 0;
        while s < n_st
            invariant
                s <= n_st,
                storage@ =~= Seq::new(s as nat, |j: int| fill),
            decreases n_st - s,
        {
            storage.push(fill);
            s = s + 1;
        }
        let g = Gate { kind, inputs, outputs, storage };
        proof {
            assert(g.inputs@ =~= Seq::new(in_arity(kind), |i: int| Slot::Free));
            assert(g.outputs@ =~= Seq::new(out_arity(kind), |i: int| 0usize));
            assert(g.storage@ =~= storage_init(kind));
            assert(g@ =~= fresh_gate(kind));
        }
        g
    }

    /// How many input ports this device has.
    pub fn num_inputs(&self) -> (n: usize)
        ensures
            n == self@.inputs.len(),
    {
        self.inputs.len()
    }

    /// How many output cells this device owns.
    pub fn num_outputs(&self) -> (n: usize)
        ensures
            n == self@.outputs.len(),
    {
        self.outputs.len()
    }

    /// Where input port `i` takes its value from.
    pub fn get_input(&self, i: usize) -> (s: Slot)
        requires
            i < self@.inputs.len(),
        ensures
            s == self@.inputs[i as int],
    {
        self.inputs[i]
    }

    /// Points input port `i` at the given slot.
    pub fn set_input(&mut self, i: usize, s: Slot)
        requires
            i < old(self)@.inputs.len(),
        ensures
            final(self)@ == (GateV { inputs: old(self)@.inputs.update(i as int, s), ..old(self)@ }),
    {
        self.inputs.set(i, s);
    }

    /// The arena index of output cell `o`.
    pub fn get_output(&self, o: usize) -> (cell: usize)
        requires
            o < self@.outputs.len(),
        ensures
            cell == self@.outputs[o as int],
    {
        self.outputs[o]
    }

    /// Re-homes output cell `o` to the given arena index; the owning
    /// circuit does this once when it adopts a gate.
    pub fn set_output(&mut self, o: usize, cell: usize)
        requires
            o < old(self)@.outputs.len(),
        ensures
            final(self)@ == (GateV {
                outputs: old(self)@.outputs.update(o as int, cell),
                ..old(self)@
            }),
    {
        self.outputs.set(o, cell);
    }

    /// The slot of the first input port.
    pub fn get_i1(&self) -> (s: Slot)
        requires
            self@.inputs.len() >= 1,
        ensures
            s == self@.inputs[0],
    {
        self.inputs[0]
    }

    /// The slot of the second input port.
    pub fn get_i2(&self) -> (s: Slot)
        requires
            self@.inputs.len() >= 2,
        ensures
            s == self@.inputs[1],
    {
        self.inputs[1]
    }

    /// Wires the first input port to the given arena line.
    pub fn connect_i1(&mut self, line: usize)
        requires
            old(self)@.inputs.len() >= 1,
        ensures
            final(self)@ == (GateV {
                inputs: old(self)@.inputs.update(0, Slot::Local { line }),
                ..old(self)@
            }),
    {
        self.inputs.set(0, Slot::Local { line });
    }

    /// Wires the second input port to the given arena line.
    pub fn connect_i2(&mut self, line: usize)
        requires
            old(self)@.inputs.len() >= 2,
        ensures
            final(self)@ == (GateV {
                inputs: old(self)@.inputs.update(1, Slot::Local { line }),
                ..old(self)@
            }),
    {
        self.inputs.set(1, Slot::Local { line });
    }

    /// Clears the first input port to `Disconnected`.
    pub fn disconnect_i1(&mut self)
        requires
            old(self)@.inputs.len() >= 1,
        ensures
            final(self)@ == (GateV {
                inputs: old(self)@.inputs.update(0, Slot::Free),
                ..old(self)@
            }),
    {
        self.inputs.set(0, Slot::Free);
    }

    /// Clears the second input port to `Disconnected`.
    pub fn disconnect_i2(&mut self)
        requires
            old(self)@.inputs.len() >= 2,
        ensures
            final(self)@ == (GateV {
                inputs: old(self)@.inputs.update(1, Slot::Free),
                ..old(self)@
            }),
    {
        self.inputs.set(1, Slot::Free);
    }

    /// Overrides a source's drive value; the new value is exposed on the
    /// source's output cell by its next evaluation.
    pub fn set_source_value(&mut self, v: Line)
        requires
            old(self)@.kind is Source,
            old(self)@.storage.len() == 1,
        ensures
            final(self)@ == (GateV { storage: seq![v], ..old(self)@ }),
    {
        self.storage.set(0, v);
        proof {
            assert(self@.storage =~= seq![v]);
        }
    }

    /// Drives a source `High`.
    pub fn set_high(&mut self)
        requires
            old(self)@.kind is Source,
            old(self)@.storage.len() == 1,
        ensures
            final(self)@ == (GateV { storage: seq![Line::High], ..old(self)@ }),
    {
        self.set_source_value(Line::High);
    }

    /// Drives a source `Low`.
    pub fn set_low(&mut self)
        requires
            old(self)@.kind is Source,
            old(self)@.storage.len() == 1,
        ensures
            final(self)@ == (GateV { storage: seq![Line::Low], ..old(self)@ }),
    {
        self.set_source_value(Line::Low);
    }

    /// The value a sink captured on its last evaluation.
    pub fn sink_value(&self) -> (v: Line)
        requires
            self@.kind is Sink,
            self@.storage.len() == 1,
        ensures
            v == self@.storage[0],
    {
        self.storage[0]
    }

    /// One synchronous evaluation against a line arena: recomputes every
    /// owned output cell and the storage from the values currently read at
    /// the input ports. Nothing else in the arena changes.
    pub fn eval(&mut self, lines: &mut Vec<Line>)
        requires
            old(self).wf(),
        ensures
            final(self).wf(),
            final(self)@ == gate_step(old(lines)@, old(self)@).1,
            final(lines)@ == gate_step(old(lines)@, old(self)@).0,
            final(lines)@.len() == old(lines)@.len(),
    {
        let vals = read_inputs(&self.inputs, lines);
        let cur = cell_vals(&self.outputs, lines);
        let (new_outs, new_st) = eval_kind(self.kind, &vals, &cur, &self.storage);
        proof {
            lemma_kind_eval_lens(self.kind, vals@, cur@, self.storage@);
        }
        let mut k: usize = 0;
        while k < self.outputs.len()
            invariant
                self@ == old(self)@,
                self.wf(),
                k <= self@.outputs.len(),
                new_outs@ == kind_eval(
                    self@.kind,
                    spec_read_inputs(old(lines)@, self@.inputs),
                    spec_cell_vals(old(lines)@, self@.outputs),
                    self@.storage,
                ).0,
                new_st@ == kind_eval(
                    self@.kind,
                    spec_read_inputs(old(lines)@, self@.inputs),
                    spec_cell_vals(old(lines)@, self@.outputs),
                    self@.storage,
                ).1,
                new_outs@.len() == self@.outputs.len(),
                lines@ == write_cells(old(lines)@, self@.outputs, new_outs@, k as int),
                lines@.len() == old(lines)@.len(),
            decreases self@.outputs.len() - k,
        {
            let o = self.outputs[k];
            if o < lines.len() {
                lines.set(o, new_outs[k]);
            }
            k = k + 1;
        }
        self.storage = new_st;
    }
}

/// A fresh device of the given kind, as [`Gate::new_of_kind`] builds it.
pub open spec fn fresh_gate(k: GateKind) -> GateV {
    GateV {
        kind: k,
        inputs: Seq::new(in_arity(k), |i: int| Slot::Free),
        outputs: Seq::new(out_arity(k), |i: int| 0usize),
        storage: storage_init(k),
    }
}

pub proof fn lemma_pow2_small()
    ensures
        pow2(8) == 256,
        pow2(16) == 65536,
        pow2(24) == 0x100_0000,
{
    reveal_with_fuel(pow2, 25);
}

impl Gate {
    /// A two-input `and` gate.
    pub fn new_and() -> (g: Gate)
        ensures
            g.wf(),
            g@ == fresh_gate(GateKind::And),
    {
        Gate::new_of_kind(GateKind::And)
    }

    /// A two-input `or` gate.
    pub fn new_or() -> (g: Gate)
        ensures
            g.wf(),
            g@ == fresh_gate(GateKind::Or),
    {
        Gate::new_of_kind(GateKind::Or)
    }

    /// A two-input `xor` gate.
    pub fn new_xor() -> (g: Gate)
        ensures
            g.wf(),
            g@ == fresh_gate(GateKind::Xor),
    {
        Gate::new_of_kind(GateKind::Xor)
    }

    /// A two-input `nand` gate.
    pub fn new_nand() -> (g: Gate)
        ensures
            g.wf(),
            g@ == fresh_gate(GateKind::Nand),
    {
        Gate::new_of_kind(GateKind::Nand)
    }

    /// A two-input `nor` gate.
    pub fn new_nor() -> (g: Gate)
        ensures
            g.wf(),
            g@ == fresh_gate(GateKind::Nor),
    {
        Gate::new_of_kind(GateKind::Nor)
    }

    /// A two-input `xnor` gate.
    pub fn new_xnor() -> (g: Gate)
        ensures
            g.wf(),
            g@ == fresh_gate(GateKind::Xnor),
    {
        Gate::new_of_kind(GateKind::Xnor)
    }

    /// An inverter.
    pub fn new_not() -> (g: Gate)
        ensures
            g.wf(),
            g@ == fresh_gate(GateKind::Not),
    {
        Gate::new_of_kind(GateKind::Not)
    }

    /// A source, initially driving `Low`.
    pub fn new_source() -> (g: Gate)
        ensures
            g.wf(),
            g@ == fresh_gate(GateKind::Source),
    {
        Gate::new_of_kind(GateKind::Source)
    }

    /// A sink: one input, no outputs; it captures what it reads.
    pub fn new_sink() -> (g: Gate)
        ensures
            g.wf(),
            g@ == fresh_gate(GateKind::Sink),
    {
        Gate::new_of_kind(GateKind::Sink)
    }

    /// A 1-of-2 selector with inputs `[i0, i1, select]`.
    pub fn new_mux() -> (g: Gate)
        ensures
            g.wf(),
            g@ == fresh_gate(GateKind::Mux),
    {
        Gate::new_of_kind(GateKind::Mux)
    }

    /// A 1-to-2 router with inputs `[input, select]`.
    pub fn new_demux() -> (g: Gate)
        ensures
            g.wf(),
            g@ == fresh_gate(GateKind::Demux),
    {
        Gate::new_of_kind(GateKind::Demux)
    }

    /// A latch with inputs `[reset, set]`: port 0 drives the state `Low`,
    /// port 1 drives it `High` (and wins when both read `High`), and the
    /// state is held when neither reads `High`.
    pub fn nor_latch() -> (g: Gate)
        ensures
            g.wf(),
            g@ == fresh_gate(GateKind::NorLatch),
    {
        Gate::new_of_kind(GateKind::NorLatch)
    }

    /// A master/slave flip-flop with inputs `[d0, d1, clock]`.
    pub fn master_slave_flip_flop() -> (g: Gate)
        ensures
            g.wf(),
            g@ == fresh_gate(GateKind::MsFlipFlop),
    {
        Gate::new_of_kind(GateKind::MsFlipFlop)
    }

    /// Transparent RAM over an `addr_bits`-line address bus and a
    /// `data_bits`-line data bus.
    pub fn transparent_ram(addr_bits: usize, data_bits: usize) -> (g: Gate)
        requires
            1 <= data_bits,
            addr_bits <= 24,
            data_bits <= 64,
        ensures
            g.wf(),
            g@ == fresh_gate(GateKind::RamTransparent { addr_bits, data_bits }),
    {
        proof {
            lemma_pow2_small();
            lemma_pow2_le(addr_bits as nat, 24);
            assert((data_bits as nat) * pow2(addr_bits as nat) <= 0x4000_0000)
                by (nonlinear_arith)
                requires
                    data_bits <= 64,
                    pow2(addr_bits as nat) <= 0x100_0000,
            ;
        }
        Gate::new_of_kind(GateKind::RamTransparent { addr_bits, data_bits })
    }

    /// Double-buffered RAM over an `addr_bits`-line address bus and a
    /// `data_bits`-line data bus.
    pub fn buffered_ram(addr_bits: usize, data_bits: usize) -> (g: Gate)
        requires
            1 <= data_bits,
            addr_bits <= 24,
            data_bits <= 64,
        ensures
            g.wf(),
            g@ == fresh_gate(GateKind::RamBuffered { addr_bits, data_bits }),
    {
        proof {
            lemma_pow2_small();
            lemma_pow2_le(addr_bits as nat, 24);
            assert((data_bits as nat) * pow2(addr_bits as nat) <= 0x4000_0000)
                by (nonlinear_arith)
                requires
                    data_bits <= 64,
                    pow2(addr_bits as nat) <= 0x100_0000,
            ;
        }
        Gate::new_of_kind(GateKind::RamBuffered { addr_bits, data_bits })
    }

    /// A `2^sel_bits`-way, `data_bits`-wide multiplexer in one device.
    pub fn wide_mux(sel_bits: usize, data_bits: usize) -> (g: Gate)
        requires
            1 <= data_bits,
            sel_bits <= 24,
            data_bits <= 64,
        ensures
            g.wf(),
            g@ == fresh_gate(GateKind::WideMux { sel_bits, data_bits }),
    {
        proof {
            lemma_pow2_small();
            lemma_pow2_le(sel_bits as nat, 24);
            assert((data_bits as nat) * pow2(sel_bits as nat) <= 0x4000_0000)
                by (nonlinear_arith)
                requires
                    data_bits <= 64,
                    pow2(sel_bits as nat) <= 0x100_0000,
            ;
        }
        Gate::new_of_kind(GateKind::WideMux { sel_bits, data_bits })
    }

    /// Byte-wide double-buffered RAM: 8 address lines, 8 data lines.
    pub fn master_slave_flip_flop_ram_8() -> (g: Gate)
        ensures
            g.wf(),
            g@ == fresh_gate(GateKind::RamBuffered { addr_bits: 8, data_bits: 8 }),
    {
        Gate::buffered_ram(8, 8)
    }

    /// Word-wide double-buffered RAM: 16 address lines, 16 data lines.
    pub fn master_slave_flip_flop_ram_16() -> (g: Gate)
        ensures
            g.wf(),
            g@ == fresh_gate(GateKind::RamBuffered { addr_bits: 16, data_bits: 16 }),
    {
        Gate::buffered_ram(16, 16)
    }

    /// Byte-wide transparent RAM: 8 address lines, 8 data lines.
    pub fn nor_latch_ram_8() -> (g: Gate)
        ensures
            g.wf(),
            g@ == fresh_gate(GateKind::RamTransparent { addr_bits: 8, data_bits: 8 }),
    {
        Gate::transparent_ram(8, 8)
    }

    /// Word-wide transparent RAM: 16 address lines, 16 data lines.
    pub fn nor_latch_ram_16() -> (g: Gate)
        ensures
            g.wf(),
            g@ == fresh_gate(GateKind::RamTransparent { addr_bits: 16, data_bits: 16 }),
    {
        Gate::transparent_ram(16, 16)
    }
}

/// The input port count of the kind, as a machine integer.
pub fn in_arity_of(kind: GateKind) -> (n: usize)
    requires
        kind_ok(kind),
        in_arity(kind) <= usize::MAX,
    ensures
        n == in_arity(kind),
{
    match kind {
        GateKind::And | GateKind::Or | GateKind::Xor | GateKind::Nand | GateKind::Nor
        | GateKind::Xnor => 2,
        GateKind::Not => 1,
        GateKind::Source => 0,
        GateKind::Sink => 1,
        GateKind::Mux => 3,
        GateKind::Demux => 2,
        GateKind::NorLatch => 2,
        GateKind::MsFlipFlop => 3,
        GateKind::RamTransparent { addr_bits, data_bits } => addr_bits + data_bits + 3,
        GateKind::RamBuffered { addr_bits, data_bits } => addr_bits + data_bits + 3,
        GateKind::WideMux { sel_bits, data_bits } => {
            let ways = pow2_of(sel_bits);
            data_bits * ways + sel_bits
        },
    }
}

/// The output cell count of the kind, as a machine integer.
pub fn out_arity_of(kind: GateKind) -> (n: usize)
    requires
        kind_ok(kind),
        out_arity(kind) <= usize::MAX,
    ensures
        n == out_arity(kind),
{
    match kind {
        GateKind::Sink => 0,
        GateKind::Demux => 2,
        GateKind::RamTransparent { addr_bits: _, data_bits } => data_bits,
        GateKind::RamBuffered { addr_bits: _, data_bits } => data_bits,
        GateKind::WideMux { sel_bits: _, data_bits } => data_bits,
        _ => 1,
    }
}

/// The storage length of the kind, as a machine integer.
pub fn storage_len_of(kind: GateKind) -> (n: usize)
    requires
        kind_ok(kind),
        storage_len(kind) <= usize::MAX,
    ensures
        n == storage_len(kind),
{
    match kind {
        GateKind::Source | GateKind::Sink | GateKind::NorLatch => 1,
        GateKind::MsFlipFlop => 3,
        GateKind::RamTransparent { addr_bits, data_bits } => {
            let words = pow2_of(addr_bits);
            data_bits * words
        },
        GateKind::RamBuffered { addr_bits, data_bits } => {
            let words = pow2_of(addr_bits);
            2 * (data_bits * words) + 1
        },
        _ => 0,
    }
}

/// True when some line of `vals[lo..hi]` reads `Disconnected`.
pub fn any_disconnected_range(vals: &Vec<Line>, lo: usize, hi: usize) -> (r: bool)
    requires
        lo <= hi <= vals@.len(),
    ensures
        r == spec_any_disconnected(vals@.subrange(lo as int, hi as int)),
{
    let mut i: usize = lo;
    while i < hi
        invariant
            lo <= i <= hi <= vals@.len(),
            forall|j: int| lo <= j < i ==> vals@[j] != Line::Disconnected,
        decreases hi - i,
    {
        if vals[i].is_disconnected() {
            proof {
                assert(vals@.subrange(lo as int, hi as int)[i - lo] == Line::Disconnected);
            }
            return true;
        }
        i = i + 1;
    }
    proof {
        assert forall|j: int| 0 <= j < hi - lo implies vals@.subrange(lo as int, hi as int)[j]
            != Line::Disconnected by {
            assert(vals@.subrange(lo as int, hi as int)[j] == vals@[lo + j]);
        }
    }
    false
}

/// The little-endian value encoded on `vals[lo..hi]`.
pub fn decode_bits(vals: &Vec<Line>, lo: usize, hi: usize) -> (r: usize)
    requires
        lo <= hi <= vals@.len(),
        pow2((hi - lo) as nat) <= usize::MAX,
    ensures
        r == bits_to_nat(vals@.subrange(lo as int, hi as int)),
        r < pow2((hi - lo) as nat),
{
    let ghost full = vals@.subrange(lo as int, hi as int);
    proof {
        lemma_bits_to_nat_bound(full);
    }
    let mut acc: usize = 0;
    let mut i: usize = hi;
    proof {
        assert(vals@.subrange(hi as int, hi as int) =~= Seq::<Line>::empty());
    }
    while i > lo
        invariant
            lo <= i <= hi <= vals@.len(),
            pow2((hi - lo) as nat) <= usize::MAX,
            acc == bits_to_nat(vals@.subrange(i as int, hi as int)),
            acc < pow2((hi - i) as nat),
        decreases i,
    {
        i = i - 1;
        let ghost tail = vals@.subrange(i + 1, hi as int);
        let ghost cur = vals@.subrange(i as int, hi as int);
        proof {
            assert(cur.drop_first() =~= tail);
            assert(cur[0] == vals@[i as int]);
            lemma_bits_to_nat_bound(cur);
            lemma_pow2_le((hi - i) as nat, (hi - lo) as nat);
        }
        let bit: usize = if vals[i].is_high() {
            1
        } else {
            0
        };
        acc = 2 * acc + bit;
    }
    proof {
        assert(vals@.subrange(lo as int, hi as int) =~= full);
    }
    acc
}

/// The copy of `vals[lo..hi]`.
pub fn copy_range(vals: &Vec<Line>, lo: usize, hi: usize) -> (r: Vec<Line>)
    requires
        lo <= hi <= vals@.len(),
    ensures
        r@ == vals@.subrange(lo as int, hi as int),
{
    let mut r: Vec<Line> = Vec::new();
    let mut i: usize = lo;
    while i < hi
        invariant
            lo <= i <= hi <= vals@.len(),
            r@ =~= vals@.subrange(lo as int, i as int),
        decreases hi - i,
    {
        r.push(vals[i]);
        proof {
            assert(r@ =~= vals@.subrange(lo as int, i + 1));
        }
        i = i + 1;
    }
    proof {
        assert(r@ =~= vals@.subrange(lo as int, hi as int));
    }
    r
}

/// Lays `word` over `st` starting at `base`.
pub fn write_range(st: &mut Vec<Line>, base: usize, word: &Vec<Line>)
    requires
        base + word@.len() <= old(st)@.len(),
    ensures
        final(st)@ == write_word(old(st)@, base as int, word@),
{
    let total = st.len();
    let mut i: usize = 0;
    while i < word.len()
        invariant
            base + word@.len() <= st@.len(),
            total == st@.len(),
            st@.len() == old(st)@.len(),
            i <= word@.len(),
            forall|j: int|
                0 <= j < st@.len() ==> st@[j] == (if base <= j < base + i {
                    word@[j - base]
                } else {
                    old(st)@[j]
                }),
        decreases word@.len() - i,
    {
        st.set(base + i, word[i]);
        i = i + 1;
    }
    proof {
        assert(st@ =~= write_word(old(st)@, base as int, word@));
    }
}

/// Copies the master bank `[0, bank)` over the slave bank `[bank, 2*bank)`
/// and sets the transfer-done flag at `2*bank`.
pub fn commit_banks(st: &mut Vec<Line>, bank: usize)
    requires
        2 * bank < old(st)@.len(),
    ensures
        final(st)@ == ram_commit(old(st)@, bank as int),
{
    let total = st.len();
    let mut i: usize = 0;
    while i < bank
        invariant
            2 * bank < st@.len(),
            total == st@.len(),
            st@.len() == old(st)@.len(),
            i <= bank,
            forall|j: int|
                0 <= j < st@.len() ==> st@[j] == (if bank <= j < bank + i {
                    old(st)@[j - bank]
                } else {
                    old(st)@[j]
                }),
        decreases bank - i,
    {
        let v = st[i];
        st.set(bank + i, v);
        i = i + 1;
    }
    st.set(2 * bank, Line::High);
    proof {
        assert(st@ =~= ram_commit(old(st)@, bank as int));
    }
}

/// A run of `n` lines all at `fill`.
pub fn lines_of(n: usize, fill: Line) -> (r: Vec<Line>)
    ensures
        r@ == Seq::new(n as nat, |i: int| fill),
{
    let mut r: Vec<Line> = Vec::new();
    let mut i: usize = 0;
    while i < n
        invariant
            i <= n,
            r@ =~= Seq::new(i as nat, |j: int| fill),
        decreases n - i,
    {
        r.push(fill);
        i = i + 1;
    }
    proof {
        assert(r@ =~= Seq::new(n as nat, |i: int| fill));
    }
    r
}

/// The copy of a whole run of lines.
pub fn clone_lines(vals: &Vec<Line>) -> (r: Vec<Line>)
    ensures
        r@ == vals@,
{
    let r = copy_range(vals, 0, vals.len());
    proof {
        assert(vals@.subrange(0, vals@.len() as int) =~= vals@);
    }
    r
}

/// A run of one line.
pub fn one_line(a: Line) -> (r: Vec<Line>)
    ensures
        r@ == seq![a],
{
    let mut r: Vec<Line> = Vec::new();
    r.push(a);
    proof {
        assert(r@ =~= seq![a]);
    }
    r
}

/// A run of two lines.
pub fn two_lines(a: Line, b: Line) -> (r: Vec<Line>)
    ensures
        r@ == seq![a, b],
{
    let mut r: Vec<Line> = Vec::new();
    r.push(a);
    r.push(b);
    proof {
        assert(r@ =~= seq![a, b]);
    }
    r
}

/// A run of three lines.
pub fn three_lines(a: Line, b: Line, c: Line) -> (r: Vec<Line>)
    ensures
        r@ == seq![a, b, c],
{
    let mut r: Vec<Line> = Vec::new();
    r.push(a);
    r.push(b);
    r.push(c);
    proof {
        assert(r@ =~= seq![a, b, c]);
    }
    r
}

/// One evaluation of a device, executably: returns the new output cell
/// values and the new storage demanded by [`kind_eval`].
#[verifier::rlimit(60)]
pub fn eval_kind(k: GateKind, vals: &Vec<Line>, outs: &Vec<Line>, st: &Vec<Line>) -> (r: (
    Vec<Line>,
    Vec<Line>,
))
    requires
        kind_ok(k),
        vals@.len() == in_arity(k),
        outs@.len() == out_arity(k),
        st@.len() == storage_len(k),
    ensures
        r.0@ == kind_eval(k, vals@, outs@, st@).0,
        r.1@ == kind_eval(k, vals@, outs@, st@).1,
{
    match k {
        GateKind::And => (one_line(crate::line::and(vals[0], vals[1])), clone_lines(st)),
        GateKind::Or => (one_line(crate::line::or(vals[0], vals[1])), clone_lines(st)),
        GateKind::Xor => (one_line(crate::line::xor(vals[0], vals[1])), clone_lines(st)),
        GateKind::Nand => (one_line(crate::line::nand(vals[0], vals[1])), clone_lines(st)),
        GateKind::Nor => (one_line(crate::line::nor(vals[0], vals[1])), clone_lines(st)),
        GateKind::Xnor => (one_line(crate::line::xnor(vals[0], vals[1])), clone_lines(st)),
        GateKind::Not => (one_line(crate::line::not(vals[0])), clone_lines(st)),
        GateKind::Source => (one_line(st[0]), clone_lines(st)),
        GateKind::Sink => (clone_lines(outs), one_line(vals[0])),
        GateKind::Mux => {
            let m = match vals[2] {
                Line::High => vals[1],
                Line::Low => vals[0],
                Line::Disconnected => Line::Low,
            };
            (one_line(m), clone_lines(st))
        },
        GateKind::Demux => {
            let pair = match vals[1] {
                Line::High => two_lines(Line::Low, vals[0]),
                Line::Low => two_lines(vals[0], Line::Low),
                Line::Disconnected => two_lines(Line::Low, Line::Low),
            };
            (pair, clone_lines(st))
        },
        GateKind::NorLatch => {
            let next = if vals[1].is_high() {
                Line::High
            } else if vals[0].is_high() {
                Line::Low
            } else {
                st[0]
            };
            (one_line(next), one_line(next))
        },
        GateKind::MsFlipFlop => {
            let next = if vals[2].is_high() {
                three_lines(crate::line::xor(vals[0], vals[1]), st[1], Line::Low)
            } else if !st[2].is_high() {
                three_lines(st[0], st[0], Line::High)
            } else {
                clone_lines(st)
            };
            let out = one_line(next[1]);
            (out, next)
        },
        GateKind::RamTransparent { addr_bits, data_bits } => eval_ram_transparent(
            addr_bits,
            data_bits,
            vals,
            outs,
            st,
        ),
        GateKind::RamBuffered { addr_bits, data_bits } => eval_ram_buffered(
            addr_bits,
            data_bits,
            vals,
            outs,
            st,
        ),
        GateKind::WideMux { sel_bits, data_bits } => (
            eval_wide_mux(sel_bits, data_bits, vals),
            clone_lines(st),
        ),
    }
}

/// The transparent RAM pass of [`eval_kind`].
fn eval_ram_transparent(a: usize, w: usize, vals: &Vec<Line>, outs: &Vec<Line>, st: &Vec<Line>) -> (
    r: (Vec<Line>, Vec<Line>))
    requires
        kind_ok(GateKind::RamTransparent { addr_bits: a, data_bits: w }),
        vals@.len() == a + w + 3,
        outs@.len() == w,
        st@.len() == (w as nat) * pow2(a as nat),
    ensures
        r.0@ == spec_ram_t(a as nat, w as nat, vals@, outs@, st@).0,
        r.1@ == spec_ram_t(a as nat, w as nat, vals@, outs@, st@).1,
{
    proof {
        assert(vals@.subrange(0, vals@.len() as int) =~= vals@);
    }
    if any_disconnected_range(vals, 0, vals.len()) {
        return (clone_lines(outs), clone_lines(st));
    }
    let addr = decode_bits(vals, 0, a);
    proof {
        assert((w as int) * (addr as int) + w <= (w as nat) * pow2(a as nat)) by (nonlinear_arith)
            requires
                (addr as nat) < pow2(a as nat),
                w >= 1,
        ;
    }
    let base = w * addr;
    let ck = vals[a + w + 2];
    let wr = vals[a + w];
    let rd = vals[a + w + 1];
    let mut new_st = clone_lines(st);
    if ck.is_high() && wr.is_high() {
        let word = copy_range(vals, a, a + w);
        write_range(&mut new_st, base, &word);
    }
    let new_outs = if ck.is_high() && rd.is_high() {
        copy_range(&new_st, base, base + w)
    } else {
        clone_lines(outs)
    };
    (new_outs, new_st)
}

/// The double-buffered RAM pass of [`eval_kind`].
fn eval_ram_buffered(a: usize, w: usize, vals: &Vec<Line>, outs: &Vec<Line>, st: &Vec<Line>) -> (r:
    (Vec<Line>, Vec<Line>))
    requires
        kind_ok(GateKind::RamBuffered { addr_bits: a, data_bits: w }),
        vals@.len() == a + w + 3,
        outs@.len() == w,
        st@.len() == 2 * ((w as nat) * pow2(a as nat)) + 1,
    ensures
        r.0@ == spec_ram_b(a as nat, w as nat, vals@, outs@, st@).0,
        r.1@ == spec_ram_b(a as nat, w as nat, vals@, outs@, st@).1,
{
    proof {
        assert(vals@.subrange(0, vals@.len() as int) =~= vals@);
    }
    if any_disconnected_range(vals, 0, vals.len()) {
        return (clone_lines(outs), clone_lines(st));
    }
    let ways = pow2_of(a);
    proof {
        assert((w as int) * (ways as int) == (w as nat) * pow2(a as nat));
    }
    let bank = w * ways;
    let addr = decode_bits(vals, 0, a);
    proof {
        assert((w as int) * (addr as int) + w <= (w as int) * (ways as int)) by (nonlinear_arith)
            requires
                (addr as int) < (ways as int),
                w >= 1,
        ;
    }
    let base = w * addr;
    let ck = vals[a + w + 2];
    let wr = vals[a + w];
    let rd = vals[a + w + 1];
    let mut new_st = clone_lines(st);
    if ck.is_high() {
        new_st.set(2 * bank, Line::Low);
        if wr.is_high() {
            let word = copy_range(vals, a, a + w);
            write_range(&mut new_st, base, &word);
        }
    } else if !st[2 * bank].is_high() {
        commit_banks(&mut new_st, bank);
    }
    let new_outs = if rd.is_high() {
        copy_range(&new_st, bank + base, bank + base + w)
    } else {
        clone_lines(outs)
    };
    (new_outs, new_st)
}

/// The wide multiplexer pass of [`eval_kind`].
fn eval_wide_mux(s: usize, w: usize, vals: &Vec<Line>) -> (r: Vec<Line>)
    requires
        kind_ok(GateKind::WideMux { sel_bits: s, data_bits: w }),
        vals@.len() == (w as nat) * pow2(s as nat) + s,
    ensures
        r@ == spec_wide_mux(s as nat, w as nat, vals@),
{
    let ways = pow2_of(s);
    proof {
        assert((w as int) * (ways as int) == (w as nat) * pow2(s as nat));
    }
    let base = w * ways;
    if any_disconnected_range(vals, base, base + s) {
        return lines_of(w, Line::Low);
    }
    let v = decode_bits(vals, base, base + s);
    proof {
        assert((v as int) * (w as int) + w <= (w as int) * (ways as int)) by (nonlinear_arith)
            requires
                (v as int) < (ways as int),
                w >= 1,
        ;
    }
    copy_range(vals, v * w, v * w + w)
}

/// Two to the given power, as a machine integer.
pub fn pow2_of(e: usize) -> (n: usize)
    requires
        pow2(e as nat) <= usize::MAX,
    ensures
        n == pow2(e as nat),
{
    let mut n: usize = 1;
    let mut i: usize = 0;
    while i < e
        invariant
            i <= e,
            n == pow2(i as nat),
            pow2(e as nat) <= usize::MAX,
        decreases e - i,
    {
        proof {
            lemma_pow2_le((i + 1) as nat, e as nat);
        }
        n = n * 2;
        i = i + 1;
    }
    n
}

} // verus!
