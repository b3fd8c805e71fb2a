//! What a run outputs and reads, step by step, and how that matches
//! `outputs`.
use vstd::prelude::*;

use crate::{emitted, halted, next_state, outputs, run_with, runs_without_halt};
use crate::{BrainfuckInstruction, TapeData};

verus! {

/// The values output by the steps from `s` that take the values `vs`, in order.
pub open spec fn emitted_along<D: TapeData>(
    ins: Seq<BrainfuckInstruction>,
    s: crate::MachineState<D>,
    vs: Seq<D>,
) -> Seq<D>
    decreases vs.len(),
{
    if vs.len() == 0 {
        Seq::empty()
    } else {
        let prev = emitted_along(ins, s, vs.drop_last());
        match emitted(ins, run_with(ins, s, vs.drop_last())) {
            Some(d) => prev.push(d),
            None => prev,
        }
    }
}

/// The values read by the input steps from `s` that take the values `vs`,
/// in order.
pub open spec fn read_along<D: TapeData>(
    ins: Seq<BrainfuckInstruction>,
    s: crate::MachineState<D>,
    vs: Seq<D>,
) -> Seq<D>
    decreases vs.len(),
{
    if vs.len() == 0 {
        Seq::empty()
    } else {
        let prev = read_along(ins, s, vs.drop_last());
        if ins[run_with(ins, s, vs.drop_last()).ip] is Input {
            prev.push(vs.last())
        } else {
            prev
        }
    }
}

/// The output of one step from `s`, as a sequence.
pub open spec fn emitted_seq<D>(ins: Seq<BrainfuckInstruction>, s: crate::MachineState<D>) -> Seq<D> {
    match emitted(ins, s) {
        Some(d) => seq![d],
        None => Seq::empty(),
    }
}

/// A run seen from its first step.
proof fn lemma_first_step<D: TapeData>(
    ins: Seq<BrainfuckInstruction>,
    s: crate::MachineState<D>,
    vs: Seq<D>,
)
    requires
        vs.len() > 0,
    ensures
        run_with(ins, s, vs) == run_with(ins, next_state(ins, s, vs[0]), vs.drop_first()),
        emitted_along(ins, s, vs) == emitted_seq(ins, s) + emitted_along(
            ins,
            next_state(ins, s, vs[0]),
            vs.drop_first(),
        ),
        read_along(ins, s, vs) == (if ins[s.ip] is Input {
            seq![vs[0]]
        } else {
            Seq::empty()
        }) + read_along(ins, next_state(ins, s, vs[0]), vs.drop_first()),
    decreases vs.len(),
{
    let n = next_state(ins, s, vs[0]);
    let t = vs.drop_first();
    if vs.len() == 1 {
        assert(vs.drop_last() =~= Seq::<D>::empty());
        assert(t =~= Seq::<D>::empty());
        assert(run_with(ins, s, vs.drop_last()) == s);
        assert(emitted_along(ins, s, vs.drop_last()) == Seq::<D>::empty());
        assert(read_along(ins, s, vs.drop_last()) == Seq::<D>::empty());
        assert(emitted_along(ins, n, t) == Seq::<D>::empty());
        assert(read_along(ins, n, t) == Seq::<D>::empty());
        assert(emitted_along(ins, s, vs) =~= emitted_seq(ins, s) + emitted_along(ins, n, t));
        assert(read_along(ins, s, vs) =~= (if ins[s.ip] is Input {
            seq![vs[0]]
        } else {
            Seq::empty()
        }) + read_along(ins, n, t));
    } else {
        let p = vs.drop_last();
        lemma_first_step(ins, s, p);
        assert(p.drop_first() =~= t.drop_last());
        assert(p[0] == vs[0]);
        assert(t.last() == vs.last());
        assert(emitted_along(ins, s, vs) =~= emitted_seq(ins, s) + emitted_along(ins, n, t));
        assert(read_along(ins, s, vs) =~= (if ins[s.ip] is Input {
            seq![vs[0]]
        } else {
            Seq::empty()
        }) + read_along(ins, n, t));
    }
}

/// A run that never halts, seen from its second state on.
proof fn lemma_rest_runs_without_halt<D: TapeData>(
    ins: Seq<BrainfuckInstruction>,
    s: crate::MachineState<D>,
    vs: Seq<D>,
)
    requires
        vs.len() > 0,
        runs_without_halt(ins, s, vs),
    ensures
        !halted(ins, s),
        runs_without_halt(ins, next_state(ins, s, vs[0]), vs.drop_first()),
{
    assert(vs.take(0) =~= Seq::<D>::empty());
    assert(!halted(ins, run_with(ins, s, vs.take(0))));
    let t = vs.drop_first();
    assert forall|k: int| 0 <= k < t.len() implies !halted(
        ins,
        #[trigger] run_with(ins, next_state(ins, s, vs[0]), t.take(k)),
    ) by {
        let w = vs.take(k + 1);
        lemma_first_step(ins, s, w);
        assert(w.drop_first() =~= t.take(k));
        assert(!halted(ins, run_with(ins, s, vs.take(k + 1))));
    }
}

/// Along a run that never halts, the values output are what `outputs`
/// gives from the same start when fed the values that the run read.
pub proof fn lemma_outputs_along<D: TapeData>(
    ins: Seq<BrainfuckInstruction>,
    s: crate::MachineState<D>,
    vs: Seq<D>,
)
    requires
        runs_without_halt(ins, s, vs),
    ensures
        outputs(ins, s, read_along(ins, s, vs), vs.len()) == emitted_along(ins, s, vs),
    decreases vs.len(),
{
    if vs.len() > 0 {
        let n = next_state(ins, s, vs[0]);
        let t = vs.drop_first();
        lemma_first_step(ins, s, vs);
        lemma_rest_runs_without_halt(ins, s, vs);
        lemma_outputs_along(ins, n, t);
        let reads = read_along(ins, s, vs);
        if ins[s.ip] is Input {
            assert(reads[0] == vs[0]);
            assert(reads.drop_first() =~= read_along(ins, n, t));
        } else {
            assert(reads =~= read_along(ins, n, t));
            assert(next_state(ins, s, D::spec_zero()) == n);
            if reads.len() > 0 {
                assert(next_state(ins, s, reads[0]) == n);
            }
        }
        assert(outputs(ins, s, reads, vs.len()) =~= emitted_seq(ins, s) + outputs(
            ins,
            n,
            read_along(ins, n, t),
            t.len(),
        ));
    } else {
        assert(emitted_along(ins, s, vs) =~= Seq::<D>::empty());
    }
}

} // verus!
