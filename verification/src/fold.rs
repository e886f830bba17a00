//! Sequencing of per-value indicator steps.
//!
//! Every indicator consumes one value at a time through a step function
//! from state and input to new state and output, failing when exact
//! arithmetic leaves the representable range. `run_fold` is the
//! mathematical meaning of feeding a whole batch through such a step.

use vstd::prelude::*;
use vstd::seq_lib::*;

use crate::rational::Ratio;

verus! {

/// Feeds each input in order through `step`, threading the state and
/// collecting one output per input; `None` as soon as one step fails.
pub open spec fn run_fold<S, O>(
    step: spec_fn(S, Ratio) -> Option<(S, O)>,
    init: S,
    inputs: Seq<Ratio>,
) -> Option<(S, Seq<O>)>
    decreases inputs.len(),
{
    if inputs.len() == 0 {
        Some((init, Seq::empty()))
    } else {
        match run_fold(step, init, inputs.drop_last()) {
            None => None,
            Some(acc) => match step(acc.0, inputs.last()) {
                None => None,
                Some(so) => Some((so.0, acc.1.push(so.1))),
            },
        }
    }
}

/// Running on one more input is one more step.
pub proof fn lemma_run_fold_push<S, O>(
    step: spec_fn(S, Ratio) -> Option<(S, O)>,
    init: S,
    inputs: Seq<Ratio>,
    x: Ratio,
)
    ensures
        run_fold(step, init, inputs.push(x)) == (match run_fold(step, init, inputs) {
            None => None::<(S, Seq<O>)>,
            Some(acc) => match step(acc.0, x) {
                None => None,
                Some(so) => Some((so.0, acc.1.push(so.1))),
            },
        }),
{
    assert(inputs.push(x).drop_last() =~= inputs);
    assert(inputs.push(x).last() == x);
}

/// A failed run stays failed on any extension.
pub proof fn lemma_run_fold_none_extends<S, O>(
    step: spec_fn(S, Ratio) -> Option<(S, O)>,
    init: S,
    p: Seq<Ratio>,
    q: Seq<Ratio>,
)
    requires
        p.is_prefix_of(q),
        run_fold(step, init, p) is None,
    ensures
        run_fold(step, init, q) is None,
    decreases q.len(),
{
    if q.len() > p.len() {
        assert(p.is_prefix_of(q.drop_last())) by {
            assert(p =~= q.drop_last().subrange(0, p.len() as int));
        }
        lemma_run_fold_none_extends(step, init, p, q.drop_last());
    } else {
        assert(p =~= q);
    }
}

} // verus!
