//! Facts about filtered sequences.

use vstd::prelude::*;

verus! {

/// A filter keeps a run whose members all pass.
pub proof fn lemma_filter_keeps<A>(run: Seq<A>, pass: spec_fn(A) -> bool)
    requires
        forall|i: int| 0 <= i < run.len() ==> pass(run[i]),
    ensures
        run.filter(pass) == run,
    decreases run.len(),
{
    reveal(Seq::filter);
    if run.len() > 0 {
        lemma_filter_keeps(run.drop_last(), pass);
        assert(run.drop_last().push(run.last()) =~= run);
    }
}

/// A filter leaves nothing of a run of which no member passes.
pub proof fn lemma_filter_drops<A>(run: Seq<A>, pass: spec_fn(A) -> bool)
    requires
        forall|i: int| 0 <= i < run.len() ==> !pass(run[i]),
    ensures
        run.filter(pass) == Seq::<A>::empty(),
    decreases run.len(),
{
    reveal(Seq::filter);
    if run.len() > 0 {
        lemma_filter_drops(run.drop_last(), pass);
    }
}

} // verus!
