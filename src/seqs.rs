//! Small facts about sequences shared by the loop proofs.
use vstd::prelude::*;

verus! {

pub proof fn lemma_take_all<A>(s: Seq<A>)
    ensures
        s.take(s.len() as int) == s,
{
    assert(s.take(s.len() as int) =~= s);
}

} // verus!
