//! Incremental context-window management: which token ids must be fed to the
//! model at each decoding step, given that the model's key-value cache already
//! holds the effect of every token submitted before.

use vstd::prelude::*;
use crate::GenError;

verus! {

/// The tokens the model must see at `step`: the whole sequence when priming
/// the cache at step 0, only the most recently appended token afterwards.
pub open spec fn spec_next_input(tokens: Seq<u32>, step: nat) -> Seq<u32> {
    if step == 0 {
        tokens
    } else {
        seq![tokens[tokens.len() - 1]]
    }
}

/// Compute the minimal slice of `tokens` to resubmit to the model at `step`.
///
/// At step 0 the full sequence primes the cache; at every later step the
/// cache already covers all but the newest token.  An empty sequence is a
/// fatal input error for the prompt.
pub fn next_input(tokens: &Vec<u32>, step: usize) -> (r: Result<Vec<u32>, GenError>)
    ensures
        tokens@.len() == 0 ==> r == Err::<Vec<u32>, GenError>(GenError::EmptyPrompt),
        tokens@.len() > 0 ==> r is Ok && r->Ok_0@ == spec_next_input(tokens@, step as nat),
{
    if tokens.len() == 0 {
        return Err(GenError::EmptyPrompt);
    }
    if step == 0 {
        let r = crate::copy_u32s(tokens);
        Ok(r)
    } else {
        let mut v: Vec<u32> = Vec::new();
        v.push(tokens[tokens.len() - 1]);
        proof {
            assert(v@ =~= spec_next_input(tokens@, step as nat));
        }
        Ok(v)
    }
}

/// Context slicing law: for any non-empty sequence, step 0 yields the full
/// sequence and every later step yields exactly one token, the last one.
pub proof fn lemma_context_slicing(tokens: Seq<u32>, step: nat)
    requires
        tokens.len() >= 1,
    ensures
        step == 0 ==> spec_next_input(tokens, step) == tokens,
        step > 0 ==> spec_next_input(tokens, step).len() == 1
            && spec_next_input(tokens, step)[0] == tokens[tokens.len() - 1],
{
}

} // verus!
