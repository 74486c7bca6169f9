//! The per-prompt generation loop: context slicing, forward pass, repeat
//! penalty, sampling, termination, and the cache-reset discipline.
//!
//! The transformer model is an external capability reached through the
//! [`Model`] trait: an opaque `forward` from a token slice to a logits
//! vector, plus an idempotent `reset_cache`.  The loop promises that the
//! cache is reset exactly once per completed or aborted prompt and never
//! mid-generation: `resets()` grows by exactly one across `generate`, and
//! `forward` never changes it.

use vstd::prelude::*;
use crate::{GenError, Ratio, StopReason, MAX_LOGIT, MAX_RATIO};
use crate::context;
use crate::penalty;
use crate::sampler::{spec_selected, spec_state_after, Sampler, MAX_SCALED};

verus! {

/// The opaque transformer capability: an incremental forward pass over a
/// key-value cache, and the cache-reset operation.
pub trait Model: Sized {
    /// How many vocabulary entries a logits vector has.
    spec fn vocab_size(&self) -> nat;

    /// How often the key-value cache has been reset.
    spec fn resets(&self) -> nat;

    /// The logits the forward pass would produce on `input` in the current
    /// state, or `None` where it would fail.
    spec fn response(&self, input: Seq<u32>) -> Option<Seq<i64>>;

    /// The state after a successful forward pass on `input`.
    spec fn stepped(&self, input: Seq<u32>) -> Self;

    /// Run the forward pass on a non-empty token slice; never touches the
    /// reset count.
    fn forward(&mut self, input: &Vec<u32>) -> (r: Result<Vec<i64>, GenError>)
        requires
            input@.len() > 0,
        ensures
            final(self).resets() == old(self).resets(),
            final(self).vocab_size() == old(self).vocab_size(),
            match old(self).response(input@) {
                Some(l) => r is Ok && r->Ok_0@ == l && *final(self) == old(self).stepped(
                    input@,
                ),
                None => r == Err::<Vec<i64>, GenError>(GenError::ModelForward) && *final(self)
                    == *old(self),
            },
            r is Ok ==> r->Ok_0@.len() == old(self).vocab_size(),
            r is Ok ==> forall|i: int|
                0 <= i < r->Ok_0@.len() ==> -MAX_LOGIT <= #[trigger] r->Ok_0@[i] <= MAX_LOGIT,
    ;

    /// Clear the incremental attention state; grows the reset count by one.
    fn reset_cache(&mut self)
        ensures
            final(self).resets() == old(self).resets() + 1,
            final(self).vocab_size() == old(self).vocab_size(),
    ;
}

/// A deterministic stand-in model: a fixed logits row per decoding step
/// (the last row repeating), for exercising the loop without real weights.
pub struct StubModel {
    vocab: usize,
    rows: Vec<Vec<i64>>,
    step: usize,
    reset_count: Ghost<nat>,
}

impl StubModel {
    #[verifier::type_invariant]
    spec fn inv(self) -> bool {
        &&& forall|r: int|
            0 <= r < self.rows@.len() ==> (#[trigger] self.rows@[r])@.len() == self.vocab
        &&& forall|r: int, c: int|
            0 <= r < self.rows@.len() && 0 <= c < self.rows@[r]@.len() ==> -MAX_LOGIT
                <= #[trigger] self.rows@[r]@[c] <= MAX_LOGIT
    }

    /// Build a stub over `vocab` entries from one logits row per step.
    pub fn new(vocab: usize, rows: Vec<Vec<i64>>) -> (r: StubModel)
        requires
            forall|i: int| 0 <= i < rows@.len() ==> (#[trigger] rows@[i])@.len() == vocab,
            forall|i: int, c: int|
                0 <= i < rows@.len() && 0 <= c < rows@[i]@.len() ==> -MAX_LOGIT
                    <= #[trigger] rows@[i]@[c] <= MAX_LOGIT,
        ensures
            r.vocab_size() == vocab as nat,
            r.resets() == 0,
    {
        StubModel { vocab, rows, step: 0, reset_count: Ghost(0) }
    }
}

impl Model for StubModel {
    closed spec fn vocab_size(&self) -> nat {
        self.vocab as nat
    }

    closed spec fn resets(&self) -> nat {
        self.reset_count@
    }

    closed spec fn response(&self, input: Seq<u32>) -> Option<Seq<i64>> {
        if self.rows@.len() == 0 {
            None
        } else if self.step < self.rows@.len() {
            Some(self.rows@[self.step as int]@)
        } else {
            Some(self.rows@[self.rows@.len() - 1]@)
        }
    }

    closed spec fn stepped(&self, input: Seq<u32>) -> Self {
        if self.step < self.rows@.len() {
            StubModel {
                vocab: self.vocab,
                rows: self.rows,
                step: (self.step + 1) as usize,
                reset_count: self.reset_count,
            }
        } else {
            *self
        }
    }

    fn forward(&mut self, input: &Vec<u32>) -> (r: Result<Vec<i64>, GenError>) {
        proof {
            use_type_invariant(&*self);
        }
        if self.rows.len() == 0 {
            return Err(GenError::ModelForward);
        }
        let idx: usize = if self.step < self.rows.len() {
            self.step
        } else {
            self.rows.len() - 1
        };
        let row = crate::copy_i64s(&self.rows[idx]);
        if self.step < self.rows.len() {
            self.step = self.step + 1;
        }
        Ok(row)
    }

    fn reset_cache(&mut self) {
        proof {
            use_type_invariant(&*self);
        }
        self.step = 0;
        self.reset_count = Ghost(self.reset_count@ + 1);
    }
}

/// The logits vector after the repeat-penalty filter, at the spec level.
pub open spec fn spec_filtered(logits: Seq<i64>, pen: PenaltyConfig, tokens: Seq<u32>) -> Seq<
    i64,
> {
    Seq::new(
        logits.len(),
        |i: int| penalty::spec_apply_at(logits, pen.penalty, tokens, pen.last_n as nat, i) as i64,
    )
}

/// The whole per-prompt run, at the spec level: the emitted tokens, the
/// count of sampled tokens and the stop reason, or the error that ends the
/// prompt.  `generate` returns exactly this.
pub open spec fn spec_run<M: Model>(
    m: M,
    temperature: Option<Ratio>,
    top_p: Option<Ratio>,
    pen: PenaltyConfig,
    eos: u32,
    state: u64,
    tokens: Seq<u32>,
    step: nat,
    remaining: nat,
) -> Result<(Seq<u32>, nat, StopReason), GenError>
    decreases remaining,
{
    if remaining == 0 {
        Ok((Seq::empty(), 0, StopReason::MaxLength))
    } else {
        let input = context::spec_next_input(tokens, step);
        match m.response(input) {
            Option::None => Err(GenError::ModelForward),
            Option::Some(l) => {
                if l.len() == 0 {
                    Err(GenError::Sampling)
                } else {
                    let filtered = spec_filtered(l, pen, tokens);
                    let tok = spec_selected(temperature, top_p, filtered, state);
                    let state2 = spec_state_after(temperature, state);
                    if tok == eos {
                        Ok((Seq::empty(), 1, StopReason::Eos))
                    } else {
                        match spec_run(
                            m.stepped(input),
                            temperature,
                            top_p,
                            pen,
                            eos,
                            state2,
                            tokens.push(tok),
                            step + 1,
                            (remaining - 1) as nat,
                        ) {
                            Ok(rest) => Ok((seq![tok] + rest.0, rest.1 + 1, rest.2)),
                            Err(e) => Err(e),
                        }
                    }
                }
            },
        }
    }
}

/// Immutable per-session penalty configuration.
#[derive(Clone, Copy, Debug, PartialEq, Eq, Structural)]
pub struct PenaltyConfig {
    /// The penalty factor; one disables the filter.
    pub penalty: Ratio,
    /// How many trailing tokens count as recent.
    pub last_n: usize,
}

/// What one prompt's generation produced.
#[derive(Debug)]
pub struct GenerationResult {
    /// The emitted token ids, in generation order; the end-of-sequence
    /// token is never emitted.
    pub emitted: Vec<u32>,
    /// How many tokens were sampled, the end-of-sequence token included.
    pub generated: usize,
    /// Why generation stopped.
    pub stop: StopReason,
}

/// The generation loop: sampler, penalty configuration, and the
/// end-of-sequence token, owned for a session.
pub struct GenerationLoop {
    pub sampler: Sampler,
    pub penalty: PenaltyConfig,
    pub eos: u32,
}

impl GenerationLoop {
    /// The session configuration is well formed.
    pub open spec fn wf(self) -> bool {
        &&& self.sampler.wf()
        &&& self.penalty.penalty.wf()
    }

    pub fn new(
        seed: u64,
        temperature: Option<Ratio>,
        top_p: Option<Ratio>,
        repeat_penalty: Ratio,
        repeat_last_n: usize,
        eos: u32,
    ) -> (r: GenerationLoop)
        requires
            temperature matches Some(t) ==> t.wf(),
            top_p matches Some(p) ==> p.wf() && p.num <= p.den,
            repeat_penalty.wf(),
        ensures
            r.wf(),
            r.sampler.temperature == temperature,
            r.sampler.top_p == top_p,
            r.sampler.rng.state == seed,
            r.penalty == (PenaltyConfig { penalty: repeat_penalty, last_n: repeat_last_n }),
            r.eos == eos,
    {
        GenerationLoop {
            sampler: Sampler::new(seed, temperature, top_p),
            penalty: PenaltyConfig { penalty: repeat_penalty, last_n: repeat_last_n },
            eos,
        }
    }

    /// Decode one prompt to completion.
    ///
    /// Per step: slice the context, run the model forward, filter the
    /// logits, sample a token, append it; stop on the end-of-sequence token
    /// or after `max_tokens` tokens.  The cache is reset exactly once, at
    /// the end of the prompt, completed or aborted — never mid-generation.
    pub fn generate<M: Model>(
        &mut self,
        model: &mut M,
        prompt: &Vec<u32>,
        max_tokens: usize,
    ) -> (r: Result<GenerationResult, GenError>)
        requires
            old(self).wf(),
            old(model).vocab_size() <= 0x1_0000_0000,
            forall|i: int|
                0 <= i < prompt@.len() ==> ((#[trigger] prompt@[i]) as nat) < old(
                    model,
                ).vocab_size(),
        ensures
            final(model).resets() == old(model).resets() + 1,
            final(model).vocab_size() == old(model).vocab_size(),
            final(self).wf(),
            final(self).sampler.temperature == old(self).sampler.temperature,
            final(self).sampler.top_p == old(self).sampler.top_p,
            final(self).penalty == old(self).penalty,
            final(self).eos == old(self).eos,
            (prompt@.len() == 0) <==> (r == Err::<GenerationResult, GenError>(
                GenError::EmptyPrompt,
            )),
            r is Err ==> (r == Err::<GenerationResult, GenError>(GenError::EmptyPrompt) || r
                == Err::<GenerationResult, GenError>(GenError::ModelForward) || r == Err::<
                GenerationResult,
                GenError,
            >(GenError::Sampling)),
            r == Err::<GenerationResult, GenError>(GenError::Sampling) ==> old(
                model,
            ).vocab_size() == 0,
            prompt@.len() > 0 ==> ({
                let out = spec_run(
                    *old(model),
                    old(self).sampler.temperature,
                    old(self).sampler.top_p,
                    old(self).penalty,
                    old(self).eos,
                    old(self).sampler.rng.state,
                    prompt@,
                    0,
                    max_tokens as nat,
                );
                match out {
                    Ok(o) => r is Ok && r->Ok_0.emitted@ == o.0 && r->Ok_0.generated as nat
                        == o.1 && r->Ok_0.stop == o.2,
                    Err(e) => r == Err::<GenerationResult, GenError>(e),
                }
            }),
            r is Ok ==> ({
                let g = r->Ok_0;
                &&& g.generated <= max_tokens
                &&& (g.stop == StopReason::Eos ==> 1 <= g.generated && g.emitted@.len()
                    == g.generated - 1)
                &&& (g.stop == StopReason::MaxLength ==> g.emitted@.len() == g.generated
                    && g.generated == max_tokens)
                &&& forall|i: int|
                    0 <= i < g.emitted@.len() ==> ((#[trigger] g.emitted@[i]) as nat) < old(
                        model,
                    ).vocab_size() && g.emitted@[i] != old(self).eos
            }),
    {
        if prompt.len() == 0 {
            model.reset_cache();
            return Err(GenError::EmptyPrompt);
        }
        let mut tokens = crate::copy_u32s(prompt);
        let mut emitted: Vec<u32> = Vec::new();
        let mut generated: usize = 0;
        let mut index: usize = 0;
        let ghost full = spec_run(
            *old(model),
            old(self).sampler.temperature,
            old(self).sampler.top_p,
            old(self).penalty,
            old(self).eos,
            old(self).sampler.rng.state,
            prompt@,
            0,
            max_tokens as nat,
        );
        proof {
            if let Ok(o) = full {
                assert(Seq::<u32>::empty() + o.0 =~= o.0);
            }
        }
        while index < max_tokens
            invariant
                self.wf(),
                self.sampler.temperature == old(self).sampler.temperature,
                self.sampler.top_p == old(self).sampler.top_p,
                self.penalty == old(self).penalty,
                self.eos == old(self).eos,
                model.vocab_size() == old(model).vocab_size(),
                model.resets() == old(model).resets(),
                old(model).vocab_size() <= 0x1_0000_0000,
                prompt@.len() >= 1,
                index <= max_tokens,
                generated == index,
                emitted@.len() == index,
                tokens@.len() >= 1,
                forall|j: int|
                    0 <= j < tokens@.len() ==> ((#[trigger] tokens@[j]) as nat) < old(
                        model,
                    ).vocab_size(),
                forall|i: int|
                    0 <= i < emitted@.len() ==> ((#[trigger] emitted@[i]) as nat) < old(
                        model,
                    ).vocab_size() && emitted@[i] != old(self).eos,
                full == spec_run(
                    *old(model),
                    old(self).sampler.temperature,
                    old(self).sampler.top_p,
                    old(self).penalty,
                    old(self).eos,
                    old(self).sampler.rng.state,
                    prompt@,
                    0,
                    max_tokens as nat,
                ),
                ({
                    let cur = spec_run(
                        *model,
                        old(self).sampler.temperature,
                        old(self).sampler.top_p,
                        old(self).penalty,
                        old(self).eos,
                        self.sampler.rng.state,
                        tokens@,
                        index as nat,
                        (max_tokens - index) as nat,
                    );
                    match cur {
                        Ok(o) => full == Ok::<(Seq<u32>, nat, StopReason), GenError>(
                            (emitted@ + o.0, (index as nat + o.1) as nat, o.2),
                        ),
                        Err(e) => full == Err::<(Seq<u32>, nat, StopReason), GenError>(e),
                    }
                }),
            decreases max_tokens - index,
        {
            let ghost model_pre = *model;
            let ghost state_pre = self.sampler.rng.state;
            let ghost tokens_pre = tokens@;
            let ghost cur = spec_run(
                *model,
                old(self).sampler.temperature,
                old(self).sampler.top_p,
                old(self).penalty,
                old(self).eos,
                self.sampler.rng.state,
                tokens@,
                index as nat,
                (max_tokens - index) as nat,
            );
            let input = match context::next_input(&tokens, index) {
                Ok(v) => v,
                Err(_) => {
                    proof {
                        assert(false);
                    }
                    return Err(GenError::EmptyPrompt);
                },
            };
            let logits = match model.forward(&input) {
                Ok(l) => l,
                Err(_) => {
                    proof {
                        assert(model_pre.response(input@) is None);
                        assert(cur == Err::<(Seq<u32>, nat, StopReason), GenError>(
                            GenError::ModelForward,
                        ));
                    }
                    model.reset_cache();
                    return Err(GenError::ModelForward);
                },
            };
            proof {
                assert(model_pre.response(input@) matches Some(l) && l == logits@);
            }
            let filtered = penalty::apply_repeat_penalty(
                &logits,
                self.penalty.penalty,
                &tokens,
                self.penalty.last_n,
            );
            proof {
                assert(MAX_LOGIT * MAX_RATIO == MAX_SCALED);
                assert(filtered@ =~= spec_filtered(logits@, self.penalty, tokens@));
            }
            let t = match self.sampler.sample(&filtered) {
                Ok(t) => t,
                Err(_) => {
                    proof {
                        assert(logits@.len() == 0);
                        assert(cur == Err::<(Seq<u32>, nat, StopReason), GenError>(
                            GenError::Sampling,
                        ));
                    }
                    model.reset_cache();
                    return Err(GenError::Sampling);
                },
            };
            proof {
                assert(t == spec_selected(
                    old(self).sampler.temperature,
                    old(self).sampler.top_p,
                    spec_filtered(logits@, old(self).penalty, tokens_pre),
                    state_pre,
                ));
                assert(self.sampler.rng.state == spec_state_after(
                    old(self).sampler.temperature,
                    state_pre,
                ));
                assert(*model == model_pre.stepped(input@));
            }
            tokens.push(t);
            generated = generated + 1;
            if t == self.eos {
                proof {
                    assert(cur == Ok::<(Seq<u32>, nat, StopReason), GenError>(
                        (Seq::empty(), 1, StopReason::Eos),
                    ));
                    assert(emitted@ + Seq::<u32>::empty() =~= emitted@);
                }
                model.reset_cache();
                return Ok(GenerationResult { emitted, generated, stop: StopReason::Eos });
            }
            proof {
                let rest = spec_run(
                    model_pre.stepped(input@),
                    old(self).sampler.temperature,
                    old(self).sampler.top_p,
                    old(self).penalty,
                    old(self).eos,
                    spec_state_after(old(self).sampler.temperature, state_pre),
                    tokens_pre.push(t),
                    index as nat + 1,
                    (max_tokens - index - 1) as nat,
                );
                match rest {
                    Ok(o2) => {
                        assert(cur == Ok::<(Seq<u32>, nat, StopReason), GenError>(
                            (seq![t] + o2.0, o2.1 + 1, o2.2),
                        ));
                        assert(emitted@ + (seq![t] + o2.0) =~= emitted@.push(t) + o2.0);
                    },
                    Err(e) => {
                        assert(cur == Err::<(Seq<u32>, nat, StopReason), GenError>(e));
                    },
                }
            }
            emitted.push(t);
            index = index + 1;
        }
        model.reset_cache();
        Ok(GenerationResult { emitted, generated, stop: StopReason::MaxLength })
    }
}

} // verus!
