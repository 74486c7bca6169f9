use textgen::context::next_input;
use textgen::generation::{GenerationLoop, StubModel};
use textgen::penalty::apply_repeat_penalty;
use textgen::rng::SampleRng;
use textgen::sampler::{rank_weights, softmax_weights, top_p_cutoff, total_weight, Sampler};
use textgen::vocab::Vocab;
use textgen::{GenError, Ratio, StopReason};

#[test]
fn context_full_sequence_at_step_zero() {
    let tokens: Vec<u32> = vec![7, 8, 9];
    let r = next_input(&tokens, 0).unwrap();
    assert_eq!(r, vec![7, 8, 9]);
}

#[test]
fn context_single_token_after_step_zero() {
    let tokens: Vec<u32> = vec![7, 8, 9];
    for step in 1..5usize {
        let r = next_input(&tokens, step).unwrap();
        assert_eq!(r, vec![9]);
    }
    let one: Vec<u32> = vec![4];
    assert_eq!(next_input(&one, 3).unwrap(), vec![4]);
}

#[test]
fn context_empty_sequence_is_an_error() {
    let tokens: Vec<u32> = Vec::new();
    assert_eq!(next_input(&tokens, 0), Err(GenError::EmptyPrompt));
}

#[test]
fn no_penalty_is_a_no_op() {
    let logits: Vec<i64> = vec![2048, -2048, 0, 555, -1];
    let tokens: Vec<u32> = vec![0, 1, 2, 3, 4, 0, 1];
    let r = apply_repeat_penalty(&logits, Ratio::one(), &tokens, 64);
    assert_eq!(r, logits);
    let r2 = apply_repeat_penalty(&logits, Ratio::new(5, 5), &tokens, 2);
    assert_eq!(r2, logits);
}

#[test]
fn penalty_rescales_recent_tokens() {
    // A logit of +2.0 (2048 in fixed point) for a token that repeats in the
    // lookback window, under a penalty of 1.2, becomes 2.0 / 1.2, that is
    // 1706 in fixed point.
    let mut logits: Vec<i64> = vec![0; 8];
    logits[5] = 2048;
    logits[3] = 2048;
    let tokens: Vec<u32> = vec![3, 5, 5];
    let r = apply_repeat_penalty(&logits, Ratio::new(12, 10), &tokens, 2);
    assert_eq!(r[5], 1706);
    // Token 3 is outside the two-token lookback window: untouched.
    assert_eq!(r[3], 2048);
    for i in [0usize, 1, 2, 4, 6, 7] {
        assert_eq!(r[i], 0);
    }
}

#[test]
fn penalty_amplifies_negative_logits() {
    let mut logits: Vec<i64> = vec![0; 6];
    logits[5] = -2048;
    let tokens: Vec<u32> = vec![5];
    let r = apply_repeat_penalty(&logits, Ratio::new(12, 10), &tokens, 4);
    assert_eq!(r[5], -2457);
}

#[test]
fn rng_stream_is_the_lcg() {
    let mut rng = SampleRng::new(42);
    assert_eq!(rng.next_u64(), 10481999410520546993);
    assert_eq!(rng.next_u64(), 4159066171780167020);
    let mut rng2 = SampleRng::new(42);
    assert_eq!(rng2.next_below(7), 10481999410520546993u64 % 7);
}

#[test]
fn greedy_picks_the_argmax() {
    let mut s = Sampler::new(0, None, None);
    let logits: Vec<i64> = vec![-5, 30, 12, 30, 7];
    // Ties break toward the first occurrence.
    assert_eq!(s.sample(&logits), Ok(1));
    // No randomness consumed: the stream state is untouched.
    assert_eq!(s.rng, SampleRng::new(0));
}

#[test]
fn sampling_an_empty_vector_fails() {
    let mut s = Sampler::new(0, None, None);
    let logits: Vec<i64> = Vec::new();
    assert_eq!(s.sample(&logits), Err(GenError::Sampling));
    let mut s2 = Sampler::new(0, Some(Ratio::new(1, 1)), Some(Ratio::new(9, 10)));
    assert_eq!(s2.sample(&logits), Err(GenError::Sampling));
}

#[test]
fn softmax_weights_scale_and_decay() {
    // At temperature one, the maximum logit weighs 1024 and a logit one
    // whole unit (1024) below it weighs half of that.
    let logits: Vec<i64> = vec![0, -1024, -2048];
    let w = softmax_weights(&logits, Ratio::new(1, 1)).unwrap();
    assert_eq!(w, vec![1024, 512, 256]);
    assert_eq!(total_weight(&w), 1792);
}

#[test]
fn ranking_sorts_descending_stably() {
    let w: Vec<u64> = vec![512, 1024, 512, 256];
    let ps = rank_weights(&w);
    assert_eq!(ps, vec![(1024, 1), (512, 0), (512, 2), (256, 3)]);
}

#[test]
fn top_p_cutoff_retains_enough_mass() {
    let w: Vec<u64> = vec![1024, 512, 512];
    let ps = rank_weights(&w);
    // Total mass 2048.  A cutoff of one half is met by the first pair alone.
    let (k, retained) = top_p_cutoff(&ps, Ratio::new(1, 2));
    assert_eq!((k, retained), (1, 1024));
    // Three quarters: two pairs retain 1536 of 2048, exactly the boundary;
    // the tie resolves by inclusion.
    let (k2, retained2) = top_p_cutoff(&ps, Ratio::new(3, 4));
    assert_eq!((k2, retained2), (2, 1536));
    // Dropping the boundary pair would fall below the cutoff.
    assert!((retained2 - 512) * 4 < 3 * 2048);
}

#[test]
fn softmax_weights_interpolate_fractions() {
    // Half a unit below the maximum decays by linear interpolation.
    let logits: Vec<i64> = vec![0, -512];
    let w = softmax_weights(&logits, Ratio::new(1, 1)).unwrap();
    assert_eq!(w, vec![1024, 768]);
    // A temperature of two flattens the gap before the decay.
    let w2 = softmax_weights(&logits, Ratio::new(2, 1)).unwrap();
    assert_eq!(w2, vec![1024, 896]);
}

#[test]
fn temperature_draw_follows_the_stream() {
    // Weights [1024, 512, 512]; the draw for seed 42 is
    // lcg(42) mod 2048 = 1713, which lands in the third span.
    let logits: Vec<i64> = vec![0, -1024, -1024];
    let mut s = Sampler::new(42, Some(Ratio::new(1, 1)), None);
    assert_eq!(s.sample(&logits), Ok(2));
    assert_eq!(s.rng, {
        let mut r = SampleRng::new(42);
        r.next_u64();
        r
    });
}

#[test]
fn nucleus_draw_follows_the_stream() {
    // Weights [1024, 512, 512] ranked as themselves; a cutoff of three
    // quarters retains 1536.  Seed 42 draws 689 (first span, token 0);
    // seed 7 draws 1418 (second span, token 1).
    let logits: Vec<i64> = vec![0, -1024, -1024];
    let temp = Some(Ratio::new(1, 1));
    let top_p = Some(Ratio::new(3, 4));
    let mut a = Sampler::new(42, temp, top_p);
    assert_eq!(a.sample(&logits), Ok(0));
    let mut b = Sampler::new(7, temp, top_p);
    assert_eq!(b.sample(&logits), Ok(1));
}

#[test]
fn sampling_is_deterministic_for_a_fixed_seed() {
    let logits: Vec<i64> = vec![0, -100, -1024, -300, -2048];
    let temp = Some(Ratio::new(95, 100));
    let top_p = Some(Ratio::new(8, 10));
    let mut a = Sampler::new(1234, temp, top_p);
    let mut b = Sampler::new(1234, temp, top_p);
    for _ in 0..16 {
        let ta = a.sample(&logits).unwrap();
        let tb = b.sample(&logits).unwrap();
        assert_eq!(ta, tb);
        assert!((ta as usize) < logits.len());
    }
    // A temperature-only session is deterministic too.
    let mut c = Sampler::new(99, temp, None);
    let mut d = Sampler::new(99, temp, None);
    for _ in 0..16 {
        assert_eq!(c.sample(&logits), d.sample(&logits));
    }
}

fn demo_vocab() -> Vocab {
    let mut v = Vocab::new();
    v.add("hello".to_string(), 1);
    v.add("world".to_string(), 2);
    v.add("<eos>".to_string(), 3);
    v
}

#[test]
fn vocab_lookup_and_decode() {
    let v = demo_vocab();
    assert_eq!(v.lookup(&"hello".to_string()), Some(1));
    assert_eq!(v.lookup(&"nowhere".to_string()), None);
    assert_eq!(v.special_token(&"<eos>".to_string()), Ok(3));
    assert_eq!(
        v.special_token(&"<bos>".to_string()),
        Err(GenError::UnknownSpecialToken)
    );
    assert_eq!(v.decode(2), Some("world".to_string()));
    assert_eq!(v.decode(9), None);
    let frags = v.decode_fragments(&vec![2, 1, 9]);
    assert_eq!(
        frags,
        vec!["world".to_string(), "hello".to_string(), String::new()]
    );
}

#[test]
fn eos_at_first_step_emits_nothing() {
    // Prompt "hello" over the vocabulary {hello: 1, world: 2, <eos>: 3}, a
    // model favoring the end-of-sequence token at step 0, greedy mode and a
    // budget of two tokens: generation stops after one step, emits no
    // fragment, and reports one generated token.
    let v = demo_vocab();
    let eos = v.special_token(&"<eos>".to_string()).unwrap();
    let prompt = vec![v.lookup(&"hello".to_string()).unwrap()];
    let rows: Vec<Vec<i64>> = vec![vec![0, 0, 0, 10000]];
    let mut model = StubModel::new(4, rows);
    let mut gl = GenerationLoop::new(0, None, None, Ratio::one(), 64, eos);
    let g = gl.generate(&mut model, &prompt, 2).unwrap();
    assert_eq!(g.generated, 1);
    assert_eq!(g.stop, StopReason::Eos);
    assert!(g.emitted.is_empty());
    assert!(v.decode_fragments(&g.emitted).is_empty());
}

#[test]
fn budget_exhaustion_stops_generation() {
    // The model always favors "world"; with no end-of-sequence in sight the
    // token budget is the only stop.
    let rows: Vec<Vec<i64>> = vec![vec![0, 0, 10000, 0]];
    let mut model = StubModel::new(4, rows);
    let mut gl = GenerationLoop::new(0, None, None, Ratio::one(), 64, 3);
    let g = gl.generate(&mut model, &vec![1], 3).unwrap();
    assert_eq!(g.generated, 3);
    assert_eq!(g.stop, StopReason::MaxLength);
    assert_eq!(g.emitted, vec![2, 2, 2]);
}

#[test]
fn repeat_penalty_changes_the_greedy_choice() {
    // Two near-tied logits: after "world" (id 2) is generated once, the
    // penalty pushes its logit below the runner-up, so the next greedy
    // choice moves on — the filter demonstrably reaches the sampler.
    let rows: Vec<Vec<i64>> = vec![vec![0, 2040, 2048, 0]];
    let mut model = StubModel::new(4, rows);
    let mut gl = GenerationLoop::new(0, None, None, Ratio::new(12, 10), 8, 3);
    let g = gl.generate(&mut model, &vec![0], 2).unwrap();
    assert_eq!(g.emitted, vec![2, 1]);
}

#[test]
fn generation_is_deterministic_for_a_fixed_seed() {
    let rows: Vec<Vec<i64>> = vec![
        vec![0, -10, -2048, -300],
        vec![-100, 0, -512, -1024],
        vec![-2048, -10, 0, -300],
    ];
    let temp = Some(Ratio::new(95, 100));
    let top_p = Some(Ratio::new(9, 10));
    let mut m1 = StubModel::new(4, rows.clone());
    let mut m2 = StubModel::new(4, rows);
    let mut g1 = GenerationLoop::new(7, temp, top_p, Ratio::new(11, 10), 4, 3);
    let mut g2 = GenerationLoop::new(7, temp, top_p, Ratio::new(11, 10), 4, 3);
    let r1 = g1.generate(&mut m1, &vec![1, 2], 12).unwrap();
    let r2 = g2.generate(&mut m2, &vec![1, 2], 12).unwrap();
    assert_eq!(r1.emitted, r2.emitted);
    assert_eq!(r1.generated, r2.generated);
    assert_eq!(r1.stop, r2.stop);
}

#[test]
fn empty_prompt_aborts_the_prompt() {
    let mut model = StubModel::new(4, vec![vec![0, 0, 0, 1]]);
    let mut gl = GenerationLoop::new(0, None, None, Ratio::one(), 64, 3);
    let r = gl.generate(&mut model, &Vec::new(), 5);
    assert!(matches!(r, Err(GenError::EmptyPrompt)));
}

#[test]
fn forward_failure_is_fatal() {
    // A stub with no scripted rows refuses every forward pass.
    let mut model = StubModel::new(4, Vec::new());
    let mut gl = GenerationLoop::new(0, None, None, Ratio::one(), 64, 3);
    let r = gl.generate(&mut model, &vec![1], 5);
    assert!(matches!(r, Err(GenError::ModelForward)));
}

#[test]
fn zero_budget_generates_nothing() {
    let mut model = StubModel::new(4, vec![vec![0, 0, 0, 1]]);
    let mut gl = GenerationLoop::new(0, None, None, Ratio::one(), 64, 3);
    let g = gl.generate(&mut model, &vec![1], 0).unwrap();
    assert_eq!(g.generated, 0);
    assert_eq!(g.stop, StopReason::MaxLength);
    assert!(g.emitted.is_empty());
}
