use pocket_tts_deploy::mimi::{
    describe_input, element_kind, fresh_mimi_slots, next_state_name, state_type, Fill, MimiStateKind,
};
use pocket_tts_deploy::params::Params;
use pocket_tts_deploy::protocol::{decoder_input, sampler_inputs, step_inputs};
use pocket_tts_deploy::synth::{
    check_embedding, check_rows, fits_context, gather_rows, repeat, Action, Synth, SynthError,
};
use pocket_tts_deploy::tensors::{
    copy_shape, count_volume, layer_names, numbered_name, ElementType, Reusable,
};

fn params(max_len: usize, max_latents: usize) -> Params {
    Params {
        sample_rate: 24000,
        ldim: 32,
        dim: 1024,
        max_len,
        pad_spaces: false,
        rm_semi: false,
        append_punct: false,
        n_layers: 2,
        max_latents,
    }
}

/// What one call of the step model was fed: latent, embedding, text flag, positions, caches.
type Call = (i32, i32, bool, Vec<i64>, i32);

type Run = Synth<i32, i32, i32>;

/// A run over embeddings 100, 101 and so on, with -1 for the blank latent, -2 for the blank
/// embedding and -3 for the caches of the voice.
fn fresh(offs: Vec<i64>, tokens: i32, max_gen: usize, frames_after: usize) -> Run {
    Synth::new((100..100 + tokens).collect(), -1, -2, offs, -3, max_gen, frames_after)
}

/// Runs to the end; call `c` gives caches `c`, generation step `s` gives latent `s`, and shows the
/// end of speech where `eos` says.
fn run(mut s: Run, eos: &[usize]) -> (Vec<Action>, Vec<i32>, Vec<Call>) {
    let mut actions = Vec::new();
    let mut calls: Vec<Call> = Vec::new();
    loop {
        let a = s.action();
        actions.push(a);
        if let Action::Prefill(_) | Action::Generate(_) = a {
            let i = s.step_input();
            calls.push((*i.token, *i.emb, i.is_text, i.offs.clone(), *i.caches));
        }
        let caches = calls.len() as i32 - 1;
        match a {
            Action::Prefill(_) => s.prefill_done(caches),
            Action::Generate(step) => s.generate_done(step as i32, eos.contains(&step), caches),
            Action::Decode(_) => s.decode_done(),
            Action::Finish => return (actions, s.latents().clone(), calls),
        }
    }
}

#[test]
fn a_run_prefills_generates_and_decodes() {
    let (actions, latents, calls) = run(fresh(vec![10, 20], 2, 3, 5), &[]);
    assert_eq!(
        actions,
        vec![
            Action::Prefill(0),
            Action::Prefill(1),
            Action::Generate(0),
            Action::Generate(1),
            Action::Generate(2),
            Action::Decode(0),
            Action::Decode(1),
            Action::Decode(2),
            Action::Finish,
        ]
    );
    assert_eq!(latents, vec![0, 1, 2]);
    assert_eq!(
        calls,
        vec![
            (-1, 100, true, vec![10, 20], -3),
            (-1, 101, true, vec![11, 21], 0),
            (-1, -2, false, vec![12, 22], 1),
            (0, -2, false, vec![13, 23], 2),
            (1, -2, false, vec![14, 24], 3),
        ]
    );
}

#[test]
fn the_end_of_speech_leaves_the_frames_asked_for() {
    for frames_after in 0..6 {
        for e in 0..8 {
            let (actions, latents, calls) = run(fresh(vec![0], 1, 8, frames_after), &[e, e + 1]);
            let kept = (e + frames_after).min(8);
            assert_eq!(latents, (0..kept as i32).collect::<Vec<_>>());
            let steps = (e + frames_after + 1).min(8);
            let ran = actions.iter().filter(|a| matches!(a, Action::Generate(_))).count();
            assert_eq!(ran, steps);
            assert_eq!(calls.len(), 1 + steps);
            for (c, call) in calls.iter().enumerate() {
                assert_eq!(call.3, vec![c as i64]);
                assert_eq!(call.4, if c == 0 { -3 } else { c as i32 - 1 });
            }
        }
    }
}

#[test]
fn nothing_to_say_is_nothing_to_run() {
    let (actions, latents, _) = run(fresh(vec![], 0, 0, 3), &[]);
    assert_eq!(actions, vec![Action::Finish]);
    assert!(latents.is_empty());
}

type BitRun = Synth<Vec<u32>, Vec<u32>, u8>;

/// A run over tokens of one embedding each, of which the table has a hundred.
fn start(p: &Params, offs: Vec<i64>, tokens: usize, max_gen: usize) -> Result<BitRun, SynthError> {
    let table: Vec<u32> = (0..100 * p.dim as u32).collect();
    let ids: Vec<u32> = (0..tokens as u32).collect();
    Synth::start(p, &table, &ids, offs, 9, max_gen, 3)
}

#[test]
fn a_run_starts_where_it_fits() {
    let p = params(100, 30);
    let at = |tokens: usize, max_gen: usize| start(&p, vec![50, 50], tokens, max_gen);
    assert!(at(20, 30).is_ok());
    assert!(matches!(at(21, 30), Err(SynthError::MaxLen)));
    assert!(matches!(at(10, 31), Err(SynthError::TooManyLatents)));
    assert!(matches!(at(20, 31), Err(SynthError::MaxLen)));
    let mut s = at(0, 30).ok().unwrap();
    while let Action::Generate(k) = s.action() {
        s.generate_done(vec![k as u32], k == 4, 0);
    }
    assert_eq!(s.latents().len(), 4 + 3 + 2);
    assert_eq!(SynthError::MaxLen.message(), "MAX_LEN 초과");
    assert_eq!(SynthError::TooManyLatents.message(), "청크가 너무 김: 문장을 나누세요");
}

#[test]
fn a_run_feeds_rows_nan_and_zero() {
    let p = params(200, 30);
    let table: Vec<u32> = (0..5 * 1024).collect();
    let mut s: BitRun =
        Synth::start(&p, &table, &[3, 0, 3], vec![50], 9, 2, 3).ok().unwrap();
    for (t, id) in [3u32, 0, 3].into_iter().enumerate() {
        let i = s.step_input();
        assert!(i.is_text);
        assert_eq!(i.emb, &(id * 1024..(id + 1) * 1024).collect::<Vec<_>>());
        assert_eq!(i.token.len(), 32);
        assert!(i.token.iter().all(|b| f32::from_bits(*b).is_nan()));
        assert_eq!((i.offs, *i.caches), (&vec![50 + t as i64], if t == 0 { 9 } else { t as u8 - 1 }));
        s.prefill_done(t as u8);
    }
    let i = s.step_input();
    assert!(!i.is_text && i.token.iter().all(|b| f32::from_bits(*b).is_nan()));
    assert!(i.emb.len() == 1024 && i.emb.iter().all(|b| f32::from_bits(*b) == 0.0));
    s.generate_done(vec![5; 32], false, 7);
    assert_eq!((s.step_input().token, *s.step_input().caches), (&vec![5; 32], 7));
    let s: BitRun = Synth::over(vec![vec![1, 2]], 3, 2, vec![0], 1, 0, 3);
    assert_eq!(s.step_input().token, &vec![0x7fc0_0000; 3]);
    assert_eq!(s.step_input().emb, &vec![1, 2]);
}

#[test]
fn steps_stay_in_the_context() {
    let p = params(40, 30);
    let mut s = start(&p, vec![20], 8, 12).ok().unwrap();
    let mut last = 0;
    loop {
        match s.action() {
            Action::Prefill(_) => {
                last = s.step_input().offs[0];
                s.prefill_done(0);
            }
            Action::Generate(_) => {
                last = s.step_input().offs[0];
                s.generate_done(vec![], false, 0);
            }
            _ => break,
        }
    }
    assert_eq!(last, 39);
}

#[test]
fn the_context_is_counted_without_overflow() {
    assert!(fits_context(1, 2, 3, 6));
    assert!(!fits_context(1, 2, 4, 6));
    assert!(!fits_context(usize::MAX, usize::MAX, 1, usize::MAX));
}

#[test]
fn rows_are_gathered_in_order() {
    let table = [1, 2, 3, 4, 5, 6];
    assert!(check_rows(6, &[2, 0, 2], 2));
    assert_eq!(gather_rows(&table, &[2, 0, 2], 2), vec![vec![5, 6], vec![1, 2], vec![5, 6]]);
    assert!(!check_rows(6, &[3], 2));
    assert!(!check_rows(6, &[u32::MAX], usize::MAX));
    assert!(check_rows(0, &[], 7));
    assert!(gather_rows::<i32>(&[], &[], 7).is_empty());
    assert_eq!(repeat('x', 3), vec!['x'; 3]);
}

#[test]
fn an_embedding_has_two_dimensions() {
    assert!(check_embedding(&[4001, 1024], 1024));
    assert!(!check_embedding(&[4001, 512], 1024));
    assert!(!check_embedding(&[4001], 4001));
    assert!(!check_embedding(&[1, 4001, 1024], 1024));
}

#[test]
fn tensors_are_rebuilt_where_their_layout_changes() {
    let mut t = Reusable::new(ElementType::F32, &[1, 2]);
    assert!(t.accepts(ElementType::F32, &[1, 2]));
    assert!(!t.ensure(ElementType::F32, &[1, 2]));
    assert!(t.ensure(ElementType::F32, &[2, 1]));
    assert!(!t.ensure(ElementType::F32, &[2, 1]));
    assert!(t.ensure(ElementType::I64, &[2, 1]));
    assert!(!t.accepts(ElementType::Boolean, &[2, 1]));
    assert!(!t.accepts(ElementType::I64, &[2]));
    assert_eq!(copy_shape(&[3, -1]), vec![3, -1]);
}

#[test]
fn elements_are_counted_where_they_can_be() {
    assert_eq!(count_volume(&[2, 3, 4]), Some(24));
    assert_eq!(count_volume(&[]), Some(1));
    assert_eq!(count_volume(&[5, 0]), Some(0));
    assert_eq!(count_volume(&[2, -1]), None);
    assert_eq!(count_volume(&[i64::MAX, 3]), None);
}

#[test]
fn layers_have_names_of_their_own() {
    assert_eq!(layer_names("new_cache", 3), vec!["new_cache0", "new_cache1", "new_cache2"]);
    assert_eq!(numbered_name("off", 23), "off23");
    let mut names = layer_names("cache", 200);
    names.sort();
    names.dedup();
    assert_eq!(names.len(), 200);
}

#[test]
fn names_tell_the_kind_of_a_state() {
    assert_eq!(element_kind("layer0_off"), MimiStateKind::Off);
    assert_eq!(element_kind("cache_off"), MimiStateKind::Off);
    assert_eq!(element_kind("k_cache3"), MimiStateKind::Cache);
    assert_eq!(element_kind("conv7"), MimiStateKind::Other);
    assert_eq!(element_kind("Off"), MimiStateKind::Other);
    assert_eq!(element_kind(""), MimiStateKind::Other);
    assert_eq!(state_type(MimiStateKind::Off), ElementType::I64);
    assert_eq!(state_type(MimiStateKind::Cache), ElementType::F32);
    assert_eq!(state_type(MimiStateKind::Other), ElementType::F32);
}

#[test]
fn fresh_states_are_filled_by_kind() {
    let inputs = vec![
        describe_input("off0".to_string(), vec![1]),
        describe_input("cache0".to_string(), vec![2, 1, 3]),
        describe_input("conv0".to_string(), vec![4, 0]),
    ];
    let mut slots = fresh_mimi_slots(&inputs);
    assert_eq!(slots.len(), 3);
    assert_eq!((slots[0].fill, slots[0].len, slots[0].kind), (Fill::Zero, 1, MimiStateKind::Off));
    assert_eq!((slots[1].fill, slots[1].len, slots[1].kind), (Fill::Nan, 6, MimiStateKind::Cache));
    assert_eq!((slots[2].fill, slots[2].len, slots[2].kind), (Fill::Zero, 0, MimiStateKind::Other));
    assert_eq!(slots[1].name, "cache0");
    assert!(slots[0].buf.accepts(ElementType::I64, &[1]));
    assert!(slots[1].buf.accepts(ElementType::F32, &[2, 1, 3]));
    assert!(!slots[1].replace(&[2, 1, 3]));
    assert!(slots[1].replace(&[2, 1, 4]));
    assert!(!slots[1].replace(&[2, 1, 4]));
    assert_eq!(next_state_name(0), "n0");
    assert_eq!(next_state_name(41), "n41");
}

#[test]
fn models_take_tensors_of_their_own_names() {
    let p = params(256, 128);
    let shapes = vec![vec![2, 1, 256, 16, 64], vec![2, 1, 128, 16, 64], vec![9]];
    let v: Vec<(String, ElementType, Vec<i64>)> =
        step_inputs(&p, &shapes).into_iter().map(|t| (t.name, t.etype, t.shape)).collect();
    let row = |n: &str, e: ElementType, s: &[i64]| (n.to_string(), e, s.to_vec());
    assert_eq!(
        v,
        vec![
            row("token", ElementType::F32, &[1, 1, 32]),
            row("emb", ElementType::F32, &[1, 1, 1024]),
            row("is_text", ElementType::Boolean, &[1]),
            row("off0", ElementType::I64, &[1]),
            row("cache0", ElementType::F32, &[2, 1, 256, 16, 64]),
            row("off1", ElementType::I64, &[1]),
            row("cache1", ElementType::F32, &[2, 1, 128, 16, 64]),
        ]
    );
    let mut names: Vec<&String> = v.iter().map(|t| &t.0).collect();
    names.sort();
    names.dedup();
    assert_eq!(names.len(), v.len());
    let v: Vec<(String, ElementType, Vec<i64>)> =
        sampler_inputs(&p).into_iter().map(|t| (t.name, t.etype, t.shape)).collect();
    assert_eq!(
        v,
        vec![row("cond", ElementType::F32, &[1, 1024]), row("noise", ElementType::F32, &[1, 32])]
    );
    let t = decoder_input(&p);
    assert_eq!((t.name, t.etype, t.shape), row("latent", ElementType::F32, &[1, 1, 32]));
}

#[test]
fn a_steady_layout_is_allocated_once() {
    let mut t = Reusable::new(ElementType::F32, &[2, 1, 256, 16, 64]);
    let rebuilt = (0..100).filter(|_| t.ensure(ElementType::F32, &[2, 1, 256, 16, 64])).count();
    assert_eq!(rebuilt, 0);
    let rebuilt = (0..4).filter(|k| t.ensure(ElementType::F32, &[1, *k / 2])).count();
    assert_eq!(rebuilt, 2);
}

#[test]
fn a_run_that_expects_too_much_is_refused_whatever_the_amount() {
    let p = params(100, 30);
    for huge in [101, usize::MAX / 2, usize::MAX] {
        assert!(matches!(start(&p, vec![0], 0, huge), Err(SynthError::MaxLen)));
        let r: Result<BitRun, SynthError> =
            Synth::start(&p, &[], &[u32::MAX; 3], vec![0], 0, huge, 3);
        assert!(matches!(r, Err(SynthError::MaxLen)));
    }
}
