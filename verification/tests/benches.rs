use pocket_tts_deploy::bench::{
    audio_dims, every_nth, expected_frames, frame_bounds, live_env, live_wav_name, oe, ort_message,
    run_seeds, step_env, step_wav_name, threads_label, AudioError, FRAME, FRAMES_AFTER, WARMUP_SEED,
};
use pocket_tts_deploy::package::{
    decoder_device, default_candidates, device_named, first_package, model_files,
    not_a_package_message, not_located_message, Anchor, Device, Found,
};

#[test]
fn errors_of_the_runtime_are_reported() {
    let ok: Result<u8, String> = Ok(3);
    assert_eq!(oe(ok), Ok(3));
    let err: Result<u8, &str> = Err("no \"model\"");
    assert_eq!(oe(err), Err("ort: \"no \\\"model\\\"\"".to_string()));
    let err: Result<u8, Option<i32>> = Err(Some(-1));
    assert_eq!(oe(err), Err("ort: Some(-1)".to_string()));
    assert_eq!(ort_message("x"), "ort: x");
}

#[test]
fn thread_counts_are_labelled() {
    assert_eq!(threads_label(Some(8)), "8T");
    assert_eq!(threads_label(Some(24)), "24T");
    assert_eq!(threads_label(None), "auto");
    assert_eq!(live_wav_name(Some(8)), "candle_cpu8T_FP32.wav");
    assert_eq!(live_wav_name(None), "candle_cpuauto_FP32.wav");
    assert_eq!(step_wav_name(Some(8), "INT8-dyn"), "onnxrs_cpu8T_INT8-dyn.wav");
    assert_eq!(step_wav_name(None, "FP32"), "onnxrs_cpuauto_FP32.wav");
}

#[test]
fn thread_counts_reach_every_backend() {
    let pairs = |v: Vec<pocket_tts_deploy::bench::EnvVar>| -> Vec<(String, String)> {
        v.into_iter().map(|e| (e.name, e.value)).collect()
    };
    let set = |n: &str, v: &str| (n.to_string(), v.to_string());
    assert_eq!(
        pairs(live_env(Some(8))),
        vec![set("RAYON_NUM_THREADS", "8"), set("OMP_NUM_THREADS", "8"), set("MKL_NUM_THREADS", "8")]
    );
    assert!(pairs(live_env(None)).is_empty());
    assert_eq!(pairs(step_env(Some(1))), vec![set("RAYON_NUM_THREADS", "1")]);
    assert!(pairs(step_env(None)).is_empty());
}

#[test]
fn the_warmup_seed_is_its_own() {
    assert_eq!(run_seeds(3), vec![999, 0, 1, 2]);
    assert_eq!(run_seeds(0), vec![999]);
    let seeds = run_seeds(999);
    assert_eq!(seeds[0], WARMUP_SEED);
    assert!(!seeds[1..].contains(&WARMUP_SEED));
    assert!(run_seeds(1000)[1..].contains(&WARMUP_SEED));
}

#[test]
fn audio_has_one_or_two_dimensions() {
    assert_eq!(audio_dims(&[2, 100]), Ok((2, 100)));
    assert_eq!(audio_dims(&[100]), Ok((1, 100)));
    assert_eq!(audio_dims(&[]), Err(AudioError::UnexpectedDims));
    assert_eq!(audio_dims(&[1, 2, 3]), Err(AudioError::UnexpectedDims));
}

#[test]
fn striding_follows_the_standard_library() {
    for len in 0..20 {
        let v: Vec<usize> = (0..len).collect();
        for step in 1..7 {
            assert_eq!(every_nth(&v, step), v.iter().copied().step_by(step).collect::<Vec<_>>());
        }
        assert_eq!(every_nth(&v, usize::MAX), v.iter().copied().take(1).collect::<Vec<_>>());
    }
    assert_eq!(every_nth(&[0.5f32, 1.0, 0.25, 2.0], 2), vec![0.5, 0.25]);
}

#[test]
fn frames_follow_the_standard_library() {
    assert_eq!(FRAME, 4096);
    for len in [0, 1, 4095, 4096, 4097, 8192, 10000] {
        let v = vec![0u8; len];
        let lens: Vec<usize> = v.chunks(FRAME).map(|c| c.len()).collect();
        let bounds = frame_bounds(len);
        assert_eq!(bounds.iter().map(|(a, b)| b - a).collect::<Vec<_>>(), lens);
        let mut at = 0;
        for (a, b) in bounds {
            assert_eq!(a, at);
            at = b;
        }
        assert_eq!(at, len);
    }
}

#[test]
fn expected_frames_round_up() {
    assert_eq!(expected_frames(0), 25);
    assert_eq!(expected_frames(1), 30);
    assert_eq!(expected_frames(20), 109);
    for tokens in 0..20000usize {
        let float = ((tokens as f64 / 3.0 + 2.0) * 12.5).ceil() as usize;
        assert_eq!(expected_frames(tokens), float);
    }
    assert_eq!(FRAMES_AFTER, 3);
}

#[test]
fn packages_are_looked_for_in_order() {
    let list = |e: bool, w: bool| -> Vec<(Anchor, String)> {
        default_candidates(e, w).into_iter().map(|c| (c.anchor, c.path)).collect()
    };
    let exe = vec![
        (Anchor::Executable, "../../test-assets/deploy_package_fp32_fp32_256".to_string()),
        (Anchor::Executable, "../../../deploy_package_fp32_fp32_256".to_string()),
    ];
    let cwd = vec![
        (Anchor::Working, "test-assets/deploy_package_fp32_fp32_256".to_string()),
        (Anchor::Working, "deploy_package_fp32_fp32_256".to_string()),
    ];
    assert_eq!(list(true, false), exe);
    assert_eq!(list(false, true), cwd);
    assert_eq!(list(true, true), [exe, cwd].concat());
    assert!(list(false, false).is_empty());
}

#[test]
fn a_package_has_models_and_assets() {
    let f = |models: bool, assets: bool| Found { models, assets };
    assert_eq!(first_package(&[f(true, false), f(false, true), f(true, true), f(true, true)]), Some(2));
    assert_eq!(first_package(&[f(true, false), f(false, true)]), None);
    assert_eq!(first_package(&[]), None);
}

#[test]
fn a_missing_package_lists_what_was_tried() {
    let tried = |v: &[&str]| -> Vec<String> { v.iter().map(|s| s.to_string()).collect() };
    assert_eq!(
        not_located_message(&tried(&["a/b", "c", "d"])),
        "cannot locate deploy_package_fp32_fp32_256 (tried: a/b, c, d); pass --pkg explicitly"
    );
    assert_eq!(
        not_located_message(&[]),
        "cannot locate deploy_package_fp32_fp32_256 (tried: ); pass --pkg explicitly"
    );
    assert_eq!(not_a_package_message("/x"), "--pkg not a deploy package: /x");
    assert_eq!(model_files("mimi"), ("mimi.xml".to_string(), "mimi.bin".to_string()));
}

#[test]
fn devices_go_by_name() {
    assert!(matches!(device_named("CPU"), Device::Cpu));
    assert!(matches!(device_named("GPU"), Device::Gpu));
    assert!(matches!(device_named("NPU"), Device::Npu));
    match device_named("GPU.1") {
        Device::Other(s) => assert_eq!(s, "GPU.1"),
        _ => panic!("not a device of its own"),
    }
    assert!(matches!(decoder_device("GPU.1", Some("CPU")), Device::Cpu));
    assert!(matches!(decoder_device("NPU", None), Device::Npu));
}
