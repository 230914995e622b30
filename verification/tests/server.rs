use pocket_tts_deploy::serve::{
    choose_plain, choose_source, list_voices, listen_address, ModelSource, Outcome, ServeArgs,
    StartAction, StartError, Startup, UiMode, WasmAssets,
};
use pocket_tts_deploy::wasm_demo::{list_notices, serve_args, WasmDemoArgs};

const ALL: WasmAssets = WasmAssets { script: true, module: true };

fn args() -> ServeArgs {
    ServeArgs {
        host: "127.0.0.1".to_string(),
        port: 8000,
        voice: "alba".to_string(),
        variant: "b6369a24".to_string(),
        config: None,
        lsd_decode_steps: 1,
        quantized: false,
        voice_cache_capacity: 64,
        prewarm_voices: "alba, marius".to_string(),
        warmup: true,
        omp_threads: None,
        mkl_threads: None,
        ui: UiMode::Standard,
    }
}

/// Runs a startup to its end: voices that are cached, and the action that fails.
fn run(mut s: Startup, cached: &[usize], fails: Option<StartAction>) -> Vec<StartAction> {
    let mut seen = Vec::new();
    loop {
        let a = s.action();
        seen.push(a);
        match a {
            StartAction::Serve | StartAction::Fail(_) => return seen,
            StartAction::LookUp(i) if !cached.contains(&i) => s.advance(Outcome::Failed),
            _ if Some(a) == fails => s.advance(Outcome::Failed),
            _ => s.advance(Outcome::Done),
        }
    }
}

#[test]
fn a_server_starts_in_order() {
    let mut a = args();
    a.omp_threads = Some(4);
    a.mkl_threads = Some(2);
    assert_eq!(
        run(Startup::new(&a, ALL, false), &[0], None),
        vec![
            StartAction::SetOmp(4),
            StartAction::SetMkl(2),
            StartAction::LoadModel,
            StartAction::LoadVoice,
            StartAction::LookUp(0),
            StartAction::LookUp(1),
            StartAction::Prewarm(1),
            StartAction::Warmup,
            StartAction::Serve,
        ]
    );
    a.omp_threads = None;
    a.mkl_threads = None;
    a.warmup = false;
    a.prewarm_voices = String::new();
    assert_eq!(
        run(Startup::new(&a, ALL, false), &[], None),
        vec![StartAction::LoadModel, StartAction::LoadVoice, StartAction::Serve]
    );
    let s = Startup::new(&args(), ALL, false);
    assert_eq!(s.voice(0), "alba");
    assert_eq!(s.voice(1), "marius");
}

#[test]
fn a_failed_prewarm_is_passed_over() {
    let good = run(Startup::new(&args(), ALL, false), &[], None);
    let bad = run(Startup::new(&args(), ALL, false), &[], Some(StartAction::Prewarm(0)));
    assert_eq!(good, bad);
}

#[test]
fn any_other_failure_ends_the_startup() {
    for a in [StartAction::LoadModel, StartAction::LoadVoice, StartAction::Warmup] {
        let seen = run(Startup::new(&args(), ALL, false), &[0, 1], Some(a));
        assert_eq!(seen.last(), Some(&StartAction::Fail(StartError::Step)));
        assert_eq!(seen[seen.len() - 2], a);
    }
}

#[test]
fn a_page_that_is_not_built_ends_the_startup() {
    let mut a = args();
    a.omp_threads = Some(1);
    a.ui = UiMode::WasmExperimental;
    for (script, module) in [(false, true), (true, false), (false, false)] {
        let seen = run(Startup::new(&a, WasmAssets { script, module }, false), &[], None);
        assert_eq!(seen, vec![StartAction::Fail(StartError::MissingWasm)]);
    }
    assert_eq!(run(Startup::new(&a, ALL, false), &[0, 1], None)[0], StartAction::SetOmp(1));
    a.ui = UiMode::Standard;
    let none = WasmAssets { script: false, module: false };
    assert_eq!(run(Startup::new(&a, none, false), &[0, 1], None)[0], StartAction::SetOmp(1));
}

#[test]
fn a_model_that_cannot_be_had_ends_the_startup_after_the_threads() {
    let mut a = args();
    a.quantized = true;
    a.mkl_threads = Some(3);
    assert_eq!(
        run(Startup::new(&a, ALL, false), &[], None),
        vec![StartAction::SetMkl(3), StartAction::Fail(StartError::NotQuantized)]
    );
    a.config = Some("x.yaml".to_string());
    assert_eq!(
        run(Startup::new(&a, ALL, true), &[], None),
        vec![StartAction::SetMkl(3), StartAction::Fail(StartError::QuantizedConfig)]
    );
    a.config = None;
    let s = Startup::new(&a, ALL, true);
    assert!(matches!(s.source(), Ok(ModelSource::Quantized(v)) if v == "b6369a24"));
}

#[test]
fn a_configuration_wins_over_a_variant() {
    let config = || Some("hf://seastar105/pocket-tts-korean-300m/korean.yaml".to_string());
    for variant in ["korean", "b6369a24"] {
        match choose_source(false, false, config(), variant.to_string()) {
            Ok(ModelSource::Config(c)) => assert_eq!(Some(c), config()),
            _ => panic!("no configuration"),
        }
        match choose_plain(config(), variant.to_string()) {
            ModelSource::Config(c) => assert_eq!(Some(c), config()),
            _ => panic!("no configuration"),
        }
        match choose_plain(None, variant.to_string()) {
            ModelSource::Variant(v) => assert_eq!(v, variant),
            _ => panic!("no variant"),
        }
        assert!(matches!(
            choose_source(true, true, config(), variant.to_string()),
            Err(StartError::QuantizedConfig)
        ));
        assert!(matches!(
            choose_source(true, false, config(), variant.to_string()),
            Err(StartError::NotQuantized)
        ));
    }
}

#[test]
fn voices_are_listed_with_commas() {
    assert_eq!(list_voices("alba"), vec!["alba"]);
    assert_eq!(list_voices(" alba ,,\tmy voice.wav , "), vec!["alba", "my voice.wav"]);
    assert!(list_voices("").is_empty());
    assert!(list_voices(" , ,").is_empty());
}

#[test]
fn the_address_is_host_and_port() {
    assert_eq!(listen_address("127.0.0.1", 8000), "127.0.0.1:8000");
    assert_eq!(listen_address("0.0.0.0", 0), "0.0.0.0:0");
}

#[test]
fn startup_errors_have_their_text() {
    assert_eq!(
        StartError::MissingWasm.message("\"pkg\"", ""),
        "WASM UI mode requires built WASM assets at \"pkg\". Run scripts/build-wasm.ps1 (Windows) or scripts/build-wasm.sh (Unix)."
    );
    assert_eq!(
        StartError::NotQuantized.message("", ""),
        "Quantization feature not enabled. Rebuild with --features quantized"
    );
    assert_eq!(
        StartError::QuantizedConfig.message("", ""),
        "--quantized requires --variant; custom --config is not supported with quantization"
    );
    assert_eq!(StartError::Step.message("", "no voice"), "no voice");
}

fn demo(root: Option<&str>, models: Option<&str>) -> WasmDemoArgs {
    WasmDemoArgs {
        host: "0.0.0.0".to_string(),
        port: 8080,
        root: root.map(std::path::PathBuf::from),
        models: models.map(std::path::PathBuf::from),
    }
}

#[test]
fn the_demo_says_that_it_is_deprecated() {
    let first =
        "[deprecated] `wasm-demo` is deprecated. Use: pocket-tts serve --ui wasm-experimental [--port 8080]";
    let note = "[note] `--root` and `--models` are ignored by the new unified UI path.";
    assert_eq!(list_notices(&demo(None, None)), vec![first]);
    assert_eq!(list_notices(&demo(Some("a"), None)), vec![first, note]);
    assert_eq!(list_notices(&demo(None, Some("b"))), vec![first, note]);
    assert_eq!(list_notices(&demo(Some("a"), Some("b"))), vec![first, note]);
}

#[test]
fn the_demo_serves_the_page_that_runs_the_model() {
    let s = serve_args(demo(Some("a"), None));
    assert_eq!((s.host.as_str(), s.port), ("0.0.0.0", 8080));
    assert_eq!((s.voice.as_str(), s.prewarm_voices.as_str()), ("alba", "alba"));
    assert_eq!(s.variant, "b6369a24");
    assert_eq!((s.lsd_decode_steps, s.voice_cache_capacity), (1, 64));
    assert!(s.config.is_none() && s.omp_threads.is_none() && s.mkl_threads.is_none());
    assert!(!s.quantized && s.warmup);
    assert_eq!(s.ui, UiMode::WasmExperimental);
    assert_eq!(
        run(Startup::new(&s, ALL, false), &[0], None),
        vec![
            StartAction::LoadModel,
            StartAction::LoadVoice,
            StartAction::LookUp(0),
            StartAction::Warmup,
            StartAction::Serve,
        ]
    );
}

#[test]
fn a_voice_cache_that_cannot_be_used_ends_the_startup() {
    for a in [StartAction::LoadVoice, StartAction::LookUp(0), StartAction::Prewarm(0)] {
        let mut s = Startup::new(&args(), ALL, false);
        while s.action() != a {
            let lookup = matches!(s.action(), StartAction::LookUp(_));
            s.advance(if lookup { Outcome::Failed } else { Outcome::Done });
        }
        s.advance(Outcome::Broken);
        assert_eq!(s.action(), StartAction::Fail(StartError::VoiceCache));
    }
    assert_eq!(StartError::VoiceCache.message("", ""), "voice cache lock poisoned");
}
