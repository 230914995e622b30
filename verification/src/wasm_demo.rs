//! The deprecated way to the page that runs the model in the browser.
use vstd::prelude::*;
use crate::serve::{ServeArgs, UiMode};
use crate::text::{decimal, decimal_text, joined, owned, texts};

verus! {

/// `std::path::PathBuf`, opaque.
#[verifier::external_type_specification]
#[verifier::external_body]
pub struct ExPathBuf(std::path::PathBuf);

/// What the command takes.
#[derive(Debug, Clone)]
pub struct WasmDemoArgs {
    /// Host address to bind.
    pub host: String,
    /// Port to listen on.
    pub port: u16,
    /// Kept for compatibility, and ignored.
    pub root: Option<std::path::PathBuf>,
    /// Kept for compatibility, and ignored.
    pub models: Option<std::path::PathBuf>,
}

/// What the command tells its user: that it is deprecated and, where an option is ignored, that
/// it is.
pub open spec fn notices(port: u16, ignored: bool) -> Seq<Seq<char>> {
    let deprecated =
        "[deprecated] `wasm-demo` is deprecated. Use: pocket-tts serve --ui wasm-experimental [--port "@
        + decimal(port as nat) + "]"@;
    if ignored {
        seq![
            deprecated,
            "[note] `--root` and `--models` are ignored by the new unified UI path."@,
        ]
    } else {
        seq![deprecated]
    }
}

/// Lists what the command tells its user.
pub fn list_notices(args: &WasmDemoArgs) -> (v: Vec<String>)
    ensures
        texts(v@) == notices(args.port, args.root is Some || args.models is Some),
        v@.len() == if args.root is Some || args.models is Some {
            2nat
        } else {
            1nat
        },
        v@[0]@
            == "[deprecated] `wasm-demo` is deprecated. Use: pocket-tts serve --ui wasm-experimental [--port "@
            + decimal(args.port as nat) + "]"@,
        args.root is Some || args.models is Some ==> v@[1]@
            == "[note] `--root` and `--models` are ignored by the new unified UI path."@,
{
    let mut v: Vec<String> = Vec::new();
    let front: String = joined(
        "[deprecated] `wasm-demo` is deprecated. Use: pocket-tts serve --ui wasm-experimental [--port ",
        decimal_text(args.port as usize).as_str(),
    );
    v.push(joined(front.as_str(), "]"));
    if args.root.is_some() || args.models.is_some() {
        v.push(owned("[note] `--root` and `--models` are ignored by the new unified UI path."));
    }
    assert(texts(v@) =~= notices(args.port, args.root is Some || args.models is Some));
    v
}

/// The arguments of the server that the command stands for: its host and port, the page that
/// runs the model itself, and fixed settings for everything else.
pub open spec fn is_forwarded(host: Seq<char>, port: u16, s: ServeArgs) -> bool {
    &&& s.host@ == host
    &&& s.port == port
    &&& s.voice@ == "alba"@
    &&& s.variant@ == "b6369a24"@
    &&& s.config is None
    &&& s.lsd_decode_steps == 1
    &&& !s.quantized
    &&& s.voice_cache_capacity == 64
    &&& s.prewarm_voices@ == "alba"@
    &&& s.warmup
    &&& s.omp_threads is None
    &&& s.mkl_threads is None
    &&& s.ui is WasmExperimental
}

/// The arguments of the server that the command stands for.
pub fn serve_args(args: WasmDemoArgs) -> (s: ServeArgs)
    ensures
        is_forwarded(args.host@, args.port, s),
        s.host@ == args.host@,
        s.port == args.port,
        s.voice@ == "alba"@,
        s.variant@ == "b6369a24"@,
        s.config is None,
        s.lsd_decode_steps == 1,
        !s.quantized,
        s.voice_cache_capacity == 64,
        s.prewarm_voices@ == "alba"@,
        s.warmup,
        s.omp_threads is None,
        s.mkl_threads is None,
        s.ui is WasmExperimental,
{
    ServeArgs {
        host: args.host,
        port: args.port,
        voice: owned("alba"),
        variant: owned("b6369a24"),
        config: None,
        lsd_decode_steps: 1,
        quantized: false,
        voice_cache_capacity: 64,
        prewarm_voices: owned("alba"),
        warmup: true,
        omp_threads: None,
        mkl_threads: None,
        ui: UiMode::WasmExperimental,
    }
}

} // verus!
