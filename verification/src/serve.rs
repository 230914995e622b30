//! Starting the speech server.
//!
//! Loading, caching and serving happen outside. `Startup` says what to do next and takes in how
//! it went.
use vstd::prelude::*;
use crate::text::{chars_of, decimal, decimal_text, fields, joined, nonempty, owned, push_trimmed, texts, trim, trimmed};

verus! {

/// What the server shows in a browser.
#[derive(Debug, Clone, Copy, PartialEq, Eq, Structural)]
pub enum UiMode {
    /// A page that streams from the server.
    Standard,
    /// A page that runs the model itself.
    WasmExperimental,
}

/// How to serve, apart from the floating-point settings.
#[derive(Debug)]
pub struct ServeArgs {
    pub host: String,
    pub port: u16,
    pub voice: String,
    pub variant: String,
    pub config: Option<String>,
    pub lsd_decode_steps: usize,
    pub quantized: bool,
    pub voice_cache_capacity: usize,
    pub prewarm_voices: String,
    pub warmup: bool,
    pub omp_threads: Option<usize>,
    pub mkl_threads: Option<usize>,
    pub ui: UiMode,
}

/// Why the server does not start.
#[derive(Debug, Clone, Copy, PartialEq, Eq, Structural)]
pub enum StartError {
    /// The page that runs the model itself has not been built.
    MissingWasm,
    /// Quantized models are not built in.
    NotQuantized,
    /// A configuration of its own cannot be quantized.
    QuantizedConfig,
    /// A step failed.
    Step,
    /// The voice cache cannot be used.
    VoiceCache,
}

/// Where a model comes from.
#[derive(Debug)]
pub enum ModelSource {
    /// The quantized model of a variant.
    Quantized(String),
    /// A configuration, by path or address.
    Config(String),
    /// The model of a variant.
    Variant(String),
}

/// `ModelSource` over character sequences.
pub enum SourceView {
    Quantized(Seq<char>),
    Config(Seq<char>),
    Variant(Seq<char>),
}

impl View for ModelSource {
    type V = SourceView;

    open spec fn view(&self) -> SourceView {
        match *self {
            ModelSource::Quantized(s) => SourceView::Quantized(s@),
            ModelSource::Config(s) => SourceView::Config(s@),
            ModelSource::Variant(s) => SourceView::Variant(s@),
        }
    }
}

/// The characters of a configuration, if there is one.
pub open spec fn config_view(config: Option<String>) -> Option<Seq<char>> {
    match config {
        Some(c) => Some(c@),
        None => None,
    }
}

/// A configuration wins over a variant.
pub open spec fn plain_source(config: Option<Seq<char>>, variant: Seq<char>) -> SourceView {
    match config {
        Some(c) => SourceView::Config(c),
        None => SourceView::Variant(variant),
    }
}

/// Where the model comes from. Quantized models need the feature, and take no configuration.
pub open spec fn source(
    quantized: bool,
    feature: bool,
    config: Option<Seq<char>>,
    variant: Seq<char>,
) -> Result<SourceView, StartError> {
    if !quantized {
        Ok(plain_source(config, variant))
    } else if !feature {
        Err(StartError::NotQuantized)
    } else if config is Some {
        Err(StartError::QuantizedConfig)
    } else {
        Ok(SourceView::Quantized(variant))
    }
}

/// Picks a configuration where there is one, and the variant otherwise.
pub fn choose_plain(config: Option<String>, variant: String) -> (s: ModelSource)
    ensures
        s@ == plain_source(config_view(config), variant@),
        config matches Some(c) ==> s@ == SourceView::Config(c@),
        config is None ==> s@ == SourceView::Variant(variant@),
{
    match config {
        Some(c) => ModelSource::Config(c),
        None => ModelSource::Variant(variant),
    }
}

/// Picks where the model comes from.
pub fn choose_source(quantized: bool, feature: bool, config: Option<String>, variant: String) -> (r:
    Result<ModelSource, StartError>)
    ensures
        match r {
            Ok(s) => source(quantized, feature, config_view(config), variant@) == Ok::<
                SourceView,
                StartError,
            >(s@),
            Err(e) => source(quantized, feature, config_view(config), variant@) == Err::<
                SourceView,
                StartError,
            >(e),
        },
        !quantized ==> (r matches Ok(s) && s@ == match config {
            Some(c) => SourceView::Config(c@),
            None => SourceView::Variant(variant@),
        }),
        quantized && !feature ==> (r matches Err(e) && e is NotQuantized),
        quantized && feature && config is Some ==> (r matches Err(e) && e is QuantizedConfig),
        quantized && feature && config is None ==> (r matches Ok(s) && s@ == SourceView::Quantized(
            variant@,
        )),
{
    if !quantized {
        Ok(choose_plain(config, variant))
    } else if !feature {
        Err(StartError::NotQuantized)
    } else if config.is_some() {
        Err(StartError::QuantizedConfig)
    } else {
        Ok(ModelSource::Quantized(variant))
    }
}

/// The voices in a list with commas between them: trimmed, without empty entries.
pub open spec fn listed_voices(list: Seq<char>) -> Seq<Seq<char>> {
    nonempty(trimmed(fields(list, |c: char| c == ',')))
}

/// Takes the voices out of a list with commas between them.
pub fn list_voices(list: &str) -> (voices: Vec<String>)
    ensures
        texts(voices@) == listed_voices(list@),
        voices@.len() == listed_voices(list@).len(),
        forall|i: int| 0 <= i < voices@.len() ==> (#[trigger] voices@[i])@ == listed_voices(list@)[i],
{
    let cs: Vec<char> = chars_of(list);
    let mut voices: Vec<String> = Vec::new();
    let mut cur: Vec<char> = Vec::new();
    let ghost mut done: Seq<Seq<char>> = Seq::empty();
    let ghost comma = |c: char| c == ',';
    let mut i: usize = 0;
    assert(cs@.take(0) =~= Seq::empty());
    assert(fields(cs@.take(0), comma) =~= done.push(cur@));
    assert(texts(voices@) =~= nonempty(trimmed(done)));
    while i < cs.len()
        invariant
            i <= cs.len(),
            comma == |c: char| c == ',',
            fields(cs@.take(i as int), comma) == done.push(cur@),
            texts(voices@) == nonempty(trimmed(done)),
        decreases cs.len() - i,
    {
        let c: char = cs[i];
        assert(cs@.take(i + 1).drop_last() =~= cs@.take(i as int));
        assert(done.push(cur@).drop_last() =~= done);
        if c == ',' {
            push_trimmed(&mut voices, &cur, Ghost(done));
            proof {
                done = done.push(cur@);
            }
            cur = Vec::new();
        } else {
            cur.push(c);
        }
        i = i + 1;
        assert(fields(cs@.take(i as int), comma) =~= done.push(cur@));
    }
    assert(cs@.take(cs@.len() as int) =~= list@);
    push_trimmed(&mut voices, &cur, Ghost(done));
    assert(texts(voices@).len() == voices@.len());
    assert forall|i: int| 0 <= i < voices@.len() implies (#[trigger] voices@[i])@ == listed_voices(
        list@,
    )[i] by {
        assert(texts(voices@)[i] == voices@[i]@);
    }
    voices
}

/// A comma separates the voices before it from those behind it; a list without one is one voice,
/// without the white space around it, or none where that is all there is.
pub proof fn law_voices_are_separated_by_commas(a: Seq<char>, b: Seq<char>)
    ensures
        listed_voices(a + seq![','] + b) == listed_voices(a) + listed_voices(b),
        !a.contains(',') ==> listed_voices(a) == if trim(a).len() == 0 {
            Seq::<Seq<char>>::empty()
        } else {
            seq![trim(a)]
        },
{
    let comma = |c: char| c == ',';
    let (fa, fb) = (fields(a, comma), fields(b, comma));
    crate::text::law_fields_are_cut_apart(a, ',', b, comma);
    assert(trimmed(fa + fb) =~= trimmed(fa) + trimmed(fb));
    crate::text::law_pieces_kept_are_not_empty(trimmed(fa), trimmed(fb), trim(a));
    if !a.contains(',') {
        assert forall|i: int| 0 <= i < a.len() implies !comma(#[trigger] a[i]) by {
            assert(a.contains(a[i]));
        }
        assert(trimmed(seq![a]) =~= seq![trim(a)]);
    }
}

/// What to do next.
#[derive(Debug, Clone, Copy, PartialEq, Eq, Structural)]
pub enum StartAction {
    /// Set `OMP_NUM_THREADS`.
    SetOmp(usize),
    /// Set `MKL_NUM_THREADS`.
    SetMkl(usize),
    /// Load the model.
    LoadModel,
    /// Load the default voice, and put it into the voice cache.
    LoadVoice,
    /// Look the voice of this index up in the voice cache.
    LookUp(usize),
    /// Load the voice of this index, and put it into the voice cache.
    Prewarm(usize),
    /// Generate the first frame of a short text.
    Warmup,
    /// Serve.
    Serve,
    /// Give up.
    Fail(StartError),
}

/// How it went.
#[derive(Debug, Clone, Copy, PartialEq, Eq, Structural)]
pub enum Outcome {
    /// It was done; a voice that was looked up is cached.
    Done,
    /// It failed; a voice that was looked up is not cached.
    Failed,
    /// The voice cache could not be used for it.
    Broken,
}

/// A server on its way to serving.
pub struct Startup {
    omp: Option<usize>,
    mkl: Option<usize>,
    source: Result<ModelSource, StartError>,
    voices: Vec<String>,
    warmup: bool,
    action: StartAction,
}

/// `Startup` over sequences.
#[verifier::ext_equal]
pub struct StartView {
    /// The thread count for `OMP_NUM_THREADS`.
    pub omp: Option<usize>,
    /// The thread count for `MKL_NUM_THREADS`.
    pub mkl: Option<usize>,
    /// Where the model comes from.
    pub source: Result<SourceView, StartError>,
    /// The voices to prewarm.
    pub voices: Seq<Seq<char>>,
    /// Whether a first frame is generated before serving.
    pub warmup: bool,
    /// What to do next.
    pub action: StartAction,
}

impl View for Startup {
    type V = StartView;

    closed spec fn view(&self) -> StartView {
        StartView {
            omp: self.omp,
            mkl: self.mkl,
            source: match self.source {
                Ok(s) => Ok(s@),
                Err(e) => Err(e),
            },
            voices: texts(self.voices@),
            warmup: self.warmup,
            action: self.action,
        }
    }
}

impl StartView {
    /// The model comes after the thread counts; where it cannot be had, that is the end.
    pub open spec fn model_step(self) -> StartAction {
        match self.source {
            Ok(_) => StartAction::LoadModel,
            Err(e) => StartAction::Fail(e),
        }
    }

    /// What follows the first thread count.
    pub open spec fn mkl_step(self) -> StartAction {
        match self.mkl {
            Some(t) => StartAction::SetMkl(t),
            None => self.model_step(),
        }
    }

    /// What comes first.
    pub open spec fn first_step(self) -> StartAction {
        match self.omp {
            Some(t) => StartAction::SetOmp(t),
            None => self.mkl_step(),
        }
    }

    /// What follows the last voice.
    pub open spec fn last_step(self) -> StartAction {
        if self.warmup {
            StartAction::Warmup
        } else {
            StartAction::Serve
        }
    }

    /// Looking up voice `i`, or what follows the voices.
    pub open spec fn voice_step(self, i: nat) -> StartAction {
        if i < self.voices.len() {
            StartAction::LookUp(i as usize)
        } else {
            self.last_step()
        }
    }

    /// What follows the action at hand. A voice that cannot be prewarmed is passed over; any
    /// other failure is the end, and so is a voice cache that cannot be used.
    pub open spec fn next_step(self, outcome: Outcome) -> StartAction {
        match self.action {
            StartAction::SetOmp(_) => self.mkl_step(),
            StartAction::SetMkl(_) => self.model_step(),
            StartAction::LoadModel => match outcome {
                Outcome::Done => StartAction::LoadVoice,
                _ => StartAction::Fail(StartError::Step),
            },
            StartAction::LoadVoice => match outcome {
                Outcome::Done => self.voice_step(0),
                Outcome::Failed => StartAction::Fail(StartError::Step),
                Outcome::Broken => StartAction::Fail(StartError::VoiceCache),
            },
            StartAction::LookUp(i) => match outcome {
                Outcome::Done => self.voice_step((i + 1) as nat),
                Outcome::Failed => StartAction::Prewarm(i),
                Outcome::Broken => StartAction::Fail(StartError::VoiceCache),
            },
            StartAction::Prewarm(i) => match outcome {
                Outcome::Broken => StartAction::Fail(StartError::VoiceCache),
                _ => self.voice_step((i + 1) as nat),
            },
            StartAction::Warmup => match outcome {
                Outcome::Done => StartAction::Serve,
                _ => StartAction::Fail(StartError::Step),
            },
            StartAction::Serve => StartAction::Serve,
            StartAction::Fail(e) => StartAction::Fail(e),
        }
    }

    /// After the action at hand.
    pub open spec fn after(self, outcome: Outcome) -> StartView {
        StartView { action: self.next_step(outcome), ..self }
    }

    /// What holds on the way: the voice at hand is one of the list.
    pub open spec fn valid(self) -> bool {
        &&& self.voices.len() <= usize::MAX
        &&& self.action matches StartAction::LookUp(i) ==> i < self.voices.len()
        &&& self.action matches StartAction::Prewarm(i) ==> i < self.voices.len()
    }
}

/// The assets of the page that runs the model itself.
#[derive(Debug, Clone, Copy, PartialEq, Eq, Structural)]
pub struct WasmAssets {
    /// The script is there.
    pub script: bool,
    /// The module is there.
    pub module: bool,
}

/// The page that is asked for can be shown.
pub open spec fn ui_ready(ui: UiMode, assets: WasmAssets) -> bool {
    ui is WasmExperimental ==> assets.script && assets.module
}

/// The beginning of a startup.
pub open spec fn first_view(args: ServeArgs, assets: WasmAssets, feature: bool) -> StartView {
    let v = StartView {
        omp: args.omp_threads,
        mkl: args.mkl_threads,
        source: source(args.quantized, feature, config_view(args.config), args.variant@),
        voices: listed_voices(args.prewarm_voices@),
        warmup: args.warmup,
        action: StartAction::Serve,
    };
    StartView {
        action: if ui_ready(args.ui, assets) {
            v.first_step()
        } else {
            StartAction::Fail(StartError::MissingWasm)
        },
        ..v
    }
}

/// A copy of a configuration.
fn copy_config(config: &Option<String>) -> (r: Option<String>)
    ensures
        config_view(r) == config_view(*config),
{
    match config {
        Some(c) => Some(owned(c.as_str())),
        None => None,
    }
}

impl Startup {
    /// Begins to start a server; `feature` tells whether quantized models are built in.
    pub fn new(args: &ServeArgs, assets: WasmAssets, feature: bool) -> (s: Startup)
        ensures
            s@ == first_view(*args, assets, feature),
            s@.valid(),
            s@.omp == args.omp_threads,
            s@.mkl == args.mkl_threads,
            s@.warmup == args.warmup,
            s@.voices == listed_voices(args.prewarm_voices@),
            s@.source == source(args.quantized, feature, config_view(args.config), args.variant@),
            s@.action == StartAction::Fail(StartError::MissingWasm) <==> args.ui
                is WasmExperimental && !(assets.script && assets.module),
    {
        let config: Option<String> = copy_config(&args.config);
        let voices: Vec<String> = list_voices(args.prewarm_voices.as_str());
        assert(texts(voices@).len() == voices.len());
        let mut s: Startup = Startup {
            omp: args.omp_threads,
            mkl: args.mkl_threads,
            source: choose_source(
                args.quantized,
                feature,
                config,
                owned(args.variant.as_str()),
            ),
            voices,
            warmup: args.warmup,
            action: StartAction::Serve,
        };
        let ready: bool = match args.ui {
            UiMode::Standard => true,
            UiMode::WasmExperimental => assets.script && assets.module,
        };
        let first: StartAction = s.first_step();
        s.action = if ready {
            first
        } else {
            StartAction::Fail(StartError::MissingWasm)
        };
        s
    }

    fn model_step(&self) -> (a: StartAction)
        ensures
            a == self@.model_step(),
    {
        match &self.source {
            Ok(_) => StartAction::LoadModel,
            Err(e) => StartAction::Fail(*e),
        }
    }

    fn mkl_step(&self) -> (a: StartAction)
        ensures
            a == self@.mkl_step(),
    {
        match self.mkl {
            Some(t) => StartAction::SetMkl(t),
            None => self.model_step(),
        }
    }

    fn first_step(&self) -> (a: StartAction)
        ensures
            a == self@.first_step(),
    {
        match self.omp {
            Some(t) => StartAction::SetOmp(t),
            None => self.mkl_step(),
        }
    }

    fn voice_step(&self, i: usize) -> (a: StartAction)
        ensures
            a == self@.voice_step(i as nat),
    {
        assert(self@.voices.len() == self.voices.len());
        if i < self.voices.len() {
            StartAction::LookUp(i)
        } else if self.warmup {
            StartAction::Warmup
        } else {
            StartAction::Serve
        }
    }

    /// What to do next.
    pub fn action(&self) -> (a: StartAction)
        ensures
            a == self@.action,
    {
        self.action
    }

    /// Where the model comes from.
    pub fn source(&self) -> (r: &Result<ModelSource, StartError>)
        ensures
            match *r {
                Ok(s) => self@.source == Ok::<SourceView, StartError>(s@),
                Err(e) => self@.source == Err::<SourceView, StartError>(e),
            },
    {
        &self.source
    }

    /// A voice to prewarm.
    pub fn voice(&self, i: usize) -> (s: &String)
        requires
            i < self@.voices.len(),
        ensures
            s@ == self@.voices[i as int],
    {
        assert(self@.voices.len() == self.voices.len());
        assert(self@.voices[i as int] == self.voices@[i as int]@);
        &self.voices[i]
    }

    /// Takes in how the action at hand went.
    pub fn advance(&mut self, outcome: Outcome)
        requires
            old(self)@.valid(),
        ensures
            final(self)@ == old(self)@.after(outcome),
            final(self)@.valid(),
    {
        assert(self@.voices.len() == self.voices.len());
        self.action = match self.action {
            StartAction::SetOmp(_) => self.mkl_step(),
            StartAction::SetMkl(_) => self.model_step(),
            StartAction::LoadModel => match outcome {
                Outcome::Done => StartAction::LoadVoice,
                _ => StartAction::Fail(StartError::Step),
            },
            StartAction::LoadVoice => match outcome {
                Outcome::Done => self.voice_step(0),
                Outcome::Failed => StartAction::Fail(StartError::Step),
                Outcome::Broken => StartAction::Fail(StartError::VoiceCache),
            },
            StartAction::LookUp(i) => match outcome {
                Outcome::Done => self.voice_step(i + 1),
                Outcome::Failed => StartAction::Prewarm(i),
                Outcome::Broken => StartAction::Fail(StartError::VoiceCache),
            },
            StartAction::Prewarm(i) => match outcome {
                Outcome::Broken => StartAction::Fail(StartError::VoiceCache),
                _ => self.voice_step(i + 1),
            },
            StartAction::Warmup => match outcome {
                Outcome::Done => StartAction::Serve,
                _ => StartAction::Fail(StartError::Step),
            },
            StartAction::Serve => StartAction::Serve,
            StartAction::Fail(e) => StartAction::Fail(e),
        };
    }
}

/// The address to listen on.
pub open spec fn address(host: Seq<char>, port: u16) -> Seq<char> {
    host + ":"@ + decimal(port as nat)
}

/// The address to listen on.
pub fn listen_address(host: &str, port: u16) -> (s: String)
    ensures
        s@ == address(host@, port),
        s@ == host@ + ":"@ + decimal(port as nat),
{
    joined(joined(host, ":").as_str(), decimal_text(port as usize).as_str())
}

/// The text of an error. `place` shows where the assets of the page were looked for, and
/// `detail` what a step that failed reported.
pub open spec fn start_message(e: StartError, place: Seq<char>, detail: Seq<char>) -> Seq<char> {
    match e {
        StartError::MissingWasm => "WASM UI mode requires built WASM assets at "@ + place
            + ". Run scripts/build-wasm.ps1 (Windows) or scripts/build-wasm.sh (Unix)."@,
        StartError::NotQuantized =>
            "Quantization feature not enabled. Rebuild with --features quantized"@,
        StartError::QuantizedConfig =>
            "--quantized requires --variant; custom --config is not supported with quantization"@,
        StartError::Step => detail,
        StartError::VoiceCache => "voice cache lock poisoned"@,
    }
}

impl StartError {
    /// The text of the error.
    pub fn message(self, place: &str, detail: &str) -> (s: String)
        ensures
            s@ == start_message(self, place@, detail@),
    {
        match self {
            StartError::MissingWasm => joined(
                joined("WASM UI mode requires built WASM assets at ", place).as_str(),
                ". Run scripts/build-wasm.ps1 (Windows) or scripts/build-wasm.sh (Unix).",
            ),
            StartError::NotQuantized => owned(
                "Quantization feature not enabled. Rebuild with --features quantized",
            ),
            StartError::QuantizedConfig => owned(
                "--quantized requires --variant; custom --config is not supported with quantization",
            ),
            StartError::Step => owned(detail),
            StartError::VoiceCache => owned("voice cache lock poisoned"),
        }
    }
}

/// A configuration that is given decides alone: no variant changes what is loaded.
pub proof fn law_config_wins_over_variant(
    quantized: bool,
    feature: bool,
    config: Seq<char>,
    a: Seq<char>,
    b: Seq<char>,
)
    ensures
        source(quantized, feature, Some(config), a) == source(quantized, feature, Some(config), b),
        !quantized ==> source(quantized, feature, Some(config), a) == Ok::<SourceView, StartError>(
            SourceView::Config(config),
        ),
{
}

/// A voice that cannot be prewarmed changes nothing of what follows.
pub proof fn law_prewarm_failures_are_passed_over(s: StartView)
    requires
        s.action is Prewarm,
    ensures
        s.after(Outcome::Failed) == s.after(Outcome::Done),
{
}

/// How far a startup still has to go.
pub open spec fn distance(s: StartView) -> nat {
    match s.action {
        StartAction::SetOmp(_) => 2 * s.voices.len() + 6,
        StartAction::SetMkl(_) => 2 * s.voices.len() + 5,
        StartAction::LoadModel => 2 * s.voices.len() + 4,
        StartAction::LoadVoice => 2 * s.voices.len() + 3,
        StartAction::LookUp(i) => (2 * (s.voices.len() - i) + 2) as nat,
        StartAction::Prewarm(i) => (2 * (s.voices.len() - i) + 1) as nat,
        StartAction::Warmup => 1,
        StartAction::Serve => 0,
        StartAction::Fail(_) => 0,
    }
}

/// The actions of a startup in which all that is loaded can be loaded, from the action at hand
/// on. `cached[i]` tells whether voice `i` is found in the cache.
pub open spec fn actions(s: StartView, cached: Seq<bool>) -> Seq<StartAction>
    decreases distance(s),
    when s.valid()
{
    if distance(s) == 0 {
        seq![s.action]
    } else {
        let outcome = match s.action {
            StartAction::LookUp(i) => if cached[i as int] {
                Outcome::Done
            } else {
                Outcome::Failed
            },
            _ => Outcome::Done,
        };
        seq![s.action] + actions(s.after(outcome), cached)
    }
}

/// The actions on the voices from `i` on: each is looked up, and loaded where it is not cached.
pub open spec fn voice_actions(voices: nat, i: nat, cached: Seq<bool>) -> Seq<StartAction>
    decreases voices - i,
{
    if i >= voices {
        Seq::empty()
    } else {
        (if cached[i as int] {
            seq![StartAction::LookUp(i as usize)]
        } else {
            seq![StartAction::LookUp(i as usize), StartAction::Prewarm(i as usize)]
        }) + voice_actions(voices, i + 1, cached)
    }
}

/// The actions once the voices are done.
pub open spec fn closing_actions(warmup: bool) -> Seq<StartAction> {
    if warmup {
        seq![StartAction::Warmup, StartAction::Serve]
    } else {
        seq![StartAction::Serve]
    }
}

/// The voices are taken in order, and then the startup closes.
proof fn lemma_voice_actions(s: StartView, i: nat, cached: Seq<bool>)
    requires
        s.voices.len() <= usize::MAX,
        i <= s.voices.len(),
        s.action == s.voice_step(i),
    ensures
        actions(s, cached) == voice_actions(s.voices.len(), i, cached) + closing_actions(s.warmup),
    decreases s.voices.len() - i,
{
    if i < s.voices.len() {
        let done = s.after(Outcome::Done);
        let failed = s.after(Outcome::Failed);
        let rest = voice_actions(s.voices.len(), i + 1, cached);
        let close = closing_actions(s.warmup);
        if cached[i as int] {
            lemma_voice_actions(done, i + 1, cached);
            assert(seq![s.action] + (rest + close) =~= (seq![s.action] + rest) + close);
        } else {
            let next = failed.after(Outcome::Done);
            lemma_voice_actions(next, i + 1, cached);
            assert(actions(failed, cached) == seq![failed.action] + actions(next, cached));
            assert(seq![s.action] + (seq![failed.action] + (rest + close)) =~= (seq![
                s.action,
                failed.action,
            ] + rest) + close);
        }
    } else if s.warmup {
        let next = s.after(Outcome::Done);
        assert(actions(next, cached) == seq![StartAction::Serve]);
        assert(seq![StartAction::Warmup] + seq![StartAction::Serve] =~= closing_actions(true));
        assert(voice_actions(s.voices.len(), i, cached) + closing_actions(true)
            =~= closing_actions(true));
    } else {
        assert(voice_actions(s.voices.len(), i, cached) + closing_actions(false)
            =~= closing_actions(false));
    }
}

/// A startup that finds its page and its model sets the thread counts, loads the model, loads
/// the default voice, goes through the voices to prewarm in order, warms up where that is asked
/// for, and then serves.
pub proof fn law_startup_order(
    args: ServeArgs,
    assets: WasmAssets,
    feature: bool,
    cached: Seq<bool>,
)
    requires
        listed_voices(args.prewarm_voices@).len() <= usize::MAX,
        args.ui is Standard || assets.script && assets.module,
        source(args.quantized, feature, config_view(args.config), args.variant@) is Ok,
    ensures
        ({
            let omp: Seq<StartAction> = match args.omp_threads {
                Some(t) => seq![StartAction::SetOmp(t)],
                None => Seq::empty(),
            };
            let mkl: Seq<StartAction> = match args.mkl_threads {
                Some(t) => seq![StartAction::SetMkl(t)],
                None => Seq::empty(),
            };
            actions(first_view(args, assets, feature), cached) == omp + mkl + seq![
                StartAction::LoadModel,
                StartAction::LoadVoice,
            ] + voice_actions(listed_voices(args.prewarm_voices@).len(), 0, cached)
                + closing_actions(args.warmup)
        }),
{
    let s = first_view(args, assets, feature);
    let load = StartView { action: StartAction::LoadModel, ..s };
    let voice = load.after(Outcome::Done);
    let look = voice.after(Outcome::Done);
    lemma_voice_actions(look, 0, cached);
    let tail = voice_actions(s.voices.len(), 0, cached) + closing_actions(s.warmup);
    assert(actions(voice, cached) == seq![StartAction::LoadVoice] + tail);
    assert(actions(load, cached) == seq![StartAction::LoadModel] + actions(voice, cached));
    let from_mkl = StartView { action: s.mkl_step(), ..s };
    if s.mkl is Some {
        assert(from_mkl.after(Outcome::Done) == load);
        assert(actions(from_mkl, cached) == seq![s.mkl_step()] + actions(load, cached));
    } else {
        assert(from_mkl == load);
    }
    if s.omp is Some {
        assert(s.after(Outcome::Done) == from_mkl);
        assert(actions(s, cached) == seq![s.action] + actions(from_mkl, cached));
    } else {
        assert(s == from_mkl);
    }
    let omp: Seq<StartAction> = match args.omp_threads {
        Some(t) => seq![StartAction::SetOmp(t)],
        None => Seq::empty(),
    };
    let mkl: Seq<StartAction> = match args.mkl_threads {
        Some(t) => seq![StartAction::SetMkl(t)],
        None => Seq::empty(),
    };
    assert(actions(s, cached) =~= omp + mkl + seq![StartAction::LoadModel, StartAction::LoadVoice]
        + voice_actions(s.voices.len(), 0, cached) + closing_actions(s.warmup));
}

/// A page that has not been built ends the startup before anything is done.
pub proof fn law_missing_page_stops_first(
    args: ServeArgs,
    assets: WasmAssets,
    feature: bool,
    cached: Seq<bool>,
)
    requires
        listed_voices(args.prewarm_voices@).len() <= usize::MAX,
        args.ui is WasmExperimental,
        !assets.script || !assets.module,
    ensures
        actions(first_view(args, assets, feature), cached) == seq![
            StartAction::Fail(StartError::MissingWasm),
        ],
{
}

/// A failure ends the startup, except in looking a voice up and prewarming it, where it never
/// does; a voice cache that cannot be used ends it there too.
pub proof fn law_failures_stop(s: StartView)
    requires
        s.valid(),
    ensures
        s.action is LoadModel || s.action is LoadVoice || s.action is Warmup ==> s.after(
            Outcome::Failed,
        ).action == StartAction::Fail(StartError::Step),
        s.action is LookUp || s.action is Prewarm ==> !(s.after(Outcome::Failed).action is Fail),
        s.action is LoadVoice || s.action is LookUp || s.action is Prewarm ==> s.after(
            Outcome::Broken,
        ).action == StartAction::Fail(StartError::VoiceCache),
{
}

/// Where the model comes from: without quantization, a configuration or else the variant; with it,
/// the variant alone, where that is built in and no configuration is given.
pub proof fn law_where_the_model_comes_from(
    quantized: bool,
    feature: bool,
    config: Option<Seq<char>>,
    variant: Seq<char>,
)
    ensures
        source(quantized, feature, config, variant) == Err::<SourceView, StartError>(
            StartError::NotQuantized,
        ) <==> quantized && !feature,
        source(quantized, feature, config, variant) == Err::<SourceView, StartError>(
            StartError::QuantizedConfig,
        ) <==> quantized && feature && config is Some,
        quantized && feature && config is None ==> source(quantized, feature, config, variant)
            == Ok::<SourceView, StartError>(SourceView::Quantized(variant)),
        !quantized && config is None ==> source(quantized, feature, config, variant) == Ok::<
            SourceView,
            StartError,
        >(SourceView::Variant(variant)),
        !quantized ==> (config matches Some(c) ==> source(quantized, feature, config, variant)
            == Ok::<SourceView, StartError>(SourceView::Config(c))),
{
}

/// A model that cannot be had ends the startup where it would be loaded, after the thread counts,
/// however setting these goes; and a startup that has ended stays so, as one that serves does.
pub proof fn law_the_end_is_the_end(s: StartView, outcome: Outcome)
    requires
        s.valid(),
    ensures
        s.after(outcome).voices == s.voices,
        s.after(outcome).source == s.source,
        s.after(outcome).warmup == s.warmup,
        s.after(outcome).omp == s.omp,
        s.after(outcome).mkl == s.mkl,
        s.action is Serve || s.action is Fail ==> s.after(outcome) == s,
        s.action is SetOmp || s.action is SetMkl ==> s.after(outcome) == s.after(Outcome::Done),
        s.action is SetMkl ==> (s.source matches Err(e) ==> s.after(outcome).action
            == StartAction::Fail(e)),
        s.action is SetOmp && s.mkl is None ==> (s.source matches Err(e) ==> s.after(outcome).action
            == StartAction::Fail(e)),
        s.action is SetOmp ==> (s.mkl matches Some(t) ==> s.after(outcome).action
            == StartAction::SetMkl(t)),
        s.action is LoadModel || s.action is Warmup ==> s.after(Outcome::Broken).action
            == StartAction::Fail(StartError::Step),
        s.action is Warmup && outcome is Done ==> s.after(outcome).action is Serve,
{
}

/// Every voice is looked up in turn, and loaded only where it is not cached; after the last one
/// comes the warmup, where it is asked for, and else serving.
pub proof fn law_voices_follow_one_another(s: StartView, i: usize)
    requires
        s.valid(),
        i < s.voices.len(),
        s.action == StartAction::LookUp(i) || s.action == StartAction::Prewarm(i),
    ensures
        s.action is LookUp ==> s.after(Outcome::Failed).action == StartAction::Prewarm(i),
        i + 1 < s.voices.len() ==> s.after(Outcome::Done).action == StartAction::LookUp(
            (i + 1) as usize,
        ),
        i + 1 == s.voices.len() ==> s.after(Outcome::Done).action == if s.warmup {
            StartAction::Warmup
        } else {
            StartAction::Serve
        },
{
}

/// The text of every error.
pub proof fn law_start_error_texts(e: StartError, place: Seq<char>, detail: Seq<char>)
    ensures
        e is MissingWasm ==> start_message(e, place, detail)
            == "WASM UI mode requires built WASM assets at "@ + place
            + ". Run scripts/build-wasm.ps1 (Windows) or scripts/build-wasm.sh (Unix)."@,
        e is NotQuantized ==> start_message(e, place, detail)
            == "Quantization feature not enabled. Rebuild with --features quantized"@,
        e is QuantizedConfig ==> start_message(e, place, detail)
            == "--quantized requires --variant; custom --config is not supported with quantization"@,
        e is Step ==> start_message(e, place, detail) == detail,
        e is VoiceCache ==> start_message(e, place, detail) == "voice cache lock poisoned"@,
{
}

} // verus!
