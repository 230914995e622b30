//! What the benchmarks measure, and under which names.
use vstd::prelude::*;
use crate::text::{decimal, decimal_text, joined, owned};

verus! {

/// What a runtime error is reported as.
pub open spec fn ort_report(text: Seq<char>) -> Seq<char> {
    "ort: "@ + text
}

/// Reports the text of a runtime error.
pub fn ort_message(text: &str) -> (s: String)
    ensures
        s@ == ort_report(text@),
        s@ == "ort: "@ + text@,
{
    joined("ort: ", text)
}

/// The text that the `Debug` impl of a value gives through `format!`. What it says is up to that
/// impl, so no more is claimed than that it came of this call.
#[verifier::external_body]
pub fn debug_text<E: std::fmt::Debug>(e: &E) -> (s: String) {
    format!("{:?}", e)
}

/// Passes a success on and turns an error into its report: the prefix, then the `Debug` text of
/// this error.
pub fn oe<T, E: std::fmt::Debug>(r: Result<T, E>) -> (out: Result<T, String>)
    ensures
        match r {
            Ok(t) => out == Ok::<T, String>(t),
            Err(e) => out matches Err(s) && exists|text: String| #[trigger]
                call_ensures(debug_text::<E>, (&e,), text) && s@ == ort_report(text@) && s@
                == "ort: "@ + text@,
        },
{
    match r {
        Ok(t) => Ok(t),
        Err(e) => {
            let text: String = debug_text(&e);
            Err(ort_message(text.as_str()))
        },
    }
}

/// The label of a thread count.
pub open spec fn label(threads: Option<usize>) -> Seq<char> {
    match threads {
        Some(t) => decimal(t as nat) + "T"@,
        None => "auto"@,
    }
}

/// The label of a thread count.
pub fn threads_label(threads: Option<usize>) -> (s: String)
    ensures
        s@ == label(threads),
        threads matches Some(t) ==> s@ == decimal(t as nat) + "T"@,
        threads is None ==> s@ == "auto"@,
{
    match threads {
        Some(t) => joined(decimal_text(t).as_str(), "T"),
        None => owned("auto"),
    }
}

/// A variable of the environment.
#[derive(Debug)]
pub struct EnvVar {
    pub name: String,
    pub value: String,
}

impl View for EnvVar {
    type V = (Seq<char>, Seq<char>);

    open spec fn view(&self) -> (Seq<char>, Seq<char>) {
        (self.name@, self.value@)
    }
}

/// The names and values of variables.
pub open spec fn settings(v: Seq<EnvVar>) -> Seq<(Seq<char>, Seq<char>)> {
    v.map_values(|e: EnvVar| e@)
}

/// A variable set to a thread count.
pub fn thread_var(name: &str, threads: usize) -> (e: EnvVar)
    ensures
        e@ == (name@, decimal(threads as nat)),
{
    EnvVar { name: owned(name), value: decimal_text(threads) }
}

/// The variables that bring a thread count to every backend of the whole-model benchmark.
pub open spec fn live_settings(threads: Option<usize>) -> Seq<(Seq<char>, Seq<char>)> {
    match threads {
        Some(t) => seq![
            ("RAYON_NUM_THREADS"@, decimal(t as nat)),
            ("OMP_NUM_THREADS"@, decimal(t as nat)),
            ("MKL_NUM_THREADS"@, decimal(t as nat)),
        ],
        None => Seq::empty(),
    }
}

/// Lists the variables to set before the whole-model benchmark.
pub fn live_env(threads: Option<usize>) -> (v: Vec<EnvVar>)
    ensures
        settings(v@) == live_settings(threads),
        threads is None ==> v@.len() == 0,
        threads matches Some(t) ==> {
            &&& v@.len() == 3
            &&& v@[0]@ == ("RAYON_NUM_THREADS"@, decimal(t as nat))
            &&& v@[1]@ == ("OMP_NUM_THREADS"@, decimal(t as nat))
            &&& v@[2]@ == ("MKL_NUM_THREADS"@, decimal(t as nat))
        },
{
    let mut v: Vec<EnvVar> = Vec::new();
    match threads {
        Some(t) => {
            v.push(thread_var("RAYON_NUM_THREADS", t));
            v.push(thread_var("OMP_NUM_THREADS", t));
            v.push(thread_var("MKL_NUM_THREADS", t));
        },
        None => {},
    }
    assert(settings(v@) =~= live_settings(threads));
    v
}

/// The variables of the step-model benchmark, whose runtime takes its own thread count: the
/// sampler and the decoder take theirs from the environment.
pub open spec fn step_settings(threads: Option<usize>) -> Seq<(Seq<char>, Seq<char>)> {
    match threads {
        Some(t) => seq![("RAYON_NUM_THREADS"@, decimal(t as nat))],
        None => Seq::empty(),
    }
}

/// Lists the variables to set before the step-model benchmark.
pub fn step_env(threads: Option<usize>) -> (v: Vec<EnvVar>)
    ensures
        settings(v@) == step_settings(threads),
        threads is None ==> v@.len() == 0,
        threads matches Some(t) ==> v@.len() == 1 && v@[0]@ == (
            "RAYON_NUM_THREADS"@,
            decimal(t as nat),
        ),
{
    let mut v: Vec<EnvVar> = Vec::new();
    match threads {
        Some(t) => {
            v.push(thread_var("RAYON_NUM_THREADS", t));
        },
        None => {},
    }
    assert(settings(v@) =~= step_settings(threads));
    v
}

/// The file that the first measured run of the whole-model benchmark is written to.
pub fn live_wav_name(threads: Option<usize>) -> (s: String)
    ensures
        s@ == "candle_cpu"@ + label(threads) + "_FP32.wav"@,
{
    joined(joined("candle_cpu", threads_label(threads).as_str()).as_str(), "_FP32.wav")
}

/// The file that the first measured run of the step-model benchmark is written to.
pub fn step_wav_name(threads: Option<usize>, quant: &str) -> (s: String)
    ensures
        s@ == "onnxrs_cpu"@ + label(threads) + "_"@ + quant@ + ".wav"@,
{
    let front: String = joined(
        joined("onnxrs_cpu", threads_label(threads).as_str()).as_str(),
        "_",
    );
    joined(joined(front.as_str(), quant).as_str(), ".wav")
}

/// The seed of the run that is not measured.
pub const WARMUP_SEED: u64 = 999;

/// The seeds of the measured runs.
pub open spec fn measured_seeds(runs: nat) -> Seq<u64> {
    Seq::new(runs, |i: int| i as u64)
}

/// The seeds of all runs: the warmup, then the measured runs, counted from zero.
pub fn run_seeds(runs: usize) -> (seeds: Vec<u64>)
    ensures
        seeds@ == seq![WARMUP_SEED] + measured_seeds(runs as nat),
        seeds@.len() == runs + 1,
        seeds@[0] == 999,
        forall|k: int| 0 < k <= runs ==> #[trigger] seeds@[k] == k - 1,
{
    let mut seeds: Vec<u64> = Vec::new();
    seeds.push(WARMUP_SEED);
    let mut i: usize = 0;
    assert(seeds@ =~= seq![WARMUP_SEED] + measured_seeds(0));
    while i < runs
        invariant
            i <= runs,
            seeds@ == seq![WARMUP_SEED] + measured_seeds(i as nat),
        decreases runs - i,
    {
        seeds.push(i as u64);
        i = i + 1;
        assert(measured_seeds(i as nat) =~= measured_seeds((i - 1) as nat).push((i - 1) as u64));
        assert(seeds@ =~= seq![WARMUP_SEED] + measured_seeds(i as nat));
    }
    seeds
}

/// The warmup never shares its seed with a measured run, and no two measured runs share one.
pub proof fn law_seeds_do_not_overlap(runs: nat)
    requires
        runs <= 999,
    ensures
        !measured_seeds(runs).contains(WARMUP_SEED),
        measured_seeds(runs).no_duplicates(),
{
}

/// An audio tensor whose dimensions tell no channels and samples.
#[derive(Debug, Clone, Copy, PartialEq, Eq, Structural)]
pub enum AudioError {
    UnexpectedDims,
}

/// The channels and the samples per channel of an audio tensor: one dimension is mono.
pub open spec fn channels_and_samples(dims: Seq<usize>) -> Result<(usize, usize), AudioError> {
    if dims.len() == 2 {
        Ok((dims[0], dims[1]))
    } else if dims.len() == 1 {
        Ok((1, dims[0]))
    } else {
        Err(AudioError::UnexpectedDims)
    }
}

/// Tells the channels and the samples per channel of an audio tensor.
pub fn audio_dims(dims: &[usize]) -> (r: Result<(usize, usize), AudioError>)
    ensures
        r == channels_and_samples(dims@),
        dims@.len() == 1 ==> r == Ok::<(usize, usize), AudioError>((1, dims@[0])),
        dims@.len() == 2 ==> r == Ok::<(usize, usize), AudioError>((dims@[0], dims@[1])),
        dims@.len() == 0 || dims@.len() > 2 ==> r is Err,
{
    if dims.len() == 2 {
        Ok((dims[0], dims[1]))
    } else if dims.len() == 1 {
        Ok((1, dims[0]))
    } else {
        Err(AudioError::UnexpectedDims)
    }
}

/// How many elements `every_nth` keeps.
pub open spec fn strided_len(len: nat, step: nat) -> nat {
    (len + step - 1) as nat / step
}

/// Every `step`th element, from the first on.
pub open spec fn strided<T>(v: Seq<T>, step: nat) -> Seq<T> {
    Seq::new(strided_len(v.len(), step), |i: int| v[i * step])
}

/// Keeps every `step`th element, from the first on: of interleaved samples, the first channel.
pub fn every_nth<T: Copy>(v: &[T], step: usize) -> (r: Vec<T>)
    requires
        step > 0,
    ensures
        r@ == strided(v@, step as nat),
        r@.len() * step >= v@.len(),
        r@.len() > 0 ==> (r@.len() - 1) * step < v@.len(),
        forall|i: int| 0 <= i < r@.len() ==> #[trigger] r@[i] == v@[i * step],
{
    let mut r: Vec<T> = Vec::new();
    let mut at: usize = 0;
    let ghost n = strided_len(v@.len(), step as nat);
    assert(v@.len() == v.len());
    proof {
        vstd::arithmetic::div_mod::lemma_fundamental_div_mod(v@.len() + step - 1, step as int);
        vstd::arithmetic::div_mod::lemma_mod_bound(v@.len() + step - 1, step as int);
        assert(n * step <= v@.len() + step - 1 < n * step + step) by (nonlinear_arith)
            requires
                v@.len() + step - 1 == step * n + (v@.len() + step - 1) % (step as int),
                0 <= (v@.len() + step - 1) % (step as int) < step,
        ;
        if v@.len() == 0 {
            assert(n == 0) by (nonlinear_arith)
                requires
                    n * step <= step - 1,
                    n >= 0,
                    step > 0,
            ;
        }
    }
    assert(r@.len() * step == 0) by (nonlinear_arith)
        requires
            r@.len() == 0,
    ;
    loop
        invariant_except_break
            step > 0,
            v@.len() == v.len(),
            n == strided_len(v@.len(), step as nat),
            n * step <= v@.len() + step - 1 < n * step + step,
            at == r@.len() * step,
            r@.len() <= n,
            r@ == strided(v@, step as nat).take(r@.len() as int),
            r@.len() == n || at < v@.len(),
        ensures
            r@.len() == n,
            r@ == strided(v@, step as nat).take(n as int),
        decreases n - r@.len(),
    {
        if at >= v.len() {
            assert(r@.len() == n);
            break;
        }
        let ghost m = r@.len();
        assert(m < n) by (nonlinear_arith)
            requires
                m * step < v@.len(),
                v@.len() + step - 1 < n * step + step,
                m <= n,
                step > 0,
        ;
        r.push(v[at]);
        assert((m + 1) * step == m * step + step) by (nonlinear_arith);
        if step > v.len() - at {
            assert(n == m + 1) by (nonlinear_arith)
                requires
                    m * step < v@.len() < m * step + step,
                    n * step <= v@.len() + step - 1,
                    m < n,
                    step > 0,
            ;
            assert(r@ =~= strided(v@, step as nat).take(n as int));
            break;
        }
        at = at + step;
        assert(r@ =~= strided(v@, step as nat).take(r@.len() as int));
        assert(r@.len() == n || at < v@.len()) by (nonlinear_arith)
            requires
                r@.len() == m + 1,
                at == (m + 1) * step,
                n * step <= v@.len() + step - 1,
                m < n,
                at <= v@.len(),
                step > 0,
        ;
    }
    assert(strided(v@, step as nat).take(n as int) =~= strided(v@, step as nat));
    assert(r@.len() * step >= v@.len());
    assert((n - 1) * step == n * step - step) by (nonlinear_arith);
    r
}

/// Samples in an analysis frame.
pub const FRAME: usize = 4096;

/// The analysis frames of a number of samples: as many as hold a sample.
pub open spec fn frames_of(len: nat) -> Seq<(nat, nat)> {
    Seq::new(
        (len + 4095) as nat / 4096,
        |k: int|
            (
                (4096 * k) as nat,
                if 4096 * k + 4096 <= len {
                    (4096 * k + 4096) as nat
                } else {
                    len
                },
            ),
    )
}

/// The bounds of frames.
pub open spec fn bounds(v: Seq<(usize, usize)>) -> Seq<(nat, nat)> {
    v.map_values(|b: (usize, usize)| (b.0 as nat, b.1 as nat))
}

/// Cuts a number of samples into analysis frames that do not overlap; the last one may be
/// shorter.
pub fn frame_bounds(len: usize) -> (v: Vec<(usize, usize)>)
    ensures
        bounds(v@) == frames_of(len as nat),
        4096 * v@.len() >= len,
        v@.len() > 0 ==> 4096 * (v@.len() - 1) < len,
        forall|k: int|
            0 <= k < v@.len() ==> (#[trigger] v@[k]).0 == 4096 * k && v@[k].1 == if k + 1 < v@.len() {
                4096 * k + 4096
            } else {
                len as int
            },
{
    let mut v: Vec<(usize, usize)> = Vec::new();
    let mut at: usize = 0;
    assert(bounds(v@) =~= frames_of(len as nat).take(0));
    while at < len
        invariant
            at <= len,
            bounds(v@) == frames_of(len as nat).take(v@.len() as int),
            at == 4096 * v@.len() || (at == len && v@.len() == frames_of(len as nat).len()),
            at < len ==> v@.len() < frames_of(len as nat).len(),
            v@.len() <= frames_of(len as nat).len(),
            at == len ==> v@.len() == frames_of(len as nat).len(),
        decreases len - at,
    {
        let end: usize = if len - at < FRAME {
            len
        } else {
            at + FRAME
        };
        let ghost before = bounds(v@);
        v.push((at, end));
        at = end;
        assert(bounds(v@) =~= before.push(frames_of(len as nat)[v@.len() - 1]));
        assert(bounds(v@) =~= frames_of(len as nat).take(v@.len() as int));
    }
    assert(frames_of(len as nat).take(v@.len() as int) =~= frames_of(len as nat));
    assert(bounds(v@).len() == v@.len());
    assert forall|k: int| 0 <= k < v@.len() implies (#[trigger] v@[k]).0 == 4096 * k && v@[k].1
        == if k + 1 < v@.len() {
        4096 * k + 4096
    } else {
        len as int
    } by {
        assert(bounds(v@)[k] == (v@[k].0 as nat, v@[k].1 as nat));
    }
    v
}

/// The analysis frames cover every sample once.
pub proof fn law_frames_cover_the_samples(len: nat, i: int)
    requires
        0 <= i < len,
    ensures
        exists|k: int|
            0 <= k < frames_of(len).len() && (#[trigger] frames_of(len)[k]).0 <= i
                < frames_of(len)[k].1,
        forall|j: int, k: int|
            0 <= j < k < frames_of(len).len() ==> (#[trigger] frames_of(len)[j]).1 <= (
            #[trigger] frames_of(len)[k]).0,
{
    let k = i / 4096;
    assert(frames_of(len)[k].0 <= i < frames_of(len)[k].1);
}

/// How many frames the step-model benchmark expects of a number of tokens: at three tokens and
/// twelve and a half frames per second, with two seconds to spare, rounded up.
pub open spec fn frames_expected(tokens: nat) -> nat {
    (25 * tokens + 155) / 6
}

/// Counts the frames that the step-model benchmark expects of a number of tokens.
pub fn expected_frames(tokens: usize) -> (n: usize)
    requires
        25 * tokens + 155 <= usize::MAX,
    ensures
        n == frames_expected(tokens as nat),
        6 * n >= 25 * tokens + 150,
        6 * (n - 1) < 25 * tokens + 150,
{
    (25 * tokens + 155) / 6
}

/// The steps that the step-model benchmark runs on after the end of speech.
pub const FRAMES_AFTER: usize = 3;

} // verus!
