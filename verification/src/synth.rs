//! One synthesis run: text prefill, autoregressive generation, decoding.
//!
//! The models run outside. `Synth` says what to run next and on what, and takes in what came of
//! it.
use vstd::prelude::*;
use crate::half::QUIET_NAN;
use crate::params::Params;
use crate::text::owned;

verus! {

/// Why a run is not started.
#[derive(Debug, Clone, Copy, PartialEq, Eq, Structural)]
pub enum SynthError {
    /// Voice, text and expected frames exceed the context.
    MaxLen,
    /// The expected frames exceed the latents of a chunk.
    TooManyLatents,
}

/// The text of an error.
pub open spec fn synth_message(e: SynthError) -> Seq<char> {
    match e {
        SynthError::MaxLen => "MAX_LEN 초과"@,
        SynthError::TooManyLatents => "청크가 너무 김: 문장을 나누세요"@,
    }
}

impl SynthError {
    /// The text of the error.
    pub fn message(self) -> (s: String)
        ensures
            s@ == synth_message(self),
            self is MaxLen ==> s@ == "MAX_LEN 초과"@,
            self is TooManyLatents ==> s@ == "청크가 너무 김: 문장을 나누세요"@,
    {
        match self {
            SynthError::MaxLen => owned("MAX_LEN 초과"),
            SynthError::TooManyLatents => owned("청크가 너무 김: 문장을 나누세요"),
        }
    }
}

/// What to run next.
#[derive(Debug, Clone, Copy, PartialEq, Eq, Structural)]
pub enum Action {
    /// The step model on text token `t`.
    Prefill(usize),
    /// The step model on the latent before, and then the sampler.
    Generate(usize),
    /// The decoder on latent `k`.
    Decode(usize),
    /// Nothing: the audio is complete.
    Finish,
}

/// A run in progress, over latents, embeddings and attention caches of any representation.
pub struct Synth<L, E, C> {
    text: Vec<E>,
    blank_token: L,
    blank_emb: E,
    max_gen: usize,
    frames_after: usize,
    prefilled: usize,
    steps: usize,
    decoded: usize,
    stopped: bool,
    eos_step: Option<usize>,
    offs: Vec<i64>,
    caches: C,
    latents: Vec<L>,
}

/// `Synth` over sequences.
#[verifier::ext_equal]
pub struct SynthView<L, E, C> {
    /// The embeddings of the text tokens.
    pub text: Seq<E>,
    /// The latent that goes with a text token, and into the first generation step.
    pub blank_token: L,
    /// The embedding that goes into a generation step.
    pub blank_emb: E,
    /// Steps that generation may take.
    pub max_gen: nat,
    /// Steps from the one that shows the end of speech to the one that stops.
    pub frames_after: nat,
    /// Tokens run so far.
    pub prefilled: nat,
    /// Generation steps run so far.
    pub steps: nat,
    /// Latents decoded so far.
    pub decoded: nat,
    /// Generation has stopped before its last step.
    pub stopped: bool,
    /// The first step that showed the end of speech.
    pub eos_step: Option<nat>,
    /// The cache position of every layer.
    pub offs: Seq<i64>,
    /// The caches of all layers.
    pub caches: C,
    /// The latents kept so far.
    pub latents: Seq<L>,
}

impl<L, E, C> View for Synth<L, E, C> {
    type V = SynthView<L, E, C>;

    closed spec fn view(&self) -> SynthView<L, E, C> {
        SynthView {
            text: self.text@,
            blank_token: self.blank_token,
            blank_emb: self.blank_emb,
            max_gen: self.max_gen as nat,
            frames_after: self.frames_after as nat,
            prefilled: self.prefilled as nat,
            steps: self.steps as nat,
            decoded: self.decoded as nat,
            stopped: self.stopped,
            eos_step: match self.eos_step {
                None => None,
                Some(e) => Some(e as nat),
            },
            offs: self.offs@,
            caches: self.caches,
            latents: self.latents@,
        }
    }
}

/// What one call of the step model is fed.
#[verifier::ext_equal]
pub struct StepView<L, E, C> {
    pub token: L,
    pub emb: E,
    pub is_text: bool,
    pub offs: Seq<i64>,
    pub caches: C,
}

/// What one call of the step model is fed: a latent, an embedding, whether the step is one of
/// text, and the cache positions and caches of all layers.
pub struct StepInput<'a, L, E, C> {
    pub token: &'a L,
    pub emb: &'a E,
    pub is_text: bool,
    pub offs: &'a Vec<i64>,
    pub caches: &'a C,
}

impl<'a, L, E, C> View for StepInput<'a, L, E, C> {
    type V = StepView<L, E, C>;

    open spec fn view(&self) -> StepView<L, E, C> {
        StepView {
            token: *self.token,
            emb: *self.emb,
            is_text: self.is_text,
            offs: self.offs@,
            caches: *self.caches,
        }
    }
}

/// What came of one call of the step model: the new caches and, of a generation step, the latent
/// of the sampler and whether it showed the end of speech.
pub struct StepResult<L, C> {
    pub caches: C,
    pub latent: L,
    pub eos: bool,
}

/// A run before its first token.
pub open spec fn fresh_run<L, E, C>(
    text: Seq<E>,
    blank_token: L,
    blank_emb: E,
    offs: Seq<i64>,
    caches: C,
    max_gen: nat,
    frames_after: nat,
) -> SynthView<L, E, C> {
    SynthView {
        text,
        blank_token,
        blank_emb,
        max_gen,
        frames_after,
        prefilled: 0,
        steps: 0,
        decoded: 0,
        stopped: false,
        eos_step: None,
        offs,
        caches,
        latents: Seq::empty(),
    }
}

impl<L, E, C> SynthView<L, E, C> {
    /// What holds at every point of a run, and leaves room for every position to come.
    pub open spec fn valid(self) -> bool {
        &&& self.prefilled <= self.text.len()
        &&& self.steps <= self.max_gen
        &&& self.decoded <= self.latents.len()
        &&& self.latents.len() <= self.steps
        &&& self.eos_step matches Some(e) ==> e < self.steps
        &&& self.text.len() <= usize::MAX
        &&& self.max_gen <= usize::MAX
        &&& forall|i: int|
            0 <= i < self.offs.len() ==> #[trigger] self.offs[i] + (self.text.len()
                - self.prefilled) + (self.max_gen - self.steps) <= i64::MAX
    }

    /// What to run next.
    pub open spec fn action(self) -> Action {
        if self.prefilled < self.text.len() {
            Action::Prefill(self.prefilled as usize)
        } else if !self.stopped && self.steps < self.max_gen {
            Action::Generate(self.steps as usize)
        } else if self.decoded < self.latents.len() {
            Action::Decode(self.decoded as usize)
        } else {
            Action::Finish
        }
    }

    /// The latent that a generation step is fed: the last one kept, or the blank one before the
    /// first.
    pub open spec fn token(self) -> L {
        if self.latents.len() == 0 {
            self.blank_token
        } else {
            self.latents.last()
        }
    }

    /// What the step at hand is fed. A step of text gets the embedding of its token and the blank
    /// latent, a generation step the blank embedding and the latent before.
    pub open spec fn step_call(self) -> StepView<L, E, C> {
        let is_text = self.prefilled < self.text.len();
        StepView {
            token: if is_text {
                self.blank_token
            } else {
                self.token()
            },
            emb: if is_text {
                self.text[self.prefilled as int]
            } else {
                self.blank_emb
            },
            is_text,
            offs: self.offs,
            caches: self.caches,
        }
    }

    /// Every cache position one further.
    pub open spec fn advanced(self) -> Seq<i64> {
        self.offs.map_values(|o: i64| (o + 1) as i64)
    }

    /// After a text token has been run, which gave new caches.
    pub open spec fn after_prefill(self, caches: C) -> SynthView<L, E, C> {
        SynthView { prefilled: self.prefilled + 1, offs: self.advanced(), caches, ..self }
    }

    /// After a generation step that gave new caches and `latent`, and showed the end of speech or
    /// not. The first such step is remembered; the step that is `frames_after` later stops
    /// generation, and its latent is dropped.
    pub open spec fn after_generate(self, latent: L, eos: bool, caches: C) -> SynthView<L, E, C> {
        let eos_step = if eos && self.eos_step is None {
            Some(self.steps)
        } else {
            self.eos_step
        };
        let stop = eos_step matches Some(e) && self.steps >= e + self.frames_after;
        SynthView {
            steps: self.steps + 1,
            offs: self.advanced(),
            caches,
            eos_step,
            stopped: stop,
            latents: if stop {
                self.latents
            } else {
                self.latents.push(latent)
            },
            ..self
        }
    }

    /// After the step at hand, where there is one.
    pub open spec fn after_step(self, r: StepResult<L, C>) -> SynthView<L, E, C> {
        match self.action() {
            Action::Prefill(_) => self.after_prefill(r.caches),
            Action::Generate(_) => self.after_generate(r.latent, r.eos, r.caches),
            _ => self,
        }
    }

    /// After a latent has been decoded.
    pub open spec fn after_decode(self) -> SynthView<L, E, C> {
        SynthView { decoded: self.decoded + 1, ..self }
    }
}

/// Voice, text and expected frames stay within the context.
pub open spec fn in_context(off0: int, tokens: nat, max_gen: nat, max_len: nat) -> bool {
    off0 + tokens + max_gen <= max_len
}

/// Whether voice, text and expected frames stay within the context.
pub fn fits_context(off0: usize, tokens: usize, max_gen: usize, max_len: usize) -> (b: bool)
    ensures
        b == in_context(off0 as int, tokens as nat, max_gen as nat, max_len as nat),
        b <==> off0 + tokens + max_gen <= max_len,
{
    off0 <= max_len && tokens <= max_len - off0 && max_gen <= max_len - off0 - tokens
}

impl<L, E, C> Synth<L, E, C> {
    /// A run over text tokens, given by their embeddings, that generates at most `max_gen`
    /// frames, from the given cache positions and caches, and stops `frames_after` steps after
    /// the end of speech.
    pub fn new(
        text: Vec<E>,
        blank_token: L,
        blank_emb: E,
        offs: Vec<i64>,
        caches: C,
        max_gen: usize,
        frames_after: usize,
    ) -> (s: Synth<L, E, C>)
        requires
            forall|i: int|
                0 <= i < offs.len() ==> #[trigger] offs@[i] + text.len() + max_gen <= i64::MAX,
        ensures
            s@ == fresh_run(
                text@,
                blank_token,
                blank_emb,
                offs@,
                caches,
                max_gen as nat,
                frames_after as nat,
            ),
            s@.valid(),
            unbegun(s@),
            s@.decoded == 0,
            s@.text == text@,
            s@.blank_token == blank_token,
            s@.blank_emb == blank_emb,
            s@.offs == offs@,
            s@.caches == caches,
            s@.max_gen == max_gen,
            s@.frames_after == frames_after,
    {
        assert(text@.len() == text.len());
        Synth {
            text,
            blank_token,
            blank_emb,
            max_gen,
            frames_after,
            prefilled: 0,
            steps: 0,
            decoded: 0,
            stopped: false,
            eos_step: None,
            offs,
            caches,
            latents: Vec::new(),
        }
    }

    /// What to run next.
    pub fn action(&self) -> (a: Action)
        ensures
            a == self@.action(),
    {
        if self.prefilled < self.text.len() {
            Action::Prefill(self.prefilled)
        } else if !self.stopped && self.steps < self.max_gen {
            Action::Generate(self.steps)
        } else if self.decoded < self.latents.len() {
            Action::Decode(self.decoded)
        } else {
            Action::Finish
        }
    }

    /// What to feed the step model in the step at hand.
    pub fn step_input(&self) -> (i: StepInput<'_, L, E, C>)
        requires
            self@.action() is Prefill || self@.action() is Generate,
        ensures
            i@ == self@.step_call(),
    {
        if self.prefilled < self.text.len() {
            StepInput {
                token: &self.blank_token,
                emb: &self.text[self.prefilled],
                is_text: true,
                offs: &self.offs,
                caches: &self.caches,
            }
        } else {
            StepInput {
                token: self.token(),
                emb: &self.blank_emb,
                is_text: false,
                offs: &self.offs,
                caches: &self.caches,
            }
        }
    }

    /// The latent that a generation step is fed.
    fn token(&self) -> (t: &L)
        ensures
            *t == self@.token(),
    {
        if self.latents.len() == 0 {
            &self.blank_token
        } else {
            &self.latents[self.latents.len() - 1]
        }
    }

    /// The latents kept so far.
    pub fn latents(&self) -> (v: &Vec<L>)
        ensures
            v@ == self@.latents,
    {
        &self.latents
    }

    /// Moves every cache position one further.
    fn advance(&mut self)
        requires
            forall|i: int| 0 <= i < old(self)@.offs.len() ==> #[trigger] old(self)@.offs[i] < i64::MAX,
        ensures
            final(self)@ == (SynthView { offs: old(self)@.advanced(), ..old(self)@ }),
    {
        let mut offs: Vec<i64> = Vec::new();
        let mut i: usize = 0;
        while i < self.offs.len()
            invariant
                i <= self.offs.len(),
                *self == *old(self),
                forall|i: int|
                    0 <= i < self@.offs.len() ==> #[trigger] self@.offs[i] < i64::MAX,
                offs@ == self@.advanced().take(i as int),
            decreases self.offs.len() - i,
        {
            assert(self@.offs[i as int] < i64::MAX);
            offs.push(self.offs[i] + 1);
            i = i + 1;
        }
        assert(offs@ =~= self@.advanced());
        self.offs = offs;
    }

    /// Takes in the caches that the text token at hand gave.
    pub fn prefill_done(&mut self, caches: C)
        requires
            old(self)@.valid(),
            old(self)@.action() is Prefill,
        ensures
            final(self)@ == old(self)@.after_prefill(caches),
            final(self)@.valid(),
    {
        self.advance();
        self.caches = caches;
        self.prefilled = self.prefilled + 1;
    }

    /// Takes in what a generation step gave.
    pub fn generate_done(&mut self, latent: L, eos: bool, caches: C)
        requires
            old(self)@.valid(),
            old(self)@.action() is Generate,
        ensures
            final(self)@ == old(self)@.after_generate(latent, eos, caches),
            final(self)@.valid(),
    {
        self.advance();
        self.caches = caches;
        let s: usize = self.steps;
        if eos && self.eos_step.is_none() {
            self.eos_step = Some(s);
        }
        let stop: bool = match self.eos_step {
            None => false,
            Some(e) => s - e >= self.frames_after,
        };
        self.steps = s + 1;
        self.stopped = stop;
        if !stop {
            self.latents.push(latent);
        }
    }

    /// Takes note that the latent at hand has been decoded.
    pub fn decode_done(&mut self)
        requires
            old(self)@.valid(),
            old(self)@.action() is Decode,
        ensures
            final(self)@ == old(self)@.after_decode(),
            final(self)@.valid(),
    {
        self.decoded = self.decoded + 1;
    }
}

/// `n` times the same element.
pub open spec fn repeated<T>(x: T, n: nat) -> Seq<T> {
    Seq::new(n, |i: int| x)
}

/// Repeats an element.
pub fn repeat<T: Copy>(x: T, n: usize) -> (v: Vec<T>)
    ensures
        v@ == repeated(x, n as nat),
        v@.len() == n,
        forall|i: int| 0 <= i < n ==> #[trigger] v@[i] == x,
{
    let mut v: Vec<T> = Vec::new();
    let mut i: usize = 0;
    while i < n
        invariant
            i <= n,
            v@ == repeated(x, i as nat),
        decreases n - i,
    {
        v.push(x);
        i = i + 1;
    }
    v
}

/// The row of an embedding table that belongs to a token id.
pub open spec fn row<T>(table: Seq<T>, id: u32, dim: nat) -> Seq<T> {
    table.subrange((id * dim) as int, ((id + 1) * dim) as int)
}

/// The table has a row for every id.
pub open spec fn has_rows(len: nat, ids: Seq<u32>, dim: nat) -> bool {
    forall|i: int| 0 <= i < ids.len() ==> #[trigger] ids[i] * dim + dim <= len
}

/// Whether a table of this length has a row for every id.
pub fn check_rows(len: usize, ids: &[u32], dim: usize) -> (b: bool)
    ensures
        b == has_rows(len as nat, ids@, dim as nat),
        b <==> forall|i: int| 0 <= i < ids@.len() ==> #[trigger] ids@[i] * dim + dim <= len,
{
    let mut i: usize = 0;
    while i < ids.len()
        invariant
            i <= ids.len(),
            forall|k: int| 0 <= k < i ==> #[trigger] ids@[k] * (dim as nat) + dim <= len,
        decreases ids.len() - i,
    {
        assert(0 <= ids@[i as int] * (dim as nat) <= 0xffff_ffff * 0xffff_ffff_ffff_ffff)
            by (nonlinear_arith)
            requires
                0 <= ids@[i as int] <= 0xffff_ffff,
                0 <= dim <= 0xffff_ffff_ffff_ffff,
        ;
        let end: u128 = ids[i] as u128 * dim as u128 + dim as u128;
        assert(end == ids@[i as int] * (dim as nat) + dim);
        if end > len as u128 {
            return false;
        }
        i = i + 1;
    }
    true
}

/// Gathers the embedding rows of the token ids, in order.
pub fn gather_rows<T: Copy>(table: &[T], ids: &[u32], dim: usize) -> (rows: Vec<Vec<T>>)
    requires
        has_rows(table@.len(), ids@, dim as nat),
    ensures
        rows.len() == ids.len(),
        forall|t: int|
            0 <= t < ids.len() ==> (#[trigger] rows@[t])@ == row(table@, ids@[t], dim as nat),
        forall|t: int| 0 <= t < ids.len() ==> (#[trigger] rows@[t])@.len() == dim,
        forall|t: int, j: int|
            0 <= t < ids.len() && 0 <= j < dim ==> #[trigger] rows@[t]@[j] == table@[ids@[t] * dim
                + j],
{
    let mut rows: Vec<Vec<T>> = Vec::new();
    let mut i: usize = 0;
    while i < ids.len()
        invariant
            i <= ids.len(),
            has_rows(table@.len(), ids@, dim as nat),
            rows.len() == i,
            forall|t: int|
                0 <= t < i ==> (#[trigger] rows@[t])@ == row(table@, ids@[t], dim as nat),
        decreases ids.len() - i,
    {
        let ghost id = ids@[i as int];
        assert(id * (dim as nat) + dim <= table.len());
        assert(0 <= id * (dim as nat) && (id + 1) * (dim as nat) == id * (dim as nat) + dim)
            by (nonlinear_arith)
            requires
                id >= 0,
                dim >= 0,
        ;
        let at: usize = ids[i] as usize * dim;
        let mut r: Vec<T> = Vec::new();
        let mut j: usize = 0;
        while j < dim
            invariant
                j <= dim,
                at + dim <= table.len(),
                r@ == table@.subrange(at as int, at + j),
            decreases dim - j,
        {
            r.push(table[at + j]);
            j = j + 1;
        }
        rows.push(r);
        i = i + 1;
    }
    proof {
        assert forall|t: int| 0 <= t < ids.len() implies (#[trigger] rows@[t])@.len() == dim by {
            law_rows_lie_one_after_another(table@, ids@[t], dim as nat);
        }
        assert forall|t: int, j: int| 0 <= t < ids.len() && 0 <= j < dim implies #[trigger] rows@[t]@[j]
            == table@[ids@[t] * dim + j] by {
            law_rows_lie_one_after_another(table@, ids@[t], dim as nat);
            assert(rows@[t]@ == row(table@, ids@[t], dim as nat));
        }
    }
    rows
}

/// Row `id` of a table holds the `dim` elements from `id` times `dim` on.
pub proof fn law_rows_lie_one_after_another<T>(table: Seq<T>, id: u32, dim: nat)
    requires
        id * dim + dim <= table.len(),
    ensures
        row(table, id, dim).len() == dim,
        forall|j: int| 0 <= j < dim ==> #[trigger] row(table, id, dim)[j] == table[id * dim + j],
{
    assert(0 <= id * dim && (id + 1) * dim == id * dim + dim) by (nonlinear_arith)
        requires
            id >= 0,
            dim >= 0,
    ;
}

/// Whether an embedding table of this shape has rows of `dim` elements.
pub fn check_embedding(shape: &[usize], dim: usize) -> (b: bool)
    ensures
        b == (shape@.len() == 2 && shape@[1] == dim),
{
    shape.len() == 2 && shape[1] == dim
}

/// The blank latent is all NaN, and the blank embedding all zero.
pub open spec fn has_blanks<C>(
    s: SynthView<Vec<u32>, Vec<u32>, C>,
    ldim: nat,
    dim: nat,
) -> bool {
    &&& s.blank_token@ == repeated(QUIET_NAN, ldim)
    &&& s.blank_emb@ == repeated(0u32, dim)
}

/// The text is made of the rows of a table.
pub open spec fn has_text<C>(
    s: SynthView<Vec<u32>, Vec<u32>, C>,
    table: Seq<u32>,
    ids: Seq<u32>,
    dim: nat,
) -> bool {
    &&& s.text.len() == ids.len()
    &&& forall|t: int| 0 <= t < ids.len() ==> (#[trigger] s.text[t])@ == row(table, ids[t], dim)
}

impl<C> Synth<Vec<u32>, Vec<u32>, C> {
    /// A run over latents and embeddings of binary32 bit patterns: text tokens and the first
    /// generation step get a latent of NaN, generation steps an embedding of zero.
    pub fn over(
        text: Vec<Vec<u32>>,
        ldim: usize,
        dim: usize,
        offs: Vec<i64>,
        caches: C,
        max_gen: usize,
        frames_after: usize,
    ) -> (s: Synth<Vec<u32>, Vec<u32>, C>)
        requires
            forall|i: int|
                0 <= i < offs.len() ==> #[trigger] offs@[i] + text.len() + max_gen <= i64::MAX,
        ensures
            s@ == fresh_run(
                text@,
                s@.blank_token,
                s@.blank_emb,
                offs@,
                caches,
                max_gen as nat,
                frames_after as nat,
            ),
            has_blanks(s@, ldim as nat, dim as nat),
            s@.valid(),
            unbegun(s@),
            s@.decoded == 0,
            s@.text == text@,
            s@.offs == offs@,
            s@.caches == caches,
            s@.max_gen == max_gen,
            s@.frames_after == frames_after,
            s@.blank_token@.len() == ldim,
            forall|i: int| 0 <= i < ldim ==> #[trigger] s@.blank_token@[i] == 0x7fc0_0000u32,
            s@.blank_emb@.len() == dim,
            forall|i: int| 0 <= i < dim ==> #[trigger] s@.blank_emb@[i] == 0u32,
    {
        let token: Vec<u32> = repeat(QUIET_NAN, ldim);
        let emb: Vec<u32> = repeat(0u32, dim);
        Synth::new(text, token, emb, offs, caches, max_gen, frames_after)
    }

    /// Starts a run over token ids where the package has room for it; it stops two steps later
    /// than guessed.
    pub fn start(
        p: &Params,
        table: &[u32],
        ids: &[u32],
        offs: Vec<i64>,
        caches: C,
        max_gen: usize,
        guess: usize,
    ) -> (r: Result<Synth<Vec<u32>, Vec<u32>, C>, SynthError>)
        requires
            offs.len() > 0,
            0 <= offs@[0] <= usize::MAX,
            forall|i: int|
                0 <= i < offs.len() ==> #[trigger] offs@[i] - offs@[0] + p.max_len <= i64::MAX,
            guess + 2 <= usize::MAX,
            in_context(offs@[0] as int, ids@.len(), max_gen as nat, p.max_len as nat) && max_gen
                <= p.max_latents ==> has_rows(table@.len(), ids@, p.dim as nat),
        ensures
            match r {
                Err(SynthError::MaxLen) => !in_context(
                    offs@[0] as int,
                    ids@.len(),
                    max_gen as nat,
                    p.max_len as nat,
                ),
                Err(SynthError::TooManyLatents) => in_context(
                    offs@[0] as int,
                    ids@.len(),
                    max_gen as nat,
                    p.max_len as nat,
                ) && max_gen > p.max_latents,
                Ok(s) => {
                    &&& in_context(offs@[0] as int, ids@.len(), max_gen as nat, p.max_len as nat)
                    &&& max_gen <= p.max_latents
                    &&& s@ == fresh_run(
                        s@.text,
                        s@.blank_token,
                        s@.blank_emb,
                        offs@,
                        caches,
                        max_gen as nat,
                        (guess + 2) as nat,
                    )
                    &&& has_text(s@, table@, ids@, p.dim as nat)
                    &&& has_blanks(s@, p.ldim as nat, p.dim as nat)
                    &&& s@.valid()
                },
            },
            r is Ok <==> offs@[0] + ids@.len() + max_gen <= p.max_len && max_gen <= p.max_latents,
            r matches Err(SynthError::MaxLen) ==> offs@[0] + ids@.len() + max_gen > p.max_len,
            r matches Err(SynthError::TooManyLatents) ==> offs@[0] + ids@.len() + max_gen
                <= p.max_len,
            r matches Ok(s) ==> {
                &&& unbegun(s@)
                &&& s@.decoded == 0
                &&& s@.offs == offs@
                &&& s@.caches == caches
                &&& s@.max_gen == max_gen
                &&& s@.frames_after == guess + 2
                &&& s@.text.len() == ids@.len()
                &&& forall|t: int| 0 <= t < ids@.len() ==> (#[trigger] s@.text[t])@.len() == p.dim
                &&& forall|t: int, j: int|
                    0 <= t < ids@.len() && 0 <= j < p.dim ==> #[trigger] s@.text[t]@[j]
                        == table@[ids@[t] * p.dim + j]
                &&& s@.blank_token@.len() == p.ldim
                &&& forall|i: int| 0 <= i < p.ldim ==> #[trigger] s@.blank_token@[i] == 0x7fc0_0000u32
                &&& s@.blank_emb@.len() == p.dim
                &&& forall|i: int| 0 <= i < p.dim ==> #[trigger] s@.blank_emb@[i] == 0u32
            },
    {
        if !fits_context(offs[0] as usize, ids.len(), max_gen, p.max_len) {
            return Err(SynthError::MaxLen);
        }
        if max_gen > p.max_latents {
            return Err(SynthError::TooManyLatents);
        }
        assert forall|i: int| 0 <= i < offs.len() implies #[trigger] offs@[i] + ids.len() + max_gen
            <= i64::MAX by {
            assert(offs@[i] - offs@[0] + p.max_len <= i64::MAX);
        }
        let text: Vec<Vec<u32>> = gather_rows(table, ids, p.dim);
        Ok(Synth::over(text, p.ldim, p.dim, offs, caches, max_gen, guess + 2))
    }
}

/// A run after `c` calls of the step model.
pub open spec fn stepped<L, E, C>(
    s: SynthView<L, E, C>,
    results: Seq<StepResult<L, C>>,
    c: nat,
) -> SynthView<L, E, C>
    decreases c,
{
    if c == 0 {
        s
    } else {
        stepped(s, results, (c - 1) as nat).after_step(results[c - 1])
    }
}

/// The end-of-speech flags of the generation steps, which follow `tokens` steps of text.
pub open spec fn eos_flags<L, C>(results: Seq<StepResult<L, C>>, tokens: nat) -> Seq<bool> {
    results.skip(tokens as int).map_values(|r: StepResult<L, C>| r.eos)
}

/// The latents of the generation steps, which follow `tokens` steps of text.
pub open spec fn step_latents<L, C>(results: Seq<StepResult<L, C>>, tokens: nat) -> Seq<L> {
    results.skip(tokens as int).map_values(|r: StepResult<L, C>| r.latent)
}

/// The first of the first `n` flags that is set.
pub open spec fn first_eos(eos: Seq<bool>, n: nat) -> Option<nat>
    decreases n,
{
    if n == 0 {
        None
    } else {
        match first_eos(eos, (n - 1) as nat) {
            Some(e) => Some(e),
            None => if eos[n - 1] {
                Some((n - 1) as nat)
            } else {
                None
            },
        }
    }
}

/// How many frames a run keeps: up to `frames_after` steps past the first one that shows the
/// end of speech, and never more than the steps it may take.
pub open spec fn frames_kept(eos: Seq<bool>, max_gen: nat, frames_after: nat) -> nat {
    match first_eos(eos, max_gen) {
        Some(e) => if e + frames_after < max_gen {
            e + frames_after
        } else {
            max_gen
        },
        None => max_gen,
    }
}

/// A run that has not begun.
pub open spec fn unbegun<L, E, C>(s: SynthView<L, E, C>) -> bool {
    &&& s.valid()
    &&& s.prefilled == 0
    &&& s.steps == 0
    &&& !s.stopped
    &&& s.eos_step is None
    &&& s.latents.len() == 0
}

/// A flag once found stays the first one.
proof fn lemma_first_eos(eos: Seq<bool>, k: nat, n: nat)
    requires
        k <= n,
    ensures
        first_eos(eos, k) matches Some(e) ==> first_eos(eos, n) == Some(e) && e < k,
        first_eos(eos, n) matches Some(e) ==> e < n,
    decreases n,
{
    if n > 0 {
        if k < n {
            lemma_first_eos(eos, k, (n - 1) as nat);
        } else {
            lemma_first_eos(eos, (n - 1) as nat, (n - 1) as nat);
        }
    }
}

/// Where a run stands after `c` calls of the step model, the last of which it asked for.
proof fn lemma_prefill<L, E, C>(
    s: SynthView<L, E, C>,
    results: Seq<StepResult<L, C>>,
    c: nat,
)
    requires
        unbegun(s),
        c <= s.text.len(),
        c <= results.len(),
    ensures
        ({
            let g = stepped(s, results, c);
            &&& g == (SynthView { prefilled: c, offs: g.offs, caches: g.caches, ..s })
            &&& g.offs.len() == s.offs.len()
            &&& forall|i: int| 0 <= i < s.offs.len() ==> #[trigger] g.offs[i] == s.offs[i] + c
            &&& g.caches == if c == 0 {
                s.caches
            } else {
                results[c - 1].caches
            }
        }),
    decreases c,
{
    if c > 0 {
        lemma_prefill(s, results, (c - 1) as nat);
        let b = stepped(s, results, (c - 1) as nat);
        let g = stepped(s, results, c);
        assert forall|i: int| 0 <= i < s.offs.len() implies #[trigger] g.offs[i] == s.offs[i]
            + c by {
            assert(s.offs[i] + s.text.len() + s.max_gen <= i64::MAX);
            assert(b.offs[i] == s.offs[i] + c - 1);
        }
    }
}

/// Where generation stands after the text and `n` more results on offer.
proof fn lemma_generated<L, E, C>(
    s: SynthView<L, E, C>,
    results: Seq<StepResult<L, C>>,
    n: nat,
)
    requires
        unbegun(s),
        n <= s.max_gen,
        s.text.len() + n <= results.len(),
    ensures
        ({
            let tc = s.text.len();
            let g = stepped(s, results, tc + n);
            let kept = frames_kept(eos_flags(results, tc), n, s.frames_after);
            let ran = if kept < n {
                kept + 1
            } else {
                n
            };
            &&& g == (SynthView {
                prefilled: tc,
                steps: ran,
                stopped: kept < n,
                eos_step: g.eos_step,
                offs: g.offs,
                caches: g.caches,
                latents: step_latents(results, tc).take(kept as int),
                ..s
            })
            &&& g.eos_step == first_eos(eos_flags(results, tc), n) || g.stopped
            &&& g.offs.len() == s.offs.len()
            &&& forall|i: int|
                0 <= i < s.offs.len() ==> #[trigger] g.offs[i] == s.offs[i] + tc + ran
            &&& g.caches == if tc + ran == 0 {
                s.caches
            } else {
                results[tc + ran - 1].caches
            }
        }),
    decreases n,
{
    let tc = s.text.len();
    let eos = eos_flags(results, tc);
    let latents = step_latents(results, tc);
    if n == 0 {
        lemma_prefill(s, results, tc);
        assert(latents.take(0) =~= s.latents);
    } else {
        let m = (n - 1) as nat;
        lemma_generated(s, results, m);
        lemma_first_eos(eos, m, n);
        let b = stepped(s, results, tc + m);
        let g = stepped(s, results, tc + n);
        let r = results[(tc + m) as int];
        assert(eos[m as int] == r.eos);
        assert(latents[m as int] == r.latent);
        if !b.stopped {
            assert(latents.take(m as int).push(r.latent) =~= latents.take(n as int));
            assert forall|i: int| 0 <= i < s.offs.len() implies #[trigger] g.offs[i] == s.offs[i]
                + tc + n by {
                assert(s.offs[i] + s.text.len() + s.max_gen <= i64::MAX);
                assert(b.offs[i] == s.offs[i] + tc + m);
            }
        }
    }
}

/// What every call of the step model is fed. The calls are counted from zero, those of the text
/// first. A call of text gets the embedding of its token and the blank latent; a later one gets
/// the blank embedding and the latent that the call before it gave, or the blank one if it is the
/// first. Every cache position has moved on by one per call, and the caches are those that the
/// call before gave, or the voice's in the first call.
pub proof fn law_step_calls<L, E, C>(
    s: SynthView<L, E, C>,
    results: Seq<StepResult<L, C>>,
    c: nat,
)
    requires
        unbegun(s),
        c <= results.len(),
        c <= s.text.len() + s.max_gen,
        stepped(s, results, c).action() is Prefill || stepped(s, results, c).action() is Generate,
    ensures
        ({
            let tc = s.text.len();
            let g = stepped(s, results, c);
            let call = g.step_call();
            &&& g.action() == if c < tc {
                Action::Prefill(c as usize)
            } else {
                Action::Generate((c - tc) as usize)
            }
            &&& call.is_text == (c < tc)
            &&& call.emb == if c < tc {
                s.text[c as int]
            } else {
                s.blank_emb
            }
            &&& call.token == if c <= tc {
                s.blank_token
            } else {
                results[c - 1].latent
            }
            &&& call.offs.len() == s.offs.len()
            &&& forall|i: int| 0 <= i < s.offs.len() ==> #[trigger] call.offs[i] == s.offs[i] + c
            &&& call.caches == if c == 0 {
                s.caches
            } else {
                results[c - 1].caches
            }
        }),
{
    let tc = s.text.len();
    if c < tc {
        lemma_prefill(s, results, c);
    } else {
        lemma_generated(s, results, (c - tc) as nat);
        if c > tc {
            assert(step_latents(results, tc)[c - tc - 1] == results[c - 1].latent);
        }
    }
}

/// The prefill runs the text tokens in order; after the last one, generation begins, where it may
/// take a step.
pub proof fn law_prefill_runs_every_token<L, E, C>(
    s: SynthView<L, E, C>,
    results: Seq<StepResult<L, C>>,
    n: nat,
)
    requires
        unbegun(s),
        n <= s.text.len(),
        n <= results.len(),
    ensures
        ({
            let g = stepped(s, results, n);
            &&& n < s.text.len() ==> g.action() == Action::Prefill(n as usize)
            &&& n == s.text.len() && s.max_gen > 0 ==> g.action() == Action::Generate(0)
            &&& g.latents.len() == 0
        }),
{
    lemma_prefill(s, results, n);
}

/// A run keeps the latents of its first generation steps, in order, and as many as `frames_kept`
/// says; then generation is over.
pub proof fn law_run_keeps_frames<L, E, C>(
    s: SynthView<L, E, C>,
    results: Seq<StepResult<L, C>>,
)
    requires
        unbegun(s),
        s.text.len() + s.max_gen <= results.len(),
    ensures
        ({
            let tc = s.text.len();
            let g = stepped(s, results, tc + s.max_gen);
            &&& g.latents == step_latents(results, tc).take(
                frames_kept(eos_flags(results, tc), s.max_gen, s.frames_after) as int,
            )
            &&& !(g.action() is Generate)
            &&& !(g.action() is Prefill)
        }),
{
    lemma_generated(s, results, s.max_gen);
}

/// Where the first end of speech is shown decides how many frames a run keeps. Shown first by
/// generation step `e`, counted from zero, the run keeps `frames_after` frames more than came
/// before that step, or as many as it may take steps if that is less; never shown, it keeps a
/// frame of every step. The frames are the latents of the first steps, in order.
pub proof fn law_frames_follow_the_end_of_speech<L, E, C>(
    s: SynthView<L, E, C>,
    results: Seq<StepResult<L, C>>,
    e: nat,
)
    requires
        unbegun(s),
        s.text.len() + s.max_gen <= results.len(),
        e <= s.max_gen,
        forall|i: int|
            s.text.len() <= i < s.text.len() + e ==> !(#[trigger] results[i]).eos,
        e < s.max_gen ==> results[(s.text.len() + e) as int].eos,
    ensures
        ({
            let tc = s.text.len();
            let g = stepped(s, results, tc + s.max_gen);
            &&& g.latents.len() == if e + s.frames_after < s.max_gen {
                e + s.frames_after
            } else {
                s.max_gen
            }
            &&& forall|k: int|
                0 <= k < g.latents.len() ==> #[trigger] g.latents[k] == results[tc + k].latent
            &&& !(g.action() is Generate)
            &&& !(g.action() is Prefill)
        }),
{
    let tc = s.text.len();
    let eos = eos_flags(results, tc);
    lemma_generated(s, results, s.max_gen);
    assert forall|i: int| 0 <= i < e implies !#[trigger] eos[i] by {
        assert(eos[i] == results[tc + i].eos);
    }
    lemma_no_eos(eos, e);
    if e < s.max_gen {
        assert(eos[e as int] == results[(tc + e) as int].eos);
        assert(first_eos(eos, e + 1) == Some(e));
        lemma_first_eos(eos, e + 1, s.max_gen);
    }
}

/// No flag is the first one where none is set.
proof fn lemma_no_eos(eos: Seq<bool>, n: nat)
    ensures
        (forall|i: int| 0 <= i < n ==> !#[trigger] eos[i]) ==> first_eos(eos, n) is None,
    decreases n,
{
    if n > 0 {
        lemma_no_eos(eos, (n - 1) as nat);
    }
}

/// A run keeps no more frames than it may take steps, and so no more than the latents of a
/// chunk where it was started within them.
pub proof fn law_frames_are_bounded(eos: Seq<bool>, max_gen: nat, frames_after: nat)
    ensures
        frames_kept(eos, max_gen, frames_after) <= max_gen,
{
}

/// Where every cache position stands relative to the positions `base` of the voice.
pub open spec fn positions_from<L, E, C>(s: SynthView<L, E, C>, base: Seq<i64>) -> bool {
    &&& s.offs.len() == base.len()
    &&& forall|i: int|
        0 <= i < base.len() ==> #[trigger] s.offs[i] == base[i] + s.prefilled + s.steps
}

/// The cache positions count the steps that were run: a run that has not begun stands at the
/// positions of the voice, and every step keeps that up.
pub proof fn law_positions_count_steps<L, E, C>(
    s: SynthView<L, E, C>,
    base: Seq<i64>,
    r: StepResult<L, C>,
)
    requires
        s.valid(),
        positions_from(s, base),
    ensures
        positions_from(s.after_step(r), base),
        s.action() is Decode ==> positions_from(s.after_decode(), base),
        unbegun(s) ==> s.offs == base,
{
    let t = s.after_step(r);
    assert forall|i: int| 0 <= i < base.len() implies #[trigger] t.offs[i] == base[i] + t.prefilled
        + t.steps by {
        assert(s.offs[i] == base[i] + s.prefilled + s.steps);
        assert(s.offs[i] + (s.text.len() - s.prefilled) + (s.max_gen - s.steps) <= i64::MAX);
    }
}

/// A run that was started within the context never runs a step at a position outside it, in
/// any layer whose voice is no longer than that of the first.
pub proof fn law_steps_stay_in_context<L, E, C>(s: SynthView<L, E, C>, base: Seq<i64>, max_len: nat)
    requires
        s.valid(),
        base.len() > 0,
        positions_from(s, base),
        base[0] + s.text.len() + s.max_gen <= max_len,
        s.action() is Prefill || s.action() is Generate,
    ensures
        forall|i: int|
            0 <= i < base.len() && base[i] <= base[0] ==> #[trigger] s.offs[i] < max_len,
{
}

/// A run after `n` decoded latents.
pub open spec fn decoded_run<L, E, C>(s: SynthView<L, E, C>, n: nat) -> SynthView<L, E, C>
    decreases n,
{
    if n == 0 {
        s
    } else {
        decoded_run(s, (n - 1) as nat).after_decode()
    }
}

/// Once generation is over, the latents kept are decoded in order, each once, and then the run
/// is finished.
pub proof fn law_decoding_takes_every_latent<L, E, C>(s: SynthView<L, E, C>, n: nat)
    requires
        s.decoded == 0,
        s.action() is Decode || s.action() is Finish,
        n <= s.latents.len() <= usize::MAX,
    ensures
        n < s.latents.len() ==> decoded_run(s, n).action() == Action::Decode(n as usize),
        n == s.latents.len() ==> decoded_run(s, n).action() == Action::Finish,
        decoded_run(s, n) == (SynthView { decoded: n, ..s }),
    decreases n,
{
    if n > 0 {
        law_decoding_takes_every_latent(s, (n - 1) as nat);
    }
}

} // verus!
