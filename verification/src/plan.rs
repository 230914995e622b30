//! From a text to the runs that speak it.
use vstd::prelude::*;
use crate::chunks::{chunk_ids, chunk_words, count_chunk_words, in_order, index_lists, join_ids, law_chunk_ids_are_joined, law_joined_ids_count, lemma_ids_add, lemma_in_order, lemma_words_add, law_packed_runs_fit, law_packing_keeps_every_sentence, pack_chunks, packed, token_counts, total};
use crate::params::Params;
use crate::prompt::{frames_guess, guess_frames, prepare_text_prompt, prompt, PromptError};
use crate::sentences::{law_one_sentence_is_the_text, law_sentences_are_whole, sentences, split_sentences};
use crate::synth::{fits_context, in_context};
use crate::text::{chars_of, count_words, owned, trim, word_count};

verus! {

/// A sentence made ready for the tokenizer.
#[derive(Debug)]
pub struct Prompt {
    pub text: String,
    pub words: usize,
}

/// The prompt of a sentence, in a package.
pub open spec fn sentence_prompt(sentence: Seq<char>, p: Params) -> Seq<char> {
    prompt(sentence, p.pad_spaces, p.rm_semi, p.append_punct)
}

/// Splits a text into sentences and prepares each of them.
pub fn prepare_sentences(text: &str, p: &Params) -> (r: Result<Vec<Prompt>, PromptError>)
    ensures
        r is Err <==> sentences(text@).len() == 0,
        r matches Ok(v) ==> {
            &&& v.len() == sentences(text@).len()
            &&& forall|k: int|
                0 <= k < v.len() ==> {
                    &&& (#[trigger] v@[k]).text@ == sentence_prompt(sentences(text@)[k], *p)
                    &&& v@[k].words == word_count(v@[k].text@)
                }
            &&& forall|k: int|
                0 <= k < v.len() ==> (#[trigger] v@[k]).text@ == prompt(
                    sentences(text@)[k],
                    p.pad_spaces,
                    p.rm_semi,
                    p.append_punct,
                )
        },
{
    let sents: Vec<String> = split_sentences(text);
    assert(sents.len() == crate::text::texts(sents@).len());
    if sents.len() == 0 {
        return Err(PromptError::Empty);
    }
    let mut prompts: Vec<Prompt> = Vec::new();
    let mut k: usize = 0;
    while k < sents.len()
        invariant
            k <= sents.len(),
            crate::text::texts(sents@) == sentences(text@),
            sents.len() == sentences(text@).len(),
            prompts.len() == k,
            forall|j: int|
                0 <= j < k ==> {
                    &&& (#[trigger] prompts@[j]).text@ == sentence_prompt(sentences(text@)[j], *p)
                    &&& prompts@[j].words == word_count(prompts@[j].text@)
                },
        decreases sents.len() - k,
    {
        proof {
            law_sentences_are_whole(text@, k as int);
            assert(crate::text::texts(sents@)[k as int] == sents@[k as int]@);
            assert(trim(sents@[k as int]@) == sents@[k as int]@);
        }
        match prepare_text_prompt(sents[k].as_str(), p.pad_spaces, p.rm_semi, p.append_punct) {
            Err(e) => {
                return Err(e);
            },
            Ok((prepared, _)) => {
                let words: usize = count_words(&chars_of(prepared.as_str()));
                prompts.push(Prompt { text: prepared, words });
            },
        }
        k = k + 1;
    }
    Ok(prompts)
}

/// One run: the token ids that it speaks, and how many frames it keeps after the end of speech
/// is seen.
#[derive(Debug)]
pub struct Chunk {
    pub ids: Vec<u32>,
    pub guess: usize,
}

/// The words of all sentences.
pub open spec fn all_words(words: Seq<usize>) -> nat {
    chunk_words(words, whole(words.len()))
}

/// The indices of `n` sentences.
pub open spec fn whole(n: nat) -> Seq<usize> {
    Seq::new(n, |i: int| i as usize)
}

/// The token ids of the chunks, one after the other.
pub open spec fn planned_ids(sent_ids: Seq<Vec<u32>>, chunks: Seq<Seq<usize>>) -> Seq<u32>
    decreases chunks.len(),
{
    if chunks.len() == 0 {
        Seq::empty()
    } else {
        planned_ids(sent_ids, chunks.drop_last()) + chunk_ids(sent_ids, chunks.last())
    }
}

/// A chunk has no more words than all chunks together.
proof fn lemma_chunk_words(words: Seq<usize>, chunks: Seq<Seq<usize>>, k: int)
    requires
        0 <= k < chunks.len(),
    ensures
        chunk_words(words, chunks[k]) <= chunk_words(words, in_order(chunks)),
    decreases chunks.len(),
{
    lemma_words_add(words, in_order(chunks.drop_last()), chunks.last());
    if k < chunks.len() - 1 {
        lemma_chunk_words(words, chunks.drop_last(), k);
    }
}

/// The ids of the chunks are those of the sentences that they hold.
proof fn lemma_planned_ids(sent_ids: Seq<Vec<u32>>, chunks: Seq<Seq<usize>>)
    ensures
        planned_ids(sent_ids, chunks) == chunk_ids(sent_ids, in_order(chunks)),
    decreases chunks.len(),
{
    if chunks.len() > 0 {
        lemma_planned_ids(sent_ids, chunks.drop_last());
        lemma_ids_add(sent_ids, in_order(chunks.drop_last()), chunks.last());
    }
}

/// Packs tokenized sentences into runs. `frames[t]` is the number of frames expected of `t`
/// tokens, and `words` counts the words of each sentence.
pub fn plan_chunks(
    sent_ids: &[Vec<u32>],
    words: &[usize],
    frames: &[usize],
    p: &Params,
    off0: usize,
) -> (plan: Vec<Chunk>)
    requires
        words.len() == sent_ids.len(),
        total(token_counts(sent_ids@)) + sent_ids.len() <= frames.len(),
        all_words(words@) <= usize::MAX,
    ensures
        plan.len() == packed(sent_ids@, frames@, *p, off0 as nat).len(),
        forall|k: int|
            0 <= k < plan.len() ==> {
                let chunk = packed(sent_ids@, frames@, *p, off0 as nat)[k];
                &&& (#[trigger] plan@[k]).ids@ == chunk_ids(sent_ids@, chunk)
                &&& plan@[k].guess == frames_guess(chunk_words(words@, chunk))
                &&& plan@[k].ids@ == chunk.map_values(|i: usize| sent_ids@[i as int]@).flatten()
                &&& chunk_words(words@, chunk) < 5 ==> plan@[k].guess == 3
                &&& chunk_words(words@, chunk) >= 5 ==> plan@[k].guess == 1
            },
        plan@.map_values(|c: Chunk| c.ids@).flatten() == sent_ids@.map_values(
            |ids: Vec<u32>| ids@,
        ).flatten(),
{
    let chunks: Vec<Vec<usize>> = pack_chunks(sent_ids, frames, p, off0);
    let ghost lists = packed(sent_ids@, frames@, *p, off0 as nat);
    assert(chunks.len() == index_lists(chunks@).len());
    assert(sent_ids.len() == sent_ids@.len());
    proof {
        law_packing_keeps_every_sentence(sent_ids@, frames@, *p, off0 as nat);
    }
    let mut plan: Vec<Chunk> = Vec::new();
    let mut k: usize = 0;
    while k < chunks.len()
        invariant
            k <= chunks.len(),
            words.len() == sent_ids.len(),
            all_words(words@) <= usize::MAX,
            lists == packed(sent_ids@, frames@, *p, off0 as nat),
            index_lists(chunks@) == lists,
            in_order(lists) == whole(words@.len()),
            plan.len() == k,
            forall|j: int|
                0 <= j < k ==> {
                    &&& (#[trigger] plan@[j]).ids@ == chunk_ids(sent_ids@, lists[j])
                    &&& plan@[j].guess == frames_guess(chunk_words(words@, lists[j]))
                },
        decreases chunks.len() - k,
    {
        let chunk: &Vec<usize> = &chunks[k];
        proof {
            assert(index_lists(chunks@)[k as int] == chunk@);
            lemma_chunk_words(words@, lists, k as int);
            lemma_in_order(lists, k as int);
            assert forall|i: int| 0 <= i < chunk.len() implies #[trigger] chunk@[i]
                < sent_ids.len() by {
                assert(in_order(lists).contains(lists[k as int][i]));
            }
        }
        let ids: Vec<u32> = join_ids(sent_ids, chunk);
        let guess: usize = guess_frames(count_chunk_words(words, chunk));
        plan.push(Chunk { ids, guess });
        k = k + 1;
    }
    proof {
        assert forall|j: int| 0 <= j < plan.len() implies (#[trigger] plan@[j]).ids@
            == lists[j].map_values(|i: usize| sent_ids@[i as int]@).flatten() by {
            law_chunk_ids_are_joined(sent_ids@, lists[j]);
        }
        law_plan_keeps_every_token(sent_ids@, frames@, *p, off0 as nat);
        let ids = plan@.map_values(|c: Chunk| c.ids@);
        lemma_planned_are_joined(sent_ids@, lists, ids);
        lemma_whole_is_all(sent_ids@);
    }
    plan
}

/// The ids of the chunks, joined.
proof fn lemma_planned_are_joined(
    sent_ids: Seq<Vec<u32>>,
    chunks: Seq<Seq<usize>>,
    ids: Seq<Seq<u32>>,
)
    requires
        ids.len() == chunks.len(),
        forall|j: int| 0 <= j < chunks.len() ==> #[trigger] ids[j] == chunk_ids(sent_ids, chunks[j]),
    ensures
        ids.flatten() == planned_ids(sent_ids, chunks),
    decreases chunks.len(),
{
    if chunks.len() > 0 {
        let n = chunks.len() - 1;
        assert(ids[n] == chunk_ids(sent_ids, chunks[n]));
        lemma_planned_are_joined(sent_ids, chunks.drop_last(), ids.drop_last());
        assert(ids.drop_last().push(ids.last()) =~= ids);
        ids.drop_last().lemma_flatten_push(ids.last());
    }
}

/// All sentences, by their indices, are all sentences.
proof fn lemma_whole_is_all(sent_ids: Seq<Vec<u32>>)
    requires
        sent_ids.len() <= usize::MAX,
    ensures
        chunk_ids(sent_ids, whole(sent_ids.len())) == sent_ids.map_values(
            |ids: Vec<u32>| ids@,
        ).flatten(),
{
    let all = whole(sent_ids.len());
    law_chunk_ids_are_joined(sent_ids, all);
    assert(all.map_values(|i: usize| sent_ids[i as int]@) =~= sent_ids.map_values(
        |ids: Vec<u32>| ids@,
    ));
}

/// The runs speak the tokens of all sentences, in order, each once, with nothing between them.
pub proof fn law_plan_keeps_every_token(
    sent_ids: Seq<Vec<u32>>,
    frames: Seq<usize>,
    p: Params,
    off0: nat,
)
    requires
        sent_ids.len() <= usize::MAX,
    ensures
        planned_ids(sent_ids, packed(sent_ids, frames, p, off0)) == chunk_ids(
            sent_ids,
            whole(sent_ids.len()),
        ),
        planned_ids(sent_ids, packed(sent_ids, frames, p, off0)) == sent_ids.map_values(
            |ids: Vec<u32>| ids@,
        ).flatten(),
{
    lemma_whole_is_all(sent_ids);
    law_packing_keeps_every_sentence(sent_ids, frames, p, off0);
    lemma_planned_ids(sent_ids, packed(sent_ids, frames, p, off0));
}

/// A run over several sentences is never refused: it fits the context and the latents of a
/// chunk, as long as more tokens never mean fewer frames.
pub proof fn law_planned_runs_start(
    sent_ids: Seq<Vec<u32>>,
    frames: Seq<usize>,
    p: Params,
    off0: nat,
    k: int,
)
    requires
        sent_ids.len() <= usize::MAX,
        0 <= k < packed(sent_ids, frames, p, off0).len(),
        packed(sent_ids, frames, p, off0)[k].len() > 1,
        total(token_counts(sent_ids)) + sent_ids.len() <= frames.len(),
        forall|i: int, j: int|
            0 <= i <= j < frames.len() ==> #[trigger] frames[i] <= #[trigger] frames[j],
    ensures
        ({
            let tokens = chunk_ids(sent_ids, packed(sent_ids, frames, p, off0)[k]).len();
            &&& in_context(
                off0 as int,
                tokens,
                frames[tokens as int] as nat,
                p.max_len as nat,
            )
            &&& frames[tokens as int] <= p.max_latents
            &&& off0 + tokens + frames[tokens as int] <= p.max_len
        }),
{
    let lists = packed(sent_ids, frames, p, off0);
    law_packing_keeps_every_sentence(sent_ids, frames, p, off0);
    lemma_in_order(lists, k);
    assert forall|i: int| 0 <= i < lists[k].len() implies #[trigger] lists[k][i]
        < sent_ids.len() by {
        assert(in_order(lists).contains(lists[k][i]));
    }
    law_packed_runs_fit(sent_ids, frames, p, off0, k);
    law_joined_ids_count(sent_ids, lists[k]);
}

/// A text of one sentence is prepared as a whole: sentence by sentence or all at once, the prompt
/// is the same.
pub proof fn law_one_sentence_is_prepared_whole(text: Seq<char>, p: Params)
    requires
        sentences(text).len() == 1,
    ensures
        sentence_prompt(sentences(text)[0], p) == sentence_prompt(text, p),
{
    law_one_sentence_is_the_text(text);
    law_sentences_are_whole(text, 0);
    assert(trim(trim(text)) == trim(text));
}

/// A text that is spoken in one run and does not fit the context.
#[derive(Debug, Clone, Copy, PartialEq, Eq, Structural)]
pub enum SingleError {
    MaxLen,
}

/// The text of the error.
pub open spec fn single_message(e: SingleError) -> Seq<char> {
    "MAX_LEN 초과: 더 긴 컨텍스트 모델 필요"@
}

impl SingleError {
    /// The text of the error.
    pub fn message(self) -> (s: String)
        ensures
            s@ == single_message(self),
            s@ == "MAX_LEN 초과: 더 긴 컨텍스트 모델 필요"@,
    {
        owned("MAX_LEN 초과: 더 긴 컨텍스트 모델 필요")
    }
}

/// Accepts a text that is spoken in one run where it fits the context.
pub fn check_single(off0: usize, tokens: usize, max_gen: usize, p: &Params) -> (r: Result<
    (),
    SingleError,
>)
    ensures
        r is Ok <==> in_context(off0 as int, tokens as nat, max_gen as nat, p.max_len as nat),
        r is Ok <==> off0 + tokens + max_gen <= p.max_len,
{
    if fits_context(off0, tokens, max_gen, p.max_len) {
        Ok(())
    } else {
        Err(SingleError::MaxLen)
    }
}

} // verus!
