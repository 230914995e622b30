//! Packing sentences into chunks that one synthesis run can hold.
//!
//! How many frames a number of tokens is expected to take is an estimate made elsewhere; it
//! comes in as a table indexed by the number of tokens.
use vstd::prelude::*;
use crate::params::Params;

verus! {

/// The token counts of the sentences.
pub open spec fn token_counts(sent_ids: Seq<Vec<u32>>) -> Seq<nat> {
    sent_ids.map_values(|ids: Vec<u32>| ids@.len())
}

/// The sum of the counts.
pub open spec fn total(counts: Seq<nat>) -> nat
    decreases counts.len(),
{
    if counts.len() == 0 {
        0
    } else {
        total(counts.drop_last()) + counts.last()
    }
}

/// A run over `tokens` tokens, after `off0` voice positions, stays within the context and the
/// latents that the package allows.
pub open spec fn fits(frames: Seq<usize>, p: Params, off0: nat, tokens: nat) -> bool {
    &&& off0 + tokens + frames[tokens as int] <= p.max_len
    &&& frames[tokens as int] <= p.max_latents
}

/// The first `n` sentences packed in order: each joins the last chunk if what that then counts,
/// with one more for the join, still fits, and opens a chunk of its own otherwise. Gives the
/// chunks and what the last one counts.
pub open spec fn packing(
    counts: Seq<nat>,
    n: nat,
    frames: Seq<usize>,
    p: Params,
    off0: nat,
) -> (Seq<Seq<usize>>, nat)
    decreases n,
{
    if n == 0 {
        (Seq::empty(), 0)
    } else {
        let (chunks, size) = packing(counts, (n - 1) as nat, frames, p, off0);
        let si = (n - 1) as usize;
        let tc = counts[n - 1];
        if chunks.len() > 0 && fits(frames, p, off0, size + tc + 1) {
            (chunks.drop_last().push(chunks.last().push(si)), size + tc + 1)
        } else {
            (chunks.push(seq![si]), tc)
        }
    }
}

/// The sentences packed into chunks.
pub open spec fn packed(
    sent_ids: Seq<Vec<u32>>,
    frames: Seq<usize>,
    p: Params,
    off0: nat,
) -> Seq<Seq<usize>> {
    packing(token_counts(sent_ids), sent_ids.len(), frames, p, off0).0
}

/// The index sequences of the chunks.
pub open spec fn index_lists(chunks: Seq<Vec<usize>>) -> Seq<Seq<usize>> {
    chunks.map_values(|c: Vec<usize>| c@)
}

/// Whether a run over `tokens` tokens fits.
fn run_fits(frames: &[usize], p: &Params, off0: usize, tokens: usize) -> (b: bool)
    requires
        tokens < frames.len(),
    ensures
        b == fits(frames@, *p, off0 as nat, tokens as nat),
        b <==> off0 + tokens + frames@[tokens as int] <= p.max_len && frames@[tokens as int]
            <= p.max_latents,
{
    let g: usize = frames[tokens];
    g <= p.max_latents && off0 <= p.max_len && tokens <= p.max_len - off0 && g <= p.max_len - off0
        - tokens
}

/// Leading counts sum to no more than all of them.
proof fn lemma_total_grows(counts: Seq<nat>, k: int)
    requires
        0 <= k <= counts.len(),
    ensures
        total(counts.take(k)) <= total(counts),
    decreases counts.len(),
{
    if k < counts.len() {
        lemma_total_grows(counts.drop_last(), k);
        assert(counts.drop_last().take(k) =~= counts.take(k));
    } else {
        assert(counts.take(k) =~= counts);
    }
}

/// Packs sentences, given the expected number of frames for every number of tokens that a chunk
/// can come to.
pub fn pack_chunks(sent_ids: &[Vec<u32>], frames: &[usize], p: &Params, off0: usize) -> (chunks: Vec<
    Vec<usize>,
>)
    requires
        total(token_counts(sent_ids@)) + sent_ids.len() <= frames.len(),
    ensures
        index_lists(chunks@) == packed(sent_ids@, frames@, *p, off0 as nat),
        chunks@.len() == packed(sent_ids@, frames@, *p, off0 as nat).len(),
        forall|k: int|
            0 <= k < chunks@.len() ==> (#[trigger] chunks@[k])@ == packed(
                sent_ids@,
                frames@,
                *p,
                off0 as nat,
            )[k],
{
    let ghost counts = token_counts(sent_ids@);
    let mut chunks: Vec<Vec<usize>> = Vec::new();
    let mut cur: Vec<usize> = Vec::new();
    let mut size: usize = 0;
    let mut si: usize = 0;
    assert(index_lists(chunks@) =~= Seq::empty());
    while si < sent_ids.len()
        invariant
            si <= sent_ids.len(),
            counts == token_counts(sent_ids@),
            total(counts) + sent_ids.len() <= frames.len(),
            cur.len() == 0 <==> si == 0,
            packing(counts, si as nat, frames@, *p, off0 as nat) == (if si == 0 {
                (index_lists(chunks@), size as nat)
            } else {
                (index_lists(chunks@).push(cur@), size as nat)
            }),
            si == 0 ==> chunks.len() == 0,
            size + 1 <= total(counts.take(si as int)) + si || si == 0,
        decreases sent_ids.len() - si,
    {
        let tc: usize = sent_ids[si].len();
        proof {
            assert(counts.take(si + 1).drop_last() =~= counts.take(si as int));
            assert(counts[si as int] == tc);
            lemma_total_grows(counts, si + 1);
            lemma_total_grows(counts, si as int);
            assert(index_lists(chunks@).push(cur@).drop_last() =~= index_lists(chunks@));
        }
        if cur.len() > 0 && run_fits(frames, p, off0, size + tc + 1) {
            cur.push(si);
            size = size + tc + 1;
        } else {
            let ghost before = index_lists(chunks@);
            if cur.len() > 0 {
                let ghost closed = cur@;
                chunks.push(cur);
                assert(index_lists(chunks@) =~= before.push(closed));
            }
            cur = Vec::new();
            cur.push(si);
            assert(cur@ =~= seq![si]);
            size = tc;
        }
        si = si + 1;
    }
    if cur.len() > 0 {
        let ghost before = index_lists(chunks@);
        let ghost closed = cur@;
        chunks.push(cur);
        assert(index_lists(chunks@) =~= before.push(closed));
    }
    assert forall|k: int| 0 <= k < chunks@.len() implies (#[trigger] chunks@[k])@ == packed(
        sent_ids@,
        frames@,
        *p,
        off0 as nat,
    )[k] by {
        assert(index_lists(chunks@)[k] == chunks@[k]@);
    }
    assert(index_lists(chunks@).len() == chunks@.len());
    chunks
}

/// How many tokens the sentences of a chunk have when they are joined.
pub open spec fn joined_tokens(sent_ids: Seq<Vec<u32>>, chunk: Seq<usize>) -> nat {
    chunk.map_values(|i: usize| sent_ids[i as int]@).flatten().len()
}

/// One chunk after the other is all of them flattened.
proof fn lemma_in_order_is_flat(chunks: Seq<Seq<usize>>)
    ensures
        in_order(chunks) == chunks.flatten(),
    decreases chunks.len(),
{
    if chunks.len() > 0 {
        lemma_in_order_is_flat(chunks.drop_last());
        assert(chunks.drop_last().push(chunks.last()) =~= chunks);
        chunks.drop_last().lemma_flatten_push(chunks.last());
    }
}

/// What a chunk of known sentences counts, by the tokens of the sentences.
proof fn lemma_chunk_size(sent_ids: Seq<Vec<u32>>, chunk: Seq<usize>)
    requires
        forall|i: int| 0 <= i < chunk.len() ==> #[trigger] chunk[i] < sent_ids.len(),
    ensures
        chunk_tokens(token_counts(sent_ids), chunk) == joined_tokens(sent_ids, chunk),
{
    law_joined_ids_count(sent_ids, chunk);
    law_chunk_ids_are_joined(sent_ids, chunk);
}

/// Chunks of all sentences hold no others.
proof fn lemma_known_sentences(chunks: Seq<Seq<usize>>, n: nat, k: int)
    requires
        n <= usize::MAX,
        in_order(chunks) == Seq::new(n, |i: int| i as usize),
        0 <= k < chunks.len(),
    ensures
        forall|i: int| 0 <= i < chunks[k].len() ==> #[trigger] chunks[k][i] < n,
{
    lemma_in_order(chunks, k);
    assert forall|i: int| 0 <= i < chunks[k].len() implies #[trigger] chunks[k][i] < n by {
        assert(in_order(chunks).contains(chunks[k][i]));
    }
}

/// What a chunk holds stands among all chunks.
pub(crate) proof fn lemma_in_order(chunks: Seq<Seq<usize>>, k: int)
    requires
        0 <= k < chunks.len(),
    ensures
        forall|i: int|
            0 <= i < chunks[k].len() ==> in_order(chunks).contains(#[trigger] chunks[k][i]),
    decreases chunks.len(),
{
    let earlier = in_order(chunks.drop_last());
    if k < chunks.len() - 1 {
        lemma_in_order(chunks.drop_last(), k);
        assert forall|i: int| 0 <= i < chunks[k].len() implies in_order(chunks).contains(
            #[trigger] chunks[k][i],
        ) by {
            assert(chunks.drop_last()[k] == chunks[k]);
            assert(earlier.contains(chunks.drop_last()[k][i]));
            let j = choose|j: int| 0 <= j < earlier.len() && earlier[j] == chunks[k][i];
            assert(in_order(chunks)[j] == chunks[k][i]);
        }
    } else {
        assert forall|i: int| 0 <= i < chunks[k].len() implies in_order(chunks).contains(
            #[trigger] chunks[k][i],
        ) by {
            assert(in_order(chunks)[earlier.len() + i] == chunks[k][i]);
        }
    }
}

/// The tokens of the sentences in a chunk.
pub open spec fn chunk_tokens(counts: Seq<nat>, chunk: Seq<usize>) -> nat
    decreases chunk.len(),
{
    if chunk.len() == 0 {
        0
    } else {
        chunk_tokens(counts, chunk.drop_last()) + counts[chunk.last() as int]
    }
}

/// What a chunk counts: its tokens and one more for every join.
pub open spec fn chunk_size(counts: Seq<nat>, chunk: Seq<usize>) -> nat {
    (chunk_tokens(counts, chunk) + chunk.len() - 1) as nat
}

/// The chunks one after the other.
pub open spec fn in_order(chunks: Seq<Seq<usize>>) -> Seq<usize>
    decreases chunks.len(),
{
    if chunks.len() == 0 {
        Seq::empty()
    } else {
        in_order(chunks.drop_last()) + chunks.last()
    }
}

/// A chunk holds one sentence or fits.
pub open spec fn chunk_holds(
    counts: Seq<nat>,
    chunk: Seq<usize>,
    frames: Seq<usize>,
    p: Params,
    off0: nat,
) -> bool {
    &&& chunk.len() > 0
    &&& chunk.len() > 1 ==> fits(frames, p, off0, chunk_size(counts, chunk))
}

/// The first sentence of `next` could not have joined `chunk`.
pub open spec fn chunk_is_full(
    counts: Seq<nat>,
    chunk: Seq<usize>,
    next: Seq<usize>,
    frames: Seq<usize>,
    p: Params,
    off0: nat,
) -> bool {
    !fits(frames, p, off0, chunk_size(counts, chunk.push(next[0])))
}

/// What packing keeps true at every sentence.
proof fn lemma_packing(counts: Seq<nat>, n: nat, frames: Seq<usize>, p: Params, off0: nat)
    requires
        n <= counts.len(),
        n <= usize::MAX,
    ensures
        ({
            let (chunks, size) = packing(counts, n, frames, p, off0);
            &&& in_order(chunks) == Seq::new(n, |i: int| i as usize)
            &&& chunks.len() == 0 <==> n == 0
            &&& n > 0 ==> size == chunk_size(counts, chunks.last())
            &&& forall|k: int|
                0 <= k < chunks.len() ==> #[trigger] chunk_holds(
                    counts,
                    chunks[k],
                    frames,
                    p,
                    off0,
                )
            &&& forall|k: int|
                0 < k < chunks.len() ==> #[trigger] chunk_is_full(
                    counts,
                    chunks[k - 1],
                    chunks[k],
                    frames,
                    p,
                    off0,
                )
        }),
    decreases n,
{
    if n == 0 {
        assert(in_order(packing(counts, n, frames, p, off0).0) =~= Seq::new(
            n,
            |i: int| i as usize,
        ));
    } else {
        let m = (n - 1) as nat;
        lemma_packing(counts, m, frames, p, off0);
        let (earlier, size) = packing(counts, m, frames, p, off0);
        let (chunks, _) = packing(counts, n, frames, p, off0);
        let si = (n - 1) as usize;
        let tc = counts[n - 1];
        if earlier.len() > 0 && fits(frames, p, off0, size + tc + 1) {
            let last = earlier.last();
            let grown = last.push(si);
            assert(chunk_holds(counts, earlier[earlier.len() - 1], frames, p, off0));
            assert(grown.drop_last() =~= last);
            assert(chunks.drop_last() =~= earlier.drop_last());
            assert(chunks.last() == grown);
            assert(in_order(chunks) =~= in_order(earlier).push(si));
            assert(chunk_size(counts, grown) == size + tc + 1);
            assert forall|k: int| 0 <= k < chunks.len() implies #[trigger] chunk_holds(
                counts,
                chunks[k],
                frames,
                p,
                off0,
            ) by {
                if k < chunks.len() - 1 {
                    assert(chunk_holds(counts, earlier[k], frames, p, off0));
                }
            }
            assert forall|k: int| 0 < k < chunks.len() implies #[trigger] chunk_is_full(
                counts,
                chunks[k - 1],
                chunks[k],
                frames,
                p,
                off0,
            ) by {
                assert(chunk_is_full(counts, earlier[k - 1], earlier[k], frames, p, off0));
                assert(chunk_holds(counts, earlier[k], frames, p, off0));
                assert(chunks[k - 1] == earlier[k - 1]);
                assert(chunks[k][0] == earlier[k][0]);
            }
        } else {
            assert(chunks == earlier.push(seq![si]));
            assert(chunks.drop_last() =~= earlier);
            assert(in_order(chunks) =~= in_order(earlier).push(si));
            assert(chunk_size(counts, seq![si]) == tc) by {
                reveal_with_fuel(chunk_tokens, 2);
                assert(seq![si].drop_last() =~= Seq::empty());
            }
            assert forall|k: int| 0 <= k < chunks.len() implies #[trigger] chunk_holds(
                counts,
                chunks[k],
                frames,
                p,
                off0,
            ) by {
                if k < chunks.len() - 1 {
                    assert(chunk_holds(counts, earlier[k], frames, p, off0));
                }
            }
            assert forall|k: int| 0 < k < chunks.len() implies #[trigger] chunk_is_full(
                counts,
                chunks[k - 1],
                chunks[k],
                frames,
                p,
                off0,
            ) by {
                if k < chunks.len() - 1 {
                    assert(chunk_is_full(counts, earlier[k - 1], earlier[k], frames, p, off0));
                } else {
                    let last = earlier.last();
                    assert(chunks[k - 1] == last);
                    assert(chunk_holds(counts, earlier[earlier.len() - 1], frames, p, off0));
                    assert(last.push(si).drop_last() =~= last);
                    assert(chunk_size(counts, last.push(si)) == size + tc + 1);
                }
            }
        }
        assert(in_order(chunks) =~= Seq::new(n, |i: int| i as usize));
    }
}

/// No chunk counts more than all sentences with one for each join.
proof fn lemma_packing_size(
    counts: Seq<nat>,
    n: nat,
    frames: Seq<usize>,
    p: Params,
    off0: nat,
    k: int,
)
    requires
        n <= counts.len(),
        n <= usize::MAX,
        0 <= k < packing(counts, n, frames, p, off0).0.len(),
    ensures
        chunk_size(counts, packing(counts, n, frames, p, off0).0[k]) < total(counts.take(n as int))
            + n,
    decreases n,
{
    if n > 0 {
        let m = (n - 1) as nat;
        let (earlier, size) = packing(counts, m, frames, p, off0);
        let (chunks, _) = packing(counts, n, frames, p, off0);
        lemma_packing(counts, m, frames, p, off0);
        lemma_packing(counts, n, frames, p, off0);
        assert(counts.take(n as int).drop_last() =~= counts.take(m as int));
        if k < chunks.len() - 1 {
            assert(chunks[k] == earlier[k]);
            lemma_packing_size(counts, m, frames, p, off0, k);
        } else if earlier.len() > 0 {
            lemma_packing_size(counts, m, frames, p, off0, earlier.len() - 1);
        }
    }
}

/// Every sentence stands in one chunk, and the chunks keep the order of the sentences.
pub proof fn law_packing_keeps_every_sentence(
    sent_ids: Seq<Vec<u32>>,
    frames: Seq<usize>,
    p: Params,
    off0: nat,
)
    requires
        sent_ids.len() <= usize::MAX,
    ensures
        in_order(packed(sent_ids, frames, p, off0)) == Seq::new(
            sent_ids.len(),
            |i: int| i as usize,
        ),
        packed(sent_ids, frames, p, off0).flatten().len() == sent_ids.len(),
        forall|i: int|
            0 <= i < sent_ids.len() ==> #[trigger] packed(sent_ids, frames, p, off0).flatten()[i]
                == i,
        forall|k: int|
            0 <= k < packed(sent_ids, frames, p, off0).len() ==> (#[trigger] packed(
                sent_ids,
                frames,
                p,
                off0,
            )[k]).len() > 0,
{
    lemma_in_order_is_flat(packed(sent_ids, frames, p, off0));
    let counts = token_counts(sent_ids);
    lemma_packing(counts, sent_ids.len(), frames, p, off0);
    let chunks = packed(sent_ids, frames, p, off0);
    assert forall|k: int| 0 <= k < chunks.len() implies (#[trigger] chunks[k]).len() > 0 by {
        assert(chunk_holds(counts, chunks[k], frames, p, off0));
    }
}

/// A chunk of several sentences fits, counted with its joins.
pub proof fn law_packed_chunks_fit(
    sent_ids: Seq<Vec<u32>>,
    frames: Seq<usize>,
    p: Params,
    off0: nat,
    k: int,
)
    requires
        sent_ids.len() <= usize::MAX,
        0 <= k < packed(sent_ids, frames, p, off0).len(),
        packed(sent_ids, frames, p, off0)[k].len() > 1,
    ensures
        fits(
            frames,
            p,
            off0,
            chunk_size(token_counts(sent_ids), packed(sent_ids, frames, p, off0)[k]),
        ),
        ({
            let chunk = packed(sent_ids, frames, p, off0)[k];
            let n = joined_tokens(sent_ids, chunk) + chunk.len() - 1;
            &&& off0 + n + frames[n] <= p.max_len
            &&& frames[n] <= p.max_latents
        }),
{
    law_packing_keeps_every_sentence(sent_ids, frames, p, off0);
    lemma_known_sentences(packed(sent_ids, frames, p, off0), sent_ids.len(), k);
    lemma_chunk_size(sent_ids, packed(sent_ids, frames, p, off0)[k]);
    let counts = token_counts(sent_ids);
    lemma_packing(counts, sent_ids.len(), frames, p, off0);
    assert(chunk_holds(counts, packed(sent_ids, frames, p, off0)[k], frames, p, off0));
}

/// No chunk is closed early: the sentence that opens the next one would not have fitted.
pub proof fn law_packing_is_greedy(
    sent_ids: Seq<Vec<u32>>,
    frames: Seq<usize>,
    p: Params,
    off0: nat,
    k: int,
)
    requires
        sent_ids.len() <= usize::MAX,
        0 < k < packed(sent_ids, frames, p, off0).len(),
    ensures
        ({
            let chunks = packed(sent_ids, frames, p, off0);
            !fits(
                frames,
                p,
                off0,
                chunk_size(token_counts(sent_ids), chunks[k - 1].push(chunks[k][0])),
            )
        }),
        ({
            let chunks = packed(sent_ids, frames, p, off0);
            let with_next = chunks[k - 1].push(chunks[k][0]);
            let n = joined_tokens(sent_ids, with_next) + with_next.len() - 1;
            off0 + n + frames[n] > p.max_len || frames[n] > p.max_latents
        }),
{
    law_packing_keeps_every_sentence(sent_ids, frames, p, off0);
    let lists = packed(sent_ids, frames, p, off0);
    assert(lists[k].len() > 0);
    let with_next = lists[k - 1].push(lists[k][0]);
    assert forall|i: int| 0 <= i < with_next.len() implies #[trigger] with_next[i]
        < sent_ids.len() by {
        lemma_known_sentences(lists, sent_ids.len(), k - 1);
        lemma_known_sentences(lists, sent_ids.len(), k);
        if i < lists[k - 1].len() {
            assert(lists[k - 1][i] < sent_ids.len());
        } else {
            assert(lists[k][0] < sent_ids.len());
        }
    }
    lemma_chunk_size(sent_ids, with_next);
    let counts = token_counts(sent_ids);
    lemma_packing(counts, sent_ids.len(), frames, p, off0);
    let chunks = packed(sent_ids, frames, p, off0);
    assert(chunk_is_full(counts, chunks[k - 1], chunks[k], frames, p, off0));
}

/// A chunk of several sentences, whose token ids are run one after the other without anything
/// for the joins, fits as well, as long as more tokens never mean fewer frames.
pub proof fn law_packed_runs_fit(
    sent_ids: Seq<Vec<u32>>,
    frames: Seq<usize>,
    p: Params,
    off0: nat,
    k: int,
)
    requires
        sent_ids.len() <= usize::MAX,
        0 <= k < packed(sent_ids, frames, p, off0).len(),
        packed(sent_ids, frames, p, off0)[k].len() > 1,
        total(token_counts(sent_ids)) + sent_ids.len() <= frames.len(),
        forall|i: int, j: int|
            0 <= i <= j < frames.len() ==> #[trigger] frames[i] <= #[trigger] frames[j],
    ensures
        fits(
            frames,
            p,
            off0,
            chunk_tokens(token_counts(sent_ids), packed(sent_ids, frames, p, off0)[k]),
        ),
        ({
            let n = joined_tokens(sent_ids, packed(sent_ids, frames, p, off0)[k]);
            &&& off0 + n + frames[n as int] <= p.max_len
            &&& frames[n as int] <= p.max_latents
        }),
{
    law_packing_keeps_every_sentence(sent_ids, frames, p, off0);
    lemma_known_sentences(packed(sent_ids, frames, p, off0), sent_ids.len(), k);
    lemma_chunk_size(sent_ids, packed(sent_ids, frames, p, off0)[k]);
    law_packed_chunks_fit(sent_ids, frames, p, off0, k);
    let counts = token_counts(sent_ids);
    lemma_packing_size(counts, sent_ids.len(), frames, p, off0, k);
    assert(counts.take(counts.len() as int) =~= counts);
}

/// The first `n` sentences, cut into runs of neighbours.
pub open spec fn is_cut(runs: Seq<Seq<usize>>, n: nat) -> bool {
    &&& in_order(runs) == Seq::new(n, |i: int| i as usize)
    &&& forall|k: int| 0 <= k < runs.len() ==> (#[trigger] runs[k]).len() > 0
}

/// A cut without its last sentence.
spec fn shorter(runs: Seq<Seq<usize>>) -> Seq<Seq<usize>> {
    if runs.last().len() == 1 {
        runs.drop_last()
    } else {
        runs.drop_last().push(runs.last().drop_last())
    }
}

/// What a cut is without its last sentence.
proof fn lemma_shorter(counts: Seq<nat>, runs: Seq<Seq<usize>>, n: nat)
    requires
        is_cut(runs, n),
        0 < n <= usize::MAX,
    ensures
        runs.len() > 0,
        is_cut(shorter(runs), (n - 1) as nat),
        runs.last().last() == n - 1,
        runs.last().len() <= n,
        runs.last().len() == 1 ==> chunk_size(counts, runs.last()) == counts[n - 1],
        runs.last().len() > 1 ==> chunk_size(counts, runs.last()) == chunk_size(
            counts,
            runs.last().drop_last(),
        ) + counts[n - 1] + 1,
{
    let all = in_order(runs);
    assert(all.len() == n);
    let last = runs.last();
    let before = in_order(runs.drop_last());
    assert(all == before + last);
    assert(runs[runs.len() - 1].len() > 0);
    assert(all[n - 1] == last.last());
    let cut = shorter(runs);
    if last.len() == 1 {
        reveal_with_fuel(chunk_tokens, 2);
        assert(before =~= all.drop_last());
    } else {
        assert(cut.drop_last() =~= runs.drop_last());
        assert(in_order(cut) =~= before + last.drop_last());
        assert(before + last.drop_last() =~= all.drop_last());
    }
    assert(all.drop_last() =~= Seq::new((n - 1) as nat, |i: int| i as usize));
    assert forall|k: int| 0 <= k < cut.len() implies (#[trigger] cut[k]).len() > 0 by {
        if k < runs.len() - 1 {
            assert(cut[k] == runs[k]);
        }
    }
}

/// The last run of a cut counts no more than all sentences and their joins.
proof fn lemma_cut_size(counts: Seq<nat>, runs: Seq<Seq<usize>>, n: nat)
    requires
        is_cut(runs, n),
        0 < n <= counts.len(),
        n <= usize::MAX,
    ensures
        chunk_size(counts, runs.last()) + 1 <= total(counts.take(n as int)) + n,
    decreases n,
{
    lemma_shorter(counts, runs, n);
    assert(counts.take(n as int).drop_last() =~= counts.take(n - 1));
    if runs.last().len() > 1 {
        lemma_cut_size(counts, shorter(runs), (n - 1) as nat);
    }
}

/// At every sentence, packing has opened no more chunks than a cut into fitting runs, and where it
/// has opened as many, its last chunk counts no more.
proof fn lemma_packing_keeps_ahead(
    counts: Seq<nat>,
    n: nat,
    frames: Seq<usize>,
    p: Params,
    off0: nat,
    runs: Seq<Seq<usize>>,
)
    requires
        n <= counts.len() <= usize::MAX,
        total(counts) + counts.len() <= frames.len(),
        forall|i: int, j: int|
            0 <= i <= j < frames.len() ==> #[trigger] frames[i] <= #[trigger] frames[j],
        is_cut(runs, n),
        forall|k: int|
            0 <= k < runs.len() ==> chunk_holds(counts, #[trigger] runs[k], frames, p, off0),
    ensures
        ({
            let (chunks, size) = packing(counts, n, frames, p, off0);
            &&& chunks.len() <= runs.len()
            &&& n > 0 && chunks.len() == runs.len() ==> size <= chunk_size(counts, runs.last())
            &&& n > 0 ==> chunks.len() > 0
        }),
    decreases n,
{
    if n > 0 {
        let m = (n - 1) as nat;
        let cut = shorter(runs);
        let last = runs.last();
        lemma_shorter(counts, runs, n);
        lemma_cut_size(counts, runs, n);
        lemma_total_grows(counts, n as int);
        assert(chunk_holds(counts, runs[runs.len() - 1], frames, p, off0));
        let full = chunk_size(counts, last);
        assert(full < frames.len());
        assert forall|k: int| 0 <= k < cut.len() implies chunk_holds(
            counts,
            #[trigger] cut[k],
            frames,
            p,
            off0,
        ) by {
            if k < runs.len() - 1 {
                assert(cut[k] == runs[k]);
            } else {
                let part = chunk_size(counts, cut[k]);
                assert(part <= full);
                assert(frames[part as int] <= frames[full as int]);
            }
        }
        lemma_packing_keeps_ahead(counts, m, frames, p, off0, cut);
        let (chunks, size) = packing(counts, m, frames, p, off0);
        let joined = size + counts[n - 1] + 1;
        if last.len() > 1 && chunks.len() == runs.len() {
            assert(m > 0);
            assert(joined <= full);
            assert(frames[joined as int] <= frames[full as int]);
            assert(fits(frames, p, off0, joined));
        }
    }
}

/// No cut of the sentences into runs of neighbours, each of which fits or is one sentence, has
/// fewer runs than packing gives chunks, as long as more tokens never mean fewer frames.
pub proof fn law_packing_is_shortest(
    sent_ids: Seq<Vec<u32>>,
    frames: Seq<usize>,
    p: Params,
    off0: nat,
    runs: Seq<Seq<usize>>,
)
    requires
        sent_ids.len() <= usize::MAX,
        total(token_counts(sent_ids)) + sent_ids.len() <= frames.len(),
        forall|i: int, j: int|
            0 <= i <= j < frames.len() ==> #[trigger] frames[i] <= #[trigger] frames[j],
        runs.flatten() == Seq::new(sent_ids.len(), |i: int| i as usize),
        forall|k: int| 0 <= k < runs.len() ==> (#[trigger] runs[k]).len() > 0,
        forall|k: int|
            0 <= k < runs.len() && (#[trigger] runs[k]).len() > 1 ==> {
                let n = joined_tokens(sent_ids, runs[k]) + runs[k].len() - 1;
                &&& off0 + n + frames[n] <= p.max_len
                &&& frames[n] <= p.max_latents
            },
    ensures
        packed(sent_ids, frames, p, off0).len() <= runs.len(),
{
    lemma_in_order_is_flat(runs);
    let counts = token_counts(sent_ids);
    assert forall|k: int| 0 <= k < runs.len() implies chunk_holds(
        counts,
        #[trigger] runs[k],
        frames,
        p,
        off0,
    ) by {
        lemma_known_sentences(runs, sent_ids.len(), k);
        lemma_chunk_size(sent_ids, runs[k]);
    }
    lemma_packing_keeps_ahead(token_counts(sent_ids), sent_ids.len(), frames, p, off0, runs);
}

/// The token ids of the sentences in a chunk, one after the other.
pub open spec fn chunk_ids(sent_ids: Seq<Vec<u32>>, chunk: Seq<usize>) -> Seq<u32>
    decreases chunk.len(),
{
    if chunk.len() == 0 {
        Seq::empty()
    } else {
        chunk_ids(sent_ids, chunk.drop_last()) + sent_ids[chunk.last() as int]@
    }
}

/// The words of the sentences in a chunk.
pub open spec fn chunk_words(words: Seq<usize>, chunk: Seq<usize>) -> nat
    decreases chunk.len(),
{
    if chunk.len() == 0 {
        0
    } else {
        chunk_words(words, chunk.drop_last()) + words[chunk.last() as int] as nat
    }
}

/// Joins the token ids of a chunk; nothing stands between two sentences.
pub fn join_ids(sent_ids: &[Vec<u32>], chunk: &[usize]) -> (ids: Vec<u32>)
    requires
        forall|i: int| 0 <= i < chunk.len() ==> #[trigger] chunk@[i] < sent_ids.len(),
    ensures
        ids@ == chunk_ids(sent_ids@, chunk@),
        ids@ == chunk@.map_values(|i: usize| sent_ids@[i as int]@).flatten(),
{
    let mut ids: Vec<u32> = Vec::new();
    let mut i: usize = 0;
    while i < chunk.len()
        invariant
            i <= chunk.len(),
            forall|i: int| 0 <= i < chunk.len() ==> #[trigger] chunk@[i] < sent_ids.len(),
            ids@ == chunk_ids(sent_ids@, chunk@.take(i as int)),
        decreases chunk.len() - i,
    {
        assert(chunk@.take(i + 1).drop_last() =~= chunk@.take(i as int));
        let si: usize = chunk[i];
        let ghost sofar = ids@;
        let mut j: usize = 0;
        while j < sent_ids[si].len()
            invariant
                si < sent_ids.len(),
                j <= sent_ids[si as int].len(),
                ids@ == sofar + sent_ids[si as int]@.take(j as int),
            decreases sent_ids[si as int].len() - j,
        {
            ids.push(sent_ids[si][j]);
            j = j + 1;
            assert(sent_ids[si as int]@.take(j as int) =~= sent_ids[si as int]@.take(j - 1).push(
                sent_ids[si as int]@[j - 1],
            ));
        }
        assert(sent_ids[si as int]@.take(j as int) =~= sent_ids[si as int]@);
        i = i + 1;
    }
    assert(chunk@.take(chunk@.len() as int) =~= chunk@);
    proof {
        law_chunk_ids_are_joined(sent_ids@, chunk@);
    }
    ids
}

/// The token ids of a chunk are those of its sentences, joined.
pub proof fn law_chunk_ids_are_joined(sent_ids: Seq<Vec<u32>>, chunk: Seq<usize>)
    ensures
        chunk_ids(sent_ids, chunk) == chunk.map_values(|i: usize| sent_ids[i as int]@).flatten(),
    decreases chunk.len(),
{
    let f = |i: usize| sent_ids[i as int]@;
    if chunk.len() > 0 {
        law_chunk_ids_are_joined(sent_ids, chunk.drop_last());
        let part = chunk.drop_last().map_values(f);
        assert(part =~= chunk.drop_last().map_values(|i: usize| sent_ids[i as int]@));
        assert(part.push(f(chunk.last())) =~= chunk.map_values(|i: usize| sent_ids[i as int]@));
        part.lemma_flatten_push(f(chunk.last()));
    } else {
        assert(chunk.map_values(|i: usize| sent_ids[i as int]@) =~= Seq::empty());
    }
}

/// Token ids of two parts of a chunk stand one after the other.
pub(crate) proof fn lemma_ids_add(sent_ids: Seq<Vec<u32>>, a: Seq<usize>, b: Seq<usize>)
    ensures
        chunk_ids(sent_ids, a + b) == chunk_ids(sent_ids, a) + chunk_ids(sent_ids, b),
    decreases b.len(),
{
    if b.len() == 0 {
        assert(a + b =~= a);
    } else {
        assert((a + b).drop_last() =~= a + b.drop_last());
        lemma_ids_add(sent_ids, a, b.drop_last());
        assert(chunk_ids(sent_ids, a + b) =~= chunk_ids(sent_ids, a) + chunk_ids(sent_ids, b));
    }
}

/// Words add up over two parts.
pub(crate) proof fn lemma_words_add(words: Seq<usize>, a: Seq<usize>, b: Seq<usize>)
    ensures
        chunk_words(words, a + b) == chunk_words(words, a) + chunk_words(words, b),
    decreases b.len(),
{
    if b.len() == 0 {
        assert(a + b =~= a);
    } else {
        assert((a + b).drop_last() =~= a + b.drop_last());
        lemma_words_add(words, a, b.drop_last());
    }
}

/// The words of a chunk add up over its parts, and those of one sentence are its own.
pub proof fn law_chunk_words_add_up(words: Seq<usize>, a: Seq<usize>, b: Seq<usize>, i: usize)
    ensures
        chunk_words(words, a + b) == chunk_words(words, a) + chunk_words(words, b),
        chunk_words(words, seq![i]) == words[i as int],
{
    reveal_with_fuel(chunk_words, 2);
    lemma_words_add(words, a, b);
}

/// The words of a prefix of a chunk are no more than those of the chunk.
proof fn lemma_chunk_words_grow(words: Seq<usize>, chunk: Seq<usize>, k: int)
    requires
        0 <= k <= chunk.len(),
    ensures
        chunk_words(words, chunk.take(k)) <= chunk_words(words, chunk),
    decreases chunk.len(),
{
    if k < chunk.len() {
        lemma_chunk_words_grow(words, chunk.drop_last(), k);
        assert(chunk.drop_last().take(k) =~= chunk.take(k));
    } else {
        assert(chunk.take(k) =~= chunk);
    }
}

/// Counts the words of a chunk.
pub fn count_chunk_words(words: &[usize], chunk: &[usize]) -> (n: usize)
    requires
        forall|i: int| 0 <= i < chunk.len() ==> #[trigger] chunk@[i] < words.len(),
        chunk_words(words@, chunk@) <= usize::MAX,
    ensures
        n == chunk_words(words@, chunk@),
{
    let mut n: usize = 0;
    let mut i: usize = 0;
    while i < chunk.len()
        invariant
            i <= chunk.len(),
            forall|i: int| 0 <= i < chunk.len() ==> #[trigger] chunk@[i] < words.len(),
            chunk_words(words@, chunk@) <= usize::MAX,
            n == chunk_words(words@, chunk@.take(i as int)),
        decreases chunk.len() - i,
    {
        proof {
            assert(chunk@.take(i + 1).drop_last() =~= chunk@.take(i as int));
            lemma_chunk_words_grow(words@, chunk@, i + 1);
        }
        n = n + words[chunk[i]];
        i = i + 1;
    }
    assert(chunk@.take(chunk@.len() as int) =~= chunk@);
    n
}

/// A chunk has as many token ids as its sentences have together.
pub proof fn law_joined_ids_count(sent_ids: Seq<Vec<u32>>, chunk: Seq<usize>)
    requires
        forall|i: int| 0 <= i < chunk.len() ==> #[trigger] chunk[i] < sent_ids.len(),
    ensures
        chunk_ids(sent_ids, chunk).len() == chunk_tokens(token_counts(sent_ids), chunk),
    decreases chunk.len(),
{
    if chunk.len() > 0 {
        assert(chunk[chunk.len() - 1] < sent_ids.len());
        assert forall|i: int| 0 <= i < chunk.drop_last().len() implies #[trigger] chunk.drop_last()[i]
            < sent_ids.len() by {
            assert(chunk[i] < sent_ids.len());
        }
        law_joined_ids_count(sent_ids, chunk.drop_last());
    }
}

} // verus!
