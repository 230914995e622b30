//! Splitting a text into sentences.
use vstd::prelude::*;
use crate::text::{chars_of, is_white_space, push_trimmed, trim_chars};

verus! {

/// A character that ends a sentence.
pub open spec fn terminator(c: char) -> bool {
    c == '.' || c == '?' || c == '!' || c == '…'
}

/// Only white space stands between position `i` and a terminator before it.
pub open spec fn follows_terminator(t: Seq<char>, i: int) -> bool
    decreases i,
{
    i > 0 && (terminator(t[i - 1]) || (crate::text::white_space(t[i - 1]) && follows_terminator(
        t,
        i - 1,
    )))
}

/// Position `i` belongs to a gap between sentences: a line break, or white space after a
/// terminator.
pub open spec fn is_gap(t: Seq<char>, i: int) -> bool {
    t[i] == '\n' || (crate::text::white_space(t[i]) && follows_terminator(t, i))
}

/// The first `n` characters cut at every gap position; empty pieces are kept.
pub open spec fn pieces(t: Seq<char>, n: nat) -> Seq<Seq<char>>
    decreases n,
{
    if n == 0 {
        seq![Seq::empty()]
    } else {
        let earlier = pieces(t, (n - 1) as nat);
        if is_gap(t, n - 1) {
            earlier.push(Seq::empty())
        } else {
            earlier.drop_last().push(earlier.last().push(t[n - 1]))
        }
    }
}

/// The sentences of a text: what stands between its gaps, trimmed, where anything is left.
pub open spec fn sentences(text: Seq<char>) -> Seq<Seq<char>> {
    let t = crate::text::trim(text);
    crate::text::nonempty(crate::text::trimmed(pieces(t, t.len())))
}

/// Whether `c` ends a sentence.
fn is_terminator(c: char) -> (b: bool)
    ensures
        b == terminator(c),
{
    c == '.' || c == '?' || c == '!' || c == '…'
}

/// Splits a text into its sentences: after `.`, `?`, `!` or `…` and white space, and at line
/// breaks.
pub fn split_sentences(text: &str) -> (out: Vec<String>)
    ensures
        crate::text::texts(out@) == sentences(text@),
        out@.len() == sentences(text@).len(),
        forall|k: int| 0 <= k < out@.len() ==> (#[trigger] out@[k])@ == sentences(text@)[k],
{
    let t: Vec<char> = trim_chars(&chars_of(text));
    let mut out: Vec<String> = Vec::new();
    let mut cur: Vec<char> = Vec::new();
    let ghost mut done: Seq<Seq<char>> = Seq::empty();
    let mut ended: bool = false;
    let mut i: usize = 0;
    assert(crate::text::texts(out@) =~= crate::text::nonempty(crate::text::trimmed(done)));
    while i < t.len()
        invariant
            i <= t.len(),
            ended == follows_terminator(t@, i as int),
            pieces(t@, i as nat) == done.push(cur@),
            crate::text::texts(out@) == crate::text::nonempty(crate::text::trimmed(done)),
        decreases t.len() - i,
    {
        let c: char = t[i];
        let space: bool = is_white_space(c);
        assert(done.push(cur@).drop_last() == done);
        if c == '\n' || (space && ended) {
            push_trimmed(&mut out, &cur, Ghost(done));
            proof {
                done = done.push(cur@);
            }
            cur = Vec::new();
        } else {
            cur.push(c);
        }
        ended = is_terminator(c) || (space && ended);
        i = i + 1;
    }
    push_trimmed(&mut out, &cur, Ghost(done));
    assert(crate::text::texts(out@).len() == out@.len());
    assert forall|k: int| 0 <= k < out@.len() implies (#[trigger] out@[k])@ == sentences(
        text@,
    )[k] by {
        assert(crate::text::texts(out@)[k] == out@[k]@);
    }
    out
}

/// A text without its white space.
pub open spec fn ink(s: Seq<char>) -> Seq<char>
    decreases s.len(),
{
    if s.len() == 0 {
        Seq::empty()
    } else if crate::text::white_space(s.last()) {
        ink(s.drop_last())
    } else {
        ink(s.drop_last()).push(s.last())
    }
}

/// The parts one after the other.
pub open spec fn concatenated(parts: Seq<Seq<char>>) -> Seq<char>
    decreases parts.len(),
{
    if parts.len() == 0 {
        Seq::empty()
    } else {
        concatenated(parts.drop_last()) + parts.last()
    }
}

/// `ink` goes part by part.
pub(crate) proof fn lemma_ink_adds(a: Seq<char>, b: Seq<char>)
    ensures
        ink(a + b) == ink(a) + ink(b),
    decreases b.len(),
{
    if b.len() == 0 {
        assert(a + b =~= a);
    } else {
        lemma_ink_adds(a, b.drop_last());
        assert((a + b).drop_last() =~= a + b.drop_last());
        assert((a + b).last() == b.last());
        assert(ink(a + b) =~= ink(a) + ink(b));
    }
}

/// Trimming is cutting a part out and loses no ink; what it leaves begins and ends with ink.
pub(crate) proof fn lemma_trim(s: Seq<char>) -> (r: (int, int))
    ensures
        0 <= r.0 <= r.1 <= s.len(),
        crate::text::trim(s) == s.subrange(r.0, r.1),
        ink(crate::text::trim(s)) == ink(s),
        crate::text::trim(s).len() > 0 ==> !crate::text::white_space(crate::text::trim(s)[0])
            && !crate::text::white_space(crate::text::trim(s).last()),
{
    let u = crate::text::trim_start(s);
    let a = lemma_trim_start(s);
    let n = lemma_trim_end(u);
    assert(u.take(n) =~= s.subrange(a, a + n));
    (a, a + n)
}

proof fn lemma_trim_start(s: Seq<char>) -> (a: int)
    ensures
        0 <= a <= s.len(),
        crate::text::trim_start(s) == s.skip(a),
        ink(crate::text::trim_start(s)) == ink(s),
        crate::text::trim_start(s).len() > 0 ==> !crate::text::white_space(
            crate::text::trim_start(s)[0],
        ),
    decreases s.len(),
{
    if s.len() > 0 && crate::text::white_space(s[0]) {
        let a = lemma_trim_start(s.drop_first());
        assert(s.drop_first().skip(a) =~= s.skip(a + 1));
        let head = seq![s[0]];
        lemma_ink_adds(head, s.drop_first());
        assert(head + s.drop_first() =~= s);
        assert(ink(head) =~= Seq::empty()) by {
            reveal_with_fuel(ink, 2);
        }
        assert(ink(head) + ink(s.drop_first()) =~= ink(s.drop_first()));
        a + 1
    } else {
        assert(s.skip(0) =~= s);
        0
    }
}

proof fn lemma_trim_end(s: Seq<char>) -> (n: int)
    ensures
        0 <= n <= s.len(),
        crate::text::trim_end(s) == s.take(n),
        ink(crate::text::trim_end(s)) == ink(s),
        crate::text::trim_end(s).len() > 0 ==> !crate::text::white_space(
            crate::text::trim_end(s).last(),
        ),
    decreases s.len(),
{
    if s.len() > 0 && crate::text::white_space(s.last()) {
        let n = lemma_trim_end(s.drop_last());
        assert(s.drop_last().take(n) =~= s.take(n));
        n
    } else {
        assert(s.take(s.len() as int) =~= s);
        s.len() as int
    }
}

/// Dropping empty parts leaves what they say together.
proof fn lemma_nonempty(parts: Seq<Seq<char>>)
    ensures
        concatenated(crate::text::nonempty(parts)) == concatenated(parts),
        forall|k: int| 0 <= k < crate::text::nonempty(parts).len() ==> {
            &&& #[trigger] crate::text::nonempty(parts)[k].len() > 0
            &&& parts.contains(crate::text::nonempty(parts)[k])
        },
    decreases parts.len(),
{
    if parts.len() > 0 {
        let before = parts.drop_last();
        lemma_nonempty(before);
        let kept = crate::text::nonempty(before);
        assert forall|k: int| 0 <= k < kept.len() implies parts.contains(kept[k]) by {
            assert(kept[k].len() > 0);
            let j = choose|j: int| 0 <= j < before.len() && before[j] == kept[k];
            assert(parts[j] == kept[k]);
        }
        assert(parts[parts.len() - 1] == parts.last());
        if parts.last().len() == 0 {
            assert(concatenated(before) + parts.last() =~= concatenated(before));
        } else {
            assert(kept.push(parts.last()).drop_last() =~= kept);
        }
    }
}

/// Trimming every part keeps their ink.
proof fn lemma_trimmed_ink(parts: Seq<Seq<char>>)
    ensures
        ink(concatenated(crate::text::trimmed(parts))) == ink(concatenated(parts)),
    decreases parts.len(),
{
    if parts.len() > 0 {
        let t = crate::text::trimmed(parts);
        assert(t.drop_last() =~= crate::text::trimmed(parts.drop_last()));
        lemma_trimmed_ink(parts.drop_last());
        lemma_trim(parts.last());
        lemma_ink_adds(concatenated(t.drop_last()), t.last());
        lemma_ink_adds(concatenated(parts.drop_last()), parts.last());
    } else {
        assert(crate::text::trimmed(parts) =~= parts);
    }
}

/// The pieces hold the ink of what they were cut from; the last one ends where it does; none
/// has a gap inside.
proof fn lemma_pieces(t: Seq<char>, n: nat)
    requires
        n <= t.len(),
    ensures
        pieces(t, n).len() > 0,
        ink(concatenated(pieces(t, n))) == ink(t.take(n as int)),
        pieces(t, n).last().len() <= n,
        pieces(t, n).last() == t.subrange(n - pieces(t, n).last().len(), n as int),
        forall|k: int, i: int|
            0 <= k < pieces(t, n).len() && 0 <= i < pieces(t, n)[k].len() ==> !#[trigger] is_gap(
                pieces(t, n)[k],
                i,
            ),
    decreases n,
{
    let now = pieces(t, n);
    if n == 0 {
        reveal_with_fuel(concatenated, 2);
        assert(now.last() =~= t.subrange(0, 0));
        assert(t.take(0) =~= Seq::empty());
        assert(concatenated(now) =~= Seq::empty());
    } else {
        let m = (n - 1) as nat;
        let earlier = pieces(t, m);
        let c = t[n - 1];
        lemma_pieces(t, m);
        assert(t.take(n as int).drop_last() =~= t.take(m as int));
        let all = concatenated(earlier);
        assert(concatenated(earlier.drop_last()) + earlier.last() == all);
        if is_gap(t, n - 1) {
            assert(now.drop_last() =~= earlier);
            assert(concatenated(now) =~= all);
            assert(now.last() =~= t.subrange(n as int, n as int));
            assert forall|k: int, i: int|
                0 <= k < now.len() && 0 <= i < now[k].len() implies !#[trigger] is_gap(
                now[k],
                i,
            ) by {
                assert(now[k] == earlier[k]);
            }
        } else {
            let p = earlier.last();
            let q = p.push(c);
            assert(now.drop_last() =~= earlier.drop_last());
            assert(concatenated(now) =~= all.push(c));
            assert(all.push(c).drop_last() =~= all);
            assert(q =~= t.subrange(n - q.len(), n as int));
            assert forall|k: int, i: int|
                0 <= k < now.len() && 0 <= i < now[k].len() implies !#[trigger] is_gap(
                now[k],
                i,
            ) by {
                if k < now.len() - 1 {
                    assert(now[k] == earlier[k]);
                } else {
                    assert(now[k] == q);
                    lemma_gap_in_part(t, n - q.len(), n as int, i);
                    if i < p.len() {
                        assert(earlier[earlier.len() - 1] == p);
                        lemma_gap_in_part(q, 0, p.len() as int, i);
                        assert(q.subrange(0, p.len() as int) =~= p);
                        lemma_gap_by_prefix(p, q, i);
                        assert(!is_gap(p, i));
                    }
                }
            }
        }
    }
}

/// A gap of a part is a gap of the whole.
proof fn lemma_gap_in_part(t: Seq<char>, a: int, b: int, i: int)
    requires
        0 <= a <= b <= t.len(),
        0 <= i < b - a,
    ensures
        is_gap(t.subrange(a, b), i) ==> is_gap(t, a + i),
{
    lemma_terminator_in_part(t, a, b, i);
}

proof fn lemma_terminator_in_part(t: Seq<char>, a: int, b: int, i: int)
    requires
        0 <= a <= b <= t.len(),
        0 <= i <= b - a,
    ensures
        follows_terminator(t.subrange(a, b), i) ==> follows_terminator(t, a + i),
    decreases i,
{
    if i > 0 {
        lemma_terminator_in_part(t, a, b, i - 1);
    }
}

/// Whether a position is a gap depends on what stands up to it.
proof fn lemma_gap_by_prefix(p: Seq<char>, q: Seq<char>, i: int)
    requires
        0 <= i < p.len() <= q.len(),
        q.subrange(0, p.len() as int) == p,
    ensures
        is_gap(p, i) == is_gap(q, i),
{
    assert forall|j: int| 0 <= j < p.len() implies p[j] == q[j] by {
        assert(q.subrange(0, p.len() as int)[j] == q[j]);
    }
    lemma_terminator_by_prefix(p, q, i);
}

proof fn lemma_terminator_by_prefix(p: Seq<char>, q: Seq<char>, i: int)
    requires
        0 <= i <= p.len() <= q.len(),
        forall|j: int| 0 <= j < p.len() ==> p[j] == q[j],
    ensures
        follows_terminator(p, i) == follows_terminator(q, i),
    decreases i,
{
    if i > 0 {
        lemma_terminator_by_prefix(p, q, i - 1);
    }
}

/// A text without gaps is one piece.
proof fn lemma_one_piece(t: Seq<char>, n: nat)
    requires
        n <= t.len(),
        forall|i: int| 0 <= i < t.len() ==> !#[trigger] is_gap(t, i),
    ensures
        pieces(t, n) == seq![t.take(n as int)],
    decreases n,
{
    if n == 0 {
        assert(t.take(0) =~= Seq::empty());
    } else {
        lemma_one_piece(t, (n - 1) as nat);
        assert(!is_gap(t, n - 1));
        assert(t.take(n as int) =~= t.take(n - 1).push(t[n - 1]));
        assert(pieces(t, n) =~= seq![t.take(n as int)]);
    }
}

/// Splitting loses and reorders nothing but white space.
pub proof fn law_splitting_keeps_the_text(text: Seq<char>)
    ensures
        ink(concatenated(sentences(text))) == ink(text),
{
    let t = crate::text::trim(text);
    let ps = pieces(t, t.len());
    lemma_trim(text);
    lemma_pieces(t, t.len());
    assert(t.take(t.len() as int) =~= t);
    lemma_trimmed_ink(ps);
    lemma_nonempty(crate::text::trimmed(ps));
}

/// Every sentence is non-empty, begins and ends with a character that is no white space, and
/// holds neither a line break nor white space right after a terminator.
pub proof fn law_sentences_are_whole(text: Seq<char>, k: int)
    requires
        0 <= k < sentences(text).len(),
    ensures
        sentences(text)[k].len() > 0,
        !crate::text::white_space(sentences(text)[k][0]),
        !crate::text::white_space(sentences(text)[k].last()),
        forall|i: int|
            0 <= i < sentences(text)[k].len() ==> !#[trigger] is_gap(sentences(text)[k], i),
        !sentences(text)[k].contains('\n'),
{
    let t = crate::text::trim(text);
    let ps = pieces(t, t.len());
    let ts = crate::text::trimmed(ps);
    lemma_pieces(t, t.len());
    lemma_nonempty(ts);
    let s = sentences(text)[k];
    assert(s.len() > 0);
    let j = choose|j: int| 0 <= j < ts.len() && ts[j] == s;
    assert(s == crate::text::trim(ps[j]));
    let (a, b) = lemma_trim(ps[j]);
    assert forall|i: int| 0 <= i < s.len() implies !#[trigger] is_gap(s, i) by {
        assert(!is_gap(ps[j], a + i));
        lemma_gap_in_part(ps[j], a, b, i);
    }
    if s.contains('\n') {
        let i = choose|i: int| 0 <= i < s.len() && s[i] == '\n';
        assert(!is_gap(s, i));
    }
}

/// A sentence, split again, is that one sentence.
pub proof fn law_splitting_is_stable(text: Seq<char>, k: int)
    requires
        0 <= k < sentences(text).len(),
    ensures
        sentences(sentences(text)[k]) == seq![sentences(text)[k]],
{
    law_sentences_are_whole(text, k);
    let s = sentences(text)[k];
    assert(crate::text::trim(s) == s);
    lemma_one_piece(s, s.len());
    assert(s.take(s.len() as int) =~= s);
    let ts = crate::text::trimmed(seq![s]);
    assert(ts =~= seq![s]);
    reveal_with_fuel(crate::text::nonempty, 2);
    assert(crate::text::nonempty(ts) =~= seq![s]);
}

/// A text has no sentence exactly where it is blank.
pub proof fn law_only_blank_text_has_no_sentence(text: Seq<char>)
    ensures
        sentences(text).len() == 0 <==> crate::text::trim(text).len() == 0,
{
    let t = crate::text::trim(text);
    if t.len() == 0 {
        reveal_with_fuel(crate::text::nonempty, 2);
        assert(pieces(t, 0) =~= seq![Seq::<char>::empty()]);
        assert(crate::text::trimmed(pieces(t, 0))[0].len() == 0);
    } else if sentences(text).len() == 0 {
        law_splitting_keeps_the_text(text);
        assert(concatenated(sentences(text)) =~= Seq::empty());
        lemma_trim(text);
        assert(ink(t).len() > 0);
    }
}

/// A text that begins and ends with ink begins its first piece and ends its last one, and any
/// gap makes a second piece.
proof fn lemma_outer_pieces(t: Seq<char>, n: nat)
    requires
        0 < n <= t.len(),
        !is_gap(t, 0),
    ensures
        pieces(t, n)[0].len() > 0,
        pieces(t, n)[0][0] == t[0],
        !is_gap(t, n - 1) ==> pieces(t, n).last().len() > 0 && pieces(t, n).last().last() == t[n
            - 1],
        pieces(t, n).len() >= 1,
        pieces(t, n).len() == 1 ==> forall|i: int| 0 <= i < n ==> !#[trigger] is_gap(t, i),
    decreases n,
{
    if n == 1 {
        reveal_with_fuel(pieces, 2);
    } else {
        lemma_outer_pieces(t, (n - 1) as nat);
    }
}

/// Where the first of several pieces and the last one hold something, two are kept.
proof fn lemma_two_kept(parts: Seq<Seq<char>>)
    requires
        parts.len() > 1,
        parts[0].len() > 0,
        parts.last().len() > 0,
    ensures
        crate::text::nonempty(parts).len() > 1,
{
    lemma_one_kept(parts.drop_last());
}

proof fn lemma_one_kept(parts: Seq<Seq<char>>)
    requires
        parts.len() > 0,
        parts[0].len() > 0,
    ensures
        crate::text::nonempty(parts).len() > 0,
    decreases parts.len(),
{
    if parts.len() > 1 {
        lemma_one_kept(parts.drop_last());
    }
}

/// The one sentence of a text that has one is the text, trimmed.
pub proof fn law_one_sentence_is_the_text(text: Seq<char>)
    requires
        sentences(text).len() == 1,
    ensures
        sentences(text)[0] == crate::text::trim(text),
{
    law_only_blank_text_has_no_sentence(text);
    lemma_trim(text);
    let t = crate::text::trim(text);
    let ps = pieces(t, t.len());
    lemma_outer_pieces(t, t.len());
    let ts = crate::text::trimmed(ps);
    if ps.len() > 1 {
        lemma_trim(ps[0]);
        lemma_trim(ps.last());
        lemma_ink_of(ps[0], 0);
        lemma_ink_of(ps.last(), ps.last().len() - 1);
        lemma_two_kept(ts);
    } else {
        lemma_one_piece(t, t.len());
        assert(t.take(t.len() as int) =~= t);
        assert(ts[0] == crate::text::trim(t));
        assert(crate::text::trim(t) == t);
        reveal_with_fuel(crate::text::nonempty, 2);
        assert(crate::text::nonempty(ts) =~= seq![t]);
    }
}

/// A text with a character that is no white space has ink.
proof fn lemma_ink_of(s: Seq<char>, i: int)
    requires
        0 <= i < s.len(),
        !crate::text::white_space(s[i]),
    ensures
        ink(s).len() > 0,
    decreases s.len(),
{
    if i < s.len() - 1 {
        lemma_ink_of(s.drop_last(), i);
    }
}

/// Nothing but white space.
spec fn blank(s: Seq<char>) -> bool {
    forall|i: int| 0 <= i < s.len() ==> crate::text::white_space(#[trigger] s[i])
}

/// Empty, or with ink in front.
spec fn inked(s: Seq<char>) -> bool {
    s.len() > 0 ==> !crate::text::white_space(s[0])
}

/// The sentences of a text that is not trimmed first.
spec fn split(t: Seq<char>) -> Seq<Seq<char>> {
    crate::text::nonempty(crate::text::trimmed(pieces(t, t.len())))
}

/// White space in front is trimmed away.
proof fn lemma_trim_blank_front(x: Seq<char>, s: Seq<char>)
    requires
        blank(x),
    ensures
        crate::text::trim(x + s) == crate::text::trim(s),
    decreases x.len(),
{
    if x.len() == 0 {
        assert(x + s =~= s);
    } else {
        assert(crate::text::white_space(x[0]));
        assert((x + s).drop_first() =~= x.drop_first() + s);
        assert forall|i: int| 0 <= i < x.drop_first().len() implies crate::text::white_space(
            #[trigger] x.drop_first()[i],
        ) by {
            assert(crate::text::white_space(x[i + 1]));
        }
        lemma_trim_blank_front(x.drop_first(), s);
    }
}

/// White space at the end is trimmed away.
proof fn lemma_trim_blank_end(s: Seq<char>, w: char)
    requires
        crate::text::white_space(w),
    ensures
        crate::text::trim(s.push(w)) == crate::text::trim(s),
    decreases s.len(),
{
    if s.len() > 0 && crate::text::white_space(s[0]) {
        assert(s.push(w).drop_first() =~= s.drop_first().push(w));
        lemma_trim_blank_end(s.drop_first(), w);
    } else if s.len() == 0 {
        assert(s.push(w).drop_first() =~= s);
    } else {
        assert(s.push(w).drop_last() =~= s);
    }
}

/// What is kept of two lists is kept of one after the other.
proof fn lemma_nonempty_add(a: Seq<Seq<char>>, b: Seq<Seq<char>>)
    ensures
        crate::text::nonempty(a + b) == crate::text::nonempty(a) + crate::text::nonempty(b),
    decreases b.len(),
{
    if b.len() == 0 {
        assert(a + b =~= a);
        assert(crate::text::nonempty(a) + crate::text::nonempty(b) =~= crate::text::nonempty(a));
    } else {
        assert((a + b).drop_last() =~= a + b.drop_last());
        lemma_nonempty_add(a, b.drop_last());
        assert(crate::text::nonempty(a + b) =~= crate::text::nonempty(a) + crate::text::nonempty(b));
    }
}

/// The pieces up to a position depend on what stands before it.
proof fn lemma_pieces_by_prefix(p: Seq<char>, q: Seq<char>, n: nat)
    requires
        n <= p.len() <= q.len(),
        q.subrange(0, p.len() as int) == p,
    ensures
        pieces(q, n) == pieces(p, n),
    decreases n,
{
    if n > 0 {
        lemma_pieces_by_prefix(p, q, (n - 1) as nat);
        lemma_gap_by_prefix(p, q, n - 1);
        assert(q.subrange(0, p.len() as int)[n - 1] == q[n - 1]);
    }
}

/// White space at the end changes no sentence, and leaves a blank last piece blank.
proof fn lemma_split_blank_end(t: Seq<char>, w: char)
    requires
        crate::text::white_space(w),
    ensures
        split(t.push(w)) == split(t),
        blank(pieces(t, t.len()).last()) ==> blank(pieces(t.push(w), t.len() + 1).last()),
        w == '\n' ==> blank(pieces(t.push(w), t.len() + 1).last()),
{
    let q = t.push(w);
    assert(q.subrange(0, t.len() as int) =~= t);
    lemma_pieces_by_prefix(t, q, t.len());
    lemma_pieces(t, t.len());
    let ps = pieces(t, t.len());
    let now = pieces(q, q.len());
    let ts = crate::text::trimmed(ps);
    if is_gap(q, t.len() as int) {
        assert(now == ps.push(Seq::empty()));
        assert(crate::text::trimmed(now).drop_last() =~= ts);
        assert(crate::text::trimmed(now).last() =~= crate::text::trim(Seq::empty()));
    } else {
        lemma_trim_blank_end(ps.last(), w);
        assert(now == ps.drop_last().push(ps.last().push(w)));
        assert(crate::text::trimmed(now) =~= ts);
    }
}

/// Behind a blank last piece, a part that begins with ink is cut as if it stood alone.
proof fn lemma_gap_behind(p: Seq<char>, b: Seq<char>, i: int)
    requires
        inked(b),
        0 <= i < b.len(),
    ensures
        is_gap(p + b, p.len() + i) == is_gap(b, i),
{
    if i > 0 {
        lemma_terminator_behind(p, b, i);
    }
}

proof fn lemma_terminator_behind(p: Seq<char>, b: Seq<char>, i: int)
    requires
        inked(b),
        0 < i <= b.len(),
    ensures
        follows_terminator(p + b, p.len() + i) == follows_terminator(b, i),
    decreases i,
{
    if i > 1 {
        lemma_terminator_behind(p, b, i - 1);
    }
}

/// Pieces with something in front of the first.
spec fn fronted(x: Seq<char>, ps: Seq<Seq<char>>) -> Seq<Seq<char>> {
    seq![x + ps[0]] + ps.skip(1)
}

proof fn lemma_pieces_behind(p: Seq<char>, b: Seq<char>, j: nat)
    requires
        inked(b),
        j <= b.len(),
    ensures
        pieces(b, j).len() > 0,
        pieces(p + b, p.len() + j) == pieces(p, p.len()).drop_last() + fronted(
            pieces(p, p.len()).last(),
            pieces(b, j),
        ),
    decreases j,
{
    let pre = pieces(p, p.len()).drop_last();
    let x = pieces(p, p.len()).last();
    lemma_pieces(p, p.len());
    if j == 0 {
        assert((p + b).subrange(0, p.len() as int) =~= p);
        lemma_pieces_by_prefix(p, p + b, p.len());
        assert(fronted(x, pieces(b, 0)) =~= seq![x]);
        assert(pre + seq![x] =~= pieces(p, p.len()));
    } else {
        let m = (j - 1) as nat;
        lemma_pieces_behind(p, b, m);
        lemma_gap_behind(p, b, m as int);
        let ps = pieces(b, m);
        let c = b[m as int];
        assert((p + b)[(p.len() + m) as int] == c);
        let whole = pre + fronted(x, ps);
        if is_gap(b, m as int) {
            assert(whole.push(Seq::empty()) =~= pre + fronted(x, ps.push(Seq::empty())));
        } else {
            let longer = ps.drop_last().push(ps.last().push(c));
            assert(fronted(x, longer) =~= fronted(x, ps).drop_last().push(
                fronted(x, ps).last().push(c),
            )) by {
                if ps.len() == 1 {
                    assert(x + ps[0].push(c) =~= (x + ps[0]).push(c));
                }
            }
            assert(whole.drop_last().push(whole.last().push(c)) =~= pre + fronted(x, longer));
        }
    }
}

/// The sentences of a text with a blank last piece and of a part behind it that begins with ink
/// are those of both.
proof fn lemma_split_behind(p: Seq<char>, b: Seq<char>)
    requires
        inked(b),
        blank(pieces(p, p.len()).last()),
    ensures
        split(p + b) == split(p) + split(b),
{
    lemma_pieces(p, p.len());
    lemma_pieces_behind(p, b, b.len());
    let pre = pieces(p, p.len()).drop_last();
    let x = pieces(p, p.len()).last();
    let ps = pieces(b, b.len());
    let tp = crate::text::trimmed(pre);
    lemma_trim_blank_front(x, ps[0]);
    lemma_trim_blank_front(x, Seq::empty());
    assert(x + Seq::<char>::empty() =~= x);
    assert(crate::text::trim(x).len() == 0);
    assert((p + b).len() == p.len() + b.len());
    assert(crate::text::trimmed(pre + fronted(x, ps)) =~= tp + crate::text::trimmed(ps));
    lemma_nonempty_add(tp, crate::text::trimmed(ps));
    assert(crate::text::trimmed(pieces(p, p.len())).drop_last() =~= tp);
    assert(crate::text::trimmed(pieces(p, p.len())).last() == crate::text::trim(x));
}

/// Blank text has no sentence and a blank last piece.
proof fn lemma_split_blank(s: Seq<char>)
    requires
        blank(s),
    ensures
        split(s) == Seq::<Seq<char>>::empty(),
        blank(pieces(s, s.len()).last()),
    decreases s.len(),
{
    if s.len() == 0 {
        reveal_with_fuel(crate::text::nonempty, 2);
        assert(crate::text::trimmed(pieces(s, 0)).last().len() == 0);
        assert(crate::text::trimmed(pieces(s, 0)).drop_last() =~= Seq::empty());
    } else {
        assert forall|i: int| 0 <= i < s.drop_last().len() implies crate::text::white_space(
            #[trigger] s.drop_last()[i],
        ) by {
            assert(crate::text::white_space(s[i]));
        }
        lemma_split_blank(s.drop_last());
        assert(crate::text::white_space(s[s.len() - 1]));
        lemma_split_blank_end(s.drop_last(), s.last());
        assert(s.drop_last().push(s.last()) =~= s);
    }
}

/// How much white space stands in front.
proof fn lemma_blank_front(s: Seq<char>) -> (k: int)
    ensures
        0 <= k <= s.len(),
        blank(s.take(k)),
        inked(s.skip(k)),
        crate::text::trim_start(s) == s.skip(k),
    decreases s.len(),
{
    if s.len() > 0 && crate::text::white_space(s[0]) {
        let k = lemma_blank_front(s.drop_first());
        assert(s.drop_first().skip(k) =~= s.skip(k + 1));
        assert forall|i: int| 0 <= i < k + 1 implies crate::text::white_space(
            #[trigger] s.take(k + 1)[i],
        ) by {
            if i > 0 {
                assert(crate::text::white_space(s.drop_first().take(k)[i - 1]));
            }
        }
        k + 1
    } else {
        assert(s.skip(0) =~= s);
        0
    }
}

proof fn lemma_split_trim_end(s: Seq<char>)
    ensures
        split(crate::text::trim_end(s)) == split(s),
    decreases s.len(),
{
    if s.len() > 0 && crate::text::white_space(s.last()) {
        lemma_split_trim_end(s.drop_last());
        lemma_split_blank_end(s.drop_last(), s.last());
        assert(s.drop_last().push(s.last()) =~= s);
    }
}

/// Trimming changes no sentence.
proof fn lemma_split_trim(s: Seq<char>)
    ensures
        sentences(s) == split(s),
        split(crate::text::trim_start(s)) == split(s),
{
    let k = lemma_blank_front(s);
    lemma_split_blank(s.take(k));
    lemma_split_behind(s.take(k), s.skip(k));
    assert(s.take(k) + s.skip(k) =~= s);
    assert(Seq::<Seq<char>>::empty() + split(s.skip(k)) =~= split(s.skip(k)));
    lemma_split_trim_end(crate::text::trim_start(s));
}

/// A line break and white space behind a text change none of its sentences, and end in a blank
/// piece.
proof fn lemma_split_line(a: Seq<char>, space: Seq<char>)
    requires
        blank(space),
    ensures
        ({
            let p = a.push('\n') + space;
            &&& split(p) == split(a)
            &&& blank(pieces(p, p.len()).last())
        }),
    decreases space.len(),
{
    if space.len() == 0 {
        lemma_split_blank_end(a, '\n');
        assert(a.push('\n') + space =~= a.push('\n'));
    } else {
        let front = space.drop_last();
        assert forall|i: int| 0 <= i < front.len() implies crate::text::white_space(
            #[trigger] front[i],
        ) by {
            assert(crate::text::white_space(space[i]));
        }
        assert(crate::text::white_space(space[space.len() - 1]));
        lemma_split_line(a, front);
        lemma_split_blank_end(a.push('\n') + front, space.last());
        assert((a.push('\n') + front).push(space.last()) =~= a.push('\n') + space);
    }
}

/// Two texts on lines of their own are split each by itself.
pub proof fn law_lines_are_split_apart(a: Seq<char>, b: Seq<char>)
    ensures
        sentences(a + seq!['\n'] + b) == sentences(a) + sentences(b),
{
    let k = lemma_blank_front(b);
    let space = b.take(k);
    let rest = b.skip(k);
    let p = a.push('\n') + space;
    assert(a + seq!['\n'] + b =~= p + rest);
    lemma_split_line(a, space);
    lemma_split_behind(p, rest);
    lemma_split_trim(a + seq!['\n'] + b);
    lemma_split_trim(a);
    lemma_split_trim(b);
}

/// Position `i` lies in one of the ranges.
pub open spec fn in_a_range(from: Seq<int>, to: Seq<int>, i: int) -> bool {
    exists|k: int| 0 <= k < from.len() && #[trigger] from[k] <= i && i < to[k]
}

/// A piece of the text that stands from `a` to `b` and neither begins nor ends with white space.
pub open spec fn stands_at(text: Seq<char>, piece: Seq<char>, a: int, b: int) -> bool {
    &&& 0 <= a < b <= text.len()
    &&& piece == text.subrange(a, b)
    &&& !crate::text::white_space(text[a])
    &&& !crate::text::white_space(text[b - 1])
}

/// Where the pieces stand: each begins one position after the gap that ends the one before.
proof fn lemma_piece_places(t: Seq<char>, n: nat) -> (at: Seq<int>)
    requires
        n <= t.len(),
    ensures
        pieces_at(t, n, at),
    decreases n,
{
    if n == 0 {
        let at = seq![0int, 1int];
        assert(pieces(t, 0)[0] =~= t.subrange(0, 0));
        at
    } else {
        let m = (n - 1) as nat;
        let b = lemma_piece_places(t, m);
        let ps = pieces(t, m);
        let now = pieces(t, n);
        if is_gap(t, n - 1) {
            let at = b.push((n + 1) as int);
            assert forall|k: int| 0 <= k < now.len() implies #[trigger] now[k] == t.subrange(
                at[k],
                at[k + 1] - 1,
            ) by {
                if k < ps.len() {
                    assert(now[k] == ps[k]);
                } else {
                    assert(now[k] =~= t.subrange(n as int, n as int));
                }
            }
            at
        } else {
            let at = b.update(b.len() - 1, (n + 1) as int);
            assert forall|k: int| 0 <= k < now.len() implies #[trigger] now[k] == t.subrange(
                at[k],
                at[k + 1] - 1,
            ) by {
                assert(ps[k] == t.subrange(b[k], b[k + 1] - 1));
                if k < ps.len() - 1 {
                    assert(now[k] == ps[k]);
                } else {
                    assert(b[k] < b[k + 1]);
                    assert(b[0] <= b[k]);
                    assert(now[k] =~= t.subrange(at[k], at[k + 1] - 1));
                }
            }
            at
        }
    }
}

spec fn pieces_at(t: Seq<char>, n: nat, at: Seq<int>) -> bool {
    let ps = pieces(t, n);
    &&& ps.len() > 0
    &&& at.len() == ps.len() + 1
    &&& at[0] == 0
    &&& at.last() == n + 1
    &&& forall|j: int, k: int| 0 <= j < k < at.len() ==> #[trigger] at[j] < #[trigger] at[k]
    &&& forall|k: int| 0 <= k < ps.len() ==> #[trigger] ps[k] == t.subrange(at[k], at[k + 1] - 1)
    &&& forall|k: int| 0 < k < ps.len() ==> is_gap(t, #[trigger] at[k] - 1)
}

/// A kept piece stands from `a` to `b`, with white space from there up to `g`, which is a gap or
/// the end.
spec fn stands(t: Seq<char>, piece: Seq<char>, a: int, b: int, g: int) -> bool {
    &&& 0 <= a < b <= g <= t.len()
    &&& piece == t.subrange(a, b)
    &&& !crate::text::white_space(t[a])
    &&& !crate::text::white_space(t[b - 1])
    &&& g == t.len() || is_gap(t, g)
    &&& forall|i: int| b <= i < g ==> crate::text::white_space(#[trigger] t[i])
}

/// The kept pieces stand in the ranges, in order, and hold all ink up to `bound`.
spec fn kept_at(
    t: Seq<char>,
    kept: Seq<Seq<char>>,
    bound: int,
    from: Seq<int>,
    to: Seq<int>,
    gap: Seq<int>,
) -> bool {
    &&& from.len() == kept.len()
    &&& to.len() == kept.len()
    &&& gap.len() == kept.len()
    &&& forall|k: int|
        0 <= k < kept.len() ==> stands(t, #[trigger] kept[k], from[k], to[k], gap[k]) && gap[k]
            < bound
    &&& forall|j: int, k: int| 0 <= j < k < kept.len() ==> #[trigger] gap[j] < #[trigger] from[k]
    &&& forall|i: int|
        0 <= i < t.len() && i < bound && !crate::text::white_space(#[trigger] t[i]) ==> in_a_range(
            from,
            to,
            i,
        )
}

/// Nothing is kept of white space.
proof fn lemma_keeps_nothing(
    t: Seq<char>,
    kept: Seq<Seq<char>>,
    a: int,
    g: int,
    from: Seq<int>,
    to: Seq<int>,
    gap: Seq<int>,
)
    requires
        kept_at(t, kept, a, from, to, gap),
        0 <= a <= g <= t.len(),
        forall|i: int| a <= i < g ==> crate::text::white_space(#[trigger] t[i]),
        g == t.len() || is_gap(t, g),
    ensures
        kept_at(t, kept, g + 1, from, to, gap),
{
    assert forall|k: int| 0 <= k < kept.len() implies stands(
        t,
        #[trigger] kept[k],
        from[k],
        to[k],
        gap[k],
    ) && gap[k] < g + 1 by {
        assert(stands(t, kept[k], from[k], to[k], gap[k]));
    }
    assert forall|i: int|
        0 <= i < t.len() && i < g + 1 && !crate::text::white_space(
            #[trigger] t[i],
        ) implies in_a_range(from, to, i) by {
        if i >= a {
            assert(i == g);
            assert(is_gap(t, i));
        }
    }
}

/// Of a piece that begins at `a` and ends at `g`, what stands from `x` to `y` is kept.
proof fn lemma_keeps_one(
    t: Seq<char>,
    kept: Seq<Seq<char>>,
    a: int,
    x: int,
    y: int,
    g: int,
    from: Seq<int>,
    to: Seq<int>,
    gap: Seq<int>,
)
    requires
        kept_at(t, kept, a, from, to, gap),
        0 <= a <= x,
        stands(t, t.subrange(x, y), x, y, g),
        forall|i: int| a <= i < x ==> crate::text::white_space(#[trigger] t[i]),
    ensures
        kept_at(
            t,
            kept.push(t.subrange(x, y)),
            g + 1,
            from.push(x),
            to.push(y),
            gap.push(g),
        ),
{
    let (f1, t1, g1) = (from.push(x), to.push(y), gap.push(g));
    let now = kept.push(t.subrange(x, y));
    let n = kept.len() as int;
    assert forall|k: int| 0 <= k < now.len() implies stands(
        t,
        #[trigger] now[k],
        f1[k],
        t1[k],
        g1[k],
    ) && g1[k] < g + 1 by {
        if k < n {
            assert(now[k] == kept[k]);
            assert(stands(t, kept[k], from[k], to[k], gap[k]));
        }
    }
    assert forall|j: int, k: int| 0 <= j < k < now.len() implies #[trigger] g1[j]
        < #[trigger] f1[k] by {
        assert(stands(t, kept[j], from[j], to[j], gap[j]));
        assert(g1[j] == gap[j]);
        if k < n {
            assert(f1[k] == from[k]);
        }
    }
    assert forall|i: int|
        0 <= i < t.len() && i < g + 1 && !crate::text::white_space(
            #[trigger] t[i],
        ) implies in_a_range(f1, t1, i) by {
        if i < a {
            assert(in_a_range(from, to, i));
            let k = choose|k: int| 0 <= k < from.len() && #[trigger] from[k] <= i && i < to[k];
            assert(f1[k] <= i && i < t1[k]);
        } else {
            assert(i == g ==> is_gap(t, i));
            assert(f1[n] <= i && i < t1[n]);
        }
    }
}

/// Where what is kept of the first `m` pieces stands.
proof fn lemma_kept_at(t: Seq<char>, at: Seq<int>, m: int) -> (r: (Seq<int>, Seq<int>, Seq<int>))
    requires
        0 <= m <= pieces(t, t.len()).len(),
        pieces_at(t, t.len(), at),
    ensures
        kept_at(
            t,
            crate::text::nonempty(crate::text::trimmed(pieces(t, t.len()).take(m))),
            at[m],
            r.0,
            r.1,
            r.2,
        ),
    decreases m,
{
    let ps = pieces(t, t.len());
    if m == 0 {
        assert(crate::text::trimmed(ps.take(0)) =~= Seq::empty());
        let none = Seq::<int>::empty();
        assert(kept_at(t, Seq::empty(), 0, none, none, none));
        (none, none, none)
    } else {
        let (from, to, gap) = lemma_kept_at(t, at, m - 1);
        let before = crate::text::trimmed(ps.take(m - 1));
        let now = crate::text::trimmed(ps.take(m));
        let p = ps[m - 1];
        assert(now =~= before.push(crate::text::trim(p)));
        assert(now.drop_last() =~= before);
        let kept = crate::text::nonempty(before);
        let a = at[m - 1];
        let g = at[m] - 1;
        assert(a < at[m]);
        assert(m - 1 > 0 ==> at[0] < a);
        assert(m < at.len() - 1 ==> at[m] < at.last());
        assert(p == t.subrange(a, g));
        assert(g == t.len() || is_gap(t, g));
        let (x, y) = crate::text::law_trimming_cuts_white_space(p);
        assert forall|i: int| a <= i < g && !(a + x <= i < a + y) implies crate::text::white_space(
            #[trigger] t[i],
        ) by {
            assert(crate::text::white_space(p[i - a]));
        }
        if x == y {
            lemma_keeps_nothing(t, kept, a, g, from, to, gap);
            (from, to, gap)
        } else {
            assert(p[x] == t[a + x] && p[y - 1] == t[a + y - 1]);
            assert(crate::text::trim(p) =~= t.subrange(a + x, a + y));
            assert(stands(t, t.subrange(a + x, a + y), a + x, a + y, g));
            lemma_keeps_one(t, kept, a, a + x, a + y, g, from, to, gap);
            (from.push(a + x), to.push(a + y), gap.push(g))
        }
    }
}

/// Only white space stands between ink and a place that follows a terminator: the ink is one.
proof fn lemma_terminator_before(t: Seq<char>, e: int, g: int)
    requires
        0 < e <= g <= t.len(),
        !crate::text::white_space(t[e - 1]),
        forall|i: int| e <= i < g ==> crate::text::white_space(#[trigger] t[i]),
        follows_terminator(t, g),
    ensures
        terminator(t[e - 1]),
    decreases g,
{
    if g > e {
        assert(crate::text::white_space(t[g - 1]));
        lemma_terminator_before(t, e, g - 1);
    }
}

/// Where the sentences of a text stand, and so what they are. Each is a part of the text that
/// begins and ends with ink; they follow one another, and all that stands outside them is white
/// space. Between two of them stands a line break, or white space after `.`, `?`, `!` or `…`; and
/// inside a sentence stands neither. Gives where each begins and where it ends.
pub proof fn law_sentences_are_parts_of_the_text(text: Seq<char>) -> (r: (Seq<int>, Seq<int>))
    ensures
        r.0.len() == sentences(text).len(),
        r.1.len() == sentences(text).len(),
        forall|k: int|
            0 <= k < r.0.len() ==> stands_at(text, #[trigger] sentences(text)[k], r.0[k], r.1[k]),
        forall|j: int, k: int| 0 <= j < k < r.0.len() ==> #[trigger] r.1[j] < #[trigger] r.0[k],
        forall|i: int|
            0 <= i < text.len() && !crate::text::white_space(#[trigger] text[i]) ==> in_a_range(
                r.0,
                r.1,
                i,
            ),
        forall|k: int|
            0 <= k < r.0.len() - 1 ==> {
                let c = (#[trigger] sentences(text)[k]).last();
                ||| c == '.'
                ||| c == '?'
                ||| c == '!'
                ||| c == '…'
                ||| text.subrange(r.1[k], r.0[k + 1]).contains('\n')
            },
        forall|k: int| 0 <= k < r.0.len() ==> !(#[trigger] sentences(text)[k]).contains('\n'),
        forall|k: int, i: int, j: int|
            #![trigger sentences(text)[k][i], sentences(text)[k][j]]
            0 <= k < r.0.len() && 0 <= i && j == i + 1 && j < sentences(text)[k].len() && (
            sentences(text)[k][i] == '.' || sentences(text)[k][i] == '?' || sentences(text)[k][i]
                == '!' || sentences(text)[k][i] == '…') ==> !crate::text::white_space(
                sentences(text)[k][j],
            ),
{
    lemma_split_trim(text);
    let at = lemma_piece_places(text, text.len());
    let ps = pieces(text, text.len());
    let (from, to, gap) = lemma_kept_at(text, at, ps.len() as int);
    assert(ps.take(ps.len() as int) =~= ps);
    let all = sentences(text);
    assert(kept_at(text, all, (text.len() + 1) as int, from, to, gap));
    assert forall|j: int, k: int| 0 <= j < k < from.len() implies #[trigger] to[j]
        < #[trigger] from[k] by {
        assert(stands(text, all[j], from[j], to[j], gap[j]));
        assert(gap[j] < from[k]);
    }
    assert forall|k: int| 0 <= k < from.len() - 1 implies {
        let c = (#[trigger] sentences(text)[k]).last();
        ||| c == '.'
        ||| c == '?'
        ||| c == '!'
        ||| c == '…'
        ||| text.subrange(to[k], from[k + 1]).contains('\n')
    } by {
        assert(stands(text, all[k], from[k], to[k], gap[k]));
        assert(stands(text, all[k + 1], from[k + 1], to[k + 1], gap[k + 1]));
        assert(gap[k] < from[k + 1]);
        assert(is_gap(text, gap[k]));
        if text[gap[k]] == '\n' {
            assert(text.subrange(to[k], from[k + 1])[gap[k] - to[k]] == '\n');
        } else {
            lemma_terminator_before(text, to[k], gap[k]);
        }
    }
    assert forall|k: int| 0 <= k < from.len() implies !(#[trigger] sentences(text)[k]).contains(
        '\n',
    ) by {
        law_sentences_are_whole(text, k);
    }
    assert forall|k: int, i: int, j: int|
        #![trigger sentences(text)[k][i], sentences(text)[k][j]]
        0 <= k < from.len() && 0 <= i && j == i + 1 && j < sentences(text)[k].len() && (sentences(
            text,
        )[k][i] == '.' || sentences(text)[k][i] == '?' || sentences(text)[k][i] == '!' || sentences(
            text,
        )[k][i] == '…') implies !crate::text::white_space(sentences(text)[k][j]) by {
        law_sentences_are_whole(text, k);
        assert(!is_gap(sentences(text)[k], j));
    }
    assert forall|k: int| 0 <= k < from.len() implies stands_at(
        text,
        #[trigger] sentences(text)[k],
        from[k],
        to[k],
    ) by {
        assert(stands(text, all[k], from[k], to[k], gap[k]));
    }
    (from, to)
}

/// A text is cut nowhere else: without a line break, and without white space after `.`, `?`, `!`
/// or `…`, it is one sentence at most.
pub proof fn law_other_characters_do_not_cut(text: Seq<char>)
    requires
        !text.contains('\n'),
        forall|i: int, j: int|
            #![trigger text[i], text[j]]
            0 <= i < text.len() - 1 && j == i + 1 && (text[i] == '.' || text[i] == '?' || text[i]
                == '!' || text[i] == '…') ==> !crate::text::white_space(text[j]),
    ensures
        sentences(text).len() <= 1,
{
    let (from, to) = law_sentences_are_parts_of_the_text(text);
    if sentences(text).len() > 1 {
        assert(stands_at(text, sentences(text)[0], from[0], to[0]));
        assert(stands_at(text, sentences(text)[1], from[1], to[1]));
        assert(to[0] < from[1]);
        let between = text.subrange(to[0], from[1]);
        if between.contains('\n') {
            let j = choose|j: int| 0 <= j < between.len() && between[j] == '\n';
            assert(text[to[0] + j] == '\n');
        } else {
            let i = to[0] - 1;
            assert(0 <= i < text.len() - 1 && to[0] == i + 1);
            assert(!crate::text::white_space(text[to[0]]));
            assert(in_a_range(from, to, to[0]));
            let k = choose|k: int|
                0 <= k < from.len() && #[trigger] from[k] <= to[0] && to[0] < to[k];
            assert(k > 0 ==> to[0] < from[k]);
        }
    }
}

} // verus!
