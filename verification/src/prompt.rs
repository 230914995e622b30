//! Preparing the text of a prompt for the tokenizer.
use vstd::prelude::*;
use crate::sentences::ink;
use crate::text::{chars_of, count_words, law_words_add_up, string_of, trim, trim_chars, trim_end, trim_start, white_space, word_count};

verus! {

/// The Unicode `Uppercase` property, as `char::is_uppercase` reports it.
pub uninterp spec fn uppercase(c: char) -> bool;

/// What `char::is_alphanumeric` reports.
pub uninterp spec fn alphanumeric(c: char) -> bool;

/// The uppercase mapping of a character, as `char::to_uppercase` gives it.
pub uninterp spec fn uppercase_mapping(c: char) -> Seq<char>;

/// `char::is_uppercase`: its answer depends on the character alone.
pub assume_specification[ char::is_uppercase ](c: char) -> (b: bool)
    ensures
        b == uppercase(c),
;

/// `char::is_alphanumeric`: its answer depends on the character alone.
pub assume_specification[ char::is_alphanumeric ](c: char) -> (b: bool)
    ensures
        b == alphanumeric(c),
;

/// `char::to_uppercase`, as a string: one or more characters, which depend on `c` alone.
#[verifier::external_body]
fn to_uppercase(c: char) -> (s: String)
    ensures
        s@ == uppercase_mapping(c),
        s@.len() >= 1,
{
    c.to_uppercase().to_string()
}

/// `s` with every `from` turned into `to`.
pub open spec fn replaced(s: Seq<char>, from: char, to: char) -> Seq<char> {
    s.map_values(
        |c: char|
            if c == from {
                to
            } else {
                c
            },
    )
}

/// `s` with every two spaces, taken from the left, turned into one.
pub open spec fn squeezed(s: Seq<char>) -> Seq<char>
    decreases s.len(),
{
    if s.len() == 0 {
        s
    } else if s.len() >= 2 && s[0] == ' ' && s[1] == ' ' {
        seq![' '] + squeezed(s.skip(2))
    } else {
        seq![s[0]] + squeezed(s.skip(1))
    }
}

/// The trimmed text on one line, with pairs of spaces narrowed and, on request, commas in
/// place of semicolons.
pub open spec fn flattened(text: Seq<char>, rm_semi: bool) -> Seq<char> {
    let line = squeezed(replaced(replaced(trim(text), '\n', ' '), '\r', ' '));
    if rm_semi {
        replaced(line, ';', ',')
    } else {
        line
    }
}

/// How many frames are kept after the end of speech is seen, for a number of words.
pub open spec fn frames_guess(words: nat) -> nat {
    if words <= 4 {
        3
    } else {
        1
    }
}

/// `line` with `mapping` in place of its first character, unless that is upper case already.
pub open spec fn capitalized(line: Seq<char>, already: bool, mapping: Seq<char>) -> Seq<char> {
    if line.len() == 0 || already {
        line
    } else {
        mapping + line.skip(1)
    }
}

/// What is put in front of a short prompt.
pub open spec fn padding() -> Seq<char> {
    Seq::new(8, |i: int| ' ')
}

/// `line` with a full stop where it is asked for and `line` ends in a letter or digit, and with
/// eight spaces in front where that is asked for and there are fewer than five words.
pub open spec fn finished(
    line: Seq<char>,
    ends_alphanumeric: bool,
    pad_spaces: bool,
    append_punct: bool,
) -> Seq<char> {
    let stopped = if append_punct && line.len() > 0 && ends_alphanumeric {
        line.push('.')
    } else {
        line
    };
    if pad_spaces && word_count(stopped) < 5 {
        padding() + stopped
    } else {
        stopped
    }
}

/// The prompt made of a text that is not blank.
pub open spec fn prompt(
    text: Seq<char>,
    pad_spaces: bool,
    rm_semi: bool,
    append_punct: bool,
) -> Seq<char> {
    let line = flattened(text, rm_semi);
    let capital = capitalized(line, uppercase(line[0]), uppercase_mapping(line[0]));
    finished(capital, alphanumeric(capital.last()), pad_spaces, append_punct)
}

/// A text with nothing to say.
#[derive(Debug, Clone, Copy, PartialEq, Eq, Structural)]
pub enum PromptError {
    Empty,
}

/// Turns every `from` into `to`.
fn replace_char(cs: &[char], from: char, to: char) -> (r: Vec<char>)
    ensures
        r@ == replaced(cs@, from, to),
{
    let mut r: Vec<char> = Vec::new();
    let mut i: usize = 0;
    while i < cs.len()
        invariant
            i <= cs.len(),
            r@ == replaced(cs@, from, to).take(i as int),
        decreases cs.len() - i,
    {
        if cs[i] == from {
            r.push(to);
        } else {
            r.push(cs[i]);
        }
        i = i + 1;
    }
    assert(replaced(cs@, from, to).take(cs@.len() as int) =~= replaced(cs@, from, to));
    r
}

/// Turns every two spaces, from the left, into one.
fn squeeze(cs: &[char]) -> (r: Vec<char>)
    ensures
        r@ == squeezed(cs@),
{
    let mut r: Vec<char> = Vec::new();
    let mut i: usize = 0;
    assert(cs@.skip(0) =~= cs@);
    while i < cs.len()
        invariant
            i <= cs.len(),
            squeezed(cs@) == r@ + squeezed(cs@.skip(i as int)),
        decreases cs.len() - i,
    {
        let ghost rest = cs@.skip(i as int);
        let ghost sofar = r@;
        if i + 1 < cs.len() && cs[i] == ' ' && cs[i + 1] == ' ' {
            assert(rest.skip(2) =~= cs@.skip(i + 2));
            r.push(' ');
            i = i + 2;
            assert(sofar + (seq![' '] + squeezed(cs@.skip(i as int))) =~= r@ + squeezed(
                cs@.skip(i as int),
            ));
        } else {
            assert(rest.skip(1) =~= cs@.skip(i + 1));
            r.push(cs[i]);
            i = i + 1;
            assert(sofar + (seq![rest[0]] + squeezed(cs@.skip(i as int))) =~= r@ + squeezed(
                cs@.skip(i as int),
            ));
        }
    }
    assert(r@ + squeezed(cs@.skip(cs@.len() as int)) =~= r@);
    r
}

/// Puts a text that is not blank on one line.
pub fn flatten(text: &str, rm_semi: bool) -> (r: Result<Vec<char>, PromptError>)
    ensures
        r is Err <==> trim(text@).len() == 0,
        r matches Ok(line) ==> line@ == flattened(text@, rm_semi) && line@.len() > 0,
{
    let t: Vec<char> = trim_chars(&chars_of(text));
    if t.len() == 0 {
        return Err(PromptError::Empty);
    }
    let line: Vec<char> = squeeze(&replace_char(&replace_char(&t, '\n', ' '), '\r', ' '));
    if rm_semi {
        Ok(replace_char(&line, ';', ','))
    } else {
        Ok(line)
    }
}

/// Capitalizes a line, given whether its first character is upper case and what that maps to.
pub fn capitalize_with(line: &[char], already: bool, mapping: &[char]) -> (r: Vec<char>)
    ensures
        r@ == capitalized(line@, already, mapping@),
        line@.len() == 0 || already ==> r@ == line@,
        line@.len() > 0 && !already ==> r@ == mapping@ + line@.skip(1),
{
    let mut r: Vec<char> = Vec::new();
    let mut i: usize = 0;
    if line.len() > 0 && !already {
        r = crate::text::copy_range(mapping, 0, mapping.len());
        i = 1;
    }
    let ghost front = r@;
    let ghost from = i;
    while i < line.len()
        invariant
            from <= i <= line.len(),
            r@ == front + line@.subrange(from as int, i as int),
        decreases line.len() - i,
    {
        r.push(line[i]);
        i = i + 1;
        assert(line@.subrange(from as int, i as int) =~= line@.subrange(from as int, i - 1).push(
            line@[i - 1],
        ));
    }
    assert(r@ =~= capitalized(line@, already, mapping@));
    r
}

/// Finishes a capitalized line, given whether its last character is a letter or digit.
pub fn finish_with(
    line: &[char],
    ends_alphanumeric: bool,
    pad_spaces: bool,
    append_punct: bool,
) -> (r: Vec<char>)
    ensures
        r@ == finished(line@, ends_alphanumeric, pad_spaces, append_punct),
        !pad_spaces ==> r@ == if append_punct && line@.len() > 0 && ends_alphanumeric {
            line@ + seq!['.']
        } else {
            line@
        },
{
    let mut stopped: Vec<char> = crate::text::copy_range(line, 0, line.len());
    assert(stopped@ =~= line@);
    if append_punct && line.len() > 0 && ends_alphanumeric {
        stopped.push('.');
    }
    if pad_spaces && count_words(&stopped) < 5 {
        let mut r: Vec<char> = Vec::new();
        let mut i: usize = 0;
        while i < 8
            invariant
                i <= 8,
                r@ == Seq::new(i as nat, |i: int| ' '),
            decreases 8 - i,
        {
            r.push(' ');
            i = i + 1;
        }
        r.append(&mut stopped);
        r
    } else {
        stopped
    }
}

/// Prepares a prompt: the text on one line, capitalized, finished with a full stop and padded
/// as asked, and the number of frames to keep after the end of speech.
pub fn prepare_text_prompt(
    text: &str,
    pad_spaces: bool,
    rm_semi: bool,
    append_punct: bool,
) -> (r: Result<(String, usize), PromptError>)
    ensures
        r is Err <==> trim(text@).len() == 0,
        r matches Ok((s, frames)) ==> {
            &&& s@ == prompt(text@, pad_spaces, rm_semi, append_punct)
            &&& frames == frames_guess(word_count(flattened(text@, rm_semi)))
            &&& word_count(text@) < 5 ==> frames == 3
            &&& word_count(text@) >= 5 ==> frames == 1
        },
{
    proof {
        if trim(text@).len() > 0 {
            lemma_flattened(text@, rm_semi);
        }
    }
    let line: Vec<char> = match flatten(text, rm_semi) {
        Err(e) => {
            return Err(e);
        },
        Ok(line) => line,
    };
    let frames: usize = guess_frames(count_words(&line));
    let first: char = line[0];
    let mapping: String = to_uppercase(first);
    let capital: Vec<char> = capitalize_with(
        &line,
        first.is_uppercase(),
        &chars_of(mapping.as_str()),
    );
    let last: char = capital[capital.len() - 1];
    let s: Vec<char> = finish_with(&capital, last.is_alphanumeric(), pad_spaces, append_punct);
    Ok((string_of(&s), frames))
}

/// How many frames to keep after the end of speech is seen, for a number of words.
pub fn guess_frames(words: usize) -> (n: usize)
    ensures
        n == frames_guess(words as nat),
        words <= 4 ==> n == 3,
        words > 4 ==> n == 1,
{
    if words <= 4 {
        3
    } else {
        1
    }
}

/// Narrowing spaces brings in no other character.
proof fn lemma_squeezed_contains(s: Seq<char>, c: char)
    requires
        squeezed(s).contains(c),
    ensures
        s.contains(c),
    decreases s.len(),
{
    let i = choose|i: int| 0 <= i < squeezed(s).len() && squeezed(s)[i] == c;
    if s.len() > 0 {
        let k: int = if s.len() >= 2 && s[0] == ' ' && s[1] == ' ' {
            2
        } else {
            1
        };
        if i == 0 {
            assert(s[0] == c);
        } else {
            let rest = squeezed(s.skip(k));
            assert(rest[i - 1] == c);
            lemma_squeezed_contains(s.skip(k), c);
            let j = choose|j: int| 0 <= j < s.skip(k).len() && s.skip(k)[j] == c;
            assert(s[j + k] == c);
        }
    }
}

/// A flattened text holds no line break and no carriage return and, on request, no semicolon.
pub proof fn law_flattened_is_one_line(text: Seq<char>, rm_semi: bool)
    ensures
        !flattened(text, rm_semi).contains('\n'),
        !flattened(text, rm_semi).contains('\r'),
        rm_semi ==> !flattened(text, rm_semi).contains(';'),
{
    let plain = replaced(replaced(trim(text), '\n', ' '), '\r', ' ');
    let line = squeezed(plain);
    let out = flattened(text, rm_semi);
    assert forall|c: char| c == '\n' || c == '\r' implies !out.contains(c) by {
        if out.contains(c) {
            let i = choose|i: int| 0 <= i < out.len() && out[i] == c;
            assert(line[i] == c);
            lemma_squeezed_contains(plain, c);
        }
    }
}

/// A line that is to end in punctuation ends in a full stop or in a character that is neither
/// a letter nor a digit, padded or not.
pub proof fn law_finished_ends_in_punctuation(line: Seq<char>, pad_spaces: bool)
    requires
        line.len() > 0,
    ensures
        ({
            let end = finished(line, alphanumeric(line.last()), pad_spaces, true).last();
            end == '.' || !alphanumeric(end)
        }),
{
}

/// Padding puts eight spaces in front of a line of fewer than five words and changes nothing
/// else.
pub proof fn law_padding_is_in_front(line: Seq<char>, ends_alphanumeric: bool, append_punct: bool)
    ensures
        ({
            let plain = finished(line, ends_alphanumeric, false, append_punct);
            let padded = finished(line, ends_alphanumeric, true, append_punct);
            if word_count(plain) < 5 {
                &&& padded.len() == plain.len() + 8
                &&& padded.skip(8) == plain
                &&& forall|i: int| 0 <= i < 8 ==> padded[i] == ' '
            } else {
                padded == plain
            }
        }),
{
    let plain = finished(line, ends_alphanumeric, false, append_punct);
    assert((padding() + plain).skip(8) =~= plain);
}

/// One or more characters, none of them white space.
pub open spec fn spaceless(s: Seq<char>) -> bool {
    &&& s.len() > 0
    &&& forall|i: int| 0 <= i < s.len() ==> !#[trigger] white_space(s[i])
}

/// The first character of a line is upper case already, or its mapping is a word of its own.
pub open spec fn capital_is_plain(line: Seq<char>) -> bool {
    uppercase(line[0]) || spaceless(uppercase_mapping(line[0]))
}

/// Words are told by where white space stands.
proof fn lemma_words_by_space(a: Seq<char>, b: Seq<char>)
    requires
        a.len() == b.len(),
        forall|i: int| 0 <= i < a.len() ==> white_space(#[trigger] a[i]) == white_space(b[i]),
    ensures
        word_count(a) == word_count(b),
    decreases a.len(),
{
    if a.len() > 0 {
        lemma_words_by_space(a.drop_last(), b.drop_last());
        assert(white_space(a[a.len() - 1]) == white_space(b[a.len() - 1]));
        if a.len() > 1 {
            assert(white_space(a[a.len() - 2]) == white_space(b[a.len() - 2]));
        }
    }
}

/// Turning a character into one that is white space just as much changes no word.
proof fn lemma_replaced_words(s: Seq<char>, from: char, to: char)
    requires
        white_space(from) == white_space(to),
    ensures
        word_count(replaced(s, from, to)) == word_count(s),
{
    lemma_words_by_space(replaced(s, from, to), s);
}

/// White space at either end is no word.
proof fn lemma_trimmed_words(s: Seq<char>)
    ensures
        word_count(trim(s)) == word_count(s),
{
    lemma_trim_start_words(s);
    lemma_trim_end_words(trim_start(s));
}

proof fn lemma_trim_start_words(s: Seq<char>)
    ensures
        word_count(trim_start(s)) == word_count(s),
    decreases s.len(),
{
    if s.len() > 0 && white_space(s[0]) {
        lemma_trim_start_words(s.drop_first());
        law_words_add_up(seq![s[0]], s.drop_first());
        assert(seq![s[0]] + s.drop_first() =~= s);
        reveal_with_fuel(word_count, 2);
    }
}

proof fn lemma_trim_end_words(s: Seq<char>)
    ensures
        word_count(trim_end(s)) == word_count(s),
    decreases s.len(),
{
    if s.len() > 0 && white_space(s.last()) {
        lemma_trim_end_words(s.drop_last());
    }
}

/// Narrowing spaces keeps the words, the first character, and a last one that is no space.
proof fn lemma_squeezed(s: Seq<char>)
    ensures
        word_count(squeezed(s)) == word_count(s),
        squeezed(s).len() == 0 <==> s.len() == 0,
        s.len() > 0 ==> squeezed(s)[0] == s[0],
        s.len() > 0 && s.last() != ' ' ==> squeezed(s).last() == s.last(),
    decreases s.len(),
{
    reveal_with_fuel(word_count, 3);
    if s.len() >= 2 && s[0] == ' ' && s[1] == ' ' {
        let rest = s.skip(2);
        lemma_squeezed(rest);
        assert(seq![' ', ' '] + rest =~= s);
        assert(seq![' ', ' '].drop_last() =~= seq![' ']);
        assert(word_count(seq![' ', ' ']) == 0);
        law_words_add_up(seq![' ', ' '], rest);
        law_words_add_up(seq![' '], squeezed(rest));
    } else if s.len() > 0 {
        let rest = s.skip(1);
        lemma_squeezed(rest);
        assert(seq![s[0]] + rest =~= s);
        law_words_add_up(seq![s[0]], rest);
        law_words_add_up(seq![s[0]], squeezed(rest));
    }
}

/// A text that is not blank becomes a line with the same words, which begins and ends with a
/// character that is no white space.
proof fn lemma_flattened(text: Seq<char>, rm_semi: bool)
    requires
        trim(text).len() > 0,
    ensures
        ({
            let line = flattened(text, rm_semi);
            &&& word_count(line) == word_count(text)
            &&& line.len() > 0
            &&& !white_space(line[0])
            &&& !white_space(line.last())
        }),
{
    crate::sentences::lemma_trim(text);
    lemma_trimmed_words(text);
    let t = trim(text);
    let a = replaced(t, '\n', ' ');
    let b = replaced(a, '\r', ' ');
    lemma_replaced_words(t, '\n', ' ');
    lemma_replaced_words(a, '\r', ' ');
    lemma_squeezed(b);
    lemma_replaced_words(squeezed(b), ';', ',');
}

/// Characters without white space between them are one word.
proof fn lemma_one_word(s: Seq<char>)
    requires
        spaceless(s),
    ensures
        word_count(s) == 1,
    decreases s.len(),
{
    assert(!white_space(s[s.len() - 1]));
    if s.len() > 1 {
        assert(!white_space(s[s.len() - 2]));
        assert forall|i: int| 0 <= i < s.drop_last().len() implies !#[trigger] white_space(
            s.drop_last()[i],
        ) by {
            assert(!white_space(s[i]));
        }
        lemma_one_word(s.drop_last());
    } else {
        assert(word_count(s.drop_last()) == 0);
    }
}

/// Capitalizing a line keeps its words, and white space away from its ends.
proof fn lemma_capitalized(line: Seq<char>, already: bool, mapping: Seq<char>)
    requires
        line.len() > 0,
        !white_space(line[0]),
        !white_space(line.last()),
        already || spaceless(mapping),
    ensures
        ({
            let capital = capitalized(line, already, mapping);
            &&& word_count(capital) == word_count(line)
            &&& capital.len() > 0
            &&& !white_space(capital[0])
            &&& !white_space(capital.last())
        }),
{
    if !already {
        let rest = line.skip(1);
        let first = seq![line[0]];
        assert(first + rest =~= line);
        assert(!white_space(mapping[0]));
        assert(!white_space(mapping[mapping.len() - 1]));
        assert(spaceless(first));
        lemma_one_word(first);
        lemma_one_word(mapping);
        law_words_add_up(first, rest);
        law_words_add_up(mapping, rest);
        if rest.len() > 0 {
            assert(capitalized(line, already, mapping).last() == line.last());
        }
    }
}

/// A full stop behind a character that is no white space begins no word.
proof fn lemma_stop_is_no_word(line: Seq<char>)
    requires
        line.len() > 0,
        !white_space(line.last()),
    ensures
        word_count(line.push('.')) == word_count(line),
{
    assert(line.push('.').drop_last() =~= line);
}

/// Asked to pad, exactly the prompts of texts with fewer than five words get eight spaces in
/// front, and these are the texts that keep three frames after the end of speech; a prompt that
/// is not padded begins with no white space. The uppercase mapping of the first character is
/// taken to bring in no white space.
pub proof fn law_padding_goes_by_words(text: Seq<char>, rm_semi: bool, append_punct: bool)
    requires
        trim(text).len() > 0,
        capital_is_plain(flattened(text, rm_semi)),
    ensures
        ({
            let plain = prompt(text, false, rm_semi, append_punct);
            &&& plain.len() > 0
            &&& !white_space(plain[0])
            &&& prompt(text, true, rm_semi, append_punct) == if word_count(text) < 5 {
                padding() + plain
            } else {
                plain
            }
            &&& frames_guess(word_count(flattened(text, rm_semi))) == 3 <==> word_count(text) < 5
        }),
{
    let line = flattened(text, rm_semi);
    lemma_flattened(text, rm_semi);
    lemma_capitalized(line, uppercase(line[0]), uppercase_mapping(line[0]));
    lemma_stop_is_no_word(capitalized(line, uppercase(line[0]), uppercase_mapping(line[0])));
}

/// Asked to pad, exactly the prompts with fewer than five words get eight spaces in front.
pub proof fn law_padding_goes_by_prompt_words(text: Seq<char>, rm_semi: bool, append_punct: bool)
    ensures
        ({
            let plain = prompt(text, false, rm_semi, append_punct);
            prompt(text, true, rm_semi, append_punct) == if word_count(plain) < 5 {
                padding() + plain
            } else {
                plain
            }
        }),
{
}

/// Asked for a full stop, exactly the prompts that end in a letter or digit get one behind them,
/// padded or not, and nothing else changes. Of a text of one character, the uppercase mapping is
/// taken to bring in no white space.
pub proof fn law_full_stop_is_appended(text: Seq<char>, pad_spaces: bool, rm_semi: bool)
    requires
        trim(text).len() > 0,
        flattened(text, rm_semi).len() > 1 || capital_is_plain(flattened(text, rm_semi)),
    ensures
        ({
            let plain = prompt(text, pad_spaces, rm_semi, false);
            prompt(text, pad_spaces, rm_semi, true) == if alphanumeric(plain.last()) {
                plain.push('.')
            } else {
                plain
            }
        }),
{
    let line = flattened(text, rm_semi);
    let capital = capitalized(line, uppercase(line[0]), uppercase_mapping(line[0]));
    lemma_flattened(text, rm_semi);
    if line.len() > 1 {
        assert(capital.last() == line.last());
    } else {
        lemma_capitalized(line, uppercase(line[0]), uppercase_mapping(line[0]));
    }
    lemma_stop_is_no_word(capital);
    assert((padding() + capital).push('.') =~= padding() + capital.push('.'));
    assert((padding() + capital).last() == capital.last());
}

/// Turning white space into white space keeps the ink, and turning ink into ink turns it there.
proof fn lemma_replaced_ink(s: Seq<char>, from: char, to: char)
    requires
        white_space(from) == white_space(to),
    ensures
        ink(replaced(s, from, to)) == replaced(ink(s), from, to),
        white_space(from) ==> ink(replaced(s, from, to)) == ink(s),
    decreases s.len(),
{
    if s.len() > 0 {
        lemma_replaced_ink(s.drop_last(), from, to);
        assert(replaced(s, from, to).drop_last() =~= replaced(s.drop_last(), from, to));
        if !white_space(s.last()) {
            assert(ink(s) == ink(s.drop_last()).push(s.last()));
            assert(replaced(ink(s), from, to) =~= replaced(ink(s.drop_last()), from, to).push(
                replaced(s, from, to).last(),
            ));
        }
    } else {
        assert(replaced(s, from, to) =~= s);
        assert(replaced(ink(s), from, to) =~= ink(s));
    }
}

proof fn lemma_squeezed_ink(s: Seq<char>)
    ensures
        ink(squeezed(s)) == ink(s),
    decreases s.len(),
{
    reveal_with_fuel(ink, 3);
    if s.len() >= 2 && s[0] == ' ' && s[1] == ' ' {
        let rest = s.skip(2);
        lemma_squeezed_ink(rest);
        assert(seq![' ', ' '] + rest =~= s);
        assert(seq![' ', ' '].drop_last() =~= seq![' ']);
        crate::sentences::lemma_ink_adds(seq![' ', ' '], rest);
        crate::sentences::lemma_ink_adds(seq![' '], squeezed(rest));
    } else if s.len() > 0 {
        let rest = s.skip(1);
        lemma_squeezed_ink(rest);
        assert(seq![s[0]] + rest =~= s);
        crate::sentences::lemma_ink_adds(seq![s[0]], rest);
        crate::sentences::lemma_ink_adds(seq![s[0]], squeezed(rest));
    }
}

/// Putting a text on one line changes none of its characters but white space; asked to, it turns
/// every semicolon into a comma, and nothing else.
pub proof fn law_flattening_keeps_the_ink(text: Seq<char>)
    ensures
        ink(flattened(text, false)) == ink(text),
        ink(flattened(text, true)) == ink(text).map_values(
            |c: char|
                if c == ';' {
                    ','
                } else {
                    c
                },
        ),
{
    let t = trim(text);
    let a = replaced(t, '\n', ' ');
    let b = replaced(a, '\r', ' ');
    crate::sentences::lemma_trim(text);
    lemma_replaced_ink(t, '\n', ' ');
    lemma_replaced_ink(a, '\r', ' ');
    lemma_squeezed_ink(b);
    lemma_replaced_ink(squeezed(b), ';', ',');
    assert(replaced(ink(text), ';', ',') =~= ink(text).map_values(
        |c: char|
            if c == ';' {
                ','
            } else {
                c
            },
    ));
}

/// Without two spaces side by side there is nothing to narrow.
proof fn lemma_nothing_to_squeeze(s: Seq<char>)
    requires
        forall|i: int, j: int|
            0 <= i && j == i + 1 && j < s.len() && #[trigger] s[i] == ' ' ==> #[trigger] s[j] != ' ',
    ensures
        squeezed(s) == s,
    decreases s.len(),
{
    if s.len() > 0 {
        assert(s.len() >= 2 ==> !(s[0] == ' ' && s[1] == ' '));
        let rest = s.skip(1);
        assert forall|i: int, j: int|
            0 <= i && j == i + 1 && j < rest.len() && #[trigger] rest[i]
                == ' ' implies #[trigger] rest[j] != ' ' by {
            assert(s[i + 1] == ' ');
            assert(s[j + 1] == rest[j]);
        }
        lemma_nothing_to_squeeze(rest);
        assert(seq![s[0]] + rest =~= s);
    }
}

/// A text that begins and ends with ink, is on one line and has no two spaces side by side is
/// left as it is.
pub proof fn law_a_plain_line_is_kept(text: Seq<char>)
    requires
        text.len() > 0,
        !white_space(text[0]),
        !white_space(text.last()),
        !text.contains('\n'),
        !text.contains('\r'),
        forall|i: int, j: int|
            0 <= i && j == i + 1 && j < text.len() && #[trigger] text[i] == ' ' ==> #[trigger] text[j]
                != ' ',
    ensures
        flattened(text, false) == text,
{
    assert(trim_start(text) == text);
    assert(trim(text) == text);
    assert(replaced(text, '\n', ' ') =~= text);
    assert(replaced(text, '\r', ' ') =~= text);
    lemma_nothing_to_squeeze(text);
}

proof fn lemma_squeezed_adds(a: Seq<char>, b: Seq<char>)
    requires
        a.len() > 0 ==> a.last() != ' ',
    ensures
        squeezed(a + b) == squeezed(a) + squeezed(b),
    decreases a.len(),
{
    if a.len() == 0 {
        assert(a + b =~= b);
        assert(squeezed(a) + squeezed(b) =~= squeezed(b));
    } else if a.len() >= 2 && a[0] == ' ' && a[1] == ' ' {
        lemma_squeezed_adds(a.skip(2), b);
        assert((a + b).skip(2) =~= a.skip(2) + b);
        assert(seq![' '] + (squeezed(a.skip(2)) + squeezed(b)) =~= squeezed(a) + squeezed(b));
    } else {
        lemma_squeezed_adds(a.skip(1), b);
        assert((a + b).skip(1) =~= a.skip(1) + b);
        if (a + b).len() >= 2 {
            assert((a + b)[0] == a[0]);
            assert(a.len() >= 2 ==> (a + b)[1] == a[1]);
            assert(a.len() == 1 ==> a[0] == a.last());
        }
        assert(seq![a[0]] + (squeezed(a.skip(1)) + squeezed(b)) =~= squeezed(a) + squeezed(b));
    }
}

/// That many spaces.
pub open spec fn spaces(n: nat) -> Seq<char> {
    Seq::new(n, |i: int| ' ')
}

proof fn lemma_squeezed_spaces(n: nat, b: Seq<char>)
    requires
        b.len() > 0,
        b[0] != ' ',
    ensures
        squeezed(spaces(n) + b) == spaces((n + 1) / 2) + squeezed(b),
    decreases n,
{
    let s = spaces(n) + b;
    if n == 0 {
        assert(s =~= b);
        assert(spaces(0) + squeezed(b) =~= squeezed(b));
    } else if n == 1 {
        assert(s[0] == ' ' && s[1] == b[0]);
        assert(s.skip(1) =~= b);
        assert(spaces(1) =~= seq![' ']);
    } else {
        let m = (n - 2) as nat;
        lemma_squeezed_spaces(m, b);
        assert(s[0] == ' ' && s[1] == ' ');
        assert(s.skip(2) =~= spaces(m) + b);
        assert((n + 1) / 2 == (m + 1) / 2 + 1);
        assert(seq![' '] + (spaces((m + 1) / 2) + squeezed(b)) =~= spaces((n + 1) / 2) + squeezed(
            b,
        ));
    }
}

/// Spaces, line breaks and carriage returns between two parts of a text become half as many
/// spaces, rounded up, and each part is put on one line as if it stood alone.
pub proof fn law_gaps_are_halved(a: Seq<char>, gap: Seq<char>, b: Seq<char>, rm_semi: bool)
    requires
        a.len() > 0,
        !white_space(a[0]),
        !white_space(a.last()),
        b.len() > 0,
        !white_space(b[0]),
        !white_space(b.last()),
        forall|i: int|
            0 <= i < gap.len() ==> #[trigger] gap[i] == ' ' || gap[i] == '\n' || gap[i] == '\r',
    ensures
        flattened(a + gap + b, rm_semi) == flattened(a, rm_semi) + Seq::new(
            ((gap.len() + 1) / 2) as nat,
            |i: int| ' ',
        ) + flattened(b, rm_semi),
{
    let text = a + gap + b;
    assert(text[0] == a[0] && text.last() == b.last());
    assert(trim(text) == text);
    assert(trim(a) == a);
    assert(trim(b) == b);
    let aa = replaced(replaced(a, '\n', ' '), '\r', ' ');
    let bb = replaced(replaced(b, '\n', ' '), '\r', ' ');
    let tt = replaced(replaced(text, '\n', ' '), '\r', ' ');
    assert(tt =~= aa + (spaces(gap.len()) + bb));
    assert(aa.last() == a.last());
    assert(bb[0] == b[0]);
    lemma_squeezed_adds(aa, spaces(gap.len()) + bb);
    lemma_squeezed_spaces(gap.len(), bb);
    let half = Seq::new(((gap.len() + 1) / 2) as nat, |i: int| ' ');
    assert(half =~= spaces((gap.len() + 1) / 2));
    let line = squeezed(aa) + half + squeezed(bb);
    assert(squeezed(tt) =~= line);
    assert(replaced(line, ';', ',') =~= replaced(squeezed(aa), ';', ',') + half + replaced(
        squeezed(bb),
        ';',
        ',',
    ));
}

/// A prompt without padding and without a full stop is the line with the uppercase mapping of its
/// first character in place of that, unless it is upper case already.
pub proof fn law_only_the_first_character_is_capitalized(text: Seq<char>, rm_semi: bool)
    requires
        trim(text).len() > 0,
    ensures
        ({
            let line = flattened(text, rm_semi);
            &&& uppercase(line[0]) ==> prompt(text, false, rm_semi, false) == line
            &&& !uppercase(line[0]) ==> prompt(text, false, rm_semi, false) == uppercase_mapping(
                line[0],
            ) + line.skip(1)
        }),
{
    lemma_flattened(text, rm_semi);
}

/// The same holds where white space of another kind stands beside the spaces, line breaks and
/// carriage returns: what stands before them and behind them is put on one line as if a letter
/// stood in their place.
pub proof fn law_gaps_are_halved_beside_other_white_space(
    a: Seq<char>,
    gap: Seq<char>,
    b: Seq<char>,
    rm_semi: bool,
)
    requires
        a.len() > 0,
        !white_space(a[0]),
        a.last() != ' ' && a.last() != '\n' && a.last() != '\r',
        b.len() > 0,
        b[0] != ' ' && b[0] != '\n' && b[0] != '\r',
        !white_space(b.last()),
        forall|i: int|
            0 <= i < gap.len() ==> #[trigger] gap[i] == ' ' || gap[i] == '\n' || gap[i] == '\r',
    ensures
        flattened(a + gap + b, rm_semi) == flattened(a + seq!['x'], rm_semi).drop_last() + Seq::new(
            ((gap.len() + 1) / 2) as nat,
            |i: int| ' ',
        ) + flattened(seq!['x'] + b, rm_semi).skip(1),
{
    let text = a + gap + b;
    let (ax, xb) = (a + seq!['x'], seq!['x'] + b);
    assert(text[0] == a[0] && text.last() == b.last());
    assert(ax[0] == a[0] && xb.last() == b.last());
    assert(trim(text) == text);
    assert(trim(ax) == ax);
    assert(trim(xb) == xb);
    let aa = replaced(replaced(a, '\n', ' '), '\r', ' ');
    let bb = replaced(replaced(b, '\n', ' '), '\r', ' ');
    let tt = replaced(replaced(text, '\n', ' '), '\r', ' ');
    assert(aa.last() == a.last());
    assert(bb[0] == b[0]);
    assert(replaced(replaced(ax, '\n', ' '), '\r', ' ') =~= aa + seq!['x']);
    assert(replaced(replaced(xb, '\n', ' '), '\r', ' ') =~= seq!['x'] + bb);
    assert(tt =~= aa + (spaces(gap.len()) + bb));
    lemma_squeezed_adds(aa, spaces(gap.len()) + bb);
    lemma_squeezed_spaces(gap.len(), bb);
    lemma_squeezed_adds(aa, seq!['x']);
    lemma_squeezed_adds(seq!['x'], bb);
    reveal_with_fuel(squeezed, 2);
    assert(seq!['x'].skip(1) =~= Seq::empty());
    assert(squeezed(seq!['x']) =~= seq!['x']);
    let half = Seq::new(((gap.len() + 1) / 2) as nat, |i: int| ' ');
    assert(half =~= spaces((gap.len() + 1) / 2));
    let line = squeezed(aa) + half + squeezed(bb);
    assert(squeezed(tt) =~= line);
    assert(replaced(line, ';', ',') =~= replaced(squeezed(aa), ';', ',') + half + replaced(
        squeezed(bb),
        ';',
        ',',
    ));
    assert(replaced(squeezed(aa) + seq!['x'], ';', ',') =~= replaced(squeezed(aa), ';', ',') + seq![
        'x',
    ]);
    assert(replaced(seq!['x'] + squeezed(bb), ';', ',') =~= seq!['x'] + replaced(
        squeezed(bb),
        ';',
        ',',
    ));
    assert(flattened(ax, rm_semi).drop_last() =~= if rm_semi {
        replaced(squeezed(aa), ';', ',')
    } else {
        squeezed(aa)
    });
    assert(flattened(xb, rm_semi).skip(1) =~= if rm_semi {
        replaced(squeezed(bb), ';', ',')
    } else {
        squeezed(bb)
    });
}

} // verus!
