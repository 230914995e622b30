use pocket_tts_deploy::chunks::{count_chunk_words, join_ids, pack_chunks};
use pocket_tts_deploy::params::{d256, Params};
use pocket_tts_deploy::plan::{check_single, plan_chunks, prepare_sentences, SingleError};
use pocket_tts_deploy::prompt::{
    capitalize_with, finish_with, flatten, guess_frames, prepare_text_prompt, PromptError,
};
use pocket_tts_deploy::sentences::split_sentences;

fn params(max_len: usize, max_latents: usize) -> Params {
    Params {
        sample_rate: 24000,
        ldim: 32,
        dim: 1024,
        max_len,
        pad_spaces: true,
        rm_semi: true,
        append_punct: true,
        n_layers: 24,
        max_latents,
    }
}

fn prepared(text: &str, pad: bool, semi: bool, punct: bool) -> (String, usize) {
    prepare_text_prompt(text, pad, semi, punct).unwrap()
}

/// The steps of preparing a prompt, in terms of the standard library.
fn by_the_library(text: &str, pad: bool, semi: bool, punct: bool) -> Option<(String, usize)> {
    let mut text = text.trim().to_string();
    if text.is_empty() {
        return None;
    }
    text = text.replace('\n', " ").replace('\r', " ").replace("  ", " ");
    if semi {
        text = text.replace(';', ",");
    }
    let frames = if text.split_whitespace().count() <= 4 { 3 } else { 1 };
    let first = text.chars().next().unwrap();
    if !first.is_uppercase() {
        text = format!("{}{}", first.to_uppercase(), &text[first.len_utf8()..]);
    }
    if punct && text.chars().last().unwrap().is_alphanumeric() {
        text.push('.');
    }
    if pad && text.split_whitespace().count() < 5 {
        text = format!("        {text}");
    }
    Some((text, frames))
}

#[test]
fn the_default_latents_are_256() {
    assert_eq!(d256(), 256);
}

#[test]
fn a_short_text_is_capitalized_stopped_and_padded() {
    assert_eq!(prepared("hello world", true, false, true), ("        Hello world.".to_string(), 3));
    assert_eq!(prepared("hello world", false, false, false), ("Hello world".to_string(), 3));
    assert_eq!(
        prepared("  one two\nthree four five; six ", true, true, true),
        ("One two three four five, six.".to_string(), 1)
    );
    assert_eq!(prepared("안녕하세요.", true, true, true), ("        안녕하세요.".to_string(), 3));
}

#[test]
fn an_uppercase_mapping_may_be_longer() {
    assert_eq!(prepared("ßeta", false, false, false).0, "SSeta");
    assert_eq!(prepared("ǆ", false, false, true).0, "Ǆ.");
}

#[test]
fn prompts_follow_the_standard_library() {
    let samples = [
        "a", "A b;c", "  x   y  ", "line\r\nbreak", "tab\tbed", "\u{a0}nbsp\u{a0}", "1 2 3 4", "1 2 3 4 5",
        "끝", "끝!", "é", "…", "a\u{3000}b", "ends with space   ; ", "x\n\n\n\ny", "   \n ", "", "ǳ word",
    ];
    for s in samples {
        for n in 0..8 {
            let (pad, semi, punct) = (n & 1 != 0, n & 2 != 0, n & 4 != 0);
            assert_eq!(
                prepare_text_prompt(s, pad, semi, punct).ok(),
                by_the_library(s, pad, semi, punct),
                "{s:?}"
            );
        }
    }
}

#[test]
fn a_blank_text_is_no_prompt() {
    for s in ["", "  ", "\n\t\u{3000}"] {
        assert_eq!(prepare_text_prompt(s, true, true, true), Err(PromptError::Empty));
        assert_eq!(flatten(s, true), Err(PromptError::Empty));
    }
}

#[test]
fn flattening_leaves_one_line() {
    let line: String = flatten("a\r\nb;  c   d", true).unwrap().into_iter().collect();
    assert_eq!(line, "a b, c  d");
    let line: String = flatten("a;b", false).unwrap().into_iter().collect();
    assert_eq!(line, "a;b");
}

#[test]
fn lines_are_capitalized_and_finished_as_told() {
    let cs = |s: &str| -> Vec<char> { s.chars().collect() };
    assert_eq!(capitalize_with(&cs("abc"), false, &cs("XY")), cs("XYbc"));
    assert_eq!(capitalize_with(&cs("abc"), true, &cs("XY")), cs("abc"));
    assert_eq!(capitalize_with(&[], false, &cs("XY")), cs(""));
    assert_eq!(finish_with(&cs("a"), true, false, true), cs("a."));
    assert_eq!(finish_with(&cs("a"), false, true, true), cs("        a"));
    assert_eq!(finish_with(&cs("a b c d e"), true, true, false), cs("a b c d e"));
}

#[test]
fn short_texts_keep_more_frames() {
    assert_eq!(guess_frames(0), 3);
    assert_eq!(guess_frames(4), 3);
    assert_eq!(guess_frames(5), 1);
}

#[test]
fn sentences_end_at_terminators_and_line_breaks() {
    assert_eq!(
        split_sentences("안녕하세요. 한국어 음성 합성 모델입니다."),
        vec!["안녕하세요.", "한국어 음성 합성 모델입니다."]
    );
    assert_eq!(split_sentences("첫 문장입니다. 두 번째 문장입니다."), vec!["첫 문장입니다.", "두 번째 문장입니다."]);
    assert_eq!(split_sentences("a.b c"), vec!["a.b c"]);
    assert_eq!(split_sentences("Really?! Yes… no"), vec!["Really?!", "Yes…", "no"]);
    assert_eq!(split_sentences("one\n\n  two\nthree. \n four"), vec!["one", "two", "three.", "four"]);
    assert_eq!(split_sentences(". . ."), vec![".", ".", "."]);
    assert!(split_sentences(" \n ").is_empty());
    assert!(split_sentences("").is_empty());
}

#[test]
fn splitting_keeps_the_ink() {
    let ink = |s: &str| -> String { s.chars().filter(|c| !c.is_whitespace()).collect() };
    for s in ["a. b? c!\nd", " 끝.\t\n…  x y\u{3000}z. ", "\n\n", "no end"] {
        let parts = split_sentences(s);
        assert_eq!(ink(&parts.concat()), ink(s));
        for p in &parts {
            assert_eq!(split_sentences(p), vec![p.clone()]);
            assert_eq!(p.trim(), p);
            assert!(!p.is_empty());
        }
    }
}

/// Frames expected of a number of tokens: three per token.
fn frames(n: usize) -> Vec<usize> {
    (0..n).map(|t| 3 * t).collect()
}

#[test]
fn sentences_join_a_chunk_while_they_fit() {
    let ids: Vec<Vec<u32>> = vec![vec![1; 4], vec![2; 4], vec![3; 4], vec![4; 30], vec![5; 1]];
    let table = frames(64);
    // 10 voice positions and 4 tokens, 36 frames: two sentences and their join count 9.
    let p = params(46, 100);
    assert_eq!(pack_chunks(&ids, &table, &p, 10), vec![vec![0, 1], vec![2], vec![3], vec![4]]);
    let p = params(45, 100);
    assert_eq!(pack_chunks(&ids, &table, &p, 10), vec![vec![0], vec![1], vec![2], vec![3], vec![4]]);
    let p = params(1000, 27);
    assert_eq!(pack_chunks(&ids, &table, &p, 10), vec![vec![0, 1], vec![2], vec![3], vec![4]]);
    let p = params(1000, 1000);
    assert_eq!(pack_chunks(&ids, &table, &p, 10), vec![vec![0, 1, 2, 3, 4]]);
    assert!(pack_chunks(&[], &table, &p, 10).is_empty());
}

#[test]
fn chunks_join_ids_without_separator() {
    let ids = vec![vec![1, 2], vec![], vec![3]];
    assert_eq!(join_ids(&ids, &[0, 1, 2]), vec![1, 2, 3]);
    assert_eq!(join_ids(&ids, &[2, 0]), vec![3, 1, 2]);
    assert_eq!(count_chunk_words(&[2, 0, 5], &[0, 2]), 7);
}

#[test]
fn a_plan_speaks_every_token_once() {
    let ids: Vec<Vec<u32>> = vec![vec![1, 2], vec![3], vec![4, 5, 6], vec![7]];
    let words = [2, 1, 3, 1];
    let table = frames(32);
    for max_len in 0..40 {
        let plan = plan_chunks(&ids, &words, &table, &params(max_len, 64), 3);
        let spoken: Vec<u32> = plan.iter().flat_map(|c| c.ids.clone()).collect();
        assert_eq!(spoken, vec![1, 2, 3, 4, 5, 6, 7]);
        assert!(plan.iter().all(|c| !c.ids.is_empty()));
    }
    let plan = plan_chunks(&ids, &words, &table, &params(1000, 64), 3);
    assert_eq!(plan.len(), 1);
    assert_eq!(plan[0].guess, 1);
    let plan = plan_chunks(&ids, &words, &table, &params(0, 64), 3);
    assert_eq!(plan.len(), 4);
    assert!(plan.iter().all(|c| c.guess == 3));
}

#[test]
fn every_sentence_gets_its_prompt() {
    let v = prepare_sentences("hello there. one two three four five six", &params(256, 128)).unwrap();
    assert_eq!(v.len(), 2);
    assert_eq!(v[0].text, "        Hello there.");
    assert_eq!(v[0].words, 2);
    assert_eq!(v[1].text, "One two three four five six.");
    assert_eq!(v[1].words, 6);
    assert!(matches!(prepare_sentences(" \n", &params(256, 128)), Err(PromptError::Empty)));
}

#[test]
fn one_run_has_to_fit_the_context() {
    assert_eq!(check_single(100, 20, 136, &params(256, 128)), Ok(()));
    assert_eq!(check_single(100, 20, 137, &params(256, 128)), Err(SingleError::MaxLen));
    assert_eq!(check_single(usize::MAX, 1, 1, &params(256, 128)), Err(SingleError::MaxLen));
    assert_eq!(SingleError::MaxLen.message(), "MAX_LEN 초과: 더 긴 컨텍스트 모델 필요");
}

#[test]
fn one_sentence_is_prepared_as_the_whole_text() {
    for text in [" hello there ", "안녕하세요.\n", "a.b c; d", "Well… "] {
        assert_eq!(split_sentences(text), vec![text.trim()]);
        let p = params(256, 128);
        let v = prepare_sentences(text, &p).unwrap();
        let (whole, _) = prepared(text, p.pad_spaces, p.rm_semi, p.append_punct);
        assert_eq!(v.len(), 1);
        assert_eq!(v[0].text, whole);
    }
}

#[test]
fn only_a_blank_text_has_no_sentence() {
    for text in ["", " ", "\n.\n", "x", "\u{3000}\t", "…"] {
        assert_eq!(split_sentences(text).is_empty(), text.trim().is_empty());
    }
}

#[test]
fn runs_over_several_sentences_fit() {
    let ids: Vec<Vec<u32>> = (0..12).map(|k| vec![k; (k % 5) as usize + 1]).collect();
    let words = vec![1; 12];
    let table = frames(64);
    for max_len in 0..120 {
        for max_latents in [0, 9, 30, 200] {
            let p = params(max_len, max_latents);
            let lists = pack_chunks(&ids, &table, &p, 7);
            let plan = plan_chunks(&ids, &words, &table, &p, 7);
            for (list, chunk) in lists.iter().zip(&plan) {
                if list.len() > 1 {
                    let n = chunk.ids.len();
                    assert_eq!(check_single(7, n, table[n], &p), Ok(()));
                    assert!(table[n] <= max_latents);
                }
            }
        }
    }
}

#[test]
fn no_uppercase_mapping_brings_in_white_space() {
    for n in 0..=0x10ffffu32 {
        if let Some(c) = char::from_u32(n) {
            if !c.is_whitespace() {
                assert!(c.to_uppercase().count() > 0);
                assert!(c.to_uppercase().all(|u| !u.is_whitespace()), "U+{n:04X}");
            }
        }
    }
}

#[test]
fn padding_goes_by_the_words_of_the_text() {
    let samples = [
        "a", "a b c d", "a b c d e", " one  two\nthree\r\nfour ", "ßx y z w v", "끝", "x;y; z", "1 2 3 4 5 6",
    ];
    for s in samples {
        for n in 0..4 {
            let (semi, punct) = (n & 1 != 0, n & 2 != 0);
            let (plain, frames) = prepared(s, false, semi, punct);
            assert!(!plain.starts_with(char::is_whitespace));
            let short = s.split_whitespace().count() < 5;
            assert_eq!(frames == 3, short);
            let expected = if short { format!("        {plain}") } else { plain };
            assert_eq!(prepared(s, true, semi, punct), (expected, frames));
        }
    }
}

#[test]
fn a_full_stop_goes_behind_letters_and_digits() {
    for s in ["a", "끝", "끝!", "x 7", "a b c d", "a b c d e", "end;", "…", "ß"] {
        for n in 0..4 {
            let (pad, semi) = (n & 1 != 0, n & 2 != 0);
            let (plain, frames) = prepared(s, pad, semi, false);
            let expected = if plain.ends_with(char::is_alphanumeric) {
                format!("{plain}.")
            } else {
                plain
            };
            assert_eq!(prepared(s, pad, semi, true), (expected, frames));
        }
    }
}

#[test]
fn lines_are_split_each_by_itself() {
    let parts = ["", " ", "a", "a. b", "끝.", ". \t x", "  y?  z ", "u\n\nv.", "\u{3000}w! "];
    for a in parts {
        for b in parts {
            let both = split_sentences(&format!("{a}\n{b}"));
            assert_eq!(both, [split_sentences(a), split_sentences(b)].concat());
        }
    }
}

/// The fewest runs of neighbours that sentences can be cut into, each of which fits or is alone.
fn fewest(counts: &[usize], fits: &dyn Fn(usize) -> bool) -> usize {
    let mut best = vec![0];
    for end in 1..=counts.len() {
        let mut least = usize::MAX;
        for from in 0..end {
            let size = counts[from..end].iter().sum::<usize>() + (end - from - 1);
            if end - from == 1 || fits(size) {
                least = least.min(best[from] + 1);
            }
        }
        best.push(least);
    }
    best[counts.len()]
}

#[test]
fn no_other_cut_has_fewer_chunks() {
    let counts = [3, 1, 4, 1, 5, 9, 2, 6, 5, 3, 5];
    let ids: Vec<Vec<u32>> = counts.iter().map(|n| vec![7; *n]).collect();
    let table = frames(64);
    for max_len in 0..150 {
        for max_latents in [10, 40, 90] {
            let p = params(max_len, max_latents);
            let chunks = pack_chunks(&ids, &table, &p, 5);
            let fits = |n: usize| 5 + n + table[n] <= max_len && table[n] <= max_latents;
            assert_eq!(chunks.len(), fewest(&counts, &fits));
        }
    }
}
