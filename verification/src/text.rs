//! Characters and character sequences: white space, trimming, splitting, searching, numbers.
use vstd::prelude::*;

verus! {

/// Appends one character to a string. `String::push` is taken to do exactly that.
pub assume_specification[ String::push ](s: &mut String, c: char)
    ensures
        final(s)@ == old(s)@.push(c),
;

/// The Unicode `White_Space` property.
pub open spec fn white_space(c: char) -> bool {
    let n = c as u32;
    ||| 0x09 <= n <= 0x0d
    ||| n == 0x20
    ||| n == 0x85
    ||| n == 0xa0
    ||| n == 0x1680
    ||| 0x2000 <= n <= 0x200a
    ||| n == 0x2028
    ||| n == 0x2029
    ||| n == 0x202f
    ||| n == 0x205f
    ||| n == 0x3000
}

/// Whether `c` has the Unicode `White_Space` property.
pub fn is_white_space(c: char) -> (b: bool)
    ensures
        b == white_space(c),
{
    let n: u32 = c as u32;
    (0x09 <= n && n <= 0x0d) || n == 0x20 || n == 0x85 || n == 0xa0 || n == 0x1680 || (0x2000 <= n
        && n <= 0x200a) || n == 0x2028 || n == 0x2029 || n == 0x202f || n == 0x205f || n == 0x3000
}

/// The characters of a string, in order.
pub fn chars_of(s: &str) -> (cs: Vec<char>)
    ensures
        cs@ == s@,
{
    let mut cs: Vec<char> = Vec::new();
    for c in it: s.chars()
        invariant
            cs@ == it.seq().take(it.index()),
            it.seq() == s@,
    {
        cs.push(c);
    }
    cs
}

/// The string made of the given characters.
pub fn string_of(cs: &[char]) -> (s: String)
    ensures
        s@ == cs@,
{
    let mut s: String = String::new();
    let mut i: usize = 0;
    while i < cs.len()
        invariant
            i <= cs.len(),
            s@ == cs@.take(i as int),
        decreases cs.len() - i,
    {
        s.push(cs[i]);
        i = i + 1;
    }
    s
}

/// Appends the characters of `t` to `s`.
pub fn push_text(s: &mut String, t: &str)
    ensures
        final(s)@ == old(s)@ + t@,
{
    let cs: Vec<char> = chars_of(t);
    let mut i: usize = 0;
    while i < cs.len()
        invariant
            i <= cs.len(),
            cs@ == t@,
            s@ == old(s)@ + cs@.take(i as int),
        decreases cs.len() - i,
    {
        s.push(cs[i]);
        i = i + 1;
        assert(cs@.take(i as int) == cs@.take(i - 1).push(cs@[i - 1]));
    }
    assert(cs@.take(cs@.len() as int) == cs@);
}

/// `a` followed by `b`.
pub fn joined(a: &str, b: &str) -> (s: String)
    ensures
        s@ == a@ + b@,
{
    let mut s: String = String::new();
    push_text(&mut s, a);
    push_text(&mut s, b);
    assert(s@ =~= a@ + b@);
    s
}

/// A copy of `t`.
pub fn owned(t: &str) -> (s: String)
    ensures
        s@ == t@,
{
    string_of(&chars_of(t))
}

/// Whether two strings hold the same characters.
pub fn same_text(a: &str, b: &str) -> (r: bool)
    ensures
        r == (a@ == b@),
{
    let x: Vec<char> = chars_of(a);
    let y: Vec<char> = chars_of(b);
    x.len() == y.len() && matches_at(&x, &y, 0)
}

/// The decimal digits of a natural number.
pub open spec fn decimal(n: nat) -> Seq<char>
    decreases n,
{
    let last = seq![(48 + n % 10) as char];
    if n < 10 {
        last
    } else {
        decimal(n / 10) + last
    }
}

/// `n` written in decimal.
pub fn decimal_text(n: usize) -> (s: String)
    ensures
        s@ == decimal(n as nat),
    decreases n,
{
    let d: u8 = (n % 10) as u8;
    let c: char = (48 + d) as char;
    let mut s: String = if n < 10 {
        String::new()
    } else {
        decimal_text(n / 10)
    };
    s.push(c);
    s
}

/// `s` without the white space in front.
pub open spec fn trim_start(s: Seq<char>) -> Seq<char>
    decreases s.len(),
{
    if s.len() > 0 && white_space(s[0]) {
        trim_start(s.drop_first())
    } else {
        s
    }
}

/// `s` without the white space at the end.
pub open spec fn trim_end(s: Seq<char>) -> Seq<char>
    decreases s.len(),
{
    if s.len() > 0 && white_space(s.last()) {
        trim_end(s.drop_last())
    } else {
        s
    }
}

/// `s` without the white space at either end.
pub open spec fn trim(s: Seq<char>) -> Seq<char> {
    trim_end(trim_start(s))
}

/// Where the part of `cs` between `from` and `to` begins and ends once its outer white space
/// is left out.
pub fn trim_range(cs: &[char], from: usize, to: usize) -> (r: (usize, usize))
    requires
        from <= to <= cs.len(),
    ensures
        from <= r.0 <= r.1 <= to,
        cs@.subrange(r.0 as int, r.1 as int) == trim(cs@.subrange(from as int, to as int)),
{
    let mut a: usize = from;
    while a < to && is_white_space(cs[a])
        invariant
            from <= a <= to <= cs.len(),
            trim_start(cs@.subrange(from as int, to as int)) == trim_start(
                cs@.subrange(a as int, to as int),
            ),
        decreases to - a,
    {
        assert(cs@.subrange(a as int, to as int).drop_first() == cs@.subrange(a + 1, to as int));
        a = a + 1;
    }
    let mut b: usize = to;
    while a < b && is_white_space(cs[b - 1])
        invariant
            from <= a <= b <= to <= cs.len(),
            trim_end(cs@.subrange(a as int, to as int)) == trim_end(
                cs@.subrange(a as int, b as int),
            ),
        decreases b,
    {
        assert(cs@.subrange(a as int, b as int).drop_last() == cs@.subrange(a as int, b - 1));
        b = b - 1;
    }
    (a, b)
}

/// A copy of the characters between two positions.
pub fn copy_range(cs: &[char], from: usize, to: usize) -> (r: Vec<char>)
    requires
        from <= to <= cs.len(),
    ensures
        r@ == cs@.subrange(from as int, to as int),
{
    let mut r: Vec<char> = Vec::new();
    let mut i: usize = from;
    while i < to
        invariant
            from <= i <= to <= cs.len(),
            r@ == cs@.subrange(from as int, i as int),
        decreases to - i,
    {
        r.push(cs[i]);
        i = i + 1;
    }
    r
}

/// `cs` without the white space at either end.
pub fn trim_chars(cs: &[char]) -> (r: Vec<char>)
    ensures
        r@ == trim(cs@),
{
    let (a, b) = trim_range(cs, 0, cs.len());
    assert(cs@.subrange(0, cs@.len() as int) == cs@);
    copy_range(cs, a, b)
}

/// How many words, separated by white space, `s` has.
pub open spec fn word_count(s: Seq<char>) -> nat
    decreases s.len(),
{
    if s.len() == 0 {
        0
    } else {
        let starts = !white_space(s.last()) && (s.len() == 1 || white_space(s[s.len() - 2]));
        word_count(s.drop_last()) + if starts {
            1nat
        } else {
            0nat
        }
    }
}

/// The number of words in `cs`.
pub fn count_words(cs: &[char]) -> (n: usize)
    ensures
        n == word_count(cs@),
{
    let mut n: usize = 0;
    let mut i: usize = 0;
    while i < cs.len()
        invariant
            i <= cs.len(),
            n == word_count(cs@.take(i as int)),
            n <= i,
        decreases cs.len() - i,
    {
        assert(cs@.take(i + 1).drop_last() == cs@.take(i as int));
        if !is_white_space(cs[i]) && (i == 0 || is_white_space(cs[i - 1])) {
            n = n + 1;
        }
        i = i + 1;
    }
    assert(cs@.take(cs@.len() as int) == cs@);
    n
}

/// `s` cut at every character of a separator set; empty pieces are kept.
pub open spec fn fields(s: Seq<char>, sep: spec_fn(char) -> bool) -> Seq<Seq<char>>
    decreases s.len(),
{
    if s.len() == 0 {
        seq![Seq::empty()]
    } else {
        let before = fields(s.drop_last(), sep);
        if sep(s.last()) {
            before.push(Seq::empty())
        } else {
            before.drop_last().push(before.last().push(s.last()))
        }
    }
}

/// The pieces that are not empty, in order.
pub open spec fn nonempty(pieces: Seq<Seq<char>>) -> Seq<Seq<char>>
    decreases pieces.len(),
{
    if pieces.len() == 0 {
        Seq::empty()
    } else {
        let before = nonempty(pieces.drop_last());
        if pieces.last().len() == 0 {
            before
        } else {
            before.push(pieces.last())
        }
    }
}

/// Each piece trimmed.
pub open spec fn trimmed(pieces: Seq<Seq<char>>) -> Seq<Seq<char>> {
    pieces.map_values(|p: Seq<char>| trim(p))
}

/// The character sequences of a list of strings.
pub open spec fn texts(v: Seq<String>) -> Seq<Seq<char>> {
    v.map_values(|s: String| s@)
}

/// Adds a trimmed piece to those kept so far, if anything is left of it.
pub(crate) fn push_trimmed(out: &mut Vec<String>, piece: &[char], Ghost(done): Ghost<Seq<Seq<char>>>)
    requires
        texts(old(out)@) == nonempty(trimmed(done)),
    ensures
        texts(final(out)@) == nonempty(
            trimmed(done.push(piece@)),
        ),
{
    let kept: Vec<char> = trim_chars(piece);
    assert(trimmed(done.push(piece@)).drop_last() == trimmed(done));
    if kept.len() > 0 {
        let s: String = string_of(&kept);
        out.push(s);
        assert(texts(out@) =~= texts(old(out)@).push(s@));
    }
}

/// `pat` stands in `s` at position `i`.
pub open spec fn occurs_at(s: Seq<char>, pat: Seq<char>, i: int) -> bool {
    0 <= i && i + pat.len() <= s.len() && s.subrange(i, i + pat.len()) == pat
}

/// The first position, from `from` on, at which `pat` stands in `s`.
pub open spec fn find(s: Seq<char>, pat: Seq<char>, from: int) -> Option<int>
    decreases s.len() + 1 - from,
{
    if from + pat.len() > s.len() {
        None
    } else if occurs_at(s, pat, from) {
        Some(from)
    } else {
        find(s, pat, from + 1)
    }
}

/// `pat` stands somewhere in `s`.
pub open spec fn contains(s: Seq<char>, pat: Seq<char>) -> bool {
    exists|i: int| occurs_at(s, pat, i)
}

/// Whether `pat` stands in `cs` at position `i`.
fn matches_at(cs: &[char], pat: &[char], i: usize) -> (b: bool)
    requires
        i + pat.len() <= cs.len(),
    ensures
        b == occurs_at(cs@, pat@, i as int),
        i == 0 && pat.len() == cs.len() ==> b == (cs@ == pat@),
{
    proof {
        if pat@.len() == cs@.len() {
            assert(cs@.subrange(0, cs@.len() as int) =~= cs@);
        }
    }
    let mut j: usize = 0;
    while j < pat.len()
        invariant
            j <= pat.len(),
            i + pat.len() <= cs.len(),
            forall|k: int| 0 <= k < j ==> #[trigger] pat@[k] == cs@[i + k],
        decreases pat.len() - j,
    {
        if cs[i + j] != pat[j] {
            assert(cs@.subrange(i as int, i + pat@.len())[j as int] != pat@[j as int]);
            return false;
        }
        j = j + 1;
    }
    assert(cs@.subrange(i as int, i + pat@.len()) =~= pat@);
    true
}

/// Finds the first place, from `from` on, at which `pat` stands in `cs`.
pub fn find_chars(cs: &[char], pat: &[char], from: usize) -> (r: Option<usize>)
    requires
        from <= cs.len(),
    ensures
        r is Some <==> find(cs@, pat@, from as int) is Some,
        r matches Some(i) ==> find(cs@, pat@, from as int) == Some(i as int) && from <= i && i
            + pat.len() <= cs.len(),
{
    let mut i: usize = from;
    while pat.len() <= cs.len() - i
        invariant
            from <= i <= cs.len(),
            find(cs@, pat@, from as int) == find(cs@, pat@, i as int),
        decreases cs.len() - i,
    {
        if matches_at(cs, pat, i) {
            return Some(i);
        }
        assert(i < cs.len()) by {
            if i == cs.len() {
                assert(cs@.subrange(i as int, i + pat@.len()) =~= pat@);
            }
        }
        i = i + 1;
    }
    None
}

/// What `find` reports about every position.
pub proof fn lemma_find(s: Seq<char>, pat: Seq<char>, from: int)
    requires
        0 <= from,
    ensures
        find(s, pat, from) matches Some(i) ==> {
            &&& from <= i
            &&& occurs_at(s, pat, i)
            &&& forall|j: int| from <= j < i ==> !occurs_at(s, pat, j)
        },
        find(s, pat, from) is None ==> forall|j: int| from <= j ==> !occurs_at(s, pat, j),
    decreases s.len() + 1 - from,
{
    if from + pat.len() <= s.len() && !occurs_at(s, pat, from) {
        lemma_find(s, pat, from + 1);
    }
}

/// Whether `pat` stands somewhere in `cs`.
pub fn contains_chars(cs: &[char], pat: &[char]) -> (b: bool)
    ensures
        b == contains(cs@, pat@),
{
    proof {
        lemma_find(cs@, pat@, 0);
    }
    find_chars(cs, pat, 0).is_some()
}

/// `s` up to the first `stop`, or all of it.
pub open spec fn before(s: Seq<char>, stop: char) -> Seq<char>
    decreases s.len(),
{
    if s.len() == 0 || s[0] == stop {
        Seq::empty()
    } else {
        seq![s[0]] + before(s.drop_first(), stop)
    }
}

/// Where the part of `cs` between `from` and `to` has its first `stop`, or `to`.
pub fn before_char(cs: &[char], from: usize, to: usize, stop: char) -> (e: usize)
    requires
        from <= to <= cs.len(),
    ensures
        from <= e <= to,
        cs@.subrange(from as int, e as int) == before(cs@.subrange(from as int, to as int), stop),
{
    let mut e: usize = from;
    assert(cs@.subrange(from as int, from as int) + before(
        cs@.subrange(from as int, to as int),
        stop,
    ) =~= before(cs@.subrange(from as int, to as int), stop));
    while e < to && cs[e] != stop
        invariant
            from <= e <= to <= cs.len(),
            before(cs@.subrange(from as int, to as int), stop) == cs@.subrange(
                from as int,
                e as int,
            ) + before(cs@.subrange(e as int, to as int), stop),
        decreases to - e,
    {
        assert(cs@.subrange(e as int, to as int).drop_first() == cs@.subrange(e + 1, to as int));
        assert(cs@.subrange(from as int, e as int) + (seq![cs@[e as int]] + before(
            cs@.subrange(e + 1, to as int),
            stop,
        )) =~= cs@.subrange(from as int, e + 1) + before(cs@.subrange(e + 1, to as int), stop));
        e = e + 1;
    }
    assert(before(cs@.subrange(e as int, to as int), stop) =~= Seq::<char>::empty());
    e
}

/// A decimal digit.
pub open spec fn digit(c: char) -> bool {
    '0' <= c <= '9'
}

/// Why a text is no number.
#[derive(Debug, Clone, Copy, PartialEq, Eq, Structural)]
pub enum NumberError {
    Empty,
    InvalidDigit,
    TooLarge,
}

/// The text of an error.
pub open spec fn number_message(e: NumberError) -> Seq<char> {
    match e {
        NumberError::Empty => "cannot parse integer from empty string"@,
        NumberError::InvalidDigit => "invalid digit found in string"@,
        NumberError::TooLarge => "number too large to fit in target type"@,
    }
}

impl NumberError {
    /// The text of the error.
    pub fn message(self) -> (s: String)
        ensures
            s@ == number_message(self),
    {
        match self {
            NumberError::Empty => owned("cannot parse integer from empty string"),
            NumberError::InvalidDigit => owned("invalid digit found in string"),
            NumberError::TooLarge => owned("number too large to fit in target type"),
        }
    }
}

/// The number that digits denote, or what is wrong with the first character at which they are no
/// longer a number that a `usize` holds.
pub open spec fn digits_value(s: Seq<char>) -> Result<usize, NumberError>
    decreases s.len(),
{
    if s.len() == 0 {
        Ok(0)
    } else {
        match digits_value(s.drop_last()) {
            Err(e) => Err(e),
            Ok(v) => {
                let w = 10 * v + (s.last() as int - '0' as int);
                if !digit(s.last()) {
                    Err(NumberError::InvalidDigit)
                } else if w > usize::MAX {
                    Err(NumberError::TooLarge)
                } else {
                    Ok(w as usize)
                }
            },
        }
    }
}

/// `s` without a plus sign in front.
pub open spec fn without_plus(s: Seq<char>) -> Seq<char> {
    if s.len() > 0 && s[0] == '+' {
        s.drop_first()
    } else {
        s
    }
}

/// The number that `s` denotes: one or more digits, with a plus sign in front or not, for a
/// value that a `usize` holds.
pub open spec fn number(s: Seq<char>) -> Result<usize, NumberError> {
    if s.len() == 0 {
        Err(NumberError::Empty)
    } else if without_plus(s).len() == 0 {
        Err(NumberError::InvalidDigit)
    } else {
        digits_value(without_plus(s))
    }
}

/// What is wrong with leading digits is wrong with all of them.
proof fn lemma_digits_fail(s: Seq<char>, k: int)
    requires
        0 <= k <= s.len(),
        digits_value(s.take(k)) is Err,
    ensures
        digits_value(s) == digits_value(s.take(k)),
    decreases s.len(),
{
    if k == s.len() {
        assert(s.take(k) =~= s);
    } else {
        assert(s.drop_last().take(k) =~= s.take(k));
        lemma_digits_fail(s.drop_last(), k);
    }
}

/// Reads a decimal number.
pub fn parse_number(cs: &[char]) -> (r: Result<usize, NumberError>)
    ensures
        r == number(cs@),
{
    if cs.len() == 0 {
        return Err(NumberError::Empty);
    }
    let from: usize = if cs[0] == '+' {
        1
    } else {
        0
    };
    let ghost body = without_plus(cs@);
    assert(body =~= cs@.skip(from as int));
    if from == cs.len() {
        return Err(NumberError::InvalidDigit);
    }
    let mut i: usize = from;
    let mut v: usize = 0;
    assert(body.take(0) =~= Seq::empty());
    while i < cs.len()
        invariant
            from <= i <= cs.len(),
            from < cs.len(),
            body == cs@.skip(from as int),
            body == without_plus(cs@),
            digits_value(body.take(i - from)) == Ok::<usize, NumberError>(v),
        decreases cs.len() - i,
    {
        let c: char = cs[i];
        let ghost k = i + 1 - from;
        assert(body.take(k).last() == c);
        assert(body.take(k).drop_last() =~= body.take(i - from));
        if c < '0' || '9' < c {
            proof {
                lemma_digits_fail(body, k);
            }
            return Err(NumberError::InvalidDigit);
        }
        let d: usize = (c as u32 - '0' as u32) as usize;
        if v > (usize::MAX - d) / 10 {
            proof {
                lemma_digits_fail(body, k);
            }
            return Err(NumberError::TooLarge);
        }
        v = v * 10 + d;
        i = i + 1;
    }
    assert(body.take(body.len() as int) =~= body);
    Ok(v)
}

/// White space is the tabulator, the line feed, the vertical tabulator, the form feed, the
/// carriage return, the next line, and the spaces and separators of Unicode.
pub proof fn law_white_space_is_unicode(c: char)
    ensures
        white_space(c) <==> (c == '\t' || c == '\n' || c == '\u{b}' || c == '\u{c}' || c == '\r' || c
            == ' ' || c == '\u{85}' || c == '\u{a0}' || c == '\u{1680}' || ('\u{2000}' <= c && c
            <= '\u{200a}') || c == '\u{2028}' || c == '\u{2029}' || c == '\u{202f}' || c
            == '\u{205f}' || c == '\u{3000}'),
{
}

/// Trimming cuts off white space at both ends and nothing else, as far as it goes. Gives where
/// what is left begins and ends.
pub proof fn law_trimming_cuts_white_space(s: Seq<char>) -> (r: (int, int))
    ensures
        0 <= r.0 <= r.1 <= s.len(),
        trim(s) == s.subrange(r.0, r.1),
        forall|i: int| 0 <= i < r.0 ==> white_space(#[trigger] s[i]),
        forall|i: int| r.1 <= i < s.len() ==> white_space(#[trigger] s[i]),
        r.0 < r.1 ==> !white_space(s[r.0]) && !white_space(s[r.1 - 1]),
        r.0 == r.1 ==> forall|i: int| 0 <= i < s.len() ==> white_space(#[trigger] s[i]),
{
    let a = lemma_trim_start(s);
    let u = trim_start(s);
    let n = lemma_trim_end(u);
    assert(u.take(n) =~= s.subrange(a, a + n));
    assert forall|i: int| a + n <= i < s.len() implies white_space(#[trigger] s[i]) by {
        assert(white_space(u[i - a]));
    }
    assert(n > 0 ==> u[0] == s[a]);
    (a, a + n)
}

proof fn lemma_trim_start(s: Seq<char>) -> (a: int)
    ensures
        0 <= a <= s.len(),
        trim_start(s) == s.skip(a),
        forall|i: int| 0 <= i < a ==> white_space(#[trigger] s[i]),
        a < s.len() ==> !white_space(s[a]),
    decreases s.len(),
{
    if s.len() > 0 && white_space(s[0]) {
        let a = lemma_trim_start(s.drop_first());
        assert(s.drop_first().skip(a) =~= s.skip(a + 1));
        assert forall|i: int| 0 <= i < a + 1 implies white_space(#[trigger] s[i]) by {
            if i > 0 {
                assert(white_space(s.drop_first()[i - 1]));
            }
        }
        a + 1
    } else {
        assert(s.skip(0) =~= s);
        0
    }
}

proof fn lemma_trim_end(s: Seq<char>) -> (n: int)
    ensures
        0 <= n <= s.len(),
        trim_end(s) == s.take(n),
        forall|i: int| n <= i < s.len() ==> white_space(#[trigger] s[i]),
        n > 0 ==> !white_space(s[n - 1]),
    decreases s.len(),
{
    if s.len() > 0 && white_space(s.last()) {
        let n = lemma_trim_end(s.drop_last());
        assert(s.drop_last().take(n) =~= s.take(n));
        assert forall|i: int| n <= i < s.len() implies white_space(#[trigger] s[i]) by {
            if i < s.len() - 1 {
                assert(white_space(s.drop_last()[i]));
            }
        }
        n
    } else {
        assert(s.take(s.len() as int) =~= s);
        s.len() as int
    }
}

/// A word that goes on from `a` into `b`.
pub open spec fn runs_on(a: Seq<char>, b: Seq<char>) -> nat {
    if a.len() > 0 && b.len() > 0 && !white_space(a.last()) && !white_space(b[0]) {
        1
    } else {
        0
    }
}

/// The words of two parts add up, but for one that runs on from the first into the second.
pub proof fn law_words_add_up(a: Seq<char>, b: Seq<char>)
    ensures
        word_count(a + b) + runs_on(a, b) == word_count(a) + word_count(b),
    decreases b.len(),
{
    if b.len() == 0 {
        assert(a + b =~= a);
    } else {
        law_words_add_up(a, b.drop_last());
        assert((a + b).drop_last() =~= a + b.drop_last());
        if b.len() == 1 {
            assert(word_count(b.drop_last()) == 0);
        } else {
            assert((a + b)[(a + b).len() - 2] == b[b.len() - 2]);
        }
    }
}

/// One character is a word, unless it is white space; so words are what white space separates.
pub proof fn law_words_are_separated_by_white_space(a: Seq<char>, c: char, b: Seq<char>)
    ensures
        word_count(Seq::<char>::empty()) == 0,
        word_count(seq![c]) == if white_space(c) {
            0nat
        } else {
            1nat
        },
        white_space(c) ==> word_count(a + seq![c] + b) == word_count(a) + word_count(b),
        !white_space(c) && (a.len() == 0 || white_space(a.last())) ==> word_count(a + seq![c])
            == word_count(a) + 1,
        !white_space(c) && a.len() > 0 && !white_space(a.last()) ==> word_count(a + seq![c])
            == word_count(a),
{
    reveal_with_fuel(word_count, 2);
    law_words_add_up(a, seq![c]);
    law_words_add_up(a + seq![c], b);
}

/// What a decimal looks like: digits, without a leading zero but for zero itself.
pub proof fn law_decimals_are_plain(n: nat)
    ensures
        decimal(n).len() > 0,
        forall|i: int| 0 <= i < decimal(n).len() ==> '0' <= #[trigger] decimal(n)[i] <= '9',
        decimal(n)[0] == '0' <==> n == 0,
        n == 0 ==> decimal(n).len() == 1,
    decreases n,
{
    if n >= 10 {
        law_decimals_are_plain(n / 10);
    }
}

/// Appending a digit multiplies by ten and adds it: in a decimal, and in a number that is read.
pub proof fn law_digits_append(n: nat, d: nat)
    requires
        d < 10,
    ensures
        decimal(d) == seq![('0' as int + d) as char],
        n > 0 ==> decimal(10 * n + d) == decimal(n).push(('0' as int + d) as char),
{
    if n > 0 {
        assert((10 * n + d) / 10 == n);
        assert((10 * n + d) % 10 == d);
        assert(decimal(10 * n + d) =~= decimal(n).push(('0' as int + d) as char));
    }
}

/// A decimal is read back as the number that it stands for, with a plus sign in front or not.
pub proof fn law_decimals_read_back(n: nat)
    requires
        n <= usize::MAX,
    ensures
        number(decimal(n)) == Ok::<usize, NumberError>(n as usize),
        number(seq!['+'] + decimal(n)) == Ok::<usize, NumberError>(n as usize),
{
    law_decimals_are_plain(n);
    lemma_digits_of_decimal(n);
    assert('0' <= decimal(n)[0] <= '9');
    assert((seq!['+'] + decimal(n)).drop_first() =~= decimal(n));
}

proof fn lemma_digits_of_decimal(n: nat)
    requires
        n <= usize::MAX,
    ensures
        digits_value(decimal(n)) == Ok::<usize, NumberError>(n as usize),
    decreases n,
{
    reveal_with_fuel(digits_value, 2);
    let last = seq![(48 + n % 10) as char];
    if n >= 10 {
        lemma_digits_of_decimal(n / 10);
        assert(decimal(n).drop_last() =~= decimal(n / 10));
    } else {
        assert(decimal(n) =~= last);
        assert(last.drop_last() =~= Seq::empty());
    }
}

/// What is read as a number is one or more digits, with a plus sign in front or not; one more
/// digit makes it ten times as large, plus the digit, or too large.
pub proof fn law_numbers_are_digits(s: Seq<char>, c: char)
    ensures
        number(s) is Ok ==> s.len() > 0 && (s[0] == '+' ==> s.len() > 1) && forall|i: int|
            0 <= i < s.len() && !(i == 0 && s[0] == '+') ==> '0' <= #[trigger] s[i] <= '9',
        number(s) matches Ok(v) ==> number(s.push(c)) == if c < '0' || '9' < c {
            Err::<usize, NumberError>(NumberError::InvalidDigit)
        } else if 10 * v + (c as int - '0' as int) > usize::MAX {
            Err(NumberError::TooLarge)
        } else {
            Ok((10 * v + (c as int - '0' as int)) as usize)
        },
        s.len() > 0 && s != seq!['+'] && number(s) is Err ==> number(s.push(c)) == number(s),
{
    let body = without_plus(s);
    if s.len() > 0 {
        assert(without_plus(s.push(c)) =~= body.push(c));
        assert(body.push(c).drop_last() =~= body);
        if number(s) is Ok {
            lemma_ok_digits(body);
            assert forall|i: int| 0 <= i < s.len() && !(i == 0 && s[0] == '+') implies '0'
                <= #[trigger] s[i] <= '9' by {
                if s[0] == '+' {
                    assert(s[i] == body[i - 1]);
                    assert(digit(body[i - 1]));
                } else {
                    assert(digit(body[i]));
                }
            }
        }
        if body.len() == 0 {
            assert(s =~= seq!['+']);
        }
    }
}

proof fn lemma_ok_digits(s: Seq<char>)
    requires
        digits_value(s) is Ok,
    ensures
        forall|i: int| 0 <= i < s.len() ==> #[trigger] digit(s[i]),
    decreases s.len(),
{
    if s.len() > 0 {
        lemma_ok_digits(s.drop_last());
        assert forall|i: int| 0 <= i < s.len() implies #[trigger] digit(s[i]) by {
            if i < s.len() - 1 {
                assert(digit(s.drop_last()[i]));
            }
        }
    }
}

/// `before` is the part in front of the first `stop`: `stop` is not in it, and either follows it
/// or nothing does.
pub proof fn law_before_ends_at_the_first_stop(s: Seq<char>, stop: char)
    ensures
        before(s, stop).len() <= s.len(),
        before(s, stop) == s.take(before(s, stop).len() as int),
        !before(s, stop).contains(stop),
        before(s, stop).len() < s.len() ==> s[before(s, stop).len() as int] == stop,
    decreases s.len(),
{
    if s.len() > 0 && s[0] != stop {
        let rest = s.drop_first();
        law_before_ends_at_the_first_stop(rest, stop);
        let b = before(rest, stop);
        assert(before(s, stop) =~= s.take(before(s, stop).len() as int)) by {
            assert forall|i: int| 0 <= i < b.len() implies b[i] == s[i + 1] by {
                assert(b[i] == rest.take(b.len() as int)[i]);
            }
        }
        if before(s, stop).contains(stop) {
            let i = choose|i: int| 0 <= i < before(s, stop).len() && before(s, stop)[i] == stop;
            assert(b[i - 1] == stop);
        }
    }
}

/// A pattern is contained in a text exactly where the text is something, the pattern, and
/// something more.
pub proof fn law_contained_is_a_part(s: Seq<char>, a: Seq<char>, pat: Seq<char>, b: Seq<char>)
    ensures
        contains(a + pat + b, pat),
        contains(s, pat) ==> exists|i: int|
            0 <= i <= s.len() - pat.len() && s == #[trigger] s.take(i) + pat + s.skip(
                i + pat.len(),
            ),
{
    assert((a + pat + b).subrange(a.len() as int, (a.len() + pat.len()) as int) =~= pat);
    assert(occurs_at(a + pat + b, pat, a.len() as int));
    if contains(s, pat) {
        let i = choose|i: int| occurs_at(s, pat, i);
        assert(s =~= s.take(i) + s.subrange(i, i + pat.len()) + s.skip(i + pat.len()));
    }
}

/// Cutting at separators goes part by part: a separator between two texts cuts them apart, and a
/// text without one is a single piece.
pub proof fn law_fields_are_cut_apart(
    a: Seq<char>,
    c: char,
    b: Seq<char>,
    sep: spec_fn(char) -> bool,
)
    ensures
        sep(c) ==> fields(a + seq![c] + b, sep) == fields(a, sep) + fields(b, sep),
        (forall|i: int| 0 <= i < a.len() ==> !sep(#[trigger] a[i])) ==> fields(a, sep) == seq![a],
{
    if sep(c) {
        lemma_fields_add(a, c, b, sep);
    }
    if forall|i: int| 0 <= i < a.len() ==> !sep(#[trigger] a[i]) {
        lemma_one_field(a, sep);
    }
}

proof fn lemma_fields_add(a: Seq<char>, c: char, b: Seq<char>, sep: spec_fn(char) -> bool)
    requires
        sep(c),
    ensures
        fields(a + seq![c] + b, sep) == fields(a, sep) + fields(b, sep),
        fields(b, sep).len() > 0,
    decreases b.len(),
{
    let whole = a + seq![c] + b;
    if b.len() == 0 {
        assert(whole.drop_last() =~= a);
        assert(whole.last() == c);
        assert(fields(a, sep).push(Seq::empty()) =~= fields(a, sep) + seq![Seq::<char>::empty()]);
    } else {
        lemma_fields_add(a, c, b.drop_last(), sep);
        assert(whole.drop_last() =~= a + seq![c] + b.drop_last());
        let fb = fields(b.drop_last(), sep);
        let fa = fields(a, sep);
        let x = b.last();
        assert((fa + fb).drop_last() =~= fa + fb.drop_last());
        assert((fa + fb).push(Seq::empty()) =~= fa + fb.push(Seq::empty()));
        assert((fa + fb.drop_last()).push(fb.last().push(x)) =~= fa + fb.drop_last().push(
            fb.last().push(x),
        ));
    }
}

proof fn lemma_one_field(a: Seq<char>, sep: spec_fn(char) -> bool)
    requires
        forall|i: int| 0 <= i < a.len() ==> !sep(#[trigger] a[i]),
    ensures
        fields(a, sep) == seq![a],
    decreases a.len(),
{
    if a.len() == 0 {
        assert(a =~= Seq::empty());
    } else {
        assert forall|i: int| 0 <= i < a.drop_last().len() implies !sep(
            #[trigger] a.drop_last()[i],
        ) by {
            assert(!sep(a[i]));
        }
        lemma_one_field(a.drop_last(), sep);
        assert(!sep(a[a.len() - 1]));
        assert(a.drop_last().push(a.last()) =~= a);
        assert(fields(a, sep) =~= seq![a]);
    }
}

/// Dropping empty pieces keeps the others, in order.
pub proof fn law_pieces_kept_are_not_empty(a: Seq<Seq<char>>, b: Seq<Seq<char>>, p: Seq<char>)
    ensures
        nonempty(a + b) == nonempty(a) + nonempty(b),
        nonempty(seq![p]) == if p.len() == 0 {
            Seq::<Seq<char>>::empty()
        } else {
            seq![p]
        },
        nonempty(Seq::<Seq<char>>::empty()) == Seq::<Seq<char>>::empty(),
    decreases b.len(),
{
    reveal_with_fuel(nonempty, 2);
    assert(seq![p].drop_last() =~= Seq::empty());
    assert(Seq::empty().push(p) =~= seq![p]);
    if b.len() == 0 {
        assert(a + b =~= a);
        assert(nonempty(a) + nonempty(b) =~= nonempty(a));
    } else {
        assert((a + b).drop_last() =~= a + b.drop_last());
        law_pieces_kept_are_not_empty(a, b.drop_last(), p);
        assert(nonempty(a + b) =~= nonempty(a) + nonempty(b));
    }
}

/// `find` gives the first place at which a text stands in another, and none only where there is
/// none.
pub proof fn law_the_first_place_is_found(s: Seq<char>, pat: Seq<char>)
    ensures
        find(s, pat, 0) matches Some(i) ==> {
            &&& 0 <= i <= s.len() - pat.len()
            &&& s.subrange(i, i + pat.len()) == pat
            &&& forall|j: int| 0 <= j < i ==> #[trigger] s.subrange(j, j + pat.len()) != pat
        },
        find(s, pat, 0) is None ==> forall|j: int|
            0 <= j <= s.len() - pat.len() ==> #[trigger] s.subrange(j, j + pat.len()) != pat,
{
    lemma_find_from(s, pat, 0);
}

proof fn lemma_find_from(s: Seq<char>, pat: Seq<char>, from: int)
    requires
        0 <= from,
    ensures
        find(s, pat, from) matches Some(i) ==> {
            &&& from <= i <= s.len() - pat.len()
            &&& s.subrange(i, i + pat.len()) == pat
            &&& forall|j: int| from <= j < i ==> #[trigger] s.subrange(j, j + pat.len()) != pat
        },
        find(s, pat, from) is None ==> forall|j: int|
            from <= j <= s.len() - pat.len() ==> #[trigger] s.subrange(j, j + pat.len()) != pat,
    decreases s.len() + 1 - from,
{
    if from + pat.len() <= s.len() && !occurs_at(s, pat, from) {
        lemma_find_from(s, pat, from + 1);
    }
}

/// No text at all is no number, nor is a plus sign alone or any other character that is no digit;
/// behind a plus sign, a character is read as if it stood alone, but for a second plus sign.
pub proof fn law_short_texts_as_numbers(c: char)
    ensures
        number(Seq::empty()) == Err::<usize, NumberError>(NumberError::Empty),
        c < '0' || '9' < c ==> number(seq![c]) == Err::<usize, NumberError>(
            NumberError::InvalidDigit,
        ),
        '0' <= c <= '9' ==> number(seq![c]) == Ok::<usize, NumberError>(
            (c as int - '0' as int) as usize,
        ),
        number(seq!['+', c]) == number(seq![c]),
{
    reveal_with_fuel(digits_value, 2);
    assert(seq![c].drop_last() =~= Seq::empty());
    assert(seq!['+', c].drop_first() =~= seq![c]);
    assert(seq!['+'].drop_first() =~= Seq::empty());
}

/// The text of every error.
pub proof fn law_number_error_texts(e: NumberError)
    ensures
        e is Empty ==> number_message(e) == "cannot parse integer from empty string"@,
        e is InvalidDigit ==> number_message(e) == "invalid digit found in string"@,
        e is TooLarge ==> number_message(e) == "number too large to fit in target type"@,
{
}

} // verus!
