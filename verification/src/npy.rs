//! Reader for NumPy `.npy` arrays: C order, 16- and 32-bit floats, 32- and 64-bit integers.
//!
//! Floating-point elements are kept as their binary32 bit patterns.
use vstd::prelude::*;
use vstd::utf8::{decode_utf8, valid_utf8};
use crate::half::f16_to_f32;
use crate::text::{before_char, chars_of, copy_range, contains_chars, find_chars, joined, number_message, owned, parse_number, same_text, string_of, trim_range, NumberError};

verus! {

/// What stands in the way of reading an array.
#[derive(Debug)]
pub enum NpyError {
    TooShort,
    BadMagic,
    /// The header is no UTF-8, for the reason given.
    HeaderNotUtf8(String),
    NoDescr,
    NoShape,
    /// A dimension is no number, for the reason given.
    BadDim(NumberError),
    FortranOrder,
    Truncated(Dtype),
    UnsupportedDtype(String),
}

/// `NpyError` over character sequences.
pub enum NpyErrorView {
    TooShort,
    BadMagic,
    HeaderNotUtf8(Seq<char>),
    NoDescr,
    NoShape,
    BadDim(NumberError),
    FortranOrder,
    Truncated(Dtype),
    UnsupportedDtype(Seq<char>),
}

impl View for NpyError {
    type V = NpyErrorView;

    open spec fn view(&self) -> NpyErrorView {
        match *self {
            NpyError::TooShort => NpyErrorView::TooShort,
            NpyError::BadMagic => NpyErrorView::BadMagic,
            NpyError::HeaderNotUtf8(s) => NpyErrorView::HeaderNotUtf8(s@),
            NpyError::NoDescr => NpyErrorView::NoDescr,
            NpyError::NoShape => NpyErrorView::NoShape,
            NpyError::BadDim(e) => NpyErrorView::BadDim(e),
            NpyError::FortranOrder => NpyErrorView::FortranOrder,
            NpyError::Truncated(d) => NpyErrorView::Truncated(d),
            NpyError::UnsupportedDtype(s) => NpyErrorView::UnsupportedDtype(s@),
        }
    }
}

/// The text of an error.
pub open spec fn npy_message(e: NpyErrorView) -> Seq<char> {
    match e {
        NpyErrorView::TooShort => "npy too short"@,
        NpyErrorView::BadMagic => "bad npy magic"@,
        NpyErrorView::HeaderNotUtf8(_) => "npy header utf8"@,
        NpyErrorView::NoDescr => "npy descr"@,
        NpyErrorView::NoShape => "npy shape"@,
        NpyErrorView::BadDim(_) => "npy dim"@,
        NpyErrorView::FortranOrder => "fortran-order npy not supported"@,
        NpyErrorView::Truncated(Dtype::F32) => "npy f32 truncated"@,
        NpyErrorView::Truncated(Dtype::F16) => "npy f16 truncated"@,
        NpyErrorView::Truncated(Dtype::I64) => "npy i64 truncated"@,
        NpyErrorView::Truncated(Dtype::I32) => "npy i32 truncated"@,
        NpyErrorView::UnsupportedDtype(d) => "unsupported npy dtype: "@ + d,
    }
}

/// What lies behind an error, where something does.
pub open spec fn npy_cause(e: NpyErrorView) -> Option<Seq<char>> {
    match e {
        NpyErrorView::HeaderNotUtf8(cause) => Some(cause),
        NpyErrorView::BadDim(e) => Some(number_message(e)),
        _ => None,
    }
}

/// The characters of a cause, if there is one.
pub open spec fn cause_view(cause: Option<String>) -> Option<Seq<char>> {
    match cause {
        Some(s) => Some(s@),
        None => None,
    }
}

impl NpyError {
    /// What lies behind the error, where something does.
    pub fn cause(&self) -> (s: Option<String>)
        ensures
            cause_view(s) == npy_cause(self@),
    {
        match self {
            NpyError::HeaderNotUtf8(cause) => Some(owned(cause.as_str())),
            NpyError::BadDim(e) => Some(e.message()),
            _ => None,
        }
    }

    /// The text of the error.
    pub fn message(&self) -> (s: String)
        ensures
            s@ == npy_message(self@),
    {
        match self {
            NpyError::TooShort => owned("npy too short"),
            NpyError::BadMagic => owned("bad npy magic"),
            NpyError::HeaderNotUtf8(_) => owned("npy header utf8"),
            NpyError::NoDescr => owned("npy descr"),
            NpyError::NoShape => owned("npy shape"),
            NpyError::BadDim(_) => owned("npy dim"),
            NpyError::FortranOrder => owned("fortran-order npy not supported"),
            NpyError::Truncated(Dtype::F32) => owned("npy f32 truncated"),
            NpyError::Truncated(Dtype::F16) => owned("npy f16 truncated"),
            NpyError::Truncated(Dtype::I64) => owned("npy i64 truncated"),
            NpyError::Truncated(Dtype::I32) => owned("npy i32 truncated"),
            NpyError::UnsupportedDtype(d) => joined("unsupported npy dtype: ", d.as_str()),
        }
    }
}

/// Element types that can be read.
#[derive(Debug, Clone, Copy, PartialEq, Eq, Structural)]
pub enum Dtype {
    F32,
    F16,
    I64,
    I32,
}

impl Dtype {
    /// Bytes per element.
    pub open spec fn spec_width(self) -> nat {
        match self {
            Dtype::F32 => 4,
            Dtype::F16 => 2,
            Dtype::I64 => 8,
            Dtype::I32 => 4,
        }
    }

    /// Bytes per element.
    pub fn width(self) -> (w: usize)
        ensures
            w == self.spec_width(),
            self is F16 ==> w == 2,
            self is F32 || self is I32 ==> w == 4,
            self is I64 ==> w == 8,
    {
        match self {
            Dtype::F32 => 4,
            Dtype::F16 => 2,
            Dtype::I64 => 8,
            Dtype::I32 => 4,
        }
    }
}

/// The element type that a type descriptor names.
pub open spec fn dtype_of(descr: Seq<char>) -> Option<Dtype> {
    if descr == "<f4"@ || descr == "=f4"@ || descr == "|f4"@ {
        Some(Dtype::F32)
    } else if descr == "<f2"@ || descr == "=f2"@ || descr == "|f2"@ {
        Some(Dtype::F16)
    } else if descr == "<i8"@ || descr == "=i8"@ || descr == "|i8"@ {
        Some(Dtype::I64)
    } else if descr == "<i4"@ || descr == "=i4"@ {
        Some(Dtype::I32)
    } else {
        None
    }
}

/// The descriptors that name a type, type by type.
pub proof fn law_descriptors_name_types(descr: Seq<char>)
    ensures
        dtype_of(descr) == Some(Dtype::F32) <==> descr == "<f4"@ || descr == "=f4"@ || descr
            == "|f4"@,
        dtype_of(descr) == Some(Dtype::F16) <==> descr == "<f2"@ || descr == "=f2"@ || descr
            == "|f2"@,
        dtype_of(descr) == Some(Dtype::I64) <==> descr == "<i8"@ || descr == "=i8"@ || descr
            == "|i8"@,
        dtype_of(descr) == Some(Dtype::I32) <==> descr == "<i4"@ || descr == "=i4"@,
{
    reveal_strlit("<f4");
    reveal_strlit("=f4");
    reveal_strlit("|f4");
    reveal_strlit("<f2");
    reveal_strlit("=f2");
    reveal_strlit("|f2");
    reveal_strlit("<i8");
    reveal_strlit("=i8");
    reveal_strlit("|i8");
    reveal_strlit("<i4");
    reveal_strlit("=i4");
    if descr.len() == 3 {
        assert(descr =~= seq![descr[0], descr[1], descr[2]]);
    }
    assert("<f4"@[1] == 'f' && "=f4"@[1] == 'f' && "|f4"@[1] == 'f');
    assert("<f4"@[2] == '4' && "=f4"@[2] == '4' && "|f4"@[2] == '4');
    assert("<f2"@[1] == 'f' && "=f2"@[1] == 'f' && "|f2"@[1] == 'f');
    assert("<f2"@[2] == '2' && "=f2"@[2] == '2' && "|f2"@[2] == '2');
    assert("<i8"@[1] == 'i' && "=i8"@[1] == 'i' && "|i8"@[1] == 'i');
    assert("<i8"@[2] == '8' && "=i8"@[2] == '8' && "|i8"@[2] == '8');
    assert("<i4"@[1] == 'i' && "=i4"@[1] == 'i');
    assert("<i4"@[2] == '4' && "=i4"@[2] == '4');
}

/// Names the element type of a type descriptor.
pub fn read_dtype(descr: &str) -> (d: Option<Dtype>)
    ensures
        d == dtype_of(descr@),
        d == Some(Dtype::F32) <==> descr@ == "<f4"@ || descr@ == "=f4"@ || descr@ == "|f4"@,
        d == Some(Dtype::F16) <==> descr@ == "<f2"@ || descr@ == "=f2"@ || descr@ == "|f2"@,
        d == Some(Dtype::I64) <==> descr@ == "<i8"@ || descr@ == "=i8"@ || descr@ == "|i8"@,
        d == Some(Dtype::I32) <==> descr@ == "<i4"@ || descr@ == "=i4"@,
{
    proof {
        law_descriptors_name_types(descr@);
    }
    if same_text(descr, "<f4") || same_text(descr, "=f4") || same_text(descr, "|f4") {
        Some(Dtype::F32)
    } else if same_text(descr, "<f2") || same_text(descr, "=f2") || same_text(descr, "|f2") {
        Some(Dtype::F16)
    } else if same_text(descr, "<i8") || same_text(descr, "=i8") || same_text(descr, "|i8") {
        Some(Dtype::I64)
    } else if same_text(descr, "<i4") || same_text(descr, "=i4") {
        Some(Dtype::I32)
    } else {
        None
    }
}

/// What an array header says.
pub struct NpyHeader {
    pub descr: String,
    pub shape: Vec<usize>,
    pub fortran: bool,
}

/// `NpyHeader` over sequences.
pub struct HeaderView {
    pub descr: Seq<char>,
    pub shape: Seq<usize>,
    pub fortran: bool,
}

impl View for NpyHeader {
    type V = HeaderView;

    open spec fn view(&self) -> HeaderView {
        HeaderView { descr: self.descr@, shape: self.shape@, fortran: self.fortran }
    }
}

/// What follows the first `key` in the header, up to the next one.
pub open spec fn after_key(h: Seq<char>, key: Seq<char>) -> Option<Seq<char>> {
    match crate::text::find(h, key, 0) {
        None => None,
        Some(i) => {
            let rest = h.skip(i + key.len());
            match crate::text::find(rest, key, 0) {
                None => Some(rest),
                Some(j) => Some(rest.take(j)),
            }
        },
    }
}

/// `s` without the quotes in front.
pub open spec fn strip_start(s: Seq<char>) -> Seq<char>
    decreases s.len(),
{
    if s.len() > 0 && s[0] == '\'' {
        strip_start(s.drop_first())
    } else {
        s
    }
}

/// `s` without the quotes at the end.
pub open spec fn strip_end(s: Seq<char>) -> Seq<char>
    decreases s.len(),
{
    if s.len() > 0 && s.last() == '\'' {
        strip_end(s.drop_last())
    } else {
        s
    }
}

/// `s` without the quotes at either end.
pub open spec fn unquoted(s: Seq<char>) -> Seq<char> {
    strip_end(strip_start(s))
}

/// The type descriptor in a header.
pub open spec fn descr_field(h: Seq<char>) -> Option<Seq<char>> {
    match after_key(h, "'descr':"@) {
        None => None,
        Some(f) => Some(unquoted(crate::text::trim(crate::text::before(f, ',')))),
    }
}

/// The characters between the dimensions of a shape.
pub open spec fn shape_separator(c: char) -> bool {
    c == '(' || c == ',' || c == ' ' || c == ')'
}

/// The numbers that the tokens denote, or what is wrong with the first that denotes none.
pub open spec fn numbers(tokens: Seq<Seq<char>>) -> Result<Seq<usize>, NumberError>
    decreases tokens.len(),
{
    if tokens.len() == 0 {
        Ok(Seq::empty())
    } else {
        match numbers(tokens.drop_last()) {
            Err(e) => Err(e),
            Ok(a) => match crate::text::number(tokens.last()) {
                Err(e) => Err(e),
                Ok(n) => Ok(a.push(n)),
            },
        }
    }
}

/// The dimensions written in `s`.
pub open spec fn dims(s: Seq<char>) -> Result<Seq<usize>, NumberError> {
    numbers(crate::text::nonempty(crate::text::fields(s, |c: char| shape_separator(c))))
}

/// What a header text says.
pub open spec fn header(h: Seq<char>) -> Result<HeaderView, NpyErrorView> {
    match descr_field(h) {
        None => Err(NpyErrorView::NoDescr),
        Some(descr) => match after_key(h, "'shape':"@) {
            None => Err(NpyErrorView::NoShape),
            Some(f) => match dims(crate::text::before(f, ')')) {
                Err(e) => Err(NpyErrorView::BadDim(e)),
                Ok(shape) => Ok(
                    HeaderView {
                        descr,
                        shape,
                        fortran: crate::text::contains(h, "'fortran_order': True"@),
                    },
                ),
            },
        },
    }
}

/// Where, in `cs`, what follows the first `key` begins and ends.
fn find_after(cs: &[char], key: &[char]) -> (r: Option<(usize, usize)>)
    ensures
        r is Some <==> after_key(cs@, key@) is Some,
        r matches Some((a, b)) ==> a <= b <= cs.len() && after_key(cs@, key@) == Some(
            cs@.subrange(a as int, b as int),
        ),
{
    match find_chars(cs, key, 0) {
        None => None,
        Some(i) => {
            let a: usize = i + key.len();
            let rest: Vec<char> = copy_range(cs, a, cs.len());
            assert(rest@ =~= cs@.skip(a as int));
            match find_chars(&rest, key, 0) {
                None => {
                    assert(rest@ =~= cs@.subrange(a as int, cs@.len() as int));
                    Some((a, cs.len()))
                },
                Some(j) => {
                    assert(rest@.take(j as int) =~= cs@.subrange(a as int, a + j));
                    Some((a, a + j))
                },
            }
        },
    }
}

/// Where the part of `cs` between `from` and `to` begins and ends once its outer quotes are
/// left out.
fn unquote_range(cs: &[char], from: usize, to: usize) -> (r: (usize, usize))
    requires
        from <= to <= cs.len(),
    ensures
        from <= r.0 <= r.1 <= to,
        cs@.subrange(r.0 as int, r.1 as int) == unquoted(cs@.subrange(from as int, to as int)),
{
    let mut a: usize = from;
    while a < to && cs[a] == '\''
        invariant
            from <= a <= to <= cs.len(),
            strip_start(cs@.subrange(from as int, to as int)) == strip_start(
                cs@.subrange(a as int, to as int),
            ),
        decreases to - a,
    {
        assert(cs@.subrange(a as int, to as int).drop_first() == cs@.subrange(a + 1, to as int));
        a = a + 1;
    }
    let mut b: usize = to;
    while a < b && cs[b - 1] == '\''
        invariant
            from <= a <= b <= to <= cs.len(),
            strip_end(cs@.subrange(a as int, to as int)) == strip_end(
                cs@.subrange(a as int, b as int),
            ),
        decreases b,
    {
        assert(cs@.subrange(a as int, b as int).drop_last() == cs@.subrange(a as int, b - 1));
        b = b - 1;
    }
    (a, b)
}

/// Takes a token in as a number, unless something was wrong before.
fn push_number(
    sofar: &mut Result<Vec<usize>, NumberError>,
    token: &[char],
    Ghost(done): Ghost<Seq<Seq<char>>>,
)
    requires
        number_list(*old(sofar)) == numbers(crate::text::nonempty(done)),
    ensures
        number_list(*final(sofar)) == numbers(crate::text::nonempty(done.push(token@))),
{
    proof {
        assert(done.push(token@).drop_last() == done);
        let kept = crate::text::nonempty(done);
        assert(kept.push(token@).drop_last() == kept);
    }
    if token.len() > 0 {
        match sofar {
            Err(_) => {},
            Ok(v) => match parse_number(token) {
                Err(e) => {
                    *sofar = Err(e);
                },
                Ok(n) => {
                    v.push(n);
                },
            },
        }
    }
}

/// The numbers in a list, or what is wrong with it.
spec fn number_list(r: Result<Vec<usize>, NumberError>) -> Result<Seq<usize>, NumberError> {
    match r {
        Ok(v) => Ok(v@),
        Err(e) => Err(e),
    }
}

/// Reads the dimensions written in `cs`.
fn read_dims(cs: &[char]) -> (r: Result<Vec<usize>, NumberError>)
    ensures
        number_list(r) == dims(cs@),
{
    let ghost sep = |c: char| shape_separator(c);
    let ghost mut done: Seq<Seq<char>> = Seq::empty();
    let mut cur: Vec<char> = Vec::new();
    let mut out: Result<Vec<usize>, NumberError> = Ok(Vec::new());
    let mut i: usize = 0;
    while i < cs.len()
        invariant
            i <= cs.len(),
            sep == |c: char| shape_separator(c),
            crate::text::fields(cs@.take(i as int), sep) == done.push(cur@),
            number_list(out) == numbers(crate::text::nonempty(done)),
        decreases cs.len() - i,
    {
        assert(cs@.take(i + 1).drop_last() == cs@.take(i as int));
        assert(done.push(cur@).drop_last() == done);
        let c: char = cs[i];
        if c == '(' || c == ',' || c == ' ' || c == ')' {
            push_number(&mut out, &cur, Ghost(done));
            proof {
                done = done.push(cur@);
            }
            cur = Vec::new();
        } else {
            cur.push(c);
        }
        i = i + 1;
    }
    assert(cs@.take(cs@.len() as int) == cs@);
    push_number(&mut out, &cur, Ghost(done));
    out
}

/// Reads a header text.
pub fn read_header(text: &str) -> (r: Result<NpyHeader, NpyError>)
    ensures
        match r {
            Ok(h) => header(text@) == Ok::<HeaderView, NpyErrorView>(h@),
            Err(e) => header(text@) == Err::<HeaderView, NpyErrorView>(e@),
        },
{
    let cs: Vec<char> = chars_of(text);
    let descr_key: Vec<char> = chars_of("'descr':");
    let (a, b) = match find_after(&cs, &descr_key) {
        None => {
            return Err(NpyError::NoDescr);
        },
        Some(r) => r,
    };
    let e: usize = before_char(&cs, a, b, ',');
    let (ta, tb) = trim_range(&cs, a, e);
    let (qa, qb) = unquote_range(&cs, ta, tb);
    let descr: String = string_of(&copy_range(&cs, qa, qb));
    let shape_key: Vec<char> = chars_of("'shape':");
    let (sa, sb) = match find_after(&cs, &shape_key) {
        None => {
            return Err(NpyError::NoShape);
        },
        Some(r) => r,
    };
    let se: usize = before_char(&cs, sa, sb, ')');
    let shape: Vec<usize> = match read_dims(&copy_range(&cs, sa, se)) {
        Err(e) => {
            return Err(NpyError::BadDim(e));
        },
        Ok(v) => v,
    };
    let order: Vec<char> = chars_of("'fortran_order': True");
    Ok(NpyHeader { descr, shape, fortran: contains_chars(&cs, &order) })
}

/// The product of the dimensions.
pub open spec fn product(shape: Seq<usize>) -> nat
    decreases shape.len(),
{
    if shape.len() == 0 {
        1
    } else {
        product(shape.drop_last()) * shape.last() as nat
    }
}

/// How many elements are read for a shape: at least one, whatever the shape.
pub open spec fn element_count(shape: Seq<usize>) -> nat {
    if product(shape) == 0 {
        1
    } else {
        product(shape)
    }
}

/// A dimension of zero makes the product zero.
proof fn lemma_product_zero(shape: Seq<usize>, i: int)
    requires
        0 <= i < shape.len(),
        shape[i] == 0,
    ensures
        product(shape) == 0,
    decreases shape.len(),
{
    let p = product(shape.drop_last());
    if i < shape.len() - 1 {
        lemma_product_zero(shape.drop_last(), i);
        assert(0 * shape.last() as nat == 0);
    } else {
        assert(p * 0 == 0);
    }
}

/// Without a dimension of zero, leading dimensions multiply to no more than all of them.
proof fn lemma_product_grows(shape: Seq<usize>, k: int)
    requires
        0 <= k <= shape.len(),
        forall|i: int| 0 <= i < shape.len() ==> shape[i] != 0,
    ensures
        1 <= product(shape.take(k)) <= product(shape),
    decreases shape.len(),
{
    if k == shape.len() {
        assert(shape.take(k) == shape);
        if k > 0 {
            lemma_product_grows(shape.drop_last(), k - 1);
            let (p, d) = (product(shape.drop_last()), shape.last() as nat);
            assert(p * d >= 1) by (nonlinear_arith)
                requires
                    p >= 1,
                    d >= 1,
            ;
        }
    } else {
        assert(shape.drop_last().take(k) == shape.take(k));
        lemma_product_grows(shape.drop_last(), k);
        let (p, d) = (product(shape.drop_last()), shape.last() as nat);
        assert(p * d >= p) by (nonlinear_arith)
            requires
                p >= 1,
                d >= 1,
        ;
    }
}

/// The product of the dimensions, where a `usize` holds it.
pub fn checked_product(shape: &[usize]) -> (r: Option<usize>)
    ensures
        r is Some <==> product(shape@) <= usize::MAX,
        r matches Some(n) ==> n == product(shape@),
{
    let mut i: usize = 0;
    while i < shape.len()
        invariant
            i <= shape.len(),
            forall|k: int| 0 <= k < i ==> shape@[k] != 0,
        decreases shape.len() - i,
    {
        if shape[i] == 0 {
            proof {
                lemma_product_zero(shape@, i as int);
            }
            return Some(0);
        }
        i = i + 1;
    }
    let mut n: usize = 1;
    i = 0;
    while i < shape.len()
        invariant
            i <= shape.len(),
            n == product(shape@.take(i as int)),
            forall|k: int| 0 <= k < shape.len() ==> shape@[k] != 0,
        decreases shape.len() - i,
    {
        proof {
            assert(shape@.take(i + 1).drop_last() == shape@.take(i as int));
            lemma_product_grows(shape@, i + 1);
        }
        match n.checked_mul(shape[i]) {
            None => {
                return None;
            },
            Some(m) => {
                n = m;
            },
        }
        i = i + 1;
    }
    assert(shape@.take(shape@.len() as int) == shape@);
    Some(n)
}

/// The number of elements for a shape, where a `usize` holds it.
pub fn count_elements(shape: &[usize]) -> (r: Option<usize>)
    ensures
        r is Some <==> element_count(shape@) <= usize::MAX,
        r matches Some(n) ==> n == element_count(shape@),
        r matches Some(n) ==> n >= 1 && (product(shape@) >= 1 ==> n == product(shape@)) && (product(
            shape@,
        ) == 0 ==> n == 1),
{
    match checked_product(shape) {
        Some(0) => Some(1),
        other => other,
    }
}

/// An array: its elements in C order, and its shape. Floating-point elements are binary32 bit
/// patterns; integers are widened to 64 bits.
#[derive(Debug)]
pub enum NpyArray {
    F32(Vec<u32>, Vec<usize>),
    I64(Vec<i64>, Vec<usize>),
}

/// `NpyArray` over sequences.
pub enum NpyView {
    F32(Seq<u32>, Seq<usize>),
    I64(Seq<i64>, Seq<usize>),
}

impl View for NpyArray {
    type V = NpyView;

    open spec fn view(&self) -> NpyView {
        match *self {
            NpyArray::F32(v, s) => NpyView::F32(v@, s@),
            NpyArray::I64(v, s) => NpyView::I64(v@, s@),
        }
    }
}

/// The unsigned number in `k` bytes from `i` on, least significant byte first.
pub open spec fn little_endian(b: Seq<u8>, i: int, k: nat) -> nat
    decreases k,
{
    if k == 0 {
        0
    } else {
        b[i] as nat + 256 * little_endian(b, i + 1, (k - 1) as nat)
    }
}

/// An unsigned 32-bit number read as two's complement.
pub open spec fn signed_32(v: nat) -> i64 {
    if v < 0x8000_0000 {
        v as i64
    } else {
        (v - 0x1_0000_0000) as i64
    }
}

/// An unsigned 64-bit number read as two's complement.
pub open spec fn signed_64(v: nat) -> i64 {
    if v < 0x8000_0000_0000_0000 {
        v as i64
    } else {
        (v - 0x1_0000_0000_0000_0000) as i64
    }
}

/// The first `n` elements of the data, which starts at `at`, of an element type.
pub open spec fn elements(b: Seq<u8>, at: int, n: nat, d: Dtype, shape: Seq<usize>) -> NpyView {
    match d {
        Dtype::F32 => NpyView::F32(
            Seq::new(n, |i: int| little_endian(b, at + 4 * i, 4) as u32),
            shape,
        ),
        Dtype::F16 => NpyView::F32(
            Seq::new(n, |i: int| crate::half::widened(little_endian(b, at + 2 * i, 2) as u16)),
            shape,
        ),
        Dtype::I64 => NpyView::I64(
            Seq::new(n, |i: int| signed_64(little_endian(b, at + 8 * i, 8))),
            shape,
        ),
        Dtype::I32 => NpyView::I64(
            Seq::new(n, |i: int| signed_32(little_endian(b, at + 4 * i, 4))),
            shape,
        ),
    }
}

/// Reads two bytes, least significant first.
pub fn read_16(b: &[u8], i: usize) -> (v: u16)
    requires
        i + 2 <= b.len(),
    ensures
        v == little_endian(b@, i as int, 2),
        v == b@[i as int] + 0x100 * b@[i + 1],
{
    proof {
        reveal_with_fuel(little_endian, 3);
    }
    b[i] as u16 + 256 * (b[i + 1] as u16)
}

/// Reads four bytes, least significant first.
pub fn read_32(b: &[u8], i: usize) -> (v: u32)
    requires
        i + 4 <= b.len(),
    ensures
        v == little_endian(b@, i as int, 4),
        v == b@[i as int] + 0x100 * b@[i + 1] + 0x1_0000 * b@[i + 2] + 0x100_0000 * b@[i + 3],
{
    proof {
        reveal_with_fuel(little_endian, 5);
    }
    b[i] as u32 + 256 * (b[i + 1] as u32) + 0x1_0000 * (b[i + 2] as u32) + 0x100_0000 * (b[i
        + 3] as u32)
}

/// Reads eight bytes, least significant first.
pub fn read_64(b: &[u8], i: usize) -> (v: u64)
    requires
        i + 8 <= b.len(),
    ensures
        v == little_endian(b@, i as int, 8),
        v == b@[i as int] + 0x100 * b@[i + 1] + 0x1_0000 * b@[i + 2] + 0x100_0000 * b@[i + 3]
            + 0x1_0000_0000 * b@[i + 4] + 0x100_0000_0000 * b@[i + 5] + 0x1_0000_0000_0000 * b@[i
            + 6] + 0x100_0000_0000_0000 * b@[i + 7],
{
    let low: u32 = read_32(b, i);
    let high: u32 = read_32(b, i + 4);
    proof {
        reveal_with_fuel(little_endian, 9);
    }
    low as u64 + 0x1_0000_0000 * (high as u64)
}

/// An unsigned 32-bit number as two's complement.
fn as_signed_32(v: u32) -> (r: i64)
    ensures
        r == signed_32(v as nat),
        v < 0x8000_0000 ==> r == v,
        v >= 0x8000_0000 ==> r == v - 0x1_0000_0000,
{
    if v < 0x8000_0000 {
        v as i64
    } else {
        v as i64 - 0x1_0000_0000
    }
}

/// An unsigned 64-bit number as two's complement.
pub(crate) fn as_signed_64(v: u64) -> (r: i64)
    ensures
        r == signed_64(v as nat),
        v < 0x8000_0000_0000_0000 ==> r == v,
        v >= 0x8000_0000_0000_0000 ==> r == v - 0x1_0000_0000_0000_0000,
{
    if v < 0x8000_0000_0000_0000 {
        v as i64
    } else {
        -((u64::MAX - v) as i64) - 1
    }
}

/// Reads `n` elements from `at` on.
pub fn read_elements(b: &[u8], at: usize, n: usize, d: Dtype, shape: Vec<usize>) -> (r: NpyArray)
    requires
        at + n * d.spec_width() <= b.len(),
    ensures
        r@ == elements(b@, at as int, n as nat, d, shape@),
{
    let w: usize = d.width();
    let mut floats: Vec<u32> = Vec::new();
    let mut ints: Vec<i64> = Vec::new();
    let mut i: usize = 0;
    let mut pos: usize = at;
    let ghost all = elements(b@, at as int, n as nat, d, shape@);
    while i < n
        invariant
            i <= n,
            w == d.spec_width(),
            pos == at + i * w,
            at + n * w <= b.len(),
            all == elements(b@, at as int, n as nat, d, shape@),
            match all {
                NpyView::F32(v, _) => floats@ == v.take(i as int) && v.len() == n,
                NpyView::I64(v, _) => ints@ == v.take(i as int) && v.len() == n,
            },
        decreases n - i,
    {
        assert(i * w + w <= n * w) by (nonlinear_arith)
            requires
                i + 1 <= n,
        ;
        assert((i + 1) * w == i * w + w) by (nonlinear_arith);
        match d {
            Dtype::F32 => {
                floats.push(read_32(b, pos));
            },
            Dtype::F16 => {
                floats.push(f16_to_f32(read_16(b, pos)));
            },
            Dtype::I64 => {
                ints.push(as_signed_64(read_64(b, pos)));
            },
            Dtype::I32 => {
                ints.push(as_signed_32(read_32(b, pos)));
            },
        }
        pos = pos + w;
        i = i + 1;
    }
    proof {
        match all {
            NpyView::F32(v, _) => {
                assert(v.take(n as int) =~= v);
            },
            NpyView::I64(v, _) => {
                assert(v.take(n as int) =~= v);
            },
        }
    }
    match d {
        Dtype::F32 | Dtype::F16 => NpyArray::F32(floats, shape),
        Dtype::I64 | Dtype::I32 => NpyArray::I64(ints, shape),
    }
}

/// The bytes that every `.npy` file begins with.
pub open spec fn has_magic(b: Seq<u8>) -> bool {
    &&& b.len() >= 6
    &&& b[0] == 0x93
    &&& b[1] == 0x4e
    &&& b[2] == 0x55
    &&& b[3] == 0x4d
    &&& b[4] == 0x50
    &&& b[5] == 0x59
}

/// The header length that a file states.
pub open spec fn header_len(b: Seq<u8>) -> nat {
    little_endian(b, 8, 2)
}

/// Where the array data begins.
pub open spec fn data_start(b: Seq<u8>) -> int {
    10 + header_len(b) as int
}

/// A file that gets as far as its header holds all of it.
pub open spec fn header_fits(b: Seq<u8>) -> bool {
    b.len() > 10 && has_magic(b) ==> data_start(b) <= b.len()
}

/// The header of a file that holds all of it.
pub open spec fn header_in(b: Seq<u8>) -> Result<HeaderView, NpyErrorView> {
    let h = b.subrange(10, data_start(b));
    if valid_utf8(h) {
        header(decode_utf8(h))
    } else {
        Err(NpyErrorView::HeaderNotUtf8(utf8_complaint(h)))
    }
}

/// The array in a file.
pub open spec fn npy(b: Seq<u8>) -> Result<NpyView, NpyErrorView> {
    if b.len() <= 10 {
        Err(NpyErrorView::TooShort)
    } else if !has_magic(b) {
        Err(NpyErrorView::BadMagic)
    } else {
        match header_in(b) {
            Err(e) => Err(e),
            Ok(h) => if h.fortran && h.shape.len() > 1 {
                Err(NpyErrorView::FortranOrder)
            } else {
                match dtype_of(h.descr) {
                    None => Err(NpyErrorView::UnsupportedDtype(h.descr)),
                    Some(d) => if b.len() - data_start(b) < element_count(h.shape)
                        * d.spec_width() {
                        Err(NpyErrorView::Truncated(d))
                    } else {
                        Ok(elements(b, data_start(b), element_count(h.shape), d, h.shape))
                    },
                }
            },
        }
    }
}

/// An array that is read has at least one element, even where its shape says none.
pub proof fn law_arrays_hold_an_element(b: Seq<u8>)
    ensures
        match npy(b) {
            Ok(NpyView::F32(v, _)) => v.len() >= 1,
            Ok(NpyView::I64(v, _)) => v.len() >= 1,
            Err(_) => true,
        },
{
}

/// The text of the error that `std::str::from_utf8` gives for bytes that are no UTF-8.
pub uninterp spec fn utf8_complaint(bytes: Seq<u8>) -> Seq<char>;

/// Decodes UTF-8 with `std::str::from_utf8`. It is taken to accept exactly the valid encodings and
/// to give the characters that they encode; the text of its error is taken to depend on the bytes
/// alone.
#[verifier::external_body]
fn utf8_text(b: &[u8]) -> (r: Result<&str, String>)
    ensures
        match r {
            Ok(s) => valid_utf8(b@) && s@ == decode_utf8(b@),
            Err(text) => !valid_utf8(b@) && text@ == utf8_complaint(b@),
        },
{
    match std::str::from_utf8(b) {
        Ok(s) => Ok(s),
        Err(e) => Err(e.to_string()),
    }
}

/// A file begins with `\x93NUMPY`.
pub proof fn law_magic_is_six_bytes(b: Seq<u8>)
    ensures
        has_magic(b) <==> b.len() >= 6 && b.take(6) == seq![
            0x93u8,
            0x4eu8,
            0x55u8,
            0x4du8,
            0x50u8,
            0x59u8,
        ],
{
    let magic = seq![0x93u8, 0x4eu8, 0x55u8, 0x4du8, 0x50u8, 0x59u8];
    if b.len() >= 6 {
        if has_magic(b) {
            assert(b.take(6) =~= magic);
        }
        if b.take(6) == magic {
            assert(b.take(6)[0] == b[0] && b.take(6)[1] == b[1] && b.take(6)[2] == b[2] && b.take(
                6,
            )[3] == b[3] && b.take(6)[4] == b[4] && b.take(6)[5] == b[5]);
        }
    }
}

/// Whether the file begins with the `.npy` magic bytes.
pub fn check_magic(b: &[u8]) -> (r: bool)
    ensures
        r == has_magic(b@),
        r <==> b@.len() >= 6 && b@.take(6) == seq![0x93u8, 0x4eu8, 0x55u8, 0x4du8, 0x50u8, 0x59u8],
{
    proof {
        law_magic_is_six_bytes(b@);
    }
    b.len() >= 6 && b[0] == 0x93 && b[1] == 0x4e && b[2] == 0x55 && b[3] == 0x4d && b[4] == 0x50
        && b[5] == 0x59
}

/// Whether a file that gets as far as its header holds all of it.
pub fn check_header_fits(b: &[u8]) -> (r: bool)
    ensures
        r == header_fits(b@),
        r <==> (b@.len() > 10 && b@.take(6) == seq![0x93u8, 0x4eu8, 0x55u8, 0x4du8, 0x50u8, 0x59u8]
            ==> 10 + b@[8] + 0x100 * b@[9] <= b@.len()),
{
    proof {
        law_magic_is_six_bytes(b@);
        reveal_with_fuel(little_endian, 3);
    }
    !(b.len() > 10 && check_magic(b)) || read_16(b, 8) as usize <= b.len() - 10
}

/// Reads the header of a file that holds all of it.
pub fn read_header_in(b: &[u8]) -> (r: Result<NpyHeader, NpyError>)
    requires
        10 <= b.len(),
        data_start(b@) <= b.len(),
    ensures
        match r {
            Ok(h) => header_in(b@) == Ok::<HeaderView, NpyErrorView>(h@),
            Err(e) => header_in(b@) == Err::<HeaderView, NpyErrorView>(e@),
        },
{
    let end: usize = 10 + read_16(b, 8) as usize;
    match utf8_text(vstd::slice::slice_subrange(b, 10, end)) {
        Err(cause) => Err(NpyError::HeaderNotUtf8(cause)),
        Ok(text) => read_header(text),
    }
}

/// Reads an array.
pub fn parse_npy(bytes: &[u8]) -> (r: Result<NpyArray, NpyError>)
    requires
        header_fits(bytes@),
    ensures
        match r {
            Ok(a) => npy(bytes@) == Ok::<NpyView, NpyErrorView>(a@),
            Err(e) => npy(bytes@) == Err::<NpyView, NpyErrorView>(e@),
        },
{
    if bytes.len() <= 10 {
        return Err(NpyError::TooShort);
    }
    if !check_magic(bytes) {
        return Err(NpyError::BadMagic);
    }
    let header: NpyHeader = match read_header_in(bytes) {
        Err(e) => {
            return Err(e);
        },
        Ok(h) => h,
    };
    if header.fortran && header.shape.len() > 1 {
        return Err(NpyError::FortranOrder);
    }
    let d: Dtype = match read_dtype(header.descr.as_str()) {
        None => {
            return Err(NpyError::UnsupportedDtype(header.descr));
        },
        Some(d) => d,
    };
    let start: usize = 10 + read_16(bytes, 8) as usize;
    let n: usize = match count_elements(&header.shape) {
        None => {
            assert(element_count(header.shape@) * d.spec_width() > usize::MAX) by (nonlinear_arith)
                requires
                    element_count(header.shape@) > usize::MAX,
                    d.spec_width() >= 1,
            ;
            return Err(NpyError::Truncated(d));
        },
        Some(n) => n,
    };
    let size: usize = match n.checked_mul(d.width()) {
        None => {
            return Err(NpyError::Truncated(d));
        },
        Some(size) => size,
    };
    if bytes.len() - start < size {
        return Err(NpyError::Truncated(d));
    }
    Ok(read_elements(bytes, start, n, d, header.shape))
}

/// The product of no dimensions is one, and every further dimension multiplies it.
pub proof fn law_products_multiply(shape: Seq<usize>, d: usize)
    ensures
        product(Seq::empty()) == 1,
        product(shape.push(d)) == product(shape) * d,
{
    assert(shape.push(d).drop_last() =~= shape);
}

/// What follows a key is what stands between its first place and its second, or the end; there is
/// nothing only where the key stands nowhere.
pub proof fn law_a_key_is_looked_up(a: Seq<char>, key: Seq<char>, b: Seq<char>)
    requires
        key.len() > 0,
        forall|j: int|
            0 <= j < a.len() ==> #[trigger] (a + key + b).subrange(j, j + key.len()) != key,
    ensures
        after_key(a + key + b, key) is Some,
        (forall|j: int|
            0 <= j <= b.len() - key.len() ==> #[trigger] b.subrange(j, j + key.len()) != key)
            ==> after_key(a + key + b, key) == Some(b),
        forall|j: int|
            (0 <= j <= b.len() - key.len() && #[trigger] b.subrange(j, j + key.len()) == key && (
            forall|i: int| 0 <= i < j ==> #[trigger] b.subrange(i, i + key.len()) != key))
                ==> after_key(a + key + b, key) == Some(b.take(j)),
{
    let h = a + key + b;
    let n = a.len() as int;
    crate::text::law_the_first_place_is_found(h, key);
    assert(h.subrange(n, n + key.len()) =~= key);
    let i = crate::text::find(h, key, 0)->Some_0;
    assert(crate::text::find(h, key, 0) is Some);
    if i < n {
        assert(h.subrange(i, i + key.len()) != key);
    }
    if i > n {
        assert(h.subrange(n, n + key.len()) != key);
    }
    assert(h.skip(n + key.len()) =~= b);
    crate::text::law_the_first_place_is_found(b, key);
}

/// A header lacks a field exactly where the key of the field stands nowhere in it, and says that
/// the array is in Fortran order exactly where `'fortran_order': True` stands in it.
pub proof fn law_header_fields_are_looked_for(h: Seq<char>)
    ensures
        header(h) == Err::<HeaderView, NpyErrorView>(NpyErrorView::NoDescr) <==> forall|j: int|
            0 <= j <= h.len() - 8 ==> #[trigger] h.subrange(j, j + 8) != "'descr':"@,
        header(h) == Err::<HeaderView, NpyErrorView>(NpyErrorView::NoShape) ==> forall|j: int|
            0 <= j <= h.len() - 8 ==> #[trigger] h.subrange(j, j + 8) != "'shape':"@,
        header(h) is Ok ==> exists|j: int|
            0 <= j <= h.len() - 8 && #[trigger] h.subrange(j, j + 8) == "'shape':"@,
        header(h) matches Ok(v) ==> (v.fortran <==> exists|j: int|
            0 <= j <= h.len() - 21 && #[trigger] h.subrange(j, j + 21)
                == "'fortran_order': True"@),
        ({
            let descr = after_key(h, "'descr':"@);
            let shape = after_key(h, "'shape':"@);
            &&& header(h) matches Ok(v) ==> {
                &&& descr matches Some(f) && v.descr == unquoted(
                    crate::text::trim(crate::text::before(f, ',')),
                )
                &&& shape matches Some(f) && dims(crate::text::before(f, ')')) == Ok::<
                    Seq<usize>,
                    NumberError,
                >(v.shape)
            }
            &&& header(h) is Ok <==> descr is Some && shape is Some && dims(
                crate::text::before(shape->Some_0, ')'),
            ) is Ok
            &&& header(h) == Err::<HeaderView, NpyErrorView>(NpyErrorView::NoShape) <==> descr
                is Some && shape is None
            &&& descr is Some && shape is Some ==> (dims(crate::text::before(shape->Some_0, ')'))
                matches Err(e) ==> header(h) == Err::<HeaderView, NpyErrorView>(
                NpyErrorView::BadDim(e),
            ))
        }),
{
    reveal_strlit("'descr':");
    reveal_strlit("'shape':");
    reveal_strlit("'fortran_order': True");
    assert("'descr':"@.len() == 8 && "'shape':"@.len() == 8);
    let order = "'fortran_order': True"@;
    assert(order.len() == 21);
    crate::text::law_the_first_place_is_found(h, "'descr':"@);
    crate::text::law_the_first_place_is_found(h, "'shape':"@);
    if crate::text::contains(h, order) {
        let i = choose|i: int| crate::text::occurs_at(h, order, i);
        assert(h.subrange(i, i + 21) == order);
    }
    assert forall|j: int| 0 <= j <= h.len() - 21 && #[trigger] h.subrange(j, j + 21)
        == order implies crate::text::contains(h, order) by {
        assert(crate::text::occurs_at(h, order, j));
    }
}

proof fn lemma_before_stop(x: Seq<char>, stop: char, rest: Seq<char>)
    requires
        !x.contains(stop),
    ensures
        crate::text::before(x + seq![stop] + rest, stop) == x,
{
    let s = x + seq![stop] + rest;
    crate::text::law_before_ends_at_the_first_stop(s, stop);
    let b = crate::text::before(s, stop);
    let n = b.len() as int;
    assert(s[x.len() as int] == stop);
    if n > x.len() {
        assert(b[x.len() as int] == s.take(n)[x.len() as int]);
        assert(b.contains(stop));
    }
    if n < x.len() {
        assert(s[n] == x[n]);
        assert(x.contains(stop));
    }
    assert(b =~= x);
}

proof fn lemma_trim_between(w: Seq<char>, x: Seq<char>, v: Seq<char>)
    requires
        forall|i: int| 0 <= i < w.len() ==> crate::text::white_space(#[trigger] w[i]),
        forall|i: int| 0 <= i < v.len() ==> crate::text::white_space(#[trigger] v[i]),
        x.len() > 0,
        !crate::text::white_space(x[0]),
        !crate::text::white_space(x.last()),
    ensures
        crate::text::trim(w + x + v) == x,
{
    let s = w + x + v;
    let (a, b) = crate::text::law_trimming_cuts_white_space(s);
    let m = w.len() as int;
    let n = (w.len() + x.len()) as int;
    assert(s[m] == x[0] && s[n - 1] == x.last());
    if a < m && a < b {
        assert(s[a] == w[a]);
    }
    if b > n && a < b {
        assert(s[b - 1] == v[b - 1 - n]);
    }
    assert(s.subrange(m, n) =~= x);
}

proof fn lemma_unquoted(q: Seq<char>, x: Seq<char>, p: Seq<char>)
    requires
        forall|i: int| 0 <= i < q.len() ==> #[trigger] q[i] == '\'',
        forall|i: int| 0 <= i < p.len() ==> #[trigger] p[i] == '\'',
        x.len() > 0,
        x[0] != '\'',
        x.last() != '\'',
    ensures
        unquoted(q + x + p) == x,
    decreases q.len() + p.len(),
{
    let s = q + x + p;
    if q.len() > 0 {
        assert(s[0] == q[0]);
        assert(s.drop_first() =~= q.drop_first() + x + p);
        lemma_unquoted(q.drop_first(), x, p);
    } else {
        assert(s[0] == x[0]);
        assert(strip_start(s) == s);
        if p.len() > 0 {
            assert(s.last() == p.last());
            assert(s.drop_last() =~= q + x + p.drop_last());
            lemma_unquoted(q, x, p.drop_last());
            assert((q + x + p.drop_last())[0] == x[0]);
        } else {
            assert(s =~= x);
        }
    }
}

/// Quotes are cut off at both ends, and nowhere else; of quotes alone nothing is left.
pub proof fn law_quotes_are_cut_off(q: Seq<char>, x: Seq<char>, p: Seq<char>)
    requires
        forall|i: int| 0 <= i < q.len() ==> #[trigger] q[i] == '\'',
        forall|i: int| 0 <= i < p.len() ==> #[trigger] p[i] == '\'',
        x.len() > 0 ==> x[0] != '\'' && x.last() != '\'',
    ensures
        unquoted(q + x + p) == x,
    decreases q.len() + p.len(),
{
    if x.len() > 0 {
        lemma_unquoted(q, x, p);
    } else {
        let s = q + x + p;
        if q.len() > 0 {
            assert(s[0] == q[0]);
            assert(s.drop_first() =~= q.drop_first() + x + p);
            law_quotes_are_cut_off(q.drop_first(), x, p);
        } else if p.len() > 0 {
            assert(s[0] == p[0]);
            assert(s.drop_first() =~= q + x + p.drop_first());
            law_quotes_are_cut_off(q, x, p.drop_first());
        } else {
            assert(s =~= x);
        }
    }
}

/// The type descriptor is what stands behind `'descr':`, up to a comma, without the white space
/// and the quotes around it.
pub proof fn law_descriptor_is_read_back(
    a: Seq<char>,
    w: Seq<char>,
    q: Seq<char>,
    d: Seq<char>,
    p: Seq<char>,
    v: Seq<char>,
    rest: Seq<char>,
)
    requires
        ({
            let b = w + q + d + p + v + seq![','] + rest;
            &&& forall|j: int|
                0 <= j < a.len() ==> #[trigger] (a + "'descr':"@ + b).subrange(j, j + 8)
                    != "'descr':"@
            &&& forall|j: int|
                0 <= j <= b.len() - 8 ==> #[trigger] b.subrange(j, j + 8) != "'descr':"@
        }),
        forall|i: int| 0 <= i < w.len() ==> crate::text::white_space(#[trigger] w[i]),
        forall|i: int| 0 <= i < v.len() ==> crate::text::white_space(#[trigger] v[i]),
        forall|i: int| 0 <= i < q.len() ==> #[trigger] q[i] == '\'',
        forall|i: int| 0 <= i < p.len() ==> #[trigger] p[i] == '\'',
        d.len() > 0,
        !d.contains(','),
        d[0] != '\'',
        d.last() != '\'',
        !crate::text::white_space(d[0]),
        !crate::text::white_space(d.last()),
    ensures
        ({
            let b = w + q + d + p + v + seq![','] + rest;
            &&& descr_field(a + "'descr':"@ + b) == Some(d)
            &&& header(a + "'descr':"@ + b) matches Ok(h) ==> h.descr == d
        }),
{
    reveal_strlit("'descr':");
    let key = "'descr':"@;
    assert(key.len() == 8);
    let b = w + q + d + p + v + seq![','] + rest;
    law_a_key_is_looked_up(a, key, b);
    let x = q + d + p;
    let y = w + x + v;
    assert(b =~= y + seq![','] + rest);
    assert forall|i: int| 0 <= i < y.len() implies y[i] != ',' by {
        if i < w.len() {
            assert(crate::text::white_space(w[i]));
        } else if i < w.len() + q.len() {
            assert(y[i] == q[i - w.len()]);
        } else if i < w.len() + q.len() + d.len() {
            assert(y[i] == d[i - w.len() - q.len()]);
        } else if i < w.len() + x.len() {
            assert(y[i] == p[i - w.len() - q.len() - d.len()]);
        } else {
            assert(y[i] == v[i - w.len() - x.len()]);
        }
    }
    lemma_before_stop(y, ',', rest);
    assert(q.len() == 0 ==> x[0] == d[0]);
    assert(q.len() > 0 ==> x[0] == q[0]);
    assert(p.len() == 0 ==> x.last() == d.last());
    assert(p.len() > 0 ==> x.last() == p.last());
    lemma_trim_between(w, x, v);
    lemma_unquoted(q, d, p);
}

/// The shape is read from what stands behind `'shape':`, up to a closing bracket.
pub proof fn law_shape_is_read_back(a: Seq<char>, list: Seq<char>, rest: Seq<char>)
    requires
        ({
            let b = list + seq![')'] + rest;
            &&& forall|j: int|
                0 <= j < a.len() ==> #[trigger] (a + "'shape':"@ + b).subrange(j, j + 8)
                    != "'shape':"@
            &&& forall|j: int|
                0 <= j <= b.len() - 8 ==> #[trigger] b.subrange(j, j + 8) != "'shape':"@
        }),
        !list.contains(')'),
    ensures
        ({
            let h = a + "'shape':"@ + (list + seq![')'] + rest);
            &&& header(h) matches Ok(v) ==> dims(list) == Ok::<Seq<usize>, NumberError>(v.shape)
            &&& header(h) matches Err(NpyErrorView::BadDim(e)) ==> dims(list) == Err::<
                Seq<usize>,
                NumberError,
            >(e)
            &&& !(header(h) matches Err(NpyErrorView::NoShape))
        }),
{
    reveal_strlit("'shape':");
    let key = "'shape':"@;
    assert(key.len() == 8);
    let b = list + seq![')'] + rest;
    law_a_key_is_looked_up(a, key, b);
    lemma_before_stop(list, ')', rest);
}

proof fn lemma_numbers_add(x: Seq<Seq<char>>, y: Seq<Seq<char>>)
    ensures
        numbers(x) matches Err(e) ==> numbers(x + y) == Err::<Seq<usize>, NumberError>(e),
        numbers(x) matches Ok(m) ==> match numbers(y) {
            Ok(n) => numbers(x + y) == Ok::<Seq<usize>, NumberError>(m + n),
            Err(e) => numbers(x + y) == Err::<Seq<usize>, NumberError>(e),
        },
    decreases y.len(),
{
    if y.len() == 0 {
        assert(x + y =~= x);
        if numbers(x) is Ok {
            assert(numbers(x)->Ok_0 + Seq::<usize>::empty() =~= numbers(x)->Ok_0);
        }
    } else {
        assert((x + y).drop_last() =~= x + y.drop_last());
        lemma_numbers_add(x, y.drop_last());
        if numbers(x) is Ok && numbers(y) is Ok {
            let m = numbers(x)->Ok_0;
            let n = numbers(y.drop_last())->Ok_0;
            let k = crate::text::number(y.last())->Ok_0;
            assert((m + n).push(k) =~= m + n.push(k));
        }
    }
}

/// Dimensions are what brackets, commas and spaces separate: cut at one of them, a list has the
/// dimensions of the one part and then those of the other; and a list without any of them is one
/// number, or nothing.
pub proof fn law_dimensions_are_separated(x: Seq<char>, c: char, y: Seq<char>)
    requires
        c == '(' || c == ',' || c == ' ' || c == ')',
    ensures
        dims(x) matches Err(e) ==> dims(x + seq![c] + y) == Err::<Seq<usize>, NumberError>(e),
        dims(x) matches Ok(m) ==> match dims(y) {
            Ok(n) => dims(x + seq![c] + y) == Ok::<Seq<usize>, NumberError>(m + n),
            Err(e) => dims(x + seq![c] + y) == Err::<Seq<usize>, NumberError>(e),
        },
        dims(Seq::empty()) == Ok::<Seq<usize>, NumberError>(Seq::empty()),
        x.len() > 0 && !x.contains('(') && !x.contains(',') && !x.contains(' ') && !x.contains(')')
            ==> match crate::text::number(x) {
            Ok(n) => dims(x) == Ok::<Seq<usize>, NumberError>(seq![n]),
            Err(e) => dims(x) == Err::<Seq<usize>, NumberError>(e),
        },
{
    let sep = |c: char| shape_separator(c);
    let (fx, fy) = (crate::text::fields(x, sep), crate::text::fields(y, sep));
    crate::text::law_fields_are_cut_apart(x, c, y, sep);
    crate::text::law_pieces_kept_are_not_empty(fx, fy, x);
    lemma_numbers_add(crate::text::nonempty(fx), crate::text::nonempty(fy));
    let none = Seq::<char>::empty();
    crate::text::law_fields_are_cut_apart(none, c, none, sep);
    crate::text::law_pieces_kept_are_not_empty(seq![none], seq![none], none);
    assert(crate::text::fields(none, sep) == seq![none]);
    if x.len() > 0 && !x.contains('(') && !x.contains(',') && !x.contains(' ') && !x.contains(')') {
        assert forall|i: int| 0 <= i < x.len() implies !sep(#[trigger] x[i]) by {
            assert(x.contains(x[i]));
        }
        assert(fx == seq![x]);
        reveal_with_fuel(numbers, 2);
        assert(seq![x].drop_last() =~= Seq::empty());
        if crate::text::number(x) is Ok {
            assert(Seq::empty().push(crate::text::number(x)->Ok_0) =~= seq![
                crate::text::number(x)->Ok_0,
            ]);
        }
    }
}

/// Elements stand one behind the other, each with its least significant byte first; integers are
/// two's complement.
pub proof fn law_elements_are_little_endian(
    b: Seq<u8>,
    at: int,
    n: nat,
    shape: Seq<usize>,
    i: int,
)
    requires
        0 <= i < n,
    ensures
        elements(b, at, n, Dtype::F32, shape) matches NpyView::F32(v, s) && s == shape && v.len()
            == n && v[i] == b[at + 4 * i] + 0x100 * b[at + 4 * i + 1] + 0x1_0000 * b[at + 4 * i + 2]
            + 0x100_0000 * b[at + 4 * i + 3],
        elements(b, at, n, Dtype::F16, shape) matches NpyView::F32(v, s) && s == shape && v.len()
            == n && v[i] == crate::half::widened(
            (b[at + 2 * i] + 0x100 * b[at + 2 * i + 1]) as u16,
        ),
        elements(b, at, n, Dtype::I64, shape) matches NpyView::I64(v, s) && s == shape && v.len()
            == n && v[i] == b[at + 8 * i] + 0x100 * b[at + 8 * i + 1] + 0x1_0000 * b[at + 8 * i + 2]
            + 0x100_0000 * b[at + 8 * i + 3] + 0x1_0000_0000 * b[at + 8 * i + 4] + 0x100_0000_0000
            * b[at + 8 * i + 5] + 0x1_0000_0000_0000 * b[at + 8 * i + 6] + 0x100_0000_0000_0000
            * b[at + 8 * i + 7] - if b[at + 8 * i + 7] < 0x80 {
            0
        } else {
            0x1_0000_0000_0000_0000int
        },
        elements(b, at, n, Dtype::I32, shape) matches NpyView::I64(v, s) && s == shape && v.len()
            == n && v[i] == b[at + 4 * i] + 0x100 * b[at + 4 * i + 1] + 0x1_0000 * b[at + 4 * i + 2]
            + 0x100_0000 * b[at + 4 * i + 3] - if b[at + 4 * i + 3] < 0x80 {
            0
        } else {
            0x1_0000_0000int
        },
{
    reveal_with_fuel(little_endian, 9);
}

/// What a file gives, from its first bytes to its last. A file of ten bytes is too short; one that
/// does not begin with `\x93NUMPY` is none of this kind. The header is the text from byte ten on,
/// as long as bytes eight and nine say, and the data follow it. What is wrong with the header is
/// wrong with the file; Fortran order is refused of more than one dimension; and there have to be
/// as many elements as the dimensions multiply to, or one if that is zero.
pub proof fn law_files_are_read_by_their_bytes(b: Seq<u8>)
    ensures
        npy(b) == Err::<NpyView, NpyErrorView>(NpyErrorView::TooShort) <==> b.len() <= 10,
        ({
            let magic = b.take(6) == seq![0x93u8, 0x4eu8, 0x55u8, 0x4du8, 0x50u8, 0x59u8];
            let start = 10 + b[8] + 0x100 * b[9];
            let text = b.subrange(10, start);
            &&& npy(b) == Err::<NpyView, NpyErrorView>(NpyErrorView::BadMagic) <==> b.len() > 10
                && !magic
            &&& !valid_utf8(text) ==> header_in(b) == Err::<HeaderView, NpyErrorView>(
                NpyErrorView::HeaderNotUtf8(utf8_complaint(text)),
            )
            &&& valid_utf8(text) ==> header_in(b) == header(decode_utf8(text))
            &&& b.len() > 10 && magic ==> match header_in(b) {
                Err(e) => npy(b) == Err::<NpyView, NpyErrorView>(e),
                Ok(h) => {
                    let n = if product(h.shape) == 0 {
                        1nat
                    } else {
                        product(h.shape)
                    };
                    if h.fortran && h.shape.len() >= 2 {
                        npy(b) == Err::<NpyView, NpyErrorView>(NpyErrorView::FortranOrder)
                    } else {
                        match dtype_of(h.descr) {
                            None => npy(b) == Err::<NpyView, NpyErrorView>(
                                NpyErrorView::UnsupportedDtype(h.descr),
                            ),
                            Some(d) => {
                                let width = if d == Dtype::I64 {
                                    8int
                                } else if d == Dtype::F16 {
                                    2
                                } else {
                                    4
                                };
                                npy(b) == if start + n * width <= b.len() {
                                    Ok::<NpyView, NpyErrorView>(elements(b, start, n, d, h.shape))
                                } else {
                                    Err(NpyErrorView::Truncated(d))
                                }
                            },
                        }
                    }
                },
            }
        }),
{
    law_magic_is_six_bytes(b);
    reveal_with_fuel(little_endian, 3);
    lemma_header_complaints(b);
}

/// A header is never too short, and never of the wrong kind.
proof fn lemma_header_complaints(b: Seq<u8>)
    ensures
        header_in(b) matches Err(e) ==> !(e is TooShort) && !(e is BadMagic),
{
}

/// The text of every error.
pub proof fn law_npy_error_texts(e: NpyErrorView)
    ensures
        e is TooShort ==> npy_message(e) == "npy too short"@,
        e is BadMagic ==> npy_message(e) == "bad npy magic"@,
        e is HeaderNotUtf8 ==> npy_message(e) == "npy header utf8"@,
        e is NoDescr ==> npy_message(e) == "npy descr"@,
        e is NoShape ==> npy_message(e) == "npy shape"@,
        e is BadDim ==> npy_message(e) == "npy dim"@,
        e is FortranOrder ==> npy_message(e) == "fortran-order npy not supported"@,
        e == NpyErrorView::Truncated(Dtype::F32) ==> npy_message(e) == "npy f32 truncated"@,
        e == NpyErrorView::Truncated(Dtype::F16) ==> npy_message(e) == "npy f16 truncated"@,
        e == NpyErrorView::Truncated(Dtype::I64) ==> npy_message(e) == "npy i64 truncated"@,
        e == NpyErrorView::Truncated(Dtype::I32) ==> npy_message(e) == "npy i32 truncated"@,
        e matches NpyErrorView::UnsupportedDtype(d) ==> npy_message(e) == "unsupported npy dtype: "@
            + d,
        e matches NpyErrorView::HeaderNotUtf8(text) ==> npy_cause(e) == Some(text),
        e matches NpyErrorView::BadDim(n) ==> npy_cause(e) == Some(number_message(n)),
        !(e is HeaderNotUtf8) && !(e is BadDim) ==> npy_cause(e) is None,
{
}

} // verus!
