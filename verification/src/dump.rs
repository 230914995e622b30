//! Voice states dumped from PyTorch: an offset and a compact cache per layer.
use vstd::prelude::*;
use crate::half::QUIET_NAN;
use crate::npy::{check_magic, count_elements, data_start, dtype_of, element_count, elements, has_magic, header_in, read_16, read_dtype, read_elements, read_header_in, Dtype, NpyArray, NpyError, NpyErrorView, NpyHeader, NpyView};
use crate::npz::{member_name, member_view, npz_members, read_member, MemberView, NpzArchive};
use crate::tensors::{numbered, numbered_name};
use crate::text::{decimal, joined, number_message, owned};

verus! {

/// The layers of a dumped voice state.
pub const DUMP_LAYERS: usize = 24;

/// The element types of a dump: 32-bit floats and 64-bit integers.
pub open spec fn dump_dtype(descr: Seq<char>) -> Option<Dtype> {
    match dtype_of(descr) {
        Some(Dtype::F32) => Some(Dtype::F32),
        Some(Dtype::I64) => Some(Dtype::I64),
        _ => None,
    }
}

/// The file holds everything that it announces.
pub open spec fn dump_complete(b: Seq<u8>) -> bool {
    &&& b.len() >= 6
    &&& has_magic(b) ==> {
        &&& b.len() >= 10
        &&& data_start(b) <= b.len()
        &&& header_in(b) matches Ok(h) ==> (dump_dtype(h.descr) matches Some(d) ==> element_count(
            h.shape,
        ) * d.spec_width() <= b.len() - data_start(b))
    }
}

/// The array in a complete file: floating-point elements as bit patterns, integer elements,
/// and the shape. One of the first two is empty.
pub open spec fn dump_array(b: Seq<u8>) -> Result<
    (Seq<u32>, Seq<i64>, Seq<usize>),
    NpyErrorView,
> {
    if !has_magic(b) {
        Err(NpyErrorView::BadMagic)
    } else {
        match header_in(b) {
            Err(e) => Err(e),
            Ok(h) => match dump_dtype(h.descr) {
                Some(d) => match elements(
                    b,
                    data_start(b) as int,
                    element_count(h.shape),
                    d,
                    h.shape,
                ) {
                    NpyView::F32(v, shape) => Ok((v, Seq::empty(), shape)),
                    NpyView::I64(v, shape) => Ok((Seq::empty(), v, shape)),
                },
                None => Err(NpyErrorView::UnsupportedDtype(h.descr)),
            },
        }
    }
}

/// Names the element type of a dump.
fn read_dump_dtype(descr: &str) -> (d: Option<Dtype>)
    ensures
        d == dump_dtype(descr@),
{
    match read_dtype(descr) {
        Some(Dtype::F32) => Some(Dtype::F32),
        Some(Dtype::I64) => Some(Dtype::I64),
        _ => None,
    }
}

/// Whether the file holds everything that it announces.
pub fn check_complete(b: &[u8]) -> (r: bool)
    ensures
        r == dump_complete(b@),
{
    if b.len() < 6 {
        return false;
    }
    if !check_magic(b) {
        return true;
    }
    if b.len() < 10 || read_16(b, 8) as usize > b.len() - 10 {
        return false;
    }
    let start: usize = 10 + read_16(b, 8) as usize;
    match read_header_in(b) {
        Err(_) => true,
        Ok(h) => match read_dump_dtype(h.descr.as_str()) {
            None => true,
            Some(d) => match count_elements(&h.shape) {
                None => {
                    assert(element_count(h.shape@) * d.spec_width() > usize::MAX)
                        by (nonlinear_arith)
                        requires
                            element_count(h.shape@) > usize::MAX,
                            d.spec_width() >= 1,
                    ;
                    false
                },
                Some(n) => match n.checked_mul(d.width()) {
                    None => false,
                    Some(size) => size <= b.len() - start,
                },
            },
        },
    }
}

/// Reads the array in a complete file.
pub fn parse_npy(bytes: &[u8]) -> (r: Result<(Vec<u32>, Vec<i64>, Vec<usize>), NpyError>)
    requires
        dump_complete(bytes@),
    ensures
        match r {
            Ok((f, i, s)) => dump_array(bytes@) == Ok::<
                (Seq<u32>, Seq<i64>, Seq<usize>),
                NpyErrorView,
            >((f@, i@, s@)),
            Err(e) => dump_array(bytes@) == Err::<(Seq<u32>, Seq<i64>, Seq<usize>), NpyErrorView>(
                e@,
            ),
        },
{
    if !check_magic(bytes) {
        return Err(NpyError::BadMagic);
    }
    let header: NpyHeader = match read_header_in(bytes) {
        Err(e) => {
            return Err(e);
        },
        Ok(h) => h,
    };
    let d: Dtype = match read_dump_dtype(header.descr.as_str()) {
        None => {
            return Err(NpyError::UnsupportedDtype(header.descr));
        },
        Some(d) => d,
    };
    let start: usize = 10 + read_16(bytes, 8) as usize;
    assert(element_count(header.shape@) <= element_count(header.shape@) * d.spec_width())
        by (nonlinear_arith)
        requires
            d.spec_width() >= 1,
    ;
    assert(bytes@.len() == bytes.len());
    let n: usize = match count_elements(&header.shape) {
        Some(n) => n,
        None => 0,
    };
    match read_elements(bytes, start, n, d, header.shape) {
        NpyArray::F32(f, s) => Ok((f, Vec::new(), s)),
        NpyArray::I64(i, s) => Ok((Vec::new(), i, s)),
    }
}

/// Why a voice state cannot be read.
#[derive(Debug)]
pub enum DumpError {
    /// The archive gives no such member, for the reason given.
    Missing(String),
    /// The member cannot be read, for the reason given.
    Unreadable(String),
    /// The member does not hold everything that it announces.
    Incomplete(String),
    /// The member is no array that can be read.
    Npy(NpyError),
    /// The array of this name holds no integer.
    NoOffset(String),
    /// The cache of this name is longer than the context.
    TooLong(String),
}

/// `DumpError` over character sequences.
pub enum DumpErrorView {
    Missing(Seq<char>),
    Unreadable(Seq<char>),
    Incomplete(Seq<char>),
    Npy(NpyErrorView),
    NoOffset(Seq<char>),
    TooLong(Seq<char>),
}

impl View for DumpError {
    type V = DumpErrorView;

    open spec fn view(&self) -> DumpErrorView {
        match *self {
            DumpError::Missing(s) => DumpErrorView::Missing(s@),
            DumpError::Unreadable(s) => DumpErrorView::Unreadable(s@),
            DumpError::Incomplete(s) => DumpErrorView::Incomplete(s@),
            DumpError::Npy(e) => DumpErrorView::Npy(e@),
            DumpError::NoOffset(s) => DumpErrorView::NoOffset(s@),
            DumpError::TooLong(s) => DumpErrorView::TooLong(s@),
        }
    }
}

/// The text of an error.
pub open spec fn dump_message(e: DumpErrorView) -> Seq<char> {
    match e {
        DumpErrorView::Missing(text) => text,
        DumpErrorView::Unreadable(text) => text,
        DumpErrorView::Incomplete(entry) => "npy incomplete: "@ + entry,
        DumpErrorView::Npy(NpyErrorView::HeaderNotUtf8(text)) => text,
        DumpErrorView::Npy(NpyErrorView::BadDim(e)) => number_message(e),
        DumpErrorView::Npy(NpyErrorView::NoDescr) => "descr"@,
        DumpErrorView::Npy(NpyErrorView::NoShape) => "shape"@,
        DumpErrorView::Npy(NpyErrorView::UnsupportedDtype(d)) => "unsupported dtype "@ + d,
        DumpErrorView::Npy(e) => crate::npy::npy_message(e),
        DumpErrorView::NoOffset(name) => name + " holds no offset"@,
        DumpErrorView::TooLong(name) => name + " is longer than the context"@,
    }
}

impl DumpError {
    /// The text of the error.
    pub fn message(&self) -> (s: String)
        ensures
            s@ == dump_message(self@),
    {
        match self {
            DumpError::Missing(text) => owned(text.as_str()),
            DumpError::Unreadable(text) => owned(text.as_str()),
            DumpError::Incomplete(entry) => joined("npy incomplete: ", entry.as_str()),
            DumpError::Npy(NpyError::HeaderNotUtf8(text)) => owned(text.as_str()),
            DumpError::Npy(NpyError::BadDim(e)) => e.message(),
            DumpError::Npy(NpyError::NoDescr) => owned("descr"),
            DumpError::Npy(NpyError::NoShape) => owned("shape"),
            DumpError::Npy(NpyError::UnsupportedDtype(d)) => joined(
                "unsupported dtype ",
                d.as_str(),
            ),
            DumpError::Npy(e) => e.message(),
            DumpError::NoOffset(name) => joined(name.as_str(), " holds no offset"),
            DumpError::TooLong(name) => joined(name.as_str(), " is longer than the context"),
        }
    }
}

/// The array in a member that was looked up under the name `entry`.
pub open spec fn dump_member(entry: Seq<char>, member: MemberView) -> Result<
    (Seq<u32>, Seq<i64>, Seq<usize>),
    DumpErrorView,
> {
    match member {
        Err(text) => Err(DumpErrorView::Missing(text)),
        Ok(Err(text)) => Err(DumpErrorView::Unreadable(text)),
        Ok(Ok(b)) => if !dump_complete(b) {
            Err(DumpErrorView::Incomplete(entry))
        } else {
            match dump_array(b) {
                Err(e) => Err(DumpErrorView::Npy(e)),
                Ok(a) => Ok(a),
            }
        },
    }
}

/// Decodes what looking up the member `entry` gave.
pub fn decode_dump_member(entry: String, member: Result<Result<Vec<u8>, String>, String>) -> (r: Result<
    (Vec<u32>, Vec<i64>, Vec<usize>),
    DumpError,
>)
    ensures
        match r {
            Ok((f, i, s)) => dump_member(entry@, member_view(member)) == Ok::<
                (Seq<u32>, Seq<i64>, Seq<usize>),
                DumpErrorView,
            >((f@, i@, s@)),
            Err(e) => dump_member(entry@, member_view(member)) == Err::<
                (Seq<u32>, Seq<i64>, Seq<usize>),
                DumpErrorView,
            >(e@),
        },
{
    match member {
        Err(text) => Err(DumpError::Missing(text)),
        Ok(Err(text)) => Err(DumpError::Unreadable(text)),
        Ok(Ok(b)) => if !check_complete(&b) {
            Err(DumpError::Incomplete(entry))
        } else {
            match parse_npy(&b) {
                Err(e) => Err(DumpError::Npy(e)),
                Ok(a) => Ok(a),
            }
        },
    }
}

/// The array of a name among the members of an archive.
pub open spec fn dump_named(
    members: Map<Seq<char>, MemberView>,
    name: Seq<char>,
) -> Result<(Seq<u32>, Seq<i64>, Seq<usize>), DumpErrorView> {
    dump_member(member_name(name), members[member_name(name)])
}

/// Reads the floating-point elements and the shape of the array of a name; an array of
/// integers has none.
pub fn npz_f32(archive: &mut NpzArchive, name: &str) -> (r: Result<
    (Vec<u32>, Vec<usize>),
    DumpError,
>)
    ensures
        npz_members(*final(archive)) == npz_members(*old(archive)),
        match r {
            Ok((v, s)) => dump_named(npz_members(*old(archive)), name@) matches Ok(a) && a.0 == v@
                && a.2 == s@,
            Err(e) => dump_named(npz_members(*old(archive)), name@) == Err::<
                (Seq<u32>, Seq<i64>, Seq<usize>),
                DumpErrorView,
            >(e@),
        },
{
    let entry: String = joined(name, ".npy");
    let member: Result<Result<Vec<u8>, String>, String> = read_member(archive, entry.as_str());
    match decode_dump_member(entry, member) {
        Err(e) => Err(e),
        Ok((v, _, s)) => Ok((v, s)),
    }
}

/// Reads the integer elements of the array of a name; an array of floating-point numbers has
/// none.
pub fn npz_i64(archive: &mut NpzArchive, name: &str) -> (r: Result<Vec<i64>, DumpError>)
    ensures
        npz_members(*final(archive)) == npz_members(*old(archive)),
        match r {
            Ok(v) => dump_named(npz_members(*old(archive)), name@) matches Ok(a) && a.1 == v@,
            Err(e) => dump_named(npz_members(*old(archive)), name@) == Err::<
                (Seq<u32>, Seq<i64>, Seq<usize>),
                DumpErrorView,
            >(e@),
        },
{
    let entry: String = joined(name, ".npy");
    let member: Result<Result<Vec<u8>, String>, String> = read_member(archive, entry.as_str());
    match decode_dump_member(entry, member) {
        Err(e) => Err(e),
        Ok((_, v, _)) => Ok(v),
    }
}

/// Positions per half of a full cache.
pub const CONTEXT: usize = 256;

/// Elements per position: 16 heads of 64.
pub const POSITION: usize = 1024;

/// The positions in each half of a compact cache.
pub open spec fn compact_positions(len: nat) -> nat {
    len / 2048
}

/// A compact cache of two halves laid out over the full context, with `fill` in every position
/// that it does not reach.
pub open spec fn padded<T>(compact: Seq<T>, fill: T) -> Seq<T> {
    let l = compact_positions(compact.len());
    Seq::new(
        (2 * CONTEXT * POSITION) as nat,
        |x: int|
            {
                let half = x / (CONTEXT * POSITION) as int;
                let position = (x / POSITION as int) % CONTEXT as int;
                let element = x % POSITION as int;
                if position < l {
                    compact[(half * l + position) * POSITION + element]
                } else {
                    fill
                }
            },
    )
}

/// Element `e` of position `t` in one half of a full cache: two halves of 256 positions of 1024
/// elements.
pub open spec fn at_position<T>(full: Seq<T>, half: int, t: int, e: int) -> T {
    full[(half * 256 + t) * 1024 + e]
}

/// Lays a compact cache out over the full context.
pub fn pad_cache<T: Copy>(compact: &[T], fill: T) -> (full: Vec<T>)
    requires
        compact_positions(compact@.len()) <= CONTEXT,
    ensures
        full@ == padded(compact@, fill),
        full@.len() == 524288,
        forall|half: int, t: int, e: int|
            0 <= half < 2 && 0 <= t < 256 && 0 <= e < 1024 ==> #[trigger] at_position(
                full@,
                half,
                t,
                e,
            ) == if t < compact@.len() / 2048 {
                compact@[(half * (compact@.len() / 2048) + t) * 1024 + e]
            } else {
                fill
            },
{
    let l: usize = compact.len() / 2048;
    let mut full: Vec<T> = Vec::new();
    let mut x: usize = 0;
    while x < 524288
        invariant
            x <= 524288,
            l == compact_positions(compact@.len()),
            l <= 256,
            full@ == padded(compact@, fill).take(x as int),
        decreases 524288 - x,
    {
        let half: usize = x / 262144;
        let position: usize = (x / 1024) % 256;
        let element: usize = x % 1024;
        if position < l {
            assert(half == 0 || half == 1);
            let at: usize = if half == 0 {
                position
            } else {
                l + position
            };
            assert(at == half * l + position);
            assert(at < 2 * l);
            full.push(compact[at * 1024 + element]);
        } else {
            full.push(fill);
        }
        x = x + 1;
    }
    assert(padded(compact@, fill).take(524288) =~= padded(compact@, fill));
    assert forall|half: int, t: int, e: int|
        0 <= half < 2 && 0 <= t < 256 && 0 <= e < 1024 implies #[trigger] at_position(
        full@,
        half,
        t,
        e,
    ) == if t < compact@.len() / 2048 {
        compact@[(half * (compact@.len() / 2048) + t) * 1024 + e]
    } else {
        fill
    } by {
        law_padding_keeps_the_cache(compact@, fill, half, t, e);
    }
    full
}

/// What one layer of a voice state holds: its position, and its cache over the full context.
pub open spec fn dump_layer(
    members: Map<Seq<char>, MemberView>,
    i: nat,
) -> Result<(i64, Seq<u32>), DumpErrorView> {
    match dump_named(members, numbered("off"@, i)) {
        Err(e) => Err(e),
        Ok((_, off, _)) => if off.len() == 0 {
            Err(DumpErrorView::NoOffset(numbered("off"@, i)))
        } else {
            match dump_named(members, numbered("cache"@, i)) {
                Err(e) => Err(e),
                Ok((cache, _, _)) => if compact_positions(cache.len()) > CONTEXT {
                    Err(DumpErrorView::TooLong(numbered("cache"@, i)))
                } else {
                    Ok((off[0], padded(cache, QUIET_NAN)))
                },
            }
        },
    }
}

/// The first `n` layers of a voice state.
pub open spec fn dump_layers(
    members: Map<Seq<char>, MemberView>,
    n: nat,
) -> Result<Seq<(i64, Seq<u32>)>, DumpErrorView>
    decreases n,
{
    if n == 0 {
        Ok(Seq::empty())
    } else {
        match dump_layers(members, (n - 1) as nat) {
            Err(e) => Err(e),
            Ok(earlier) => match dump_layer(members, (n - 1) as nat) {
                Err(e) => Err(e),
                Ok(layer) => Ok(earlier.push(layer)),
            },
        }
    }
}

/// A dumped voice state, layer by layer: the position, and the cache as binary32 bit patterns.
#[derive(Debug)]
pub struct DumpedVoice {
    pub offs: Vec<i64>,
    pub caches: Vec<Vec<u32>>,
}

/// The voice state holds the layers.
pub open spec fn holds_layers(v: DumpedVoice, layers: Seq<(i64, Seq<u32>)>) -> bool {
    &&& v.offs.len() == layers.len()
    &&& v.caches.len() == layers.len()
    &&& forall|i: int| 0 <= i < layers.len() ==> #[trigger] v.offs@[i] == layers[i].0
    &&& forall|i: int| 0 <= i < layers.len() ==> #[trigger] v.caches@[i]@ == layers[i].1
}

/// A layer that cannot be read is the end of it.
proof fn lemma_layers_fail(
    members: Map<Seq<char>, MemberView>,
    k: nat,
    n: nat,
)
    requires
        k <= n,
        dump_layers(members, k) is Err,
    ensures
        dump_layers(members, n) == dump_layers(members, k),
    decreases n,
{
    if k < n {
        lemma_layers_fail(members, k, (n - 1) as nat);
    }
}

/// Reads one layer of a voice state.
fn load_layer(archive: &mut NpzArchive, i: usize) -> (r: Result<
    (i64, Vec<u32>),
    DumpError,
>)
    ensures
        npz_members(*final(archive)) == npz_members(*old(archive)),
        match r {
            Ok((off, cache)) => dump_layer(npz_members(*old(archive)), i as nat) == Ok::<
                (i64, Seq<u32>),
                DumpErrorView,
            >((off, cache@)),
            Err(e) => dump_layer(npz_members(*old(archive)), i as nat) == Err::<
                (i64, Seq<u32>),
                DumpErrorView,
            >(e@),
        },
{
    let off_name: String = numbered_name("off", i);
    let off: Vec<i64> = match npz_i64(archive, off_name.as_str()) {
        Err(e) => {
            return Err(e);
        },
        Ok(v) => v,
    };
    if off.len() == 0 {
        return Err(DumpError::NoOffset(off_name));
    }
    let cache_name: String = numbered_name("cache", i);
    let cache: Vec<u32> = match npz_f32(archive, cache_name.as_str()) {
        Err(e) => {
            return Err(e);
        },
        Ok((v, _)) => v,
    };
    if cache.len() / 2048 > CONTEXT {
        return Err(DumpError::TooLong(cache_name));
    }
    Ok((off[0], pad_cache(&cache, QUIET_NAN)))
}

/// Reads a voice state of `n_layers` layers; positions that the dump does not reach are NaN.
pub fn load_dump(archive: &mut NpzArchive, n_layers: usize) -> (r: Result<
    DumpedVoice,
    DumpError,
>)
    ensures
        npz_members(*final(archive)) == npz_members(*old(archive)),
        match r {
            Ok(v) => dump_layers(npz_members(*old(archive)), n_layers as nat) matches Ok(
                layers,
            ) && holds_layers(v, layers) && layers.len() == n_layers,
            Err(e) => dump_layers(npz_members(*old(archive)), n_layers as nat) == Err::<
                Seq<(i64, Seq<u32>)>,
                DumpErrorView,
            >(e@),
        },
        r matches Ok(v) ==> {
            &&& v.offs@.len() == n_layers
            &&& v.caches@.len() == n_layers
            &&& forall|i: int|
                0 <= i < n_layers ==> dump_layer(npz_members(*old(archive)), i as nat) == Ok::<
                    (i64, Seq<u32>),
                    DumpErrorView,
                >((#[trigger] v.offs@[i], v.caches@[i]@))
        },
{
    proof {
        law_layers_are_read_in_order(npz_members(*archive), n_layers as nat);
    }
    let ghost members = npz_members(*archive);
    let ghost mut layers: Seq<(i64, Seq<u32>)> = Seq::empty();
    let mut voice: DumpedVoice = DumpedVoice { offs: Vec::new(), caches: Vec::new() };
    let mut i: usize = 0;
    while i < n_layers
        invariant
            i <= n_layers,
            npz_members(*archive) == members,
            npz_members(*old(archive)) == members,
            dump_layers(members, i as nat) == Ok::<Seq<(i64, Seq<u32>)>, DumpErrorView>(
                layers,
            ),
            layers.len() == i,
            holds_layers(voice, layers),
        decreases n_layers - i,
    {
        match load_layer(archive, i) {
            Err(e) => {
                proof {
                    lemma_layers_fail(members, (i + 1) as nat, n_layers as nat);
                }
                return Err(e);
            },
            Ok((off, cache)) => {
                proof {
                    layers = layers.push((off, cache@));
                }
                voice.offs.push(off);
                voice.caches.push(cache);
            },
        }
        i = i + 1;
    }
    assert forall|i: int| 0 <= i < n_layers implies dump_layer(members, i as nat) == Ok::<
        (i64, Seq<u32>),
        DumpErrorView,
    >((#[trigger] voice.offs@[i], voice.caches@[i]@)) by {
        assert(dump_layer(members, i as nat) == Ok::<(i64, Seq<u32>), DumpErrorView>(layers[i]));
        assert(voice.caches@[i]@ == layers[i].1);
    }
    Ok(voice)
}

/// Padding keeps every element of the positions that the compact cache has, in either half, and
/// fills all others.
pub proof fn law_padding_keeps_the_cache<T>(compact: Seq<T>, fill: T, half: int, t: int, e: int)
    requires
        compact_positions(compact.len()) <= CONTEXT,
        0 <= half < 2,
        0 <= t < CONTEXT,
        0 <= e < POSITION,
    ensures
        ({
            let l = compact_positions(compact.len());
            padded(compact, fill)[(half * CONTEXT + t) * POSITION + e] == if t < l {
                compact[(half * l + t) * POSITION + e]
            } else {
                fill
            }
        }),
        padded(compact, fill).len() == 524288,
        padded(compact, fill)[(half * 256 + t) * 1024 + e] == if t < compact.len() / 2048 {
            compact[(half * (compact.len() / 2048) + t) * 1024 + e]
        } else {
            fill
        },
{
    let x = (half * CONTEXT + t) * POSITION + e;
    assert(x / (CONTEXT * POSITION) as int == half && (x / POSITION as int) % CONTEXT as int == t
        && x % POSITION as int == e) by {
        assert(half == 0 || half == 1);
    }
}

/// What a dumped array is, from the bytes of its file. A file is incomplete if it ends before the
/// header does or before as many elements as its dimensions multiply to, or one if that is zero,
/// unless something is wrong with it before its elements matter; 32-bit floats and 64-bit integers
/// are read, and nothing else.
pub proof fn law_dumps_are_read_by_their_bytes(b: Seq<u8>)
    ensures
        ({
            let magic = b.take(6) == seq![0x93u8, 0x4eu8, 0x55u8, 0x4du8, 0x50u8, 0x59u8];
            let start = 10 + b[8] + 0x100 * b[9];
            let floats = |d: Seq<char>| d == "<f4"@ || d == "=f4"@ || d == "|f4"@;
            let integers = |d: Seq<char>| d == "<i8"@ || d == "=i8"@ || d == "|i8"@;
            let count = |s: Seq<usize>|
                if crate::npy::product(s) == 0 {
                    1int
                } else {
                    crate::npy::product(s) as int
                };
            &&& b.len() < 6 ==> !dump_complete(b)
            &&& b.len() >= 6 && !magic ==> dump_complete(b) && dump_array(b) == Err::<
                (Seq<u32>, Seq<i64>, Seq<usize>),
                NpyErrorView,
            >(NpyErrorView::BadMagic)
            &&& b.len() >= 6 && magic && (b.len() < 10 || start > b.len()) ==> !dump_complete(b)
            &&& b.len() >= 10 && magic && start <= b.len() ==> match header_in(b) {
                Err(e) => dump_complete(b) && dump_array(b) == Err::<
                    (Seq<u32>, Seq<i64>, Seq<usize>),
                    NpyErrorView,
                >(e),
                Ok(h) => if floats(h.descr) {
                    &&& dump_complete(b) <==> start + count(h.shape) * 4 <= b.len()
                    &&& dump_array(b) matches Ok((f, i, s)) && i.len() == 0 && s == h.shape
                        && elements(b, start, count(h.shape) as nat, Dtype::F32, h.shape)
                        == NpyView::F32(f, s)
                } else if integers(h.descr) {
                    &&& dump_complete(b) <==> start + count(h.shape) * 8 <= b.len()
                    &&& dump_array(b) matches Ok((f, i, s)) && f.len() == 0 && s == h.shape
                        && elements(b, start, count(h.shape) as nat, Dtype::I64, h.shape)
                        == NpyView::I64(i, s)
                } else {
                    &&& dump_complete(b)
                    &&& dump_array(b) == Err::<(Seq<u32>, Seq<i64>, Seq<usize>), NpyErrorView>(
                        NpyErrorView::UnsupportedDtype(h.descr),
                    )
                },
            }
        }),
{
    crate::npy::law_magic_is_six_bytes(b);
    reveal_with_fuel(crate::npy::little_endian, 3);
    if header_in(b) is Ok {
        crate::npy::law_descriptors_name_types(header_in(b)->Ok_0.descr);
    }
}

/// The dumped array of a name is what stands in the member of that name with `.npy` behind it,
/// where the archive gives the member, the member can be read and holds everything that it
/// announces, and it is an array; what is wrong otherwise is told by the first of these that does
/// not hold.
pub proof fn law_dumped_arrays_are_members(
    members: Map<Seq<char>, MemberView>,
    name: Seq<char>,
    entry: Seq<char>,
    member: MemberView,
)
    ensures
        dump_named(members, name) == dump_member(name + ".npy"@, members[name + ".npy"@]),
        match member {
            Err(text) => dump_member(entry, member) == Err::<
                (Seq<u32>, Seq<i64>, Seq<usize>),
                DumpErrorView,
            >(DumpErrorView::Missing(text)),
            Ok(Err(text)) => dump_member(entry, member) == Err::<
                (Seq<u32>, Seq<i64>, Seq<usize>),
                DumpErrorView,
            >(DumpErrorView::Unreadable(text)),
            Ok(Ok(b)) => if !dump_complete(b) {
                dump_member(entry, member) == Err::<
                    (Seq<u32>, Seq<i64>, Seq<usize>),
                    DumpErrorView,
                >(DumpErrorView::Incomplete(entry))
            } else {
                match dump_array(b) {
                    Ok(a) => dump_member(entry, member) == Ok::<
                        (Seq<u32>, Seq<i64>, Seq<usize>),
                        DumpErrorView,
                    >(a),
                    Err(e) => dump_member(entry, member) == Err::<
                        (Seq<u32>, Seq<i64>, Seq<usize>),
                        DumpErrorView,
                    >(DumpErrorView::Npy(e)),
                }
            },
        },
{
}

/// Layer `i` has the first number of the array `off` with `i` behind it as its position, and the
/// array `cache` with `i` behind it as its cache, laid out over the full context with NaN in the
/// positions that the array does not reach.
pub proof fn law_a_layer_is_two_arrays(members: Map<Seq<char>, MemberView>, i: nat)
    ensures
        dump_layer(members, i) matches Ok((off, cache)) ==> {
            &&& dump_named(members, "off"@ + decimal(i)) matches Ok((_, v, _)) && v.len() > 0 && off
                == v[0]
            &&& dump_named(members, "cache"@ + decimal(i)) matches Ok((c, _, _)) && c.len() / 2048
                <= 256 && cache.len() == 524288 && forall|half: int, t: int, e: int|
                0 <= half < 2 && 0 <= t < 256 && 0 <= e < 1024 ==> #[trigger] at_position(
                    cache,
                    half,
                    t,
                    e,
                ) == if t < c.len() / 2048 {
                    c[(half * (c.len() / 2048) + t) * 1024 + e]
                } else {
                    0x7fc0_0000u32
                }
        },
        dump_layer(members, i) matches Err(e) ==> {
            let position = dump_named(members, "off"@ + decimal(i));
            let cache = dump_named(members, "cache"@ + decimal(i));
            ||| position == Err::<(Seq<u32>, Seq<i64>, Seq<usize>), DumpErrorView>(e)
            ||| position is Ok && position->Ok_0.1.len() == 0 && e == DumpErrorView::NoOffset(
                "off"@ + decimal(i),
            )
            ||| position is Ok && position->Ok_0.1.len() > 0 && cache == Err::<
                (Seq<u32>, Seq<i64>, Seq<usize>),
                DumpErrorView,
            >(e)
            ||| position is Ok && position->Ok_0.1.len() > 0 && cache is Ok && cache->Ok_0.0.len()
                / 2048 > 256 && e == DumpErrorView::TooLong("cache"@ + decimal(i))
        },
{
    if dump_layer(members, i) is Ok {
        let (_, cache) = dump_layer(members, i)->Ok_0;
        let c = dump_named(members, "cache"@ + decimal(i))->Ok_0.0;
        assert forall|half: int, t: int, e: int|
            0 <= half < 2 && 0 <= t < 256 && 0 <= e < 1024 implies #[trigger] at_position(
            cache,
            half,
            t,
            e,
        ) == if t < c.len() / 2048 {
            c[(half * (c.len() / 2048) + t) * 1024 + e]
        } else {
            0x7fc0_0000u32
        } by {
            law_padding_keeps_the_cache(c, QUIET_NAN, half, t, e);
        }
    }
}

/// A voice state that is read has every layer; one that is not fails with what is wrong with the
/// first layer that cannot be read.
pub proof fn law_layers_are_read_in_order(members: Map<Seq<char>, MemberView>, n: nat)
    ensures
        dump_layers(members, n) matches Ok(layers) ==> {
            &&& layers.len() == n
            &&& forall|i: int|
                0 <= i < n ==> dump_layer(members, i as nat) == Ok::<
                    (i64, Seq<u32>),
                    DumpErrorView,
                >(#[trigger] layers[i])
        },
        dump_layers(members, n) matches Err(e) ==> exists|k: nat|
            k < n && #[trigger] dump_layer(members, k) == Err::<(i64, Seq<u32>), DumpErrorView>(e)
                && forall|i: nat| i < k ==> #[trigger] dump_layer(members, i) is Ok,
    decreases n,
{
    if n > 0 {
        let m = (n - 1) as nat;
        law_layers_are_read_in_order(members, m);
        if dump_layers(members, m) is Ok {
            let layers = dump_layers(members, m)->Ok_0;
            assert forall|i: nat| i < m implies #[trigger] dump_layer(members, i) is Ok by {
                assert(dump_layer(members, i) == Ok::<(i64, Seq<u32>), DumpErrorView>(
                    layers[i as int],
                ));
            }
        }
    }
}

/// The text of every error.
pub proof fn law_dump_error_texts(e: DumpErrorView)
    ensures
        e matches DumpErrorView::Missing(text) ==> dump_message(e) == text,
        e matches DumpErrorView::Unreadable(text) ==> dump_message(e) == text,
        e matches DumpErrorView::Incomplete(entry) ==> dump_message(e) == "npy incomplete: "@
            + entry,
        e matches DumpErrorView::NoOffset(name) ==> dump_message(e) == name + " holds no offset"@,
        e matches DumpErrorView::TooLong(name) ==> dump_message(e) == name
            + " is longer than the context"@,
        e matches DumpErrorView::Npy(NpyErrorView::HeaderNotUtf8(text)) ==> dump_message(e) == text,
        e matches DumpErrorView::Npy(NpyErrorView::BadDim(n)) ==> dump_message(e) == number_message(
            n,
        ),
        e == DumpErrorView::Npy(NpyErrorView::NoDescr) ==> dump_message(e) == "descr"@,
        e == DumpErrorView::Npy(NpyErrorView::NoShape) ==> dump_message(e) == "shape"@,
        e == DumpErrorView::Npy(NpyErrorView::BadMagic) ==> dump_message(e) == "bad npy magic"@,
        e matches DumpErrorView::Npy(NpyErrorView::UnsupportedDtype(d)) ==> dump_message(e)
            == "unsupported dtype "@ + d,
{
}

} // verus!
