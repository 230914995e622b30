//! Arrays in `.npz` archives.
use vstd::prelude::*;
use crate::npy::{cause_view, check_header_fits, header_fits, npy, npy_cause, npy_message, parse_npy, NpyArray, NpyError, NpyErrorView, NpyView};
use crate::text::{joined, owned};

verus! {

/// `zip::ZipArchive`, opaque: an archive whose directory has been read.
#[verifier::external_type_specification]
#[verifier::external_body]
#[verifier::reject_recursive_types(R)]
pub struct ExZipArchive<R>(zip::ZipArchive<R>);

/// `std::io::Cursor`, opaque: a reader over bytes in memory.
#[verifier::external_type_specification]
#[verifier::external_body]
#[verifier::reject_recursive_types(T)]
pub struct ExCursor<T>(std::io::Cursor<T>);

/// An archive held in memory.
pub type NpzArchive = zip::ZipArchive<std::io::Cursor<Vec<u8>>>;

/// What an archive gives for a name: the bytes of the member, the text of the error in reading
/// it, or the text of the error in opening it.
pub type MemberView = Result<Result<Seq<u8>, Seq<char>>, Seq<char>>;

/// What an open archive gives for every name: `Err` with the text of the error where
/// `ZipArchive::by_name` fails, and otherwise what reading to the end gives, the bytes or the text
/// of the error.
pub uninterp spec fn npz_members(archive: zip::ZipArchive<std::io::Cursor<Vec<u8>>>) -> Map<
    Seq<char>,
    Result<Result<Seq<u8>, Seq<char>>, Seq<char>>,
>;

/// What the archive that the bytes make up gives for every name, or the text of the error where
/// `ZipArchive::new` does not accept them.
pub uninterp spec fn zip_contents(bytes: Seq<u8>) -> Result<
    Map<Seq<char>, Result<Result<Seq<u8>, Seq<char>>, Seq<char>>>,
    Seq<char>,
>;

/// Opens an archive in memory with `zip::ZipArchive::new`. Whether it opens, what it then gives
/// for a name, and the text of the error otherwise are taken to depend on the bytes alone.
#[verifier::external_body]
fn open_archive(bytes: Vec<u8>) -> (r: Result<NpzArchive, String>)
    ensures
        match r {
            Ok(archive) => zip_contents(bytes@) == Ok::<
                Map<Seq<char>, MemberView>,
                Seq<char>,
            >(npz_members(archive)),
            Err(text) => zip_contents(bytes@) == Err::<Map<Seq<char>, MemberView>, Seq<char>>(
                text@,
            ),
        },
{
    match zip::ZipArchive::new(std::io::Cursor::new(bytes)) {
        Ok(archive) => Ok(archive),
        Err(e) => Err(e.to_string()),
    }
}

/// What was read of a member, over sequences.
pub open spec fn member_view(m: Result<Result<Vec<u8>, String>, String>) -> MemberView {
    match m {
        Ok(Ok(b)) => Ok(Ok(b@)),
        Ok(Err(text)) => Ok(Err(text@)),
        Err(text) => Err(text@),
    }
}

/// Reads one member to its end: `ZipArchive::by_name`, then `read_to_end` on what it opens. The
/// result is taken to be the one named by `npz_members`, and what the archive gives for a name to
/// stay as it is.
#[verifier::external_body]
pub(crate) fn read_member(archive: &mut NpzArchive, name: &str) -> (r: Result<
    Result<Vec<u8>, String>,
    String,
>)
    ensures
        npz_members(*final(archive)) == npz_members(*old(archive)),
        npz_members(*old(archive)).contains_pair(name@, member_view(r)),
{
    match archive.by_name(name) {
        Err(e) => Err(e.to_string()),
        Ok(mut member) => {
            let mut bytes = Vec::new();
            match std::io::Read::read_to_end(&mut member, &mut bytes) {
                Ok(_) => Ok(Ok(bytes)),
                Err(e) => Ok(Err(e.to_string())),
            }
        },
    }
}

/// What stands in the way of reading an array from an archive.
#[derive(Debug)]
pub enum NpzError {
    /// The bytes are no archive, for the reason given.
    BadArchive(String),
    /// The archive gives no such member, for the reason given.
    Missing(String, String),
    /// A member cannot be read, for the reason given.
    Unreadable(String),
    /// The member ends before the header that it announces.
    HeaderOverrun(String),
    /// The member is no array that can be read.
    Npy(NpyError),
    /// The array of this name holds integers.
    NotF32(String),
    /// The array of this name holds floating-point numbers.
    NotI64(String),
}

/// `NpzError` over character sequences.
pub enum NpzErrorView {
    BadArchive(Seq<char>),
    Missing(Seq<char>, Seq<char>),
    Unreadable(Seq<char>),
    HeaderOverrun(Seq<char>),
    Npy(NpyErrorView),
    NotF32(Seq<char>),
    NotI64(Seq<char>),
}

impl View for NpzError {
    type V = NpzErrorView;

    open spec fn view(&self) -> NpzErrorView {
        match *self {
            NpzError::BadArchive(s) => NpzErrorView::BadArchive(s@),
            NpzError::Missing(s, t) => NpzErrorView::Missing(s@, t@),
            NpzError::Unreadable(s) => NpzErrorView::Unreadable(s@),
            NpzError::HeaderOverrun(s) => NpzErrorView::HeaderOverrun(s@),
            NpzError::Npy(e) => NpzErrorView::Npy(e@),
            NpzError::NotF32(s) => NpzErrorView::NotF32(s@),
            NpzError::NotI64(s) => NpzErrorView::NotI64(s@),
        }
    }
}

/// The text of an error.
pub open spec fn npz_message(e: NpzErrorView) -> Seq<char> {
    match e {
        NpzErrorView::BadArchive(text) => text,
        NpzErrorView::Missing(entry, _) => "npz missing: "@ + entry,
        NpzErrorView::Unreadable(text) => text,
        NpzErrorView::HeaderOverrun(entry) => "npy header overrun: "@ + entry,
        NpzErrorView::Npy(e) => npy_message(e),
        NpzErrorView::NotF32(name) => name + " is not f32"@,
        NpzErrorView::NotI64(name) => name + " is not i64"@,
    }
}

/// What lies behind an error, where something does.
pub open spec fn npz_cause(e: NpzErrorView) -> Option<Seq<char>> {
    match e {
        NpzErrorView::Missing(_, text) => Some(text),
        NpzErrorView::Npy(e) => npy_cause(e),
        _ => None,
    }
}

impl NpzError {
    /// What lies behind the error, where something does.
    pub fn cause(&self) -> (s: Option<String>)
        ensures
            cause_view(s) == npz_cause(self@),
    {
        match self {
            NpzError::Missing(_, text) => Some(owned(text.as_str())),
            NpzError::Npy(e) => e.cause(),
            _ => None,
        }
    }

    /// The text of the error.
    pub fn message(&self) -> (s: String)
        ensures
            s@ == npz_message(self@),
    {
        match self {
            NpzError::BadArchive(text) => owned(text.as_str()),
            NpzError::Missing(entry, _) => joined("npz missing: ", entry.as_str()),
            NpzError::Unreadable(text) => owned(text.as_str()),
            NpzError::HeaderOverrun(entry) => joined("npy header overrun: ", entry.as_str()),
            NpzError::Npy(e) => e.message(),
            NpzError::NotF32(name) => joined(name.as_str(), " is not f32"),
            NpzError::NotI64(name) => joined(name.as_str(), " is not i64"),
        }
    }
}

/// Opens an archive held in memory.
pub fn open_npz(bytes: Vec<u8>) -> (r: Result<NpzArchive, NpzError>)
    ensures
        match r {
            Ok(archive) => zip_contents(bytes@) == Ok::<
                Map<Seq<char>, MemberView>,
                Seq<char>,
            >(npz_members(archive)),
            Err(e) => zip_contents(bytes@) matches Err(text) && e@ == NpzErrorView::BadArchive(
                text,
            ),
        },
{
    match open_archive(bytes) {
        Ok(archive) => Ok(archive),
        Err(text) => Err(NpzError::BadArchive(text)),
    }
}

/// The member that holds the array of a name.
pub open spec fn member_name(name: Seq<char>) -> Seq<char> {
    name + ".npy"@
}

/// The array in what an archive gives for the name `entry`.
pub open spec fn member_array(entry: Seq<char>, member: MemberView) -> Result<
    NpyView,
    NpzErrorView,
> {
    match member {
        Err(text) => Err(NpzErrorView::Missing(entry, text)),
        Ok(Err(text)) => Err(NpzErrorView::Unreadable(text)),
        Ok(Ok(b)) => if !header_fits(b) {
            Err(NpzErrorView::HeaderOverrun(entry))
        } else {
            match npy(b) {
                Err(e) => Err(NpzErrorView::Npy(e)),
                Ok(a) => Ok(a),
            }
        },
    }
}

/// The array of a name among the members of an archive.
pub open spec fn npz_array(members: Map<Seq<char>, MemberView>, name: Seq<char>) -> Result<
    NpyView,
    NpzErrorView,
> {
    member_array(member_name(name), members[member_name(name)])
}

/// Decodes what an archive gave for the name `entry`.
pub fn decode_member(entry: String, member: Result<Result<Vec<u8>, String>, String>) -> (r: Result<
    NpyArray,
    NpzError,
>)
    ensures
        match r {
            Ok(a) => member_array(entry@, member_view(member)) == Ok::<NpyView, NpzErrorView>(a@),
            Err(e) => member_array(entry@, member_view(member)) == Err::<NpyView, NpzErrorView>(
                e@,
            ),
        },
{
    match member {
        Err(text) => Err(NpzError::Missing(entry, text)),
        Ok(Err(text)) => Err(NpzError::Unreadable(text)),
        Ok(Ok(b)) => if !check_header_fits(&b) {
            Err(NpzError::HeaderOverrun(entry))
        } else {
            match parse_npy(&b) {
                Err(e) => Err(NpzError::Npy(e)),
                Ok(a) => Ok(a),
            }
        },
    }
}

/// Reads the array of a name.
pub fn read_npz(archive: &mut NpzArchive, name: &str) -> (r: Result<NpyArray, NpzError>)
    ensures
        npz_members(*final(archive)) == npz_members(*old(archive)),
        match r {
            Ok(a) => npz_array(npz_members(*old(archive)), name@) == Ok::<NpyView, NpzErrorView>(
                a@,
            ),
            Err(e) => npz_array(npz_members(*old(archive)), name@) == Err::<NpyView, NpzErrorView>(
                e@,
            ),
        },
{
    let entry: String = joined(name, ".npy");
    let member: Result<Result<Vec<u8>, String>, String> = read_member(archive, entry.as_str());
    decode_member(entry, member)
}

/// The floating-point array of a name: its bit patterns and its shape.
pub open spec fn npz_f32_array(
    members: Map<Seq<char>, MemberView>,
    name: Seq<char>,
) -> Result<(Seq<u32>, Seq<usize>), NpzErrorView> {
    match npz_array(members, name) {
        Err(e) => Err(e),
        Ok(NpyView::F32(v, s)) => Ok((v, s)),
        Ok(NpyView::I64(..)) => Err(NpzErrorView::NotF32(name)),
    }
}

/// The integer array of a name: its elements and its shape.
pub open spec fn npz_i64_array(
    members: Map<Seq<char>, MemberView>,
    name: Seq<char>,
) -> Result<(Seq<i64>, Seq<usize>), NpzErrorView> {
    match npz_array(members, name) {
        Err(e) => Err(e),
        Ok(NpyView::I64(v, s)) => Ok((v, s)),
        Ok(NpyView::F32(..)) => Err(NpzErrorView::NotI64(name)),
    }
}

/// Reads the floating-point array of a name.
pub fn read_npz_f32(archive: &mut NpzArchive, name: &str) -> (r: Result<
    (Vec<u32>, Vec<usize>),
    NpzError,
>)
    ensures
        npz_members(*final(archive)) == npz_members(*old(archive)),
        match r {
            Ok((v, s)) => npz_f32_array(npz_members(*old(archive)), name@) == Ok::<
                (Seq<u32>, Seq<usize>),
                NpzErrorView,
            >((v@, s@)),
            Err(e) => npz_f32_array(npz_members(*old(archive)), name@) == Err::<
                (Seq<u32>, Seq<usize>),
                NpzErrorView,
            >(e@),
        },
{
    match read_npz(archive, name) {
        Err(e) => Err(e),
        Ok(NpyArray::F32(v, s)) => Ok((v, s)),
        Ok(NpyArray::I64(_, _)) => Err(NpzError::NotF32(owned(name))),
    }
}

/// Reads the integer array of a name.
pub fn read_npz_i64(archive: &mut NpzArchive, name: &str) -> (r: Result<
    (Vec<i64>, Vec<usize>),
    NpzError,
>)
    ensures
        npz_members(*final(archive)) == npz_members(*old(archive)),
        match r {
            Ok((v, s)) => npz_i64_array(npz_members(*old(archive)), name@) == Ok::<
                (Seq<i64>, Seq<usize>),
                NpzErrorView,
            >((v@, s@)),
            Err(e) => npz_i64_array(npz_members(*old(archive)), name@) == Err::<
                (Seq<i64>, Seq<usize>),
                NpzErrorView,
            >(e@),
        },
{
    match read_npz(archive, name) {
        Err(e) => Err(e),
        Ok(NpyArray::I64(v, s)) => Ok((v, s)),
        Ok(NpyArray::F32(_, _)) => Err(NpzError::NotI64(owned(name))),
    }
}

/// A member gives an array where the archive gives the member, the member can be read, the header
/// lies within it, and it is an array; what is wrong otherwise is told by the first of these that
/// does not hold.
pub proof fn law_members_are_decoded(entry: Seq<char>, member: MemberView)
    ensures
        match member {
            Err(text) => member_array(entry, member) == Err::<NpyView, NpzErrorView>(
                NpzErrorView::Missing(entry, text),
            ),
            Ok(Err(text)) => member_array(entry, member) == Err::<NpyView, NpzErrorView>(
                NpzErrorView::Unreadable(text),
            ),
            Ok(Ok(b)) => {
                let magic = b.take(6) == seq![0x93u8, 0x4eu8, 0x55u8, 0x4du8, 0x50u8, 0x59u8];
                if b.len() > 10 && magic && 10 + b[8] + 0x100 * b[9] > b.len() {
                    member_array(entry, member) == Err::<NpyView, NpzErrorView>(
                        NpzErrorView::HeaderOverrun(entry),
                    )
                } else {
                    match npy(b) {
                        Ok(a) => member_array(entry, member) == Ok::<NpyView, NpzErrorView>(a),
                        Err(e) => member_array(entry, member) == Err::<NpyView, NpzErrorView>(
                            NpzErrorView::Npy(e),
                        ),
                    }
                }
            },
        },
{
    let b = member->Ok_0->Ok_0;
    crate::npy::law_magic_is_six_bytes(b);
    reveal_with_fuel(crate::npy::little_endian, 3);
}

/// The array of a name is what the member of that name with `.npy` behind it gives; asked for
/// floating-point numbers, an array of integers is refused by its name, and the other way round.
pub proof fn law_arrays_are_members(members: Map<Seq<char>, MemberView>, name: Seq<char>)
    ensures
        npz_array(members, name) == member_array(name + ".npy"@, members[name + ".npy"@]),
        match npz_array(members, name) {
            Ok(NpyView::F32(v, s)) => {
                &&& npz_f32_array(members, name) == Ok::<(Seq<u32>, Seq<usize>), NpzErrorView>(
                    (v, s),
                )
                &&& npz_i64_array(members, name) == Err::<(Seq<i64>, Seq<usize>), NpzErrorView>(
                    NpzErrorView::NotI64(name),
                )
            },
            Ok(NpyView::I64(v, s)) => {
                &&& npz_i64_array(members, name) == Ok::<(Seq<i64>, Seq<usize>), NpzErrorView>(
                    (v, s),
                )
                &&& npz_f32_array(members, name) == Err::<(Seq<u32>, Seq<usize>), NpzErrorView>(
                    NpzErrorView::NotF32(name),
                )
            },
            Err(e) => {
                &&& npz_f32_array(members, name) == Err::<(Seq<u32>, Seq<usize>), NpzErrorView>(e)
                &&& npz_i64_array(members, name) == Err::<(Seq<i64>, Seq<usize>), NpzErrorView>(e)
            },
        },
{
}

/// The text of every error, and what lies behind it.
pub proof fn law_npz_error_texts(e: NpzErrorView)
    ensures
        e matches NpzErrorView::BadArchive(text) ==> npz_message(e) == text,
        e matches NpzErrorView::Missing(entry, text) ==> npz_message(e) == "npz missing: "@ + entry
            && npz_cause(e) == Some(text),
        e matches NpzErrorView::Unreadable(text) ==> npz_message(e) == text,
        e matches NpzErrorView::HeaderOverrun(entry) ==> npz_message(e) == "npy header overrun: "@
            + entry,
        e matches NpzErrorView::Npy(n) ==> npz_message(e) == npy_message(n) && npz_cause(e)
            == npy_cause(n),
        e matches NpzErrorView::NotF32(name) ==> npz_message(e) == name + " is not f32"@,
        e matches NpzErrorView::NotI64(name) ==> npz_message(e) == name + " is not i64"@,
        !(e is Missing) && !(e is Npy) ==> npz_cause(e) is None,
{
}

} // verus!
