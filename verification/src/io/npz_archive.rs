//! NumPy archives: which arrays they hold, and the streams and frames in them.
//!
//! The archive and its arrays of integers are read by the npyz crate. Arrays of numbers with a
//! fraction and of records come from the caller.

use npyz::npz::{file_name_from_array_name, NpzArchive};
use std::io::{Cursor, ErrorKind, Read};
use vstd::prelude::*;
use vstd::string::*;

use crate::bytes::{le16, le32, read_u32};
use crate::chars::join2;
use crate::io::npy_text::{is_tame, tame_header};
use crate::io::npz::{
    build_frame, frame_outcome, n_imagenet_outcome, native_outcome, read_n_imagenet,
    read_native_stream, reports, ArrayRead, Fault, FrameArrays, NImageNetEvent, NativeArrays,
};
use crate::io::IoError;
use crate::representation::EventFrame;
use crate::stream::EventStream;

verus! {

/// Why some bytes are not an archive, if they are not: whether they are malformed, and the reason.
pub uninterp spec fn archive_refusal(data: Seq<u8>) -> Option<(bool, Seq<char>)>;

/// How many entries an archive has.
pub uninterp spec fn entry_count(data: Seq<u8>) -> nat;

/// The name of the file of an entry of an archive, and the extra field of its header, if the entry
/// is where the archive says.
pub uninterp spec fn entry_at(data: Seq<u8>, index: nat) -> Option<(Seq<char>, Seq<u8>)>;

/// Three runs of bytes, one after the other, that the content of the file of an array starts with,
/// if it can be read so far.
pub uninterp spec fn content_start(
    data: Seq<u8>,
    name: Seq<char>,
    first: nat,
    second: nat,
    third: nat,
) -> Option<(Seq<u8>, Seq<u8>, Seq<u8>)>;

/// Whether an archive holds an array with a name, or why that cannot be told.
pub uninterp spec fn entry_found(data: Seq<u8>, name: Seq<char>) -> Result<bool, Seq<char>>;

/// The array of bytes with a name in an archive.
pub uninterp spec fn entry_u8(data: Seq<u8>, name: Seq<char>) -> Result<
    Option<Seq<u8>>,
    Seq<char>,
>;

/// The array of 16-bit integers with a name in an archive.
pub uninterp spec fn entry_u16(data: Seq<u8>, name: Seq<char>) -> Result<
    Option<Seq<u16>>,
    Seq<char>,
>;

/// The array of 64-bit integers with a name in an archive.
pub uninterp spec fn entry_u64(data: Seq<u8>, name: Seq<char>) -> Result<
    Option<Seq<u64>>,
    Seq<char>,
>;

/// The array of signed 64-bit integers with a name in an archive.
pub uninterp spec fn entry_i64(data: Seq<u8>, name: Seq<char>) -> Result<
    Option<Seq<i64>>,
    Seq<char>,
>;

/// Whether an array is the entry of an archive.
pub open spec fn is_entry<T>(
    array: ArrayRead<T>,
    entry: Result<Option<Seq<T>>, Seq<char>>,
) -> bool {
    match (array, entry) {
        (Ok(Some(values)), Ok(Some(s))) => values@ == s,
        (Ok(None), Ok(None)) => true,
        (Err(text), Err(s)) => text@ == s,
        _ => false,
    }
}

/// Opens an archive: `npyz::npz::NpzArchive::new`. Whether it does, and with which error, follows
/// from the bytes; the name stands for it.
#[verifier::external_body]
fn open_archive(data: &[u8]) -> (opened: Result<(), (bool, String)>)
    ensures
        match opened {
            Ok(()) => archive_refusal(data@) is None,
            Err((malformed, text)) => archive_refusal(data@) == Some((malformed, text@)),
        },
{
    match NpzArchive::new(Cursor::new(data)) {
        Ok(_) => Ok(()),
        Err(error) => Err((error.kind() == ErrorKind::InvalidData, error.to_string())),
    }
}

/// The longest header that is read.
pub const LONGEST: usize = 0x7FFF_FFFF;

/// Counts the entries of an archive: `zip::ZipArchive::len`. There are none in what is not an
/// archive.
#[verifier::external_body]
fn count_entries(data: &[u8]) -> (n: usize)
    ensures
        n == entry_count(data@),
{
    match NpzArchive::new(Cursor::new(data)) {
        Ok(mut archive) => archive.zip_archive().len(),
        Err(_) => 0,
    }
}

/// Finds an entry of an archive, and leaves its content alone: `zip::ZipArchive::by_index_raw`, and
/// `name` and `extra_data` of what it gives. That follows from the bytes and the index.
#[verifier::external_body]
fn read_entry(data: &[u8], index: usize) -> (entry: Option<(String, Vec<u8>)>)
    ensures
        match entry {
            Some((file, extra)) => entry_at(data@, index as nat) == Some((file@, extra@)),
            None => entry_at(data@, index as nat) is None,
        },
{
    let mut archive = NpzArchive::new(Cursor::new(data)).ok()?;
    let entry = archive.zip_archive().by_index_raw(index).ok()?;
    Some((entry.name().to_owned(), entry.extra_data().to_vec()))
}

/// Where a record of AES encryption is in some bytes: its tag, its length of seven, its version of
/// one or two, the letters of its vendor, and its strength of one to three.
pub open spec fn aes_record_at(bytes: Seq<u8>, k: int) -> bool {
    &&& 0 <= k
    &&& k + 9 <= bytes.len()
    &&& bytes[k] == 0x01
    &&& bytes[k + 1] == 0x99
    &&& bytes[k + 2] == 7
    &&& bytes[k + 3] == 0
    &&& 1 <= bytes[k + 4] <= 2
    &&& bytes[k + 5] == 0
    &&& bytes[k + 6] == 0x41
    &&& bytes[k + 7] == 0x45
    &&& 1 <= bytes[k + 8] <= 3
}

pub open spec fn has_aes_record(bytes: Seq<u8>) -> bool {
    exists|k: int| aes_record_at(bytes, k)
}

fn find_aes_record(bytes: &[u8]) -> (found: bool)
    ensures
        found == has_aes_record(bytes@),
{
    let n: usize = bytes.len();
    let mut k: usize = 0;
    while k < n && n - k >= 9
        invariant
            k <= n,
            n == bytes@.len(),
            forall|j: int| 0 <= j < k ==> !aes_record_at(bytes@, j),
        decreases n - k,
    {
        if bytes[k] == 0x01 && bytes[k + 1] == 0x99 && bytes[k + 2] == 7 && bytes[k + 3] == 0 && (
        bytes[k + 4] == 1 || bytes[k + 4] == 2) && bytes[k + 5] == 0 && bytes[k + 6] == 0x41
            && bytes[k + 7] == 0x45 && 1 <= bytes[k + 8] && bytes[k + 8] <= 3 {
            assert(aes_record_at(bytes@, k as int));
            return true;
        }
        k += 1;
    }
    false
}

/// The file of an array.
pub open spec fn file_of(name: Seq<char>) -> Seq<char> {
    name + ".npy"@
}

/// Whether an entry is the file of an array, and is said to be encrypted.
pub open spec fn is_locked_entry(entry: Option<(Seq<char>, Seq<u8>)>, name: Seq<char>) -> bool {
    entry matches Some((file, extra)) && file == file_of(name) && has_aes_record(extra)
}

/// Whether the file of an array is said to be encrypted by AES. Where the archive holds no record
/// of that, none of its entries does.
pub open spec fn entry_locked(data: Seq<u8>, name: Seq<char>) -> bool {
    has_aes_record(data) && exists|i: nat|
        i < entry_count(data) && is_locked_entry(#[trigger] entry_at(data, i), name)
}

fn is_locked(data: &[u8], aes: bool, name: &str) -> (yes: bool)
    requires
        aes == has_aes_record(data@),
    ensures
        yes == entry_locked(data@, name@),
{
    if !aes {
        return false;
    }
    let file = join2(name, ".npy");
    let n = count_entries(data);
    for i in 0..n
        invariant
            has_aes_record(data@),
            n == entry_count(data@),
            file@ == file_of(name@),
            forall|j: nat| j < i ==> !is_locked_entry(#[trigger] entry_at(data@, j), name@),
    {
        if let Some((entry, extra)) = read_entry(data, i) {
            if entry == file && find_aes_record(extra.as_slice()) {
                assert(is_locked_entry(entry_at(data@, i as nat), name@));
                return true;
            }
        }
    }
    false
}

/// Reads the start of the content of the file of an array: `std::io::Read::read_exact`, three
/// times, on what `zip::ZipArchive::by_name` gives. That follows from the bytes, the name and the
/// lengths; what is read has the lengths asked for. `by_name` fails on a file that is encrypted,
/// but for one that is said to be by AES and not by its flags, on which it panics. A run is not
/// longer than what every machine can hold in one piece.
#[verifier::external_body]
fn read_start(data: &[u8], name: &str, first: usize, second: usize, third: usize) -> (start: Option<
    (Vec<u8>, Vec<u8>, Vec<u8>),
>)
    requires
        !entry_locked(data@, name@),
        first <= LONGEST && second <= LONGEST && third <= LONGEST,
    ensures
        match start {
            Some((a, b, c)) => {
                &&& content_start(data@, name@, first as nat, second as nat, third as nat) == Some(
                    (a@, b@, c@),
                )
                &&& a@.len() == first
                &&& b@.len() == second
                &&& c@.len() == third
            },
            None => content_start(data@, name@, first as nat, second as nat, third as nat) is None,
        },
{
    let mut archive = NpzArchive::new(Cursor::new(data)).ok()?;
    let mut file = archive.zip_archive().by_name(&file_name_from_array_name(name)).ok()?;
    let (mut a, mut b, mut c) = (vec![0; first], vec![0; second], vec![0; third]);
    file.read_exact(&mut a).ok()?;
    file.read_exact(&mut b).ok()?;
    file.read_exact(&mut c).ok()?;
    Some((a, b, c))
}

/// How many bytes the length of the header of an array takes, by the first eight bytes of its file.
pub open spec fn length_size(start: Seq<u8>) -> Option<nat> {
    if start.len() == 8 && start.take(6) == seq![0x93u8, 0x4E, 0x55, 0x4D, 0x50, 0x59] && start[7]
        == 0 {
        if start[6] == 1 {
            Some(2)
        } else if start[6] == 2 || start[6] == 3 {
            Some(4)
        } else {
            None
        }
    } else {
        None
    }
}

/// The length of a header.
pub open spec fn header_length(bytes: Seq<u8>) -> nat {
    if bytes.len() == 2 {
        le16(bytes, 0) as nat
    } else {
        le32(bytes, 0) as nat
    }
}

/// How many bytes the length of the header of an array takes, and the length, if they are there.
/// They are read as npyz reads them: eight bytes, and the length.
pub open spec fn header_size(data: Seq<u8>, name: Seq<char>) -> Option<(nat, nat)> {
    match content_start(data, name, 8, 0, 0) {
        Some((start, _, _)) => match length_size(start) {
            Some(k) => match content_start(data, name, 8, k, 0) {
                Some((_, length, _)) => Some((k, header_length(length))),
                None => None,
            },
            None => None,
        },
        None => None,
    }
}

/// Whether the header of an array can be taken apart, if it is there.
pub open spec fn is_readable(data: Seq<u8>, name: Seq<char>) -> bool {
    match header_size(data, name) {
        Some((k, n)) => n <= LONGEST && match content_start(data, name, 8, k, n) {
            Some((_, _, text)) => tame_header(text),
            None => true,
        },
        None => true,
    }
}

fn read_length_size(start: &[u8]) -> (size: Option<usize>)
    requires
        start@.len() == 8,
    ensures
        match size {
            Some(k) => length_size(start@) == Some(k as nat) && (k == 2 || k == 4),
            None => length_size(start@) is None,
        },
{
    let magic = start[0] == 0x93 && start[1] == 0x4E && start[2] == 0x55 && start[3] == 0x4D
        && start[4] == 0x50 && start[5] == 0x59;
    let ghost letters = seq![0x93u8, 0x4E, 0x55, 0x4D, 0x50, 0x59];
    proof {
        if magic {
            assert(start@.take(6) =~= letters);
        } else if start@.take(6) == letters {
            assert(start@.take(6)[0] == letters[0] && start@.take(6)[1] == letters[1]);
            assert(start@.take(6)[2] == letters[2] && start@.take(6)[3] == letters[3]);
            assert(start@.take(6)[4] == letters[4] && start@.take(6)[5] == letters[5]);
        }
    }
    if !magic || start[7] != 0 {
        None
    } else if start[6] == 1 {
        Some(2)
    } else if start[6] == 2 || start[6] == 3 {
        Some(4)
    } else {
        None
    }
}

fn read_header_size(data: &[u8], name: &str) -> (size: Option<(usize, usize)>)
    requires
        !entry_locked(data@, name@),
    ensures
        match size {
            Some((k, n)) => header_size(data@, name@) == Some((k as nat, n as nat)) && k <= 4,
            None => header_size(data@, name@) is None,
        },
{
    let (start, _, _) = read_start(data, name, 8, 0, 0)?;
    let k = read_length_size(start.as_slice())?;
    let (_, length, _) = read_start(data, name, 8, k, 0)?;
    let n = if k == 2 {
        length[0] as usize + 0x100 * length[1] as usize
    } else {
        read_u32(length.as_slice(), 0) as usize
    };
    Some((k, n))
}

fn can_be_read(data: &[u8], name: &str) -> (yes: bool)
    requires
        !entry_locked(data@, name@),
    ensures
        yes == is_readable(data@, name@),
{
    match read_header_size(data, name) {
        Some((k, n)) => n <= LONGEST && match read_start(data, name, 8, k, n) {
            Some((_, _, text)) => is_tame(text.as_slice()),
            None => true,
        },
        None => true,
    }
}

/// Why an array is not looked at, if it is not.
pub open spec fn refusal(data: Seq<u8>, name: Seq<char>) -> Option<Seq<char>> {
    if entry_locked(data, name) {
        Some("Password required to decrypt file"@)
    } else if !is_readable(data, name) {
        Some("array header is nested too deeply or its sizes are too large"@)
    } else {
        None
    }
}

fn refuse(data: &[u8], aes: bool, name: &str) -> (text: Option<String>)
    requires
        aes == has_aes_record(data@),
    ensures
        match text {
            Some(t) => refusal(data@, name@) == Some(t@),
            None => refusal(data@, name@) is None,
        },
{
    if is_locked(data, aes, name) {
        Some("Password required to decrypt file".to_owned())
    } else if !can_be_read(data, name) {
        Some("array header is nested too deeply or its sizes are too large".to_owned())
    } else {
        None
    }
}

/// Looks for an array: `npyz::npz::NpzArchive::by_name`. What it finds follows from the bytes and
/// the name of the array. The header of the array is parsed by the py_literal crate, here and
/// below: it has no more levels than that can go over, and the product of the sizes in it fits in
/// 64 bits.
#[verifier::external_body]
fn find_array(data: &[u8], name: &str) -> (found: Result<bool, String>)
    requires
        refusal(data@, name@) is None,
    ensures
        match found {
            Ok(yes) => entry_found(data@, name@) == Ok::<bool, Seq<char>>(yes),
            Err(text) => entry_found(data@, name@) == Err::<bool, Seq<char>>(text@),
        },
{
    let mut archive = NpzArchive::new(Cursor::new(data)).map_err(|error| error.to_string())?;
    let found = archive.by_name(name).map_err(|error| error.to_string())?;
    Ok(found.is_some())
}

/// Reads an array of bytes: `npyz::NpyFile::into_vec` of the array with a name. What it gives
/// follows from the bytes of the archive and the name of the array.
#[verifier::external_body]
fn array_u8(data: &[u8], name: &str) -> (array: ArrayRead<u8>)
    requires
        refusal(data@, name@) is None,
    ensures
        is_entry(array, entry_u8(data@, name@)),
{
    let mut archive = NpzArchive::new(Cursor::new(data)).map_err(|error| error.to_string())?;
    let found = archive.by_name(name).map_err(|error| error.to_string())?;
    found.map(|npy| npy.into_vec::<u8>()).transpose().map_err(|error| error.to_string())
}

/// Reads an array of 16-bit integers: `npyz::NpyFile::into_vec` of the array with a name. What it
/// gives follows from the bytes of the archive and the name of the array.
#[verifier::external_body]
fn array_u16(data: &[u8], name: &str) -> (array: ArrayRead<u16>)
    requires
        refusal(data@, name@) is None,
    ensures
        is_entry(array, entry_u16(data@, name@)),
{
    let mut archive = NpzArchive::new(Cursor::new(data)).map_err(|error| error.to_string())?;
    let found = archive.by_name(name).map_err(|error| error.to_string())?;
    found.map(|npy| npy.into_vec::<u16>()).transpose().map_err(|error| error.to_string())
}

/// Reads an array of 64-bit integers: `npyz::NpyFile::into_vec` of the array with a name. What it
/// gives follows from the bytes of the archive and the name of the array.
#[verifier::external_body]
fn array_u64(data: &[u8], name: &str) -> (array: ArrayRead<u64>)
    requires
        refusal(data@, name@) is None,
    ensures
        is_entry(array, entry_u64(data@, name@)),
{
    let mut archive = NpzArchive::new(Cursor::new(data)).map_err(|error| error.to_string())?;
    let found = archive.by_name(name).map_err(|error| error.to_string())?;
    found.map(|npy| npy.into_vec::<u64>()).transpose().map_err(|error| error.to_string())
}

/// Reads an array of signed 64-bit integers: `npyz::NpyFile::into_vec` of the array with a name.
/// What it gives follows from the bytes of the archive and the name of the array.
#[verifier::external_body]
fn array_i64(data: &[u8], name: &str) -> (array: ArrayRead<i64>)
    requires
        refusal(data@, name@) is None,
    ensures
        is_entry(array, entry_i64(data@, name@)),
{
    let mut archive = NpzArchive::new(Cursor::new(data)).map_err(|error| error.to_string())?;
    let found = archive.by_name(name).map_err(|error| error.to_string())?;
    found.map(|npy| npy.into_vec::<i64>()).transpose().map_err(|error| error.to_string())
}

/// Whether an archive holds an array with a name, or why that cannot be told.
pub open spec fn holds_array(data: Seq<u8>, name: Seq<char>) -> Result<bool, Seq<char>> {
    match refusal(data, name) {
        Some(text) => Err(text),
        None => entry_found(data, name),
    }
}

/// The array of bytes with a name in an archive, or why it cannot be read.
pub open spec fn held_u8(data: Seq<u8>, name: Seq<char>) -> Result<Option<Seq<u8>>, Seq<char>> {
    match refusal(data, name) {
        Some(text) => Err(text),
        None => entry_u8(data, name),
    }
}

/// The array of 16-bit integers with a name in an archive, or why it cannot be read.
pub open spec fn held_u16(data: Seq<u8>, name: Seq<char>) -> Result<Option<Seq<u16>>, Seq<char>> {
    match refusal(data, name) {
        Some(text) => Err(text),
        None => entry_u16(data, name),
    }
}

/// The array of 64-bit integers with a name in an archive, or why it cannot be read.
pub open spec fn held_u64(data: Seq<u8>, name: Seq<char>) -> Result<Option<Seq<u64>>, Seq<char>> {
    match refusal(data, name) {
        Some(text) => Err(text),
        None => entry_u64(data, name),
    }
}

/// The array of signed 64-bit integers with a name in an archive, or why it cannot be read.
pub open spec fn held_i64(data: Seq<u8>, name: Seq<char>) -> Result<Option<Seq<i64>>, Seq<char>> {
    match refusal(data, name) {
        Some(text) => Err(text),
        None => entry_i64(data, name),
    }
}

/// Whether an archive holds an array, unless the array is not looked at.
fn has_array(data: &[u8], aes: bool, name: &str) -> (found: Result<bool, String>)
    requires
        aes == has_aes_record(data@),
    ensures
        match found {
            Ok(yes) => holds_array(data@, name@) == Ok::<bool, Seq<char>>(yes),
            Err(text) => holds_array(data@, name@) == Err::<bool, Seq<char>>(text@),
        },
{
    match refuse(data, aes, name) {
        Some(text) => Err(text),
        None => find_array(data, name),
    }
}

fn read_u8(data: &[u8], aes: bool, name: &str) -> (array: ArrayRead<u8>)
    requires
        aes == has_aes_record(data@),
    ensures
        is_entry(array, held_u8(data@, name@)),
{
    match refuse(data, aes, name) {
        Some(text) => Err(text),
        None => array_u8(data, name),
    }
}

fn read_u16(data: &[u8], aes: bool, name: &str) -> (array: ArrayRead<u16>)
    requires
        aes == has_aes_record(data@),
    ensures
        is_entry(array, held_u16(data@, name@)),
{
    match refuse(data, aes, name) {
        Some(text) => Err(text),
        None => array_u16(data, name),
    }
}

fn read_u64(data: &[u8], aes: bool, name: &str) -> (array: ArrayRead<u64>)
    requires
        aes == has_aes_record(data@),
    ensures
        is_entry(array, held_u64(data@, name@)),
{
    match refuse(data, aes, name) {
        Some(text) => Err(text),
        None => array_u64(data, name),
    }
}

fn read_i64(data: &[u8], aes: bool, name: &str) -> (array: ArrayRead<i64>)
    requires
        aes == has_aes_record(data@),
    ensures
        is_entry(array, held_i64(data@, name@)),
{
    match refuse(data, aes, name) {
        Some(text) => Err(text),
        None => array_i64(data, name),
    }
}

/// What is wrong with bytes that are not an archive.
pub open spec fn archive_fault(data: Seq<u8>) -> Option<Fault> {
    match archive_refusal(data) {
        Some((malformed, text)) => Some(
            if malformed {
                Fault::Malformed(text)
            } else {
                Fault::Unreadable(text)
            },
        ),
        None => None,
    }
}

fn check_archive(data: &[u8]) -> (checked: Result<(), IoError>)
    ensures
        match checked {
            Ok(()) => archive_fault(data@) is None,
            Err(e) => archive_fault(data@) is Some && reports(e, archive_fault(data@)->0),
        },
{
    match open_archive(data) {
        Ok(()) => Ok(()),
        Err((malformed, text)) => if malformed {
            Err(IoError::Format(text))
        } else {
            Err(IoError::Io(text))
        },
    }
}

/// Whether arrays are those of the stream of an archive. The scale of its clock comes from
/// elsewhere.
pub open spec fn are_columns(a: NativeArrays, data: Seq<u8>, scale: ArrayRead<u64>) -> bool {
    &&& is_entry(a.x, held_u16(data, "x"@))
    &&& is_entry(a.y, held_u16(data, "y"@))
    &&& is_entry(a.t, held_i64(data, "t"@))
    &&& is_entry(a.p, held_u8(data, "p"@))
    &&& a.timestamp_scale_ms == scale
    &&& is_entry(a.width, held_u64(data, "width"@))
    &&& is_entry(a.height, held_u64(data, "height"@))
}

/// The array of events of the N-ImageNet layout: its shape, and its records up to the first that
/// cannot be read with the reason why it cannot; or the reason why there are none.
pub struct EventData {
    pub shape: Vec<u64>,
    pub records: Result<(Vec<NImageNetEvent>, Option<String>), String>,
}

/// Reads the stream of an archive: of the N-ImageNet layout if there is an array of events, and of
/// the layout with one array per column otherwise. The array of events and the scale of the clock
/// are given.
pub fn read_npz(
    data: &[u8],
    event_data: EventData,
    scale: ArrayRead<u64>,
    sensor: Option<(usize, usize)>,
) -> (stream: Result<EventStream, IoError>)
    ensures
        match archive_fault(data@) {
            Some(fault) => stream matches Err(e) && reports(e, fault),
            None => match holds_array(data@, "event_data"@) {
                Err(text) => stream matches Err(e) && reports(e, Fault::Unreadable(text)),
                Ok(true) => n_imagenet_outcome(
                    event_data.shape@,
                    event_data.records,
                    sensor,
                    stream,
                ),
                Ok(false) => exists|a: NativeArrays| #[trigger]
                    are_columns(a, data@, scale) && native_outcome(a, sensor, stream),
            },
        },
{
    match check_archive(data) {
        Ok(()) => {},
        Err(error) => {
            return Err(error);
        },
    }
    let aes = find_aes_record(data);
    match has_array(data, aes, "event_data") {
        Ok(true) => read_n_imagenet(event_data.shape.as_slice(), event_data.records, sensor),
        Ok(false) => {
            let arrays = NativeArrays {
                x: read_u16(data, aes, "x"),
                y: read_u16(data, aes, "y"),
                t: read_i64(data, aes, "t"),
                p: read_u8(data, aes, "p"),
                timestamp_scale_ms: scale,
                width: read_u64(data, aes, "width"),
                height: read_u64(data, aes, "height"),
            };
            assert(are_columns(arrays, data@, scale));
            let ghost given = arrays;
            let stream = read_native_stream(arrays, sensor);
            assert(native_outcome(given, sensor, stream));
            stream
        },
        Err(text) => Err(IoError::Io(text)),
    }
}

/// Whether arrays are those of the frame of an archive. Samples with a fraction come from
/// elsewhere.
pub open spec fn are_parts(a: FrameArrays, data: Seq<u8>, data_f32: ArrayRead<u32>) -> bool {
    &&& is_entry(a.shape, held_u64(data, "shape"@))
    &&& is_entry(a.kind, held_u8(data, "kind"@))
    &&& is_entry(a.channel_names, held_u8(data, "channel_names"@))
    &&& is_entry(a.dtype, held_u8(data, "dtype"@))
    &&& is_entry(a.data_u8, held_u8(data, "data"@))
    &&& is_entry(a.data_u16, held_u16(data, "data"@))
    &&& is_entry(a.data_u64, held_u64(data, "data"@))
    &&& a.data_f32 == data_f32
}

/// Reads the frame of an archive. Samples with a fraction are given by their bit patterns.
pub fn read_npz_frame(data: &[u8], data_f32: ArrayRead<u32>) -> (frame: Result<EventFrame, IoError>)
    ensures
        match archive_fault(data@) {
            Some(fault) => frame matches Err(e) && reports(e, fault),
            None => exists|a: FrameArrays| #[trigger]
                are_parts(a, data@, data_f32) && frame_outcome(a, frame),
        },
{
    match check_archive(data) {
        Ok(()) => {},
        Err(error) => {
            return Err(error);
        },
    }
    let aes = find_aes_record(data);
    let arrays = FrameArrays {
        shape: read_u64(data, aes, "shape"),
        kind: read_u8(data, aes, "kind"),
        channel_names: read_u8(data, aes, "channel_names"),
        dtype: read_u8(data, aes, "dtype"),
        data_u8: read_u8(data, aes, "data"),
        data_u16: read_u16(data, aes, "data"),
        data_u64: read_u64(data, aes, "data"),
        data_f32,
    };
    assert(are_parts(arrays, data@, data_f32));
    let ghost given = arrays;
    let frame = build_frame(arrays);
    assert(frame_outcome(given, frame));
    frame
}

} // verus!
