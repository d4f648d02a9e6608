//! Taking one file out of a release archive.

use std::io::Read;

use vstd::prelude::*;

use crate::chars::{ends_with, has_suffix, to_chars};

verus! {

/// What a gzip file unpacks to: the bytes that come out of it when they are read one by
/// one, and whether an error cuts them off.
pub uninterp spec fn unpacked(tgz: Seq<u8>) -> (Seq<u8>, bool);

/// The path of the `n`th entry of the tar archive `tar`, which an error cuts off where
/// `cut`: `Ok(None)` past the last one, and an error where the archive cannot be read that
/// far.
pub uninterp spec fn archived_path(tar: Seq<u8>, cut: bool, n: nat) -> Result<
    Option<Seq<char>>,
    (),
>;

/// The contents of the `n`th entry of the same archive, where they can be read.
pub uninterp spec fn archived_contents(tar: Seq<u8>, cut: bool, n: nat) -> Result<Seq<u8>, ()>;

/// The size of a header in a tar archive, which every header starts at a multiple of.
pub const BLOCK: usize = 512;

/// A header's format, as GNU tar writes it in the middle of it.
pub const GNU_FORMAT: [u8; 8] = [117, 115, 116, 97, 114, 32, 32, 0];

/// What stands before the size in the extended header of an entry.
pub const SIZE_KEY: [u8; 5] = [115, 105, 122, 101, 61];

/// The smallest size that is too large to be counted from any place in an archive.
pub const VAST: u64 = 0x8000_0000_0000_0000;

/// Whether the `b`th block of `tar` can be the header of a sparse file, in GNU tar's
/// format, that has further headers.
pub open spec fn is_long_sparse(tar: Seq<u8>, b: int) -> bool {
    let at = BLOCK * b;
    &&& 0 <= at && at + BLOCK <= tar.len()
    &&& tar[at + 156] == 83
    &&& tar.subrange(at + 257, at + 265) == GNU_FORMAT@
    &&& tar[at + 482] == 1
}

/// Whether the `b`th block of `tar`, read as a header, claims a vast size: in binary, with
/// the top bit of the eight bytes set. In octal digits there is no room for one.
pub open spec fn claims_vast(tar: Seq<u8>, b: int) -> bool {
    let at = BLOCK * b;
    tar[at + 124] >= 128 && tar[at + 128] >= 128
}

/// The decimal number whose digits go on at `k`, `value` being that of the digits so far.
pub open spec fn number_from(s: Seq<u8>, k: int, value: nat) -> nat
    decreases s.len() - k,
{
    if 0 <= k < s.len() && 48 <= s[k] <= 57 {
        number_from(s, k + 1, value * 10 + (s[k] - 48) as nat)
    } else {
        value
    }
}

/// Where the digits of a number at `k` start: it may have a plus sign.
pub open spec fn digits_at(s: Seq<u8>, k: int) -> int {
    if k < s.len() && s[k] == 43 {
        k + 1
    } else {
        k
    }
}

/// Whether what can be an extended header names a vast size at `j`.
pub open spec fn names_vast(tar: Seq<u8>, j: int) -> bool {
    &&& 0 <= j && j + 5 <= tar.len()
    &&& tar.subrange(j, j + 5) == SIZE_KEY@
    &&& number_from(tar, digits_at(tar, j + 5), 0) >= VAST
}

/// Whether no header of a sparse file that has further headers has a vast size, be it its
/// own claim or that of an extended header before it.
pub open spec fn all_sizes_fit(tar: Seq<u8>) -> bool {
    forall|b: int| #[trigger]
        is_long_sparse(tar, b) ==> !claims_vast(tar, b) && forall|j: int|
            0 <= j < BLOCK * b ==> !#[trigger] names_vast(tar, j)
}

/// What reading a path came to.
pub open spec fn path_heard(r: Result<Option<String>, String>) -> Result<Option<Seq<char>>, ()> {
    match r {
        Ok(Some(path)) => Ok(Some(path@)),
        Ok(None) => Ok(None),
        Err(_) => Err(()),
    }
}

/// What reading an entry came to.
pub open spec fn contents_heard(r: Result<Vec<u8>, String>) -> Result<Seq<u8>, ()> {
    match r {
        Ok(bytes) => Ok(bytes@),
        Err(_) => Err(()),
    }
}

/// The bytes that `flate2::read::GzDecoder` gives, read one at a time with
/// `std::io::Read::bytes` up to its end or the first error, and whether it was an error.
/// That is a function of the bytes it is given. Reading one at a time makes it so: what is
/// lost to an error depends on how much is asked for at once.
#[verifier::external_body]
fn unpack(tgz: &Vec<u8>) -> (r: (Vec<u8>, bool))
    ensures
        (r.0@, r.1) == unpacked(tgz@),
{
    let mut cut = false;
    let decoder = flate2::read::GzDecoder::new(tgz.as_slice());
    let bytes = decoder.bytes().map_while(|byte| byte.map_err(|_| cut = true).ok()).collect();
    (bytes, cut)
}

/// The path that `tar::Entry::path` gives for the `n`th entry that
/// `tar::Archive::entries` yields of `tar`, with invalid Unicode replaced. Where `cut`,
/// what `tar` is read from fails at its end: an empty file is no gzip file, and one byte
/// is asked of it. All of it is a function of the bytes; which message an error has is
/// left open. Reading the further headers of a sparse file, the crate counts on from where
/// the file ends, which overflows where the file claims a vast size: such archives are not
/// given to it. With sizes below [`VAST`] every count is less than twice that, as an
/// archive in memory is shorter.
#[verifier::external_body]
fn entry_path(tar: &Vec<u8>, cut: bool, n: usize) -> (r: Result<Option<String>, String>)
    requires
        all_sizes_fit(tar@),
    ensures
        path_heard(r) == archived_path(tar@, cut, n as nat),
{
    let end = flate2::read::GzDecoder::new([].as_slice()).take(cut as u64);
    let mut archive = tar::Archive::new(tar.as_slice().chain(end));
    let mut entries = match archive.entries() {
        Ok(entries) => entries,
        Err(e) => return Err(e.to_string()),
    };
    match entries.nth(n) {
        None => Ok(None),
        Some(Err(e)) => Err(e.to_string()),
        Some(Ok(entry)) => match entry.path() {
            Ok(path) => Ok(Some(path.to_string_lossy().into_owned())),
            Err(e) => Err(e.to_string()),
        },
    }
}

/// The bytes that reading the `n`th entry of the same archive to its end gives. Asking for
/// an entry that is not there is an error. The same archives are left out.
#[verifier::external_body]
fn entry_contents(tar: &Vec<u8>, cut: bool, n: usize) -> (r: Result<Vec<u8>, String>)
    requires
        all_sizes_fit(tar@),
    ensures
        contents_heard(r) == archived_contents(tar@, cut, n as nat),
{
    let end = flate2::read::GzDecoder::new([].as_slice()).take(cut as u64);
    let mut archive = tar::Archive::new(tar.as_slice().chain(end));
    let mut bytes = Vec::new();
    let read = match archive.entries().map(|mut entries| entries.nth(n)) {
        Ok(Some(entry)) => entry.and_then(|mut entry| entry.read_to_end(&mut bytes)),
        Ok(None) => return Err(String::new()),
        Err(e) => Err(e),
    };
    match read {
        Ok(_) => Ok(bytes),
        Err(e) => Err(e.to_string()),
    }
}

/// Whether the `b`th block of `tar`, which starts at `at`, can be the header of a sparse
/// file that has further headers.
fn long_sparse(tar: &Vec<u8>, at: usize, Ghost(b): Ghost<int>) -> (r: bool)
    requires
        at == BLOCK * b,
        at + BLOCK <= tar@.len(),
    ensures
        r == is_long_sparse(tar@, b),
{
    if tar[at + 156] != 83 || tar[at + 482] != 1 {
        return false;
    }
    stands_at(tar, at + 257, &GNU_FORMAT)
}

/// Whether `what` stands at `at` in `tar`.
fn stands_at(tar: &Vec<u8>, at: usize, what: &[u8]) -> (r: bool)
    requires
        at + what@.len() <= tar@.len(),
    ensures
        r == (tar@.subrange(at as int, at + what@.len()) == what@),
{
    let ghost there = tar@.subrange(at as int, at + what@.len());
    let len = tar.len();
    let mut k: usize = 0;
    while k < what.len()
        invariant
            k <= what@.len(),
            at + what@.len() <= len == tar@.len(),
            there == tar@.subrange(at as int, at + what@.len()),
            forall|i: int| 0 <= i < k ==> #[trigger] there[i] == what@[i],
        decreases what@.len() - k,
    {
        if tar[at + k] != what[k] {
            assert(there[k as int] != what@[k as int]);
            return false;
        }
        k += 1;
    }
    assert(there =~= what@);
    true
}

/// More digits make no number smaller.
proof fn lemma_number_grows(s: Seq<u8>, k: int, value: nat)
    ensures
        number_from(s, k, value) >= value,
    decreases s.len() - k,
{
    if 0 <= k < s.len() && 48 <= s[k] <= 57 {
        lemma_number_grows(s, k + 1, value * 10 + (s[k] - 48) as nat);
    }
}

/// Whether what can be an extended header names a vast size at `j`.
fn vast_at(tar: &Vec<u8>, j: usize) -> (r: bool)
    ensures
        r == names_vast(tar@, j as int),
{
    if tar.len() < 5 || j > tar.len() - 5 || !stands_at(tar, j, &SIZE_KEY) {
        return false;
    }
    let mut k: usize = j + 5;
    if k < tar.len() && tar[k] == 43 {
        k += 1;
    }
    let ghost from = k as int;
    let mut value: u64 = 0;
    while k < tar.len() && 48 <= tar[k] && tar[k] <= 57
        invariant
            0 <= from <= k <= tar@.len(),
            j + 5 <= tar@.len(),
            tar@.subrange(j as int, j + 5) == SIZE_KEY@,
            from == digits_at(tar@, j + 5),
            value < VAST,
            number_from(tar@, k as int, value as nat) == number_from(tar@, from, 0),
        decreases tar@.len() - k,
    {
        let digit = tar[k] - 48;
        if value > (VAST - 1 - digit as u64) / 10 {
            proof {
                lemma_number_grows(tar@, k + 1, (value * 10 + digit) as nat);
            }
            return true;
        }
        value = value * 10 + digit as u64;
        k += 1;
    }
    false
}

/// Whether no header of a sparse file that has further headers has a vast size.
pub fn sizes_fit(tar: &Vec<u8>) -> (r: bool)
    ensures
        r == all_sizes_fit(tar@),
{
    let mut at: usize = 0;
    let mut seen: usize = 0;
    let ghost mut b: int = 0;
    while tar.len() - at >= BLOCK
        invariant
            0 <= b,
            at == BLOCK * b,
            at <= tar@.len(),
            seen <= at,
            forall|j: int| 0 <= j < seen ==> !#[trigger] names_vast(tar@, j),
            forall|k: int|
                0 <= k < b && #[trigger] is_long_sparse(tar@, k) ==> !claims_vast(tar@, k)
                    && BLOCK * k <= seen,
        decreases tar@.len() - at,
    {
        if long_sparse(tar, at, Ghost(b)) {
            if tar[at + 124] >= 128 && tar[at + 128] >= 128 {
                assert(claims_vast(tar@, b));
                return false;
            }
            while seen < at
                invariant
                    seen <= at,
                    at == BLOCK * b,
                    is_long_sparse(tar@, b),
                    forall|j: int| 0 <= j < seen ==> !#[trigger] names_vast(tar@, j),
                decreases at - seen,
            {
                if vast_at(tar, seen) {
                    return false;
                }
                seen += 1;
            }
        }
        at += BLOCK;
        proof {
            b = b + 1;
        }
    }
    assert forall|k: int| #[trigger] is_long_sparse(tar@, k) implies !claims_vast(tar@, k)
        && forall|j: int| 0 <= j < BLOCK * k ==> !#[trigger] names_vast(tar@, j) by {
        assert(0 <= k < b);
    }
    true
}

/// What looking for a file in an archive came to.
#[derive(Debug)]
pub enum Extracted {
    /// The file's contents.
    Found(Vec<u8>),
    /// The archive does not hold it.
    Missing,
    /// The archive could not be read, for this reason.
    Unreadable(String),
    /// The archive has more entries than can be counted.
    Endless,
}

/// Whether the entries of an archive before the `n`th are there, and none of them is
/// the one `wanted`.
pub open spec fn none_before(tar: Seq<u8>, cut: bool, wanted: Seq<char>, n: nat) -> bool {
    forall|k: nat|
        k < n ==> (#[trigger] archived_path(tar, cut, k) matches Ok(Some(path)) && !ends_with(
            path,
            wanted,
        ))
}

/// Whether `r` is what looking for the first entry of `tar` whose path ends with `wanted`
/// comes to.
pub open spec fn is_search(tar: Seq<u8>, cut: bool, wanted: Seq<char>, r: Extracted) -> bool {
    match r {
        Extracted::Found(bytes) => exists|n: nat|
            {
                &&& none_before(tar, cut, wanted, n)
                &&& #[trigger] archived_path(tar, cut, n) matches Ok(Some(path)) && ends_with(
                    path,
                    wanted,
                )
                &&& archived_contents(tar, cut, n) == Ok::<Seq<u8>, ()>(bytes@)
            },
        Extracted::Missing => exists|n: nat|
            none_before(tar, cut, wanted, n) && #[trigger] archived_path(tar, cut, n) == Ok::<
                _,
                (),
            >(None::<Seq<char>>),
        Extracted::Unreadable(_) => exists|n: nat|
            {
                &&& none_before(tar, cut, wanted, n)
                &&& match #[trigger] archived_path(tar, cut, n) {
                    Err(_) => true,
                    Ok(Some(path)) => ends_with(path, wanted) && archived_contents(
                        tar,
                        cut,
                        n,
                    ) is Err,
                    Ok(None) => false,
                }
            },
        Extracted::Endless => none_before(tar, cut, wanted, usize::MAX as nat),
    }
}

/// What is said of an archive with a sparse file that claims a vast size.
pub const VAST_ENTRY: &'static str = "an entry of the archive claims an impossible size";

/// Whether `r` is what looking for the first entry of a gzipped tar archive whose path ends
/// with `wanted` comes to. An archive with a sparse file of a vast size is not looked into.
pub open spec fn is_extraction(tgz: Seq<u8>, wanted: Seq<char>, r: Extracted) -> bool {
    let (tar, cut) = unpacked(tgz);
    if all_sizes_fit(tar) {
        is_search(tar, cut, wanted, r)
    } else {
        r matches Extracted::Unreadable(message) && message@ == VAST_ENTRY@
    }
}

/// Takes the first file whose path ends with `wanted` out of a gzipped tar archive.
/// The path is matched as a suffix, as archives differ in what they put before it.
pub fn extract(tgz: &Vec<u8>, wanted: &str) -> (r: Extracted)
    ensures
        is_extraction(tgz@, wanted@, r),
{
    let (tar, cut) = unpack(tgz);
    if !sizes_fit(&tar) {
        return Extracted::Unreadable(VAST_ENTRY.to_owned());
    }
    search(&tar, cut, wanted)
}

/// Takes the first file whose path ends with `wanted` out of the tar archive `tar`, which
/// an error cuts off where `cut`.
pub fn search(tar: &Vec<u8>, cut: bool, wanted: &str) -> (r: Extracted)
    requires
        all_sizes_fit(tar@),
    ensures
        is_search(tar@, cut, wanted@, r),
{
    let suffix = to_chars(wanted);
    let mut n: usize = 0;
    while n < usize::MAX
        invariant
            suffix@ == wanted@,
            all_sizes_fit(tar@),
            none_before(tar@, cut, wanted@, n as nat),
        decreases usize::MAX - n,
    {
        match entry_path(tar, cut, n) {
            Err(message) => {
                assert(archived_path(tar@, cut, n as nat) is Err);
                return Extracted::Unreadable(message);
            },
            Ok(None) => {
                assert(archived_path(tar@, cut, n as nat) == Ok::<_, ()>(None::<Seq<char>>));
                return Extracted::Missing;
            },
            Ok(Some(path)) => {
                assert(archived_path(tar@, cut, n as nat) == Ok::<_, ()>(Some(path@)));
                if has_suffix(&to_chars(&path), &suffix) {
                    return match entry_contents(tar, cut, n) {
                        Ok(bytes) => Extracted::Found(bytes),
                        Err(message) => Extracted::Unreadable(message),
                    };
                }
            },
        }
        n += 1;
    }
    Extracted::Endless
}

/// Where the shared library `name` is in a release archive.
pub open spec fn member_path(name: Seq<char>) -> Seq<char> {
    "lib/"@ + name
}

/// What is said where an archive from `url` does not hold the file `wanted`.
pub open spec fn not_present(wanted: Seq<char>, url: Seq<char>) -> Seq<char> {
    wanted + " was not present in "@ + url
}

/// Where the shared library `name` is in a release archive.
pub fn member_of(name: &str) -> (r: String)
    ensures
        r@ == member_path(name@),
{
    let mut path = "lib/".to_owned();
    path.append(name);
    path
}

/// What is said of an archive with more entries than can be counted.
pub const ENDLESS: &'static str = "the archive does not end";

/// The shared library `name` out of the release archive `tgz`, which came from
/// `url`, or why it cannot be had.
pub fn runtime_library(tgz: &Vec<u8>, name: &str, url: &str) -> (r: Result<Vec<u8>, String>)
    ensures
        exists|e: Extracted| #[trigger]
            is_extraction(tgz@, member_path(name@), e) && match (e, r) {
                (Extracted::Found(bytes), Ok(library)) => library@ == bytes@,
                (Extracted::Missing, Err(message)) => message@ == not_present(
                    member_path(name@),
                    url@,
                ),
                (Extracted::Unreadable(reason), Err(message)) => message@ == reason@,
                (Extracted::Endless, Err(message)) => message@ == ENDLESS@,
                _ => false,
            },
{
    let wanted = member_of(name);
    let e = extract(tgz, &wanted);
    let ghost whole = e;
    assert(is_extraction(tgz@, member_path(name@), whole));
    match e {
        Extracted::Found(bytes) => Ok(bytes),
        Extracted::Missing => {
            let mut message = wanted.clone();
            message.append(" was not present in ");
            message.append(url);
            Err(message)
        },
        Extracted::Unreadable(reason) => Err(reason),
        Extracted::Endless => Err(ENDLESS.to_owned()),
    }
}

} // verus!
