//! Small utilities: the current time, random names, hex decoding and path helpers.
//!
//! Paths of the file system are given here as their components: the root `/`, `.`, `..` and
//! plain names.

use rand::Rng;
use std::time::{Duration, SystemTime, SystemTimeError};
use vstd::prelude::*;
use vstd::string::*;
use crate::path::{names_skip, names_start_with, spec_location_parent};

verus! {

/// A point in time of the system clock.
#[verifier::external_type_specification]
#[verifier::external_body]
pub struct ExSystemTime(SystemTime);

/// The error of a time before the point it is measured from.
#[verifier::external_type_specification]
#[verifier::external_body]
pub struct ExSystemTimeError(SystemTimeError);

/// Calls `std::time::SystemTime::now`: the current time of the system clock, which nothing
/// here can state.
#[verifier::external_body]
fn time_now() -> SystemTime {
    SystemTime::now()
}

/// Calls `SystemTime::duration_since` with `std::time::UNIX_EPOCH`: the time elapsed since the
/// Unix epoch, or an error if `t` is before it; which of the two comes depends on the clock.
#[verifier::external_body]
fn since_epoch(t: &SystemTime) -> Result<Duration, SystemTimeError> {
    t.duration_since(std::time::UNIX_EPOCH)
}

/// Calls `Duration::as_secs`: the whole seconds of `d`, which is opaque here.
#[verifier::external_body]
fn whole_seconds(d: &Duration) -> u64 {
    d.as_secs()
}

/// The seconds since the Unix epoch, given the whole seconds elapsed since then, or none
/// when the time lies before the epoch: 0 in that case.
pub fn seconds_since_epoch(elapsed: Option<u64>) -> (r: u64)
    ensures
        r == match elapsed {
            Some(s) => s,
            None => 0,
        },
{
    match elapsed {
        Some(s) => s,
        None => 0,
    }
}

/// The current time in seconds since the Unix epoch; 0 if the current time is before the epoch
/// (`seconds_since_epoch` of what the clock gives).
pub fn get_time() -> u64 {
    let elapsed = match since_epoch(&time_now()) {
        Ok(d) => Some(whole_seconds(&d)),
        Err(_) => None,
    };
    seconds_since_epoch(elapsed)
}

/// Whether `c` is an ASCII letter or digit.
pub open spec fn is_ascii_alphanumeric(c: char) -> bool {
    ('A' <= c && c <= 'Z') || ('a' <= c && c <= 'z') || ('0' <= c && c <= '9')
}

/// Calls `rand::thread_rng().sample_iter(&rand::distributions::Alphanumeric)` for `len`
/// samples: each sample is one of the 62 ASCII letters and digits, drawn at random.
#[verifier::external_body]
fn random_alphanumeric(len: usize) -> (r: String)
    ensures
        r@.len() == len,
        forall|i: int| 0 <= i < len ==> is_ascii_alphanumeric(#[trigger] r@[i]),
{
    rand::thread_rng().sample_iter(&rand::distributions::Alphanumeric).take(len).map(char::from).collect()
}

/// A name made of `prefix` followed by `len` random ASCII letters and digits.
pub fn random_name(prefix: &str, len: usize) -> (r: String)
    ensures
        r@.len() == prefix@.len() + len,
        r@.take(prefix@.len() as int) == prefix@,
        forall|i: int| prefix@.len() <= i < r@.len() ==> is_ascii_alphanumeric(#[trigger] r@[i]),
{
    let suffix = random_alphanumeric(len);
    let name = prefix.to_owned().concat(suffix.as_str());
    proof {
        assert(name@.take(prefix@.len() as int) =~= prefix@);
        assert forall|i: int| prefix@.len() <= i < name@.len() implies is_ascii_alphanumeric(#[trigger] name@[i]) by {
            assert(name@[i] == suffix@[i - prefix@.len()]);
        }
    }
    name
}


/// The value of the ASCII hex digit `b`.
pub open spec fn spec_hex_digit(b: u8) -> Option<u8> {
    if 0x30 <= b <= 0x39 {
        Some((b - 0x30) as u8)
    } else if 0x61 <= b <= 0x66 {
        Some((b - 0x61 + 10) as u8)
    } else if 0x41 <= b <= 0x46 {
        Some((b - 0x41 + 10) as u8)
    } else {
        None
    }
}

/// The byte written by the two characters `a` and `b` in base 16: two hex digits.
pub open spec fn spec_hex_pair(a: u8, b: u8) -> Option<u8> {
    match (spec_hex_digit(a), spec_hex_digit(b)) {
        (Some(h), Some(l)) => Some((h * 16 + l) as u8),
        _ => None,
    }
}

/// Whether every pair of the bytes writes a byte.
pub open spec fn spec_hex_valid(bytes: Seq<u8>) -> bool {
    forall|k: int| 0 <= k < bytes.len() / 2 ==> (#[trigger] spec_hex_pair(bytes[2 * k], bytes[2 * k + 1])) is Some
}

/// Why a text is no hex string.
#[derive(Debug, Clone, Copy, PartialEq, Eq, Structural)]
pub enum DecodeHexError {
    /// The text has an odd number of bytes.
    InvalidLength,
    /// A pair of characters is no byte in base 16.
    InvalidDigit,
}

/// The value of the ASCII hex digit `b`.
fn hex_digit(b: u8) -> (r: Option<u8>)
    ensures
        r == spec_hex_digit(b),
{
    if 0x30 <= b && b <= 0x39 {
        Some(b - 0x30)
    } else if 0x61 <= b && b <= 0x66 {
        Some(b - 0x61 + 10)
    } else if 0x41 <= b && b <= 0x46 {
        Some(b - 0x41 + 10)
    } else {
        None
    }
}

/// The byte written by two characters in base 16 (see `spec_hex_pair`).
fn hex_pair(a: u8, b: u8) -> (r: Option<u8>)
    ensures
        r == spec_hex_pair(a, b),
{
    match (hex_digit(a), hex_digit(b)) {
        (Some(h), Some(l)) => {
            assert(h * 16 + l < 256) by (nonlinear_arith)
                requires
                    h < 16,
                    l < 16,
            ;
            Some(h * 16 + l)
        },
        _ => None,
    }
}

/// Decodes a hex string into bytes, two hex digits per byte. A text of odd length, or with
/// a byte that is no ASCII hex digit, is no hex string.
pub fn decode_hex(s: &str) -> (r: Result<Vec<u8>, DecodeHexError>)
    ensures
        s.spec_bytes().len() % 2 != 0 ==> r == Err::<Vec<u8>, DecodeHexError>(DecodeHexError::InvalidLength),
        s.spec_bytes().len() % 2 == 0 && !spec_hex_valid(s.spec_bytes()) ==> r == Err::<Vec<u8>, DecodeHexError>(
            DecodeHexError::InvalidDigit,
        ),
        s.spec_bytes().len() % 2 == 0 && spec_hex_valid(s.spec_bytes()) ==> (r matches Ok(v)
            && v@.len() == s.spec_bytes().len() / 2
            && forall|k: int| 0 <= k < v@.len() ==> Some(#[trigger] v@[k]) == spec_hex_pair(
                s.spec_bytes()[2 * k],
                s.spec_bytes()[2 * k + 1],
            )),
{
    let bytes = s.as_bytes();
    let n = bytes.len();
    if n % 2 != 0 {
        return Err(DecodeHexError::InvalidLength);
    }
    let mut v: Vec<u8> = Vec::with_capacity(n / 2);
    let mut k: usize = 0;
    while k < n / 2
        invariant
            bytes@ == s.spec_bytes(),
            n == bytes@.len(),
            n % 2 == 0,
            k <= n / 2,
            v@.len() == k,
            forall|j: int| 0 <= j < k ==> Some(#[trigger] v@[j]) == spec_hex_pair(bytes@[2 * j], bytes@[2 * j + 1]),
        decreases n / 2 - k,
    {
        match hex_pair(bytes[2 * k], bytes[2 * k + 1]) {
            Some(b) => v.push(b),
            None => {
                assert(!spec_hex_valid(bytes@));
                return Err(DecodeHexError::InvalidDigit);
            },
        }
        k = k + 1;
    }
    assert(spec_hex_valid(bytes@)) by {
        assert forall|j: int| 0 <= j < n / 2 implies (#[trigger] spec_hex_pair(bytes@[2 * j], bytes@[2 * j + 1])) is Some by {
            assert(Some(v@[j]) == spec_hex_pair(bytes@[2 * j], bytes@[2 * j + 1]));
        }
    }
    Ok(v)
}

/// The larger of two values.
pub fn max(a: usize, b: usize) -> (r: usize)
    ensures
        r == if a < b {
            b
        } else {
            a
        },
{
    if a < b {
        b
    } else {
        a
    }
}

/// The path `path` relative to `base`: the components after those of `base`, if `path`
/// starts with all components of `base`.
pub fn to_relative(path: &Vec<String>, base: &Vec<String>) -> (r: Option<Vec<String>>)
    ensures
        (base@.len() <= path@.len() && path.deep_view().take(base@.len() as int) == base.deep_view())
            ==> (r matches Some(rel) && rel.deep_view() == path.deep_view().skip(base@.len() as int)),
        !(base@.len() <= path@.len() && path.deep_view().take(base@.len() as int) == base.deep_view())
            ==> r is None,
{
    if names_start_with(path, base) {
        Some(names_skip(path, base.len()))
    } else {
        None
    }
}

/// One step of making a path absolute lexically: `.` is skipped, `..` goes to the parent
/// (the root and the empty path stay), the root starts over at the root, and a name is
/// appended.
pub open spec fn spec_lexical_step(acc: Seq<Seq<char>>, component: Seq<char>) -> Seq<Seq<char>> {
    if component == seq!['.'] {
        acc
    } else if component == seq!['.', '.'] {
        match spec_location_parent(acc) {
            Some(parent) => parent,
            None => acc,
        }
    } else if component == seq!['/'] {
        seq![seq!['/']]
    } else {
        acc.push(component)
    }
}

/// The first `n` components of a path applied, in order, to `acc`.
pub open spec fn spec_lexical_steps(acc: Seq<Seq<char>>, components: Seq<Seq<char>>, n: int) -> Seq<Seq<char>>
    decreases n,
{
    if n <= 0 {
        acc
    } else {
        spec_lexical_step(spec_lexical_steps(acc, components, n - 1), components[n - 1])
    }
}

/// The absolute form of the path `components`, without looking at the file system: a path
/// that starts at the root starts from nothing, any other from the working directory, and
/// its components are applied in order.
pub open spec fn spec_lexical_absolute(working_directory: Seq<Seq<char>>, components: Seq<Seq<char>>) -> Seq<Seq<char>> {
    let start = if components.len() > 0 && components[0] == seq!['/'] {
        Seq::empty()
    } else {
        working_directory
    };
    spec_lexical_steps(start, components, components.len() as int)
}

/// Whether a name is `.`.
fn is_dot(name: &String) -> (r: bool)
    ensures
        r == (name@ == seq!['.']),
{
    let s = name.as_str();
    if s.unicode_len() != 1 {
        return false;
    }
    if s.get_char(0) == '.' {
        assert(name@ =~= seq!['.']);
        true
    } else {
        false
    }
}

/// Whether a name is `..`.
fn is_dot_dot(name: &String) -> (r: bool)
    ensures
        r == (name@ == seq!['.', '.']),
{
    let s = name.as_str();
    if s.unicode_len() != 2 {
        return false;
    }
    if s.get_char(0) == '.' && s.get_char(1) == '.' {
        assert(name@ =~= seq!['.', '.']);
        true
    } else {
        false
    }
}

/// Conversion of a path into an absolute path without looking at the file system.
pub trait LexicalAbsolute {
    /// The absolute form of the path, relative paths taken from `working_directory`.
    fn to_lexical_absolute(&self, working_directory: &Vec<String>) -> Vec<String>;
}

impl LexicalAbsolute for Vec<String> {
    /// The absolute form of the path given by its components (see `spec_lexical_absolute`).
    fn to_lexical_absolute(&self, working_directory: &Vec<String>) -> (r: Vec<String>)
        ensures
            r.deep_view() == spec_lexical_absolute(working_directory.deep_view(), self.deep_view()),
    {
        let ghost cv = self.deep_view();
        let mut acc: Vec<String> = if self.len() > 0 && crate::path::is_root_name(&self[0]) {
            Vec::new()
        } else {
            crate::path::copy_names(working_directory)
        };
        let ghost start = acc.deep_view();
        proof {
            if cv.len() > 0 && cv[0] == seq!['/'] {
                assert(start =~= Seq::<Seq<char>>::empty());
            }
        }
        let mut i: usize = 0;
        while i < self.len()
            invariant
                cv == self.deep_view(),
                i <= cv.len(),
                acc.deep_view() == spec_lexical_steps(start, cv, i as int),
            decreases cv.len() - i,
        {
            let c = &self[i];
            assert(cv[i as int] == c@);
            if is_dot(c) {
            } else if is_dot_dot(c) {
                match crate::path::location_parent(&acc) {
                    Some(parent) => {
                        acc = parent;
                    },
                    None => {},
                }
            } else if crate::path::is_root_name(c) {
                let mut root: Vec<String> = Vec::new();
                root.push(c.clone());
                assert(root.deep_view() =~= seq![seq!['/']]);
                acc = root;
            } else {
                let ghost before = acc.deep_view();
                acc.push(c.clone());
                assert(acc.deep_view() =~= before.push(c@));
            }
            i = i + 1;
        }
        acc
    }
}

/// How a path given by the user is made into the path used.
#[derive(Debug, Clone, Copy, PartialEq, Eq, Structural)]
pub enum ParsePathKind {
    /// The path as given.
    Direct,
    /// The absolute path; the path must exist.
    AbsoluteExisting,
    /// The absolute path; the path may not exist.
    AbsoluteNonExisting,
}

/// A parsed path: ready, or still to be resolved in the file system.
#[derive(Debug)]
pub enum ParsedPath {
    /// The path to use.
    Ready(Vec<String>),
    /// The path must be made canonical in the file system, which needs it to exist.
    Canonicalize(Vec<String>),
}

/// Parses the path given by its components under `kind`: as given, made absolute lexically
/// from the working directory, or left to be made canonical in the file system.
pub fn parse_path(components: &Vec<String>, kind: ParsePathKind, working_directory: &Vec<String>) -> (r: ParsedPath)
    ensures
        match kind {
            ParsePathKind::Direct => r matches ParsedPath::Ready(p) && p.deep_view() == components.deep_view(),
            ParsePathKind::AbsoluteExisting => r matches ParsedPath::Canonicalize(p) && p.deep_view() == components.deep_view(),
            ParsePathKind::AbsoluteNonExisting => r matches ParsedPath::Ready(p) && p.deep_view()
                == spec_lexical_absolute(working_directory.deep_view(), components.deep_view()),
        },
{
    match kind {
        ParsePathKind::Direct => ParsedPath::Ready(crate::path::copy_names(components)),
        ParsePathKind::AbsoluteExisting => ParsedPath::Canonicalize(crate::path::copy_names(components)),
        ParsePathKind::AbsoluteNonExisting => ParsedPath::Ready(components.to_lexical_absolute(working_directory)),
    }
}

} // verus!
