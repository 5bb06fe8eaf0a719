//! The decisions of the file handlers: their errors, the names of the rotated
//! log files, when to rotate, and the order of the renames.
use vstd::prelude::*;

use crate::text::{decimal, decimal_text};

verus! {

#[verifier::external_type_specification]
#[verifier::external_body]
pub struct ExIoError(std::io::Error);

/// The errors that might occur during creation of the file handler.
#[derive(Debug)]
pub enum FileHandlerError {
    /// Any kind of I/O Error.
    IoError(std::io::Error),
}

impl From<std::io::Error> for FileHandlerError {
    fn from(e: std::io::Error) -> (r: FileHandlerError) {
        FileHandlerError::IoError(e)
    }
}

impl vstd::std_specs::convert::FromSpecImpl<std::io::Error> for FileHandlerError {
    open spec fn obeys_from_spec() -> bool {
        true
    }

    open spec fn from_spec(v: std::io::Error) -> FileHandlerError {
        FileHandlerError::IoError(v)
    }
}

/// The errors that might occur during creation of the rotating file handler.
#[derive(Debug)]
pub enum RotatingFileHandlerError {
    /// Any kind of I/O Error.
    IoError(std::io::Error),
    /// Log file size is invalid.
    SizeError(u64),
    /// Log file count is invalid.
    CountError(usize),
}

impl From<std::io::Error> for RotatingFileHandlerError {
    fn from(e: std::io::Error) -> (r: RotatingFileHandlerError) {
        RotatingFileHandlerError::IoError(e)
    }
}

impl vstd::std_specs::convert::FromSpecImpl<std::io::Error> for RotatingFileHandlerError {
    open spec fn obeys_from_spec() -> bool {
        true
    }

    open spec fn from_spec(v: std::io::Error) -> RotatingFileHandlerError {
        RotatingFileHandlerError::IoError(v)
    }
}

/// Checks the limits of a rotating file: a size of at least one byte, and at
/// least two files.
pub fn check_limits(count: usize, size: u64) -> (r: Result<(), RotatingFileHandlerError>)
    ensures
        size == 0 ==> (r matches Err(RotatingFileHandlerError::SizeError(s)) && s == size),
        size != 0 && count < 2 ==> (r matches Err(RotatingFileHandlerError::CountError(c)) && c
            == count),
        size != 0 && count >= 2 ==> r is Ok,
{
    if size == 0 {
        return Err(RotatingFileHandlerError::SizeError(size));
    }
    if count < 2 {
        return Err(RotatingFileHandlerError::CountError(count));
    }
    Ok(())
}

/// The name of the rotated log file with suffix `n`.
pub open spec fn rotated_name(path: Seq<char>, n: nat) -> Seq<char> {
    path + "."@ + decimal(n)
}

/// The names of the rotated log files for `count` files in all: the path with
/// the suffixes `count - 2` down to `0`.
pub fn log_names(path: &str, count: usize) -> (r: Vec<String>)
    requires
        count >= 1,
    ensures
        r@.len() == count - 1,
        forall|i: int|
            0 <= i < r@.len() ==> (#[trigger] r@[i])@ == rotated_name(path@, (count - 2 - i) as nat),
{
    let mut out: Vec<String> = Vec::new();
    let mut k: usize = count - 1;
    while k > 0
        invariant
            k <= count - 1,
            out@.len() == count - 1 - k,
            forall|i: int|
                0 <= i < out@.len() ==> (#[trigger] out@[i])@ == rotated_name(
                    path@,
                    (count - 2 - i) as nat,
                ),
        decreases k,
    {
        k = k - 1;
        let mut name = String::from_str(path);
        name.append(".");
        let num = decimal_text(k as u64);
        name.append(num.as_str());
        out.push(name);
    }
    out
}

/// One rename of a rotation.
pub struct Rename {
    /// The name the file has.
    pub from: String,
    /// The name it takes.
    pub to: String,
    /// Whether this moves the current log file, which is flushed first and
    /// moved in any case; a rotated file is moved only when it exists.
    pub current: bool,
}

/// The renames of a rotation, in order: each rotated file moves to the name
/// with the suffix one higher (when it exists), then the current file takes
/// the name with suffix `0`.
pub fn rotation_renames(path: &str, logs: &Vec<String>) -> (r: Vec<Rename>)
    requires
        logs@.len() >= 1,
    ensures
        r@.len() == logs@.len(),
        forall|i: int|
            0 <= i < logs@.len() - 1 ==> (#[trigger] r@[i]).from@ == logs@[i + 1]@ && r@[i].to@
                == logs@[i]@ && !r@[i].current,
        r@[logs@.len() - 1].from@ == path@,
        r@[logs@.len() - 1].to@ == logs@[logs@.len() - 1]@,
        r@[logs@.len() - 1].current,
{
    let mut out: Vec<Rename> = Vec::new();
    let mut i: usize = 1;
    while i < logs.len()
        invariant
            1 <= i <= logs@.len(),
            out@.len() == i - 1,
            forall|j: int|
                0 <= j < i - 1 ==> (#[trigger] out@[j]).from@ == logs@[j + 1]@ && out@[j].to@
                    == logs@[j]@ && !out@[j].current,
        decreases logs@.len() - i,
    {
        out.push(Rename { from: logs[i].clone(), to: logs[i - 1].clone(), current: false });
        i = i + 1;
    }
    out.push(
        Rename { from: String::from_str(path), to: logs[logs.len() - 1].clone(), current: true },
    );
    out
}

/// The message written when a rename fails.
pub fn rename_failure(old: &str, new: &str, err: &str) -> (r: String)
    ensures
        r@ == "Failed to rename "@ + old@ + " into "@ + new@ + ": "@ + err@,
{
    let mut out = String::from_str("Failed to rename ");
    out.append(old);
    out.append(" into ");
    out.append(new);
    out.append(": ");
    out.append(err);
    out
}

/// The error given when the log file cannot be opened again.
pub fn open_failure(path: &str, err: &str) -> (r: String)
    ensures
        r@ == "Failed to open "@ + path@ + ": "@ + err@,
{
    let mut out = String::from_str("Failed to open ");
    out.append(path);
    out.append(": ");
    out.append(err);
    out
}

/// The size bookkeeping of a rotating log file.
pub struct Rotation {
    size: u64,
    current: u64,
}

impl Rotation {
    /// The size limit.
    pub closed spec fn limit(&self) -> u64 {
        self.size
    }

    /// The bytes written to the current file.
    pub closed spec fn written(&self) -> u64 {
        self.current
    }

    /// The bookkeeping of a file of `size` bytes at most that already holds
    /// `current` bytes.
    pub fn new(size: u64, current: u64) -> (r: Rotation)
        ensures
            r.limit() == size,
            r.written() == current,
    {
        Rotation { size: size, current: current }
    }

    /// Counts `n` more bytes written; tells whether the file must now rotate.
    pub fn wrote(&mut self, n: u64) -> (rotate: bool)
        requires
            old(self).written() + n <= u64::MAX,
        ensures
            final(self).written() == old(self).written() + n,
            final(self).limit() == old(self).limit(),
            rotate == (final(self).written() >= final(self).limit()),
    {
        self.current = self.current + n;
        self.current >= self.size
    }

    /// Counts `n` more bytes written without asking for a rotation.
    pub fn wrote_note(&mut self, n: u64)
        requires
            old(self).written() + n <= u64::MAX,
        ensures
            final(self).written() == old(self).written() + n,
            final(self).limit() == old(self).limit(),
    {
        self.current = self.current + n;
    }

    /// A fresh file was opened after a rotation.
    pub fn reopened(&mut self)
        ensures
            final(self).written() == 0,
            final(self).limit() == old(self).limit(),
    {
        self.current = 0;
    }

    /// The bytes written to the current file.
    pub fn current(&self) -> (r: u64)
        ensures
            r == self.written(),
    {
        self.current
    }
}

} // verus!
