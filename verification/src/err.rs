//! Dispatch errors: the kind of failure, which decides the errno the
//! kernel sees, and a message for the log.

use vstd::prelude::*;
use vstd::string::*;
use crate::routing::tree::HandlerError;

verus! {

/// The kind of a failure, as far as the errno depends on it.
#[derive(Debug, Clone, Copy, PartialEq, Eq, Structural)]
pub enum ErrorKind {
    NotFound,
    AlreadyExists,
    PermissionDenied,
    InvalidInput,
    Unsupported,
    Other,
}

/// A failed dispatch operation.
///
/// `raw_os_error` holds the operating system's error number when the
/// failure came from a system call; the message is for the log only.
#[derive(Debug)]
pub struct DispatchError {
    pub kind: ErrorKind,
    pub raw_os_error: Option<i32>,
    pub message: String,
}

/// The errno reported to the kernel for a failed operation.
#[derive(Debug, Clone, Copy, PartialEq, Eq, Structural)]
pub enum Errno {
    /// `ENOENT`
    NoEnt,
    /// `EEXIST`
    Exist,
    /// `EACCES`
    Access,
    /// `EINVAL`
    Inval,
    /// `ENOTSUP`
    NotSup,
    /// `EIO`
    Io,
    /// An operating system error number, passed through.
    Raw(i32),
}

/// The errno of an error: its raw operating system number if it has one,
/// else the one its kind maps to, `EIO` for any other kind.
pub open spec fn errno_of(e: DispatchError) -> Errno {
    match e.raw_os_error {
        Some(raw) => Errno::Raw(raw),
        None => match e.kind {
            ErrorKind::NotFound => Errno::NoEnt,
            ErrorKind::AlreadyExists => Errno::Exist,
            ErrorKind::PermissionDenied => Errno::Access,
            ErrorKind::InvalidInput => Errno::Inval,
            ErrorKind::Unsupported => Errno::NotSup,
            ErrorKind::Other => Errno::Io,
        },
    }
}

/// The errno to report for `e`.
pub fn extract_errno(e: &DispatchError) -> (r: Errno)
    ensures
        r == errno_of(*e),
{
    match e.raw_os_error {
        Some(raw) => Errno::Raw(raw),
        None => match e.kind {
            ErrorKind::NotFound => Errno::NoEnt,
            ErrorKind::AlreadyExists => Errno::Exist,
            ErrorKind::PermissionDenied => Errno::Access,
            ErrorKind::InvalidInput => Errno::Inval,
            ErrorKind::Unsupported => Errno::NotSup,
            ErrorKind::Other => Errno::Io,
        },
    }
}

/// An error of the given kind with the given message.
pub fn io_err(kind: ErrorKind, msg: String) -> (r: DispatchError)
    ensures
        r.kind == kind,
        r.raw_os_error is None,
        r.message@ == msg@,
{
    DispatchError { kind, raw_os_error: None, message: msg }
}

/// The decimal digit `d`.
pub open spec fn digit_char(d: nat) -> char {
    if d == 0 { '0' } else if d == 1 { '1' } else if d == 2 { '2' } else if d == 3 { '3' }
    else if d == 4 { '4' } else if d == 5 { '5' } else if d == 6 { '6' } else if d == 7 { '7' }
    else if d == 8 { '8' } else { '9' }
}

/// The decimal text of `n`, without leading zeros.
pub open spec fn decimal_text(n: nat) -> Seq<char>
    decreases n,
{
    if n < 10 {
        seq![digit_char(n)]
    } else {
        decimal_text(n / 10).push(digit_char(n % 10))
    }
}

fn digit(d: u64) -> (r: &'static str)
    requires
        d < 10,
    ensures
        r@ == seq![digit_char(d as nat)],
{
    let r = if d == 0 { "0" } else if d == 1 { "1" } else if d == 2 { "2" } else if d == 3 { "3" }
        else if d == 4 { "4" } else if d == 5 { "5" } else if d == 6 { "6" } else if d == 7 { "7" }
        else if d == 8 { "8" } else { "9" };
    proof {
        reveal_strlit("0");
        reveal_strlit("1");
        reveal_strlit("2");
        reveal_strlit("3");
        reveal_strlit("4");
        reveal_strlit("5");
        reveal_strlit("6");
        reveal_strlit("7");
        reveal_strlit("8");
        reveal_strlit("9");
    }
    r
}

/// The decimal text of `n`.
pub fn decimal(n: u64) -> (r: String)
    ensures
        r@ == decimal_text(n as nat),
    decreases n,
{
    if n < 10 {
        digit(n).to_owned()
    } else {
        let mut s = decimal(n / 10);
        s.append(digit(n % 10));
        s
    }
}

/// `text` with `a` and `b` appended.
fn joined(text: &str, a: &str, b: &str) -> (r: String)
    ensures
        r@ == text@ + a@ + b@,
{
    let mut s = text.to_owned();
    s.append(a);
    s.append(b);
    s
}

/// A provider's failure, as a dispatch error of no particular kind.
pub fn handler_failure(e: HandlerError) -> (r: DispatchError)
    ensures
        r.kind == ErrorKind::Other,
        r.raw_os_error is None,
        r.message@ == e.message@,
{
    io_err(ErrorKind::Other, e.message)
}

/// A target path is missing.
pub fn not_found(path: &str) -> (r: DispatchError)
    ensures
        r.kind == ErrorKind::NotFound,
        r.raw_os_error is None,
        r.message@ == "not found: "@ + path@,
{
    proof { reveal_strlit(""); }
    let r = io_err(ErrorKind::NotFound, joined("not found: ", path, ""));
    assert(r.message@ =~= "not found: "@ + path@);
    r
}

/// An inode number is unknown.
pub fn inode_not_found(inode: u64) -> (r: DispatchError)
    ensures
        r.kind == ErrorKind::NotFound,
        r.raw_os_error is None,
        r.message@ == "inode "@ + decimal_text(inode as nat) + " not found"@,
{
    let n = decimal(inode);
    io_err(ErrorKind::NotFound, joined("inode ", n.as_str(), " not found"))
}

/// A path cannot be split into a parent and a name.
pub fn invalid_path(path: &str) -> (r: DispatchError)
    ensures
        r.kind == ErrorKind::InvalidInput,
        r.raw_os_error is None,
        r.message@ == "invalid path: "@ + path@,
{
    proof { reveal_strlit(""); }
    let r = io_err(ErrorKind::InvalidInput, joined("invalid path: ", path, ""));
    assert(r.message@ =~= "invalid path: "@ + path@);
    r
}

/// A node cannot be read.
pub fn not_readable(path: &str) -> (r: DispatchError)
    ensures
        r.kind == ErrorKind::PermissionDenied,
        r.raw_os_error is None,
{
    io_err(ErrorKind::PermissionDenied, joined("not readable: ", path, ""))
}

/// A node cannot be written.
pub fn not_writable(path: &str) -> (r: DispatchError)
    ensures
        r.kind == ErrorKind::PermissionDenied,
        r.raw_os_error is None,
{
    io_err(ErrorKind::PermissionDenied, joined("not writable: ", path, ""))
}

/// Results whose failure is an operating system error number.
pub trait ErrnoExt<T> {
    /// The same result, its failure carried as a dispatch error with that
    /// number.
    fn into_dispatch(self) -> Result<T, DispatchError>;
}

impl<T> ErrnoExt<T> for Result<T, i32> {
    fn into_dispatch(self) -> (r: Result<T, DispatchError>)
        ensures
            match self {
                Ok(v) => r == Ok::<T, DispatchError>(v),
                Err(raw) => r matches Err(e) && e.raw_os_error == Some(raw) && e.kind == ErrorKind::Other,
            },
    {
        match self {
            Ok(v) => Ok(v),
            Err(raw) => Err(DispatchError { kind: ErrorKind::Other, raw_os_error: Some(raw), message: String::new() }),
        }
    }
}

} // verus!
