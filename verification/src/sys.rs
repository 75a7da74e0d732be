//! Failures of system calls.

use vstd::prelude::*;
use vstd::string::*;
use crate::util::IsNegative;

verus! {

/// A failed system call: its name and the error that the system reported.
#[derive(Debug)]
pub struct Error {
    pub syscall_name: &'static str,
    pub io_err: std::io::Error,
}

impl Error {
    /// What the text of the error begins with: the call's name and `failed`.
    pub open spec fn message_prefix(self) -> Seq<char> {
        self.syscall_name@ + " failed: "@
    }

    /// `text` is the text of the error: the call's name, `failed`, and the
    /// text that `to_string` gives for the system's error.
    pub open spec fn message_is(self, text: Seq<char>) -> bool {
        exists|description: String|
            #[trigger] to_string_from_display_ensures::<std::io::Error>(&self.io_err, description)
                && text == self.message_prefix() + description@
    }

    /// The text of the error: the call's name, `failed` and the system's
    /// description of the error.
    pub fn message(&self) -> (r: String)
        ensures
            self.message_is(r@),
            r@.len() >= self.message_prefix().len(),
            r@.subrange(0, self.message_prefix().len() as int) == self.message_prefix(),
    {
        let mut text = self.syscall_name.to_owned();
        text.append(" failed: ");
        let description = self.io_err.to_string();
        let ghost head = text@;
        text.append(description.as_str());
        assert(text@.subrange(0, head.len() as int) =~= head);
        assert(text@ =~= self.message_prefix() + description@) by {
            reveal_strlit(" failed: ");
        }
        text
    }
}

/// The error number of an invalid argument (`EINVAL`), with the value that
/// Linux gives it.
pub const EINVAL: i32 = 22;

/// The error number that an error carries (`std::io::Error::raw_os_error`),
/// if it carries one.
pub uninterp spec fn raw_os_error_of(err: std::io::Error) -> Option<i32>;

/// `std::io::Error::from_raw_os_error`: the error that the system reports
/// with the number `code`. As std documents it, `raw_os_error` gives the
/// number back.
#[verifier::external_body]
pub(crate) fn os_error(code: i32) -> (err: std::io::Error)
    ensures
        raw_os_error_of(err) == Some(code),
{
    std::io::Error::from_raw_os_error(code)
}

/// Reads the error that the last failed system call of this thread left
/// (`std::io::Error::last_os_error`). Nothing is stated of it: it depends on
/// the state of the machine.
#[verifier::external_body]
fn last_os_error() -> (err: std::io::Error) {
    std::io::Error::last_os_error()
}

/// Runs a system call and turns its negative return value into an `Error`
/// named after the call; a non-negative value is handed back unchanged.
pub fn wrap_libc<Ret: IsNegative, F: FnOnce() -> Ret>(syscall_name: &'static str, f: F) -> (r: Result<Ret, Error>)
    requires
        call_requires(f, ()),
    ensures
        match r {
            Ok(v) => call_ensures(f, (), v) && !v.spec_is_negative(),
            Err(e) => e.syscall_name == syscall_name && exists|v: Ret| call_ensures(f, (), v) && v.spec_is_negative(),
        },
{
    let result = f();
    if result.is_negative() {
        Err(Error { syscall_name, io_err: last_os_error() })
    } else {
        Ok(result)
    }
}

/// Whether `err` is an interruption by a signal: its kind is
/// `ErrorKind::Interrupted`. The kind of an error depends on the error alone.
pub uninterp spec fn interrupted_error(err: std::io::Error) -> bool;

/// `std::io::Error::kind` compared with `ErrorKind::Interrupted`: whether
/// the failure was an interruption by a signal.
#[verifier::external_body]
fn interrupted(err: &std::io::Error) -> (r: bool)
    ensures
        r == interrupted_error(*err),
{
    matches!(err.kind(), std::io::ErrorKind::Interrupted)
}

/// The outcome of one attempt of an operation that a signal may interrupt:
/// finished, with its result, or interrupted, with the error that says so,
/// in which case the operation is to be made again.
#[derive(Debug)]
pub enum Attempt<T, E> {
    Finished(T),
    Interrupted(E),
}

/// One attempt of a system call that a signal may interrupt: interrupted
/// exactly when the call failed and the error is an interruption; otherwise
/// finished, with what `wrap_libc` gives for it.
pub fn wrap_libc_attempt<Ret: IsNegative, F: FnOnce() -> Ret>(syscall_name: &'static str, f: F) -> (r: Attempt<Result<Ret, Error>, Error>)
    requires
        call_requires(f, ()),
    ensures
        match r {
            Attempt::Finished(Ok(v)) => call_ensures(f, (), v) && !v.spec_is_negative(),
            Attempt::Finished(Err(e)) => e.syscall_name == syscall_name && !interrupted_error(e.io_err)
                && exists|v: Ret| call_ensures(f, (), v) && v.spec_is_negative(),
            Attempt::Interrupted(e) => e.syscall_name == syscall_name && interrupted_error(e.io_err)
                && exists|v: Ret| call_ensures(f, (), v) && v.spec_is_negative(),
        },
{
    match wrap_libc(syscall_name, f) {
        Ok(v) => Attempt::Finished(Ok(v)),
        Err(e) => {
            if interrupted(&e.io_err) {
                Attempt::Interrupted(e)
            } else {
                Attempt::Finished(Err(e))
            }
        },
    }
}

/// One attempt of an I/O operation that a signal may interrupt: interrupted
/// exactly when it failed and the error is an interruption; otherwise
/// finished, with its result, success or failure, unchanged.
pub fn io_attempt<Ret, F: FnOnce() -> std::io::Result<Ret>>(f: F) -> (r: Attempt<std::io::Result<Ret>, std::io::Error>)
    requires
        call_requires(f, ()),
    ensures
        match r {
            Attempt::Finished(Ok(v)) => call_ensures(f, (), Ok(v)),
            Attempt::Finished(Err(e)) => call_ensures(f, (), Err(e)) && !interrupted_error(e),
            Attempt::Interrupted(e) => call_ensures(f, (), Err(e)) && interrupted_error(e),
        },
{
    match f() {
        Ok(v) => Attempt::Finished(Ok(v)),
        Err(e) => {
            if interrupted(&e) {
                Attempt::Interrupted(e)
            } else {
                Attempt::Finished(Err(e))
            }
        },
    }
}

} // verus!
