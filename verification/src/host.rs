//! Host-exception bookkeeping over plain values. The map engine itself
//! returns typed results; an adapter that bridges it to a host runtime
//! with exceptions keeps the pending exception as a value of this
//! module, takes it when it handles it, and renders it for a panic
//! message. Translation to real host exceptions stays outside the
//! engine.

use vstd::prelude::*;
use vstd::string::StringExecFns;

verus! {

/// A pending host exception: the exception class's name and its
/// optional detail message.
pub struct HostException {
    /// The exception class's name.
    pub class_name: String,
    /// The detail message, when the exception carries one.
    pub message: Option<String>,
}

/// The description of an exception: its class name and its detail
/// message, or an empty tail when it has none.
pub open spec fn exception_description(e: HostException) -> Seq<char> {
    "Java exception: "@ + e.class_name@ + "; "@ + match e.message {
        Some(m) => m@,
        None => Seq::<char>::empty(),
    }
}

/// Returns (and clears) the exception that is currently pending. The
/// caller guarantees one is pending: taking from an empty slot is the
/// caller's error, so this function refuses it by contract.
pub fn get_and_clear_java_exception(pending: &mut Option<HostException>) -> (r: HostException)
    requires
        (*old(pending)) is Some,
    ensures
        (*final(pending)) is None,
        *old(pending) == Some(r),
{
    let e = pending.take();
    e.unwrap()
}

/// Describes an exception in the form
/// "Java exception: CLASS_NAME; MESSAGE". The detail message is
/// rendered as its plain text — an exception without one gets an empty
/// tail — rather than decorated as an optional value.
pub fn describe_java_exception(exception: &HostException) -> (r: String)
    ensures
        r@ == exception_description(*exception),
{
    let mut r = String::new();
    r.append("Java exception: ");
    r.append(exception.class_name.as_str());
    r.append("; ");
    match &exception.message {
        Some(m) => r.append(m.as_str()),
        None => {},
    }
    proof {
        assert(r@ =~= exception_description(*exception));
    }
    r
}

} // verus!
