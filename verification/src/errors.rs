//! Error plumbing: the string-backed result type the library reports
//! failures with, and helpers building the common messages.
use vstd::prelude::*;

use vstd::string::StringExecFns;

verus! {

/// A result whose error is a plain message.
pub type StubResult<T> = Result<T, String>;

/// Conversion into a string-backed result.
pub trait IntoStub<T> {
    fn into_stub(self) -> StubResult<T>;
}

impl<T> IntoStub<T> for StubResult<T> {
    fn into_stub(self) -> StubResult<T> {
        self
    }
}

pub open spec fn cannot_msg(verb: Seq<char>, item: Seq<char>) -> Seq<char> {
    "Cannot "@ + verb + " "@ + item
}

/// The message for a failed action on an item.
pub fn cannot_verb(verb: &str, item: &str) -> (r: String)
    ensures
        r@ == cannot_msg(verb@, item@),
{
    String::from_str("Cannot ").concat(verb).concat(" ").concat(item)
}

pub fn cannot_write(path: &str) -> (r: String)
    ensures
        r@ == cannot_msg("write"@, path@),
{
    cannot_verb("write", path)
}

pub fn cannot_read(path: &str) -> (r: String)
    ensures
        r@ == cannot_msg("read"@, path@),
{
    cannot_verb("read", path)
}

pub fn cannot_create(path: &str) -> (r: String)
    ensures
        r@ == cannot_msg("create"@, path@),
{
    cannot_verb("create", path)
}

pub fn cannot_remove(path: &str) -> (r: String)
    ensures
        r@ == cannot_msg("remove"@, path@),
{
    cannot_verb("remove", path)
}

} // verus!
