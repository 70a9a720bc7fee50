//! Request methods.
use crate::text;
use vstd::prelude::*;

verus! {

/// The request methods that routes can be registered for.
#[derive(Debug, Clone, Copy, PartialEq, Eq, Hash, Structural)]
pub enum Method {
    Get,
    Post,
}

/// The lower-case form of an ASCII letter; any other character is kept.
pub open spec fn lower(c: char) -> char {
    if 'A' <= c <= 'Z' {
        (c as u32 + 32) as char
    } else {
        c
    }
}

/// `s` with its ASCII letters in lower case.
pub open spec fn lowercased(s: Seq<char>) -> Seq<char> {
    s.map_values(|c: char| lower(c))
}

/// The method that `name` names, in any mix of cases. Only ASCII letters have a lower-case form
/// among the letters of the two names, so no other character can take part.
pub open spec fn named(name: Seq<char>) -> Option<Method> {
    if lowercased(name) == "get"@ {
        Some(Method::Get)
    } else if lowercased(name) == "post"@ {
        Some(Method::Post)
    } else {
        None
    }
}

impl Method {
    /// The method with the given name, or `None` where no supported method has it.
    pub fn parse(name: &str) -> (method: Option<Method>)
        ensures
            method == named(name@),
    {
        if is_lowercased(name, "get") {
            Some(Method::Get)
        } else if is_lowercased(name, "post") {
            Some(Method::Post)
        } else {
            None
        }
    }

    /// The method with the given name, which has to be a supported one.
    pub fn from(method: &str) -> (m: Method)
        requires
            named(method@) is Some,
        ensures
            Some(m) == named(method@),
    {
        if is_lowercased(method, "get") {
            Method::Get
        } else {
            Method::Post
        }
    }
}

/// Whether `s`, with its ASCII letters in lower case, is `expected`.
fn is_lowercased(s: &str, expected: &str) -> (b: bool)
    ensures
        b == (lowercased(s@) == expected@),
{
    let given = text::chars_of(s);
    let wanted = text::chars_of(expected);
    if given.len() != wanted.len() {
        assert(lowercased(s@).len() != expected@.len());
        return false;
    }
    let mut i: usize = 0;
    while i < given.len()
        invariant
            given@ == s@,
            wanted@ == expected@,
            given@.len() == wanted@.len(),
            i <= given@.len(),
            forall|j: int| 0 <= j < i ==> lowercased(s@)[j] == #[trigger] expected@[j],
        decreases given.len() - i,
    {
        let c: char = given[i];
        assert(lowercased(s@)[i as int] == lower(c));
        if lower_char(c) != wanted[i] {
            assert(lowercased(s@)[i as int] != expected@[i as int]);
            return false;
        }
        i = i + 1;
    }
    assert(lowercased(s@) == expected@);
    true
}

fn lower_char(c: char) -> (l: char)
    ensures
        l == lower(c),
{
    if 'A' <= c && c <= 'Z' {
        (c as u8 + 32) as char
    } else {
        c
    }
}

/// The name of a method may be written in any mix of cases: what counts is its lower-case form.
pub proof fn law_method_names_ignore_case(a: Seq<char>, b: Seq<char>)
    requires
        lowercased(a) == lowercased(b),
    ensures
        named(a) == named(b),
{
}

}
