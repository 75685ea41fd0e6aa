//! `RcString` is a reference counted string. In contrast to `String`, it can be
//! cloned without copying the text. It is meant for names by which objects are
//! found.

use std::sync::Arc;
use vstd::prelude::*;
use vstd::std_specs::cmp::PartialEqSpecImpl;

verus! {

/// Reference counted string, used for names. Cloning does not copy the text.
#[derive(Debug, Ord, PartialOrd, Hash)]
pub struct RcString {
    string: Arc<String>,
}

impl View for RcString {
    type V = Seq<char>;

    closed spec fn view(&self) -> Seq<char> {
        (*self.string)@
    }
}

impl RcString {
    /// The reference counted string that holds `s`.
    pub closed spec fn of_string(s: String) -> RcString {
        RcString { string: Arc::new(s) }
    }

    /// The reference counted string that shares `s`.
    pub closed spec fn of_shared(s: Arc<String>) -> RcString {
        RcString { string: s }
    }

    /// Create a new reference counted string.
    pub fn new(string: String) -> (res: Self)
        ensures
            res@ == string@,
            res == RcString::of_string(string),
    {
        RcString { string: Arc::new(string) }
    }

    /// The text.
    pub fn as_str(&self) -> (res: &str)
        ensures
            res@ == self@,
    {
        self.string.as_str()
    }

    /// The string that the reference counted string holds.
    pub closed spec fn text(self) -> String {
        *self.string
    }

    /// A copy of the text.
    pub fn to_string(&self) -> (res: String)
        ensures
            res@ == self@,
            res == self.text(),
    {
        let s: &String = &self.string;
        s.clone()
    }
}

/// `Arc::clone`: claims what its documentation says, another pointer to the
/// same allocation, so the same value.
#[verifier::external_body]
fn arc_share(a: &Arc<String>) -> (res: Arc<String>)
    ensures
        res == *a,
{
    Arc::clone(a)
}

impl Clone for RcString {
    /// Another reference to the same text; the text is not copied.
    fn clone(&self) -> (res: Self)
        ensures
            res == *self,
    {
        RcString { string: arc_share(&self.string) }
    }
}

impl PartialEq for RcString {
    /// Two reference counted strings are equal when their texts are.
    fn eq(&self, other: &Self) -> (res: bool) {
        let a: &String = &self.string;
        let b: &String = &other.string;
        a.eq(b)
    }
}

impl PartialEqSpecImpl for RcString {
    open spec fn obeys_eq_spec() -> bool {
        true
    }

    open spec fn eq_spec(&self, other: &Self) -> bool {
        self@ == other@
    }
}

impl Eq for RcString {

}

impl<'a> From<&'a str> for RcString {
    fn from(s: &'a str) -> (res: Self)
        ensures
            res@ == s@,
    {
        Self::new(s.to_owned())
    }
}

/// What `from` gives is stated on the impl itself, by the text: the model does
/// not fix a `String` by its text alone, so no exact value is claimed here.
impl<'a> vstd::std_specs::convert::FromSpecImpl<&'a str> for RcString {
    open spec fn obeys_from_spec() -> bool {
        false
    }

    open spec fn from_spec(v: &'a str) -> Self {
        RcString::of_string(choose|s: String| s@ == v@)
    }
}

impl std::ops::Deref for RcString {
    type Target = str;

    /// The text.
    fn deref(&self) -> (res: &str)
        ensures
            res@ == self@,
    {
        self.string.as_str()
    }
}

impl From<Arc<String>> for RcString {
    /// Share the string that the reference counted pointer holds.
    fn from(string: Arc<String>) -> (res: Self)
        ensures
            res@ == (*string)@,
    {
        RcString { string }
    }
}

impl vstd::std_specs::convert::FromSpecImpl<Arc<String>> for RcString {
    open spec fn obeys_from_spec() -> bool {
        true
    }

    open spec fn from_spec(v: Arc<String>) -> Self {
        RcString::of_shared(v)
    }
}

impl From<String> for RcString {
    fn from(string: String) -> (res: Self) {
        Self::new(string)
    }
}

impl vstd::std_specs::convert::FromSpecImpl<String> for RcString {
    open spec fn obeys_from_spec() -> bool {
        true
    }

    open spec fn from_spec(v: String) -> Self {
        RcString::of_string(v)
    }
}

/// Turning a `String` into an `RcString` and back gives the same string.
pub proof fn law_string_round_trip(s: String)
    ensures
        RcString::of_string(s).text() == s,
        RcString::of_string(s)@ == s@,
{
}

impl From<RcString> for String {
    fn from(s: RcString) -> (res: String) {
        s.to_string()
    }
}

impl vstd::std_specs::convert::FromSpecImpl<RcString> for String {
    open spec fn obeys_from_spec() -> bool {
        true
    }

    open spec fn from_spec(v: RcString) -> String {
        v.text()
    }
}

} // verus!
