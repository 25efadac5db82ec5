use vstd::prelude::*;

verus! {

use vstd::string::StrSliceExecFns;

/// Character-by-character equality of two string slices.  The result holds
/// exactly when the two character sequences are equal.
pub fn str_eq(a: &str, b: &str) -> (r: bool)
    ensures
        r == (a@ == b@),
{
    let n = a.unicode_len();
    let m = b.unicode_len();
    if n != m {
        return false;
    }
    let mut i: usize = 0;
    while i < n
        invariant
            0 <= i <= n,
            n == a@.len(),
            n == b@.len(),
            forall|j: int| 0 <= j < i ==> a@[j] == b@[j],
        decreases n - i,
    {
        if a.get_char(i) != b.get_char(i) {
            return false;
        }
        i = i + 1;
    }
    proof {
        assert(a@ =~= b@);
    }
    true
}

/// Text content of a node or attribute: either a borrowed string literal or
/// an owned string.  Two texts are the same exactly when their characters
/// are, whichever variant carries them.
#[derive(Debug, Clone)]
pub enum DOMText {
    Static(&'static str),
    Owned(String),
}

impl View for DOMText {
    type V = Seq<char>;

    open spec fn view(&self) -> Seq<char> {
        match self {
            DOMText::Static(s) => s@,
            DOMText::Owned(s) => s@,
        }
    }
}

impl DOMText {
    /// The carried characters as a string slice.
    pub fn as_str(&self) -> (r: &str)
        ensures
            r@ == self@,
    {
        match self {
            DOMText::Static(s) => s,
            DOMText::Owned(s) => s.as_str(),
        }
    }
}

impl PartialEq for DOMText {
    fn eq(&self, other: &Self) -> (r: bool) {
        str_eq(self.as_str(), other.as_str())
    }
}

impl vstd::std_specs::cmp::PartialEqSpecImpl for DOMText {
    open spec fn obeys_eq_spec() -> bool {
        true
    }

    open spec fn eq_spec(&self, other: &DOMText) -> bool {
        self@ == other@
    }
}

} // verus!
