//! Collection paths and tags: lowercase ASCII names.
use vstd::prelude::*;

use crate::error::{NtError, Result};
use crate::text::{chars_of, is_ascii_digit_char, is_ascii_lower_char, owned};

verus! {

/// A character allowed in a tag or a collection segment.
pub open spec fn is_name_char(c: char) -> bool {
    is_ascii_lower_char(c) || is_ascii_digit_char(c) || c == '_' || c == '-'
}

/// A nonempty name of lowercase ASCII letters, digits, `_` and `-`.
pub open spec fn is_name(s: Seq<char>) -> bool {
    s.len() > 0 && forall|i: int| 0 <= i < s.len() ==> is_name_char(#[trigger] s[i])
}

/// `/`-separated names: no empty segment and no other characters.
pub open spec fn is_collection_path(s: Seq<char>) -> bool {
    &&& s.len() > 0
    &&& s[0] != '/'
    &&& s.last() != '/'
    &&& forall|i: int| 0 <= i < s.len() ==> is_name_char(#[trigger] s[i]) || s[i] == '/'
    &&& forall|i: int| 0 <= i < s.len() - 1 ==> !(#[trigger] s[i] == '/' && s[i + 1] == '/')
}

fn name_char(c: char) -> (r: bool)
    ensures
        r == is_name_char(c),
{
    ('a' <= c && c <= 'z') || ('0' <= c && c <= '9') || c == '_' || c == '-'
}

/// Whether a text is not a valid tag or collection segment.
pub fn segment_is_invalid(value: &str) -> (r: bool)
    ensures
        r == !is_name(value@),
{
    let chars = chars_of(value);
    if chars.len() == 0 {
        return true;
    }
    let mut i: usize = 0;
    while i < chars.len()
        invariant
            chars@ == value@,
            i <= chars@.len(),
            forall|k: int| 0 <= k < i ==> is_name_char(#[trigger] chars@[k]),
        decreases chars@.len() - i,
    {
        if !name_char(chars[i]) {
            return true;
        }
        i += 1;
    }
    false
}

#[derive(Clone, Debug, PartialEq, Eq, Hash, PartialOrd, Ord)]
pub struct CollectionPath(String);

impl CollectionPath {
    pub closed spec fn view(&self) -> Seq<char> {
        self.0@
    }

    pub fn inbox() -> (r: Self)
        ensures
            r.view() == "inbox"@,
    {
        CollectionPath(owned("inbox"))
    }

    pub fn as_str(&self) -> (r: &str)
        ensures
            r@ == self.view(),
    {
        self.0.as_str()
    }

    /// Parses a collection path such as `work/nt`.
    pub fn parse(value: &str) -> (r: Result<Self>)
        ensures
            r is Ok <==> is_collection_path(value@),
            r matches Ok(c) ==> c.view() == value@,
            r matches Err(e) ==> e is InvalidValue && e->field == "collection" && e->value@
                == value@,
    {
        let chars = chars_of(value);
        let n = chars.len();
        if n == 0 || chars[0] == '/' || chars[n - 1] == '/' {
            return Err(NtError::InvalidValue { field: "collection", value: owned(value) });
        }
        let mut i: usize = 0;
        while i < n
            invariant
                chars@ == value@,
                n == chars@.len(),
                i <= n,
                forall|k: int| 0 <= k < i ==> is_name_char(#[trigger] chars@[k]) || chars@[k] == '/',
                forall|k: int| 0 <= k < i && k < n - 1 ==> !(#[trigger] chars@[k] == '/' && chars@[k + 1] == '/'),
            decreases n - i,
        {
            let c = chars[i];
            if !(name_char(c) || c == '/') {
                return Err(NtError::InvalidValue { field: "collection", value: owned(value) });
            }
            if c == '/' && i + 1 < n && chars[i + 1] == '/' {
                return Err(NtError::InvalidValue { field: "collection", value: owned(value) });
            }
            i += 1;
        }
        proof {
            assert(chars@.last() == chars@[n - 1]);
        }
        Ok(CollectionPath(owned(value)))
    }
}

impl core::str::FromStr for CollectionPath {
    type Err = NtError;

    fn from_str(value: &str) -> (r: Result<Self>)
        ensures
            r is Ok <==> is_collection_path(value@),
            r matches Ok(c) ==> c.view() == value@,
            r matches Err(e) ==> e is InvalidValue && e->field == "collection" && e->value@
                == value@,
    {
        Self::parse(value)
    }
}

#[derive(Clone, Debug, PartialEq, Eq, Hash, PartialOrd, Ord)]
pub struct Tag(String);

impl Tag {
    pub closed spec fn view(&self) -> Seq<char> {
        self.0@
    }

    pub fn as_str(&self) -> (r: &str)
        ensures
            r@ == self.view(),
    {
        self.0.as_str()
    }

    /// Parses a tag such as `rust_2026`.
    pub fn parse(value: &str) -> (r: Result<Self>)
        ensures
            r is Ok <==> is_name(value@),
            r matches Ok(t) ==> t.view() == value@,
            r matches Err(e) ==> e is InvalidValue && e->field == "tag" && e->value@ == value@,
    {
        if segment_is_invalid(value) {
            return Err(NtError::InvalidValue { field: "tag", value: owned(value) });
        }
        Ok(Tag(owned(value)))
    }
}

impl core::str::FromStr for Tag {
    type Err = NtError;

    fn from_str(value: &str) -> (r: Result<Self>)
        ensures
            r is Ok <==> is_name(value@),
            r matches Ok(t) ==> t.view() == value@,
            r matches Err(e) ==> e is InvalidValue && e->field == "tag" && e->value@ == value@,
    {
        Self::parse(value)
    }
}

} // verus!
