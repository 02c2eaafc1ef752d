//! The fields a note listing can show, and comma-separated lists of them.
use vstd::prelude::*;

use crate::error::{NtError, Result};
use crate::lexical::{lemma_pieces_nonempty, pieces};
use crate::text::{append_str, chars_eq, chars_of, owned, string_of};

verus! {

/// A column of a note listing.
#[derive(Clone, Copy, Debug, PartialEq, Eq, PartialOrd, Ord, Structural)]
pub enum ListField {
    Id,
    Home,
    Created,
    Updated,
    Title,
    Kind,
    Status,
    Priority,
    Scheduled,
    Due,
    Closed,
    Tag,
    Collection,
    Link,
    Source,
}

/// The name of a field, as a listing's field list writes it.
pub open spec fn field_name(f: ListField) -> Seq<char> {
    match f {
        ListField::Id => "id"@,
        ListField::Home => "home"@,
        ListField::Created => "created"@,
        ListField::Updated => "updated"@,
        ListField::Title => "title"@,
        ListField::Kind => "kind"@,
        ListField::Status => "status"@,
        ListField::Priority => "priority"@,
        ListField::Scheduled => "scheduled"@,
        ListField::Due => "due"@,
        ListField::Closed => "closed"@,
        ListField::Tag => "tag"@,
        ListField::Collection => "collection"@,
        ListField::Link => "link"@,
        ListField::Source => "source"@,
    }
}

/// Every field, in column order.
pub open spec fn all_fields() -> Seq<ListField> {
    seq![
        ListField::Id,
        ListField::Home,
        ListField::Created,
        ListField::Updated,
        ListField::Title,
        ListField::Kind,
        ListField::Status,
        ListField::Priority,
        ListField::Scheduled,
        ListField::Due,
        ListField::Closed,
        ListField::Tag,
        ListField::Collection,
        ListField::Link,
        ListField::Source,
    ]
}

/// The fields a listing shows unless told otherwise.
pub open spec fn default_fields() -> Seq<ListField> {
    seq![
        ListField::Id,
        ListField::Title,
        ListField::Kind,
        ListField::Status,
        ListField::Due,
        ListField::Tag,
    ]
}

/// The field a name names, if any.
pub open spec fn field_named(name: Seq<char>) -> Option<ListField> {
    if exists|f: ListField| field_name(f) == name {
        Some(choose|f: ListField| field_name(f) == name)
    } else {
        None
    }
}

/// Each field reads back from its name.
pub proof fn law_field_name_round_trip(f: ListField)
    ensures
        field_named(field_name(f)) == Some(f),
{
    reveal_strlit("id");
    reveal_strlit("home");
    reveal_strlit("created");
    reveal_strlit("updated");
    reveal_strlit("title");
    reveal_strlit("kind");
    reveal_strlit("status");
    reveal_strlit("priority");
    reveal_strlit("scheduled");
    reveal_strlit("due");
    reveal_strlit("closed");
    reveal_strlit("tag");
    reveal_strlit("collection");
    reveal_strlit("link");
    reveal_strlit("source");
    assert forall|g: ListField| field_name(g) == field_name(f) implies g == f by {
        assert(field_name(g).len() == field_name(f).len());
        assert(field_name(g)[0] == field_name(f)[0]);
        assert(field_name(g)[1] == field_name(f)[1]);
    }
}

pub open spec fn is_comma() -> spec_fn(char) -> bool {
    |c: char| c == ','
}

/// What reading the names `names` gives: the fields, or the first bad name
/// and why it is bad (0: empty, 1: unknown, 2: named twice).
pub open spec fn field_list(names: Seq<Seq<char>>) -> core::result::Result<Seq<ListField>, (int, Seq<char>)>
    decreases names.len(),
{
    if names.len() == 0 {
        Ok(Seq::empty())
    } else {
        match field_list(names.drop_last()) {
            Err(e) => Err(e),
            Ok(fields) => {
                let name = names.last();
                if name.len() == 0 {
                    Err((0, name))
                } else {
                    match field_named(name) {
                        None => Err((1, name)),
                        Some(f) => if fields.contains(f) {
                            Err((2, name))
                        } else {
                            Ok(fields.push(f))
                        },
                    }
                }
            },
        }
    }
}

/// The message a bad field list is refused with.
pub open spec fn field_list_message(value: Seq<char>, bad: (int, Seq<char>)) -> Seq<char> {
    if bad.0 == 0 {
        "empty list field in `"@ + value + "`"@
    } else if bad.0 == 1 {
        "unknown list field `"@ + bad.1 + "`"@
    } else {
        "duplicate list field `"@ + bad.1 + "`"@
    }
}

proof fn lemma_names_distinct()
    ensures
        forall|f: ListField, g: ListField| field_name(f) == field_name(g) ==> f == g,
{
    reveal_strlit("id");
    reveal_strlit("home");
    reveal_strlit("created");
    reveal_strlit("updated");
    reveal_strlit("title");
    reveal_strlit("kind");
    reveal_strlit("status");
    reveal_strlit("priority");
    reveal_strlit("scheduled");
    reveal_strlit("due");
    reveal_strlit("closed");
    reveal_strlit("tag");
    reveal_strlit("collection");
    reveal_strlit("link");
    reveal_strlit("source");
    assert forall|f: ListField, g: ListField| field_name(f) == field_name(g) implies f == g by {
        if f != g {
            let a = field_name(f);
            let b = field_name(g);
            if a.len() == b.len() && a.len() > 0 {
                assert(a[0] != b[0] || a[1] != b[1] || a[a.len() - 1] != b[b.len() - 1]);
            }
        }
    }
}

fn name_is(name: &[char], text: &str) -> (r: bool)
    ensures
        r == (name@ == text@),
{
    let t = chars_of(text);
    chars_eq(name, t.as_slice())
}

impl ListField {
    /// The field a name names.
    pub fn from_name(name: &[char]) -> (r: Option<ListField>)
        ensures
            r == field_named(name@),
    {
        proof {
            lemma_names_distinct();
        }
        let r = if name_is(name, "id") {
            Some(ListField::Id)
        } else if name_is(name, "home") {
            Some(ListField::Home)
        } else if name_is(name, "created") {
            Some(ListField::Created)
        } else if name_is(name, "updated") {
            Some(ListField::Updated)
        } else if name_is(name, "title") {
            Some(ListField::Title)
        } else if name_is(name, "kind") {
            Some(ListField::Kind)
        } else if name_is(name, "status") {
            Some(ListField::Status)
        } else if name_is(name, "priority") {
            Some(ListField::Priority)
        } else if name_is(name, "scheduled") {
            Some(ListField::Scheduled)
        } else if name_is(name, "due") {
            Some(ListField::Due)
        } else if name_is(name, "closed") {
            Some(ListField::Closed)
        } else if name_is(name, "tag") {
            Some(ListField::Tag)
        } else if name_is(name, "collection") {
            Some(ListField::Collection)
        } else if name_is(name, "link") {
            Some(ListField::Link)
        } else if name_is(name, "source") {
            Some(ListField::Source)
        } else {
            None
        };
        proof {
            match r {
                Some(f) => {
                    assert(field_name(f) == name@);
                    assert(exists|g: ListField| field_name(g) == name@);
                    let g = choose|g: ListField| field_name(g) == name@;
                    assert(f == g);
                },
                None => {
                    assert forall|g: ListField| field_name(g) != name@ by {
                        match g {
                            ListField::Id => {},
                            ListField::Home => {},
                            ListField::Created => {},
                            ListField::Updated => {},
                            ListField::Title => {},
                            ListField::Kind => {},
                            ListField::Status => {},
                            ListField::Priority => {},
                            ListField::Scheduled => {},
                            ListField::Due => {},
                            ListField::Closed => {},
                            ListField::Tag => {},
                            ListField::Collection => {},
                            ListField::Link => {},
                            ListField::Source => {},
                        }
                    }
                },
            }
        }
        r
    }

    /// The name of the field.
    pub fn name(self) -> (r: &'static str)
        ensures
            r@ == field_name(self),
    {
        match self {
            ListField::Id => "id",
            ListField::Home => "home",
            ListField::Created => "created",
            ListField::Updated => "updated",
            ListField::Title => "title",
            ListField::Kind => "kind",
            ListField::Status => "status",
            ListField::Priority => "priority",
            ListField::Scheduled => "scheduled",
            ListField::Due => "due",
            ListField::Closed => "closed",
            ListField::Tag => "tag",
            ListField::Collection => "collection",
            ListField::Link => "link",
            ListField::Source => "source",
        }
    }

    /// Reads a field name.
    pub fn parse(value: &str) -> (r: Result<ListField>)
        ensures
            match field_named(value@) {
                Some(f) => r == Ok::<ListField, NtError>(f),
                None => r matches Err(e) && e is Message && e->Message_0@ == "unknown list field `"@
                    + value@ + "`"@,
            },
    {
        let chars = chars_of(value);
        match ListField::from_name(chars.as_slice()) {
            Some(f) => Ok(f),
            None => {
                let mut message = owned("unknown list field `");
                append_str(&mut message, value);
                append_str(&mut message, "`");
                Err(NtError::Message(message))
            },
        }
    }

    /// Reads a comma-separated list of field names, each named once.
    pub fn parse_list(value: &str) -> (r: Result<Vec<ListField>>)
        ensures
            match field_list(pieces(value@, is_comma())) {
                Ok(fields) => r matches Ok(v) && v@ == fields,
                Err(bad) => r matches Err(e) && e is Message && e->Message_0@
                    == field_list_message(value@, bad),
            },
    {
        let chars = chars_of(value);
        let names = split_commas(&chars);
        let ghost nv = names@.map_values(|n: Vec<char>| n@);
        let mut fields: Vec<ListField> = Vec::new();
        let mut k: usize = 0;
        proof {
            assert(nv.subrange(0, 0) =~= Seq::<Seq<char>>::empty());
        }
        while k < names.len()
            invariant
                k <= names@.len(),
                nv == names@.map_values(|n: Vec<char>| n@),
                nv == pieces(value@, is_comma()),
                field_list(nv.subrange(0, k as int)) == core::result::Result::<Seq<ListField>, (int, Seq<char>)>::Ok(
                    fields@,
                ),
            decreases names@.len() - k,
        {
            let name = &names[k];
            proof {
                assert(nv.subrange(0, k + 1).drop_last() =~= nv.subrange(0, k as int));
                assert(nv.subrange(0, k + 1).last() == name@);
            }
            if name.len() == 0 {
                proof {
                    lemma_field_list_error_extends(nv, k + 1);
                }
                let mut message = owned("empty list field in `");
                append_str(&mut message, value);
                append_str(&mut message, "`");
                return Err(NtError::Message(message));
            }
            let field = match ListField::from_name(name.as_slice()) {
                Some(f) => f,
                None => {
                    proof {
                        lemma_field_list_error_extends(nv, k + 1);
                    }
                    let mut message = owned("unknown list field `");
                    let text = string_of(name.as_slice());
                    append_str(&mut message, text.as_str());
                    append_str(&mut message, "`");
                    return Err(NtError::Message(message));
                },
            };
            if contains_field(&fields, field) {
                proof {
                    lemma_field_list_error_extends(nv, k + 1);
                }
                let mut message = owned("duplicate list field `");
                let text = string_of(name.as_slice());
                append_str(&mut message, text.as_str());
                append_str(&mut message, "`");
                return Err(NtError::Message(message));
            }
            fields.push(field);
            k += 1;
        }
        proof {
            assert(nv.subrange(0, names@.len() as int) =~= nv);
        }
        Ok(fields)
    }
}

proof fn lemma_field_list_error_extends(names: Seq<Seq<char>>, k: int)
    requires
        0 <= k <= names.len(),
        field_list(names.subrange(0, k)) is Err,
    ensures
        field_list(names) == field_list(names.subrange(0, k)),
    decreases names.len() - k,
{
    if k < names.len() {
        assert(names.subrange(0, k + 1).drop_last() =~= names.subrange(0, k));
        lemma_field_list_error_extends(names, k + 1);
    } else {
        assert(names.subrange(0, k) =~= names);
    }
}

fn contains_field(fields: &Vec<ListField>, f: ListField) -> (r: bool)
    ensures
        r == fields@.contains(f),
{
    let mut i: usize = 0;
    while i < fields.len()
        invariant
            i <= fields@.len(),
            forall|k: int| 0 <= k < i ==> fields@[k] != f,
        decreases fields@.len() - i,
    {
        if fields[i] == f {
            assert(fields@[i as int] == f);
            return true;
        }
        i += 1;
    }
    false
}

/// The texts between the commas of a text, empty ones included.
fn split_commas(chars: &Vec<char>) -> (names: Vec<Vec<char>>)
    ensures
        names@.map_values(|n: Vec<char>| n@) == pieces(chars@, is_comma()),
{
    let mut names: Vec<Vec<char>> = Vec::new();
    let mut current: Vec<char> = Vec::new();
    let mut i: usize = 0;
    proof {
        assert(chars@.subrange(0, 0) =~= Seq::<char>::empty());
        assert(names@.map_values(|n: Vec<char>| n@) =~= seq![Seq::<char>::empty()].drop_last());
    }
    while i < chars.len()
        invariant
            i <= chars@.len(),
            pieces(chars@.subrange(0, i as int), is_comma()).last() == current@,
            names@.map_values(|n: Vec<char>| n@) == pieces(chars@.subrange(0, i as int), is_comma()).drop_last(),
        decreases chars@.len() - i,
    {
        let c = chars[i];
        let ghost prefix = chars@.subrange(0, i as int);
        let ghost next = chars@.subrange(0, i + 1);
        proof {
            assert(next.drop_last() =~= prefix);
            assert(next.last() == c);
            lemma_pieces_nonempty(prefix, is_comma());
        }
        if c == ',' {
            let ghost before = names@;
            names.push(current);
            current = Vec::new();
            proof {
                let p = pieces(prefix, is_comma());
                assert(pieces(next, is_comma()) == p.push(Seq::<char>::empty()));
                assert(names@.map_values(|n: Vec<char>| n@) =~= before.map_values(|n: Vec<char>| n@).push(p.last()));
                assert(p =~= p.drop_last().push(p.last()));
                assert(pieces(next, is_comma()).drop_last() =~= p);
                assert(current@ =~= Seq::<char>::empty());
            }
        } else {
            current.push(c);
            proof {
                let p = pieces(prefix, is_comma());
                assert(pieces(next, is_comma()) == p.drop_last().push(p.last().push(c)));
                assert(pieces(next, is_comma()).drop_last() =~= p.drop_last());
            }
        }
        i += 1;
    }
    let ghost before = names@;
    names.push(current);
    proof {
        assert(chars@.subrange(0, chars@.len() as int) =~= chars@);
        let p = pieces(chars@, is_comma());
        lemma_pieces_nonempty(chars@, is_comma());
        assert(names@.map_values(|n: Vec<char>| n@) =~= before.map_values(|n: Vec<char>| n@).push(p.last()));
        assert(p =~= p.drop_last().push(p.last()));
    }
    names
}

/// Every field, in column order.
pub fn all_field_list() -> (r: Vec<ListField>)
    ensures
        r@ == all_fields(),
{
    let r = vec![
        ListField::Id,
        ListField::Home,
        ListField::Created,
        ListField::Updated,
        ListField::Title,
        ListField::Kind,
        ListField::Status,
        ListField::Priority,
        ListField::Scheduled,
        ListField::Due,
        ListField::Closed,
        ListField::Tag,
        ListField::Collection,
        ListField::Link,
        ListField::Source,
    ];
    assert(r@ =~= all_fields());
    r
}

/// The fields a listing shows unless told otherwise.
pub fn default_field_list() -> (r: Vec<ListField>)
    ensures
        r@ == default_fields(),
{
    let r = vec![
        ListField::Id,
        ListField::Title,
        ListField::Kind,
        ListField::Status,
        ListField::Due,
        ListField::Tag,
    ];
    assert(r@ =~= default_fields());
    r
}

} // verus!
