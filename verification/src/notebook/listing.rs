//! Listings of the notebook: note tables, tags, collections and the link
//! graph, with the fields a note table can show.
use vstd::prelude::*;

use crate::error::{NtError, Result};
use crate::lexical::{lemma_pieces_nonempty, pieces, string_views};
use crate::listing::render::{
    byte_len, cell_bound, joined_with, render_columns, table_line, upper_name, widths_of,
};
use crate::listing::{copied, first_option, is_filter_text};
use crate::note::stamp::{is_note_id, validate_id};
use crate::notebook::NoteMeta;
use crate::text::{append_str, chars_eq, chars_of, has_prefix, owned, push_char, slice_chars, starts_with, str_eq, string_of};

verus! {

/// A column of a note listing.
#[derive(Clone, Copy, Debug, PartialEq, Eq, PartialOrd, Ord, Structural)]
pub enum ListField {
    Id,
    Path,
    Created,
    Updated,
    Title,
    Kind,
    Status,
    Priority,
    Scheduled,
    Due,
    Closed,
    Tag,
    Collection,
    Link,
    Source,
}

/// The name of a field, as a listing's field list writes it.
pub open spec fn field_name(f: ListField) -> Seq<char> {
    match f {
        ListField::Id => "id"@,
        ListField::Path => "path"@,
        ListField::Created => "created"@,
        ListField::Updated => "updated"@,
        ListField::Title => "title"@,
        ListField::Kind => "kind"@,
        ListField::Status => "status"@,
        ListField::Priority => "priority"@,
        ListField::Scheduled => "scheduled"@,
        ListField::Due => "due"@,
        ListField::Closed => "closed"@,
        ListField::Tag => "tag"@,
        ListField::Collection => "collection"@,
        ListField::Link => "link"@,
        ListField::Source => "source"@,
    }
}

/// Every field, in column order.
pub open spec fn all_fields() -> Seq<ListField> {
    seq![
        ListField::Id,
        ListField::Path,
        ListField::Created,
        ListField::Updated,
        ListField::Title,
        ListField::Kind,
        ListField::Status,
        ListField::Priority,
        ListField::Scheduled,
        ListField::Due,
        ListField::Closed,
        ListField::Tag,
        ListField::Collection,
        ListField::Link,
        ListField::Source,
    ]
}

/// The fields a listing shows unless told otherwise.
pub open spec fn default_fields() -> Seq<ListField> {
    seq![
        ListField::Id,
        ListField::Title,
        ListField::Kind,
        ListField::Status,
        ListField::Due,
        ListField::Tag,
    ]
}

/// The field a name names, if any.
pub open spec fn field_named(name: Seq<char>) -> Option<ListField> {
    if exists|f: ListField| field_name(f) == name {
        Some(choose|f: ListField| field_name(f) == name)
    } else {
        None
    }
}

/// Each field reads back from its name.
pub proof fn law_field_name_round_trip(f: ListField)
    ensures
        field_named(field_name(f)) == Some(f),
{
    reveal_strlit("id");
    reveal_strlit("path");
    reveal_strlit("created");
    reveal_strlit("updated");
    reveal_strlit("title");
    reveal_strlit("kind");
    reveal_strlit("status");
    reveal_strlit("priority");
    reveal_strlit("scheduled");
    reveal_strlit("due");
    reveal_strlit("closed");
    reveal_strlit("tag");
    reveal_strlit("collection");
    reveal_strlit("link");
    reveal_strlit("source");
    assert forall|g: ListField| field_name(g) == field_name(f) implies g == f by {
        assert(field_name(g).len() == field_name(f).len());
        assert(field_name(g)[0] == field_name(f)[0]);
        assert(field_name(g)[1] == field_name(f)[1]);
    }
}

pub open spec fn is_comma() -> spec_fn(char) -> bool {
    |c: char| c == ','
}

/// What reading the names `names` gives: the fields, or the first bad name
/// and why it is bad (0: empty, 1: unknown, 2: named twice).
pub open spec fn field_list(names: Seq<Seq<char>>) -> core::result::Result<Seq<ListField>, (int, Seq<char>)>
    decreases names.len(),
{
    if names.len() == 0 {
        Ok(Seq::empty())
    } else {
        match field_list(names.drop_last()) {
            Err(e) => Err(e),
            Ok(fields) => {
                let name = names.last();
                if name.len() == 0 {
                    Err((0, name))
                } else {
                    match field_named(name) {
                        None => Err((1, name)),
                        Some(f) => if fields.contains(f) {
                            Err((2, name))
                        } else {
                            Ok(fields.push(f))
                        },
                    }
                }
            },
        }
    }
}

/// The message a bad field list is refused with.
pub open spec fn field_list_message(value: Seq<char>, bad: (int, Seq<char>)) -> Seq<char> {
    if bad.0 == 0 {
        "empty list field in `"@ + value + "`"@
    } else if bad.0 == 1 {
        "unknown list field `"@ + bad.1 + "`"@
    } else {
        "duplicate list field `"@ + bad.1 + "`"@
    }
}

proof fn lemma_names_distinct()
    ensures
        forall|f: ListField, g: ListField| field_name(f) == field_name(g) ==> f == g,
{
    reveal_strlit("id");
    reveal_strlit("path");
    reveal_strlit("created");
    reveal_strlit("updated");
    reveal_strlit("title");
    reveal_strlit("kind");
    reveal_strlit("status");
    reveal_strlit("priority");
    reveal_strlit("scheduled");
    reveal_strlit("due");
    reveal_strlit("closed");
    reveal_strlit("tag");
    reveal_strlit("collection");
    reveal_strlit("link");
    reveal_strlit("source");
    assert forall|f: ListField, g: ListField| field_name(f) == field_name(g) implies f == g by {
        if f != g {
            let a = field_name(f);
            let b = field_name(g);
            if a.len() == b.len() && a.len() > 0 {
                assert(a[0] != b[0] || a[1] != b[1] || a[a.len() - 1] != b[b.len() - 1]);
            }
        }
    }
}

fn name_is(name: &[char], text: &str) -> (r: bool)
    ensures
        r == (name@ == text@),
{
    let t = chars_of(text);
    chars_eq(name, t.as_slice())
}

impl ListField {
    /// The field a name names.
    pub fn from_name(name: &[char]) -> (r: Option<ListField>)
        ensures
            r == field_named(name@),
    {
        proof {
            lemma_names_distinct();
        }
        let r = if name_is(name, "id") {
            Some(ListField::Id)
        } else if name_is(name, "path") {
            Some(ListField::Path)
        } else if name_is(name, "created") {
            Some(ListField::Created)
        } else if name_is(name, "updated") {
            Some(ListField::Updated)
        } else if name_is(name, "title") {
            Some(ListField::Title)
        } else if name_is(name, "kind") {
            Some(ListField::Kind)
        } else if name_is(name, "status") {
            Some(ListField::Status)
        } else if name_is(name, "priority") {
            Some(ListField::Priority)
        } else if name_is(name, "scheduled") {
            Some(ListField::Scheduled)
        } else if name_is(name, "due") {
            Some(ListField::Due)
        } else if name_is(name, "closed") {
            Some(ListField::Closed)
        } else if name_is(name, "tag") {
            Some(ListField::Tag)
        } else if name_is(name, "collection") {
            Some(ListField::Collection)
        } else if name_is(name, "link") {
            Some(ListField::Link)
        } else if name_is(name, "source") {
            Some(ListField::Source)
        } else {
            None
        };
        proof {
            match r {
                Some(f) => {
                    assert(field_name(f) == name@);
                    assert(exists|g: ListField| field_name(g) == name@);
                    let g = choose|g: ListField| field_name(g) == name@;
                    assert(f == g);
                },
                None => {
                    assert forall|g: ListField| field_name(g) != name@ by {
                        match g {
                            ListField::Id => {},
                            ListField::Path => {},
                            ListField::Created => {},
                            ListField::Updated => {},
                            ListField::Title => {},
                            ListField::Kind => {},
                            ListField::Status => {},
                            ListField::Priority => {},
                            ListField::Scheduled => {},
                            ListField::Due => {},
                            ListField::Closed => {},
                            ListField::Tag => {},
                            ListField::Collection => {},
                            ListField::Link => {},
                            ListField::Source => {},
                        }
                    }
                },
            }
        }
        r
    }

    /// The name of the field.
    pub fn name(self) -> (r: &'static str)
        ensures
            r@ == field_name(self),
    {
        match self {
            ListField::Id => "id",
            ListField::Path => "path",
            ListField::Created => "created",
            ListField::Updated => "updated",
            ListField::Title => "title",
            ListField::Kind => "kind",
            ListField::Status => "status",
            ListField::Priority => "priority",
            ListField::Scheduled => "scheduled",
            ListField::Due => "due",
            ListField::Closed => "closed",
            ListField::Tag => "tag",
            ListField::Collection => "collection",
            ListField::Link => "link",
            ListField::Source => "source",
        }
    }

    /// Reads a field name.
    pub fn parse(value: &str) -> (r: Result<ListField>)
        ensures
            match field_named(value@) {
                Some(f) => r == Ok::<ListField, NtError>(f),
                None => r matches Err(e) && e is Message && e->Message_0@ == "unknown list field `"@
                    + value@ + "`"@,
            },
    {
        let chars = chars_of(value);
        match ListField::from_name(chars.as_slice()) {
            Some(f) => Ok(f),
            None => {
                let mut message = owned("unknown list field `");
                append_str(&mut message, value);
                append_str(&mut message, "`");
                Err(NtError::Message(message))
            },
        }
    }

    /// Reads a comma-separated list of field names, each named once.
    pub fn parse_list(value: &str) -> (r: Result<Vec<ListField>>)
        ensures
            match field_list(pieces(value@, is_comma())) {
                Ok(fields) => r matches Ok(v) && v@ == fields,
                Err(bad) => r matches Err(e) && e is Message && e->Message_0@
                    == field_list_message(value@, bad),
            },
    {
        let chars = chars_of(value);
        let names = split_commas(&chars);
        let ghost nv = names@.map_values(|n: Vec<char>| n@);
        let mut fields: Vec<ListField> = Vec::new();
        let mut k: usize = 0;
        proof {
            assert(nv.subrange(0, 0) =~= Seq::<Seq<char>>::empty());
        }
        while k < names.len()
            invariant
                k <= names@.len(),
                nv == names@.map_values(|n: Vec<char>| n@),
                nv == pieces(value@, is_comma()),
                field_list(nv.subrange(0, k as int)) == core::result::Result::<Seq<ListField>, (int, Seq<char>)>::Ok(
                    fields@,
                ),
            decreases names@.len() - k,
        {
            let name = &names[k];
            proof {
                assert(nv.subrange(0, k + 1).drop_last() =~= nv.subrange(0, k as int));
                assert(nv.subrange(0, k + 1).last() == name@);
            }
            if name.len() == 0 {
                proof {
                    lemma_field_list_error_extends(nv, k + 1);
                }
                let mut message = owned("empty list field in `");
                append_str(&mut message, value);
                append_str(&mut message, "`");
                return Err(NtError::Message(message));
            }
            let field = match ListField::from_name(name.as_slice()) {
                Some(f) => f,
                None => {
                    proof {
                        lemma_field_list_error_extends(nv, k + 1);
                    }
                    let mut message = owned("unknown list field `");
                    let text = string_of(name.as_slice());
                    append_str(&mut message, text.as_str());
                    append_str(&mut message, "`");
                    return Err(NtError::Message(message));
                },
            };
            if contains_field(&fields, field) {
                proof {
                    lemma_field_list_error_extends(nv, k + 1);
                }
                let mut message = owned("duplicate list field `");
                let text = string_of(name.as_slice());
                append_str(&mut message, text.as_str());
                append_str(&mut message, "`");
                return Err(NtError::Message(message));
            }
            fields.push(field);
            k += 1;
        }
        proof {
            assert(nv.subrange(0, names@.len() as int) =~= nv);
        }
        Ok(fields)
    }
}

proof fn lemma_field_list_error_extends(names: Seq<Seq<char>>, k: int)
    requires
        0 <= k <= names.len(),
        field_list(names.subrange(0, k)) is Err,
    ensures
        field_list(names) == field_list(names.subrange(0, k)),
    decreases names.len() - k,
{
    if k < names.len() {
        assert(names.subrange(0, k + 1).drop_last() =~= names.subrange(0, k));
        lemma_field_list_error_extends(names, k + 1);
    } else {
        assert(names.subrange(0, k) =~= names);
    }
}

fn contains_field(fields: &Vec<ListField>, f: ListField) -> (r: bool)
    ensures
        r == fields@.contains(f),
{
    let mut i: usize = 0;
    while i < fields.len()
        invariant
            i <= fields@.len(),
            forall|k: int| 0 <= k < i ==> fields@[k] != f,
        decreases fields@.len() - i,
    {
        if fields[i] == f {
            assert(fields@[i as int] == f);
            return true;
        }
        i += 1;
    }
    false
}

/// The texts between the commas of a text, empty ones included.
fn split_commas(chars: &Vec<char>) -> (names: Vec<Vec<char>>)
    ensures
        names@.map_values(|n: Vec<char>| n@) == pieces(chars@, is_comma()),
{
    let mut names: Vec<Vec<char>> = Vec::new();
    let mut current: Vec<char> = Vec::new();
    let mut i: usize = 0;
    proof {
        assert(chars@.subrange(0, 0) =~= Seq::<char>::empty());
        assert(names@.map_values(|n: Vec<char>| n@) =~= seq![Seq::<char>::empty()].drop_last());
    }
    while i < chars.len()
        invariant
            i <= chars@.len(),
            pieces(chars@.subrange(0, i as int), is_comma()).last() == current@,
            names@.map_values(|n: Vec<char>| n@) == pieces(chars@.subrange(0, i as int), is_comma()).drop_last(),
        decreases chars@.len() - i,
    {
        let c = chars[i];
        let ghost prefix = chars@.subrange(0, i as int);
        let ghost next = chars@.subrange(0, i + 1);
        proof {
            assert(next.drop_last() =~= prefix);
            assert(next.last() == c);
            lemma_pieces_nonempty(prefix, is_comma());
        }
        if c == ',' {
            let ghost before = names@;
            names.push(current);
            current = Vec::new();
            proof {
                let p = pieces(prefix, is_comma());
                assert(pieces(next, is_comma()) == p.push(Seq::<char>::empty()));
                assert(names@.map_values(|n: Vec<char>| n@) =~= before.map_values(|n: Vec<char>| n@).push(p.last()));
                assert(p =~= p.drop_last().push(p.last()));
                assert(pieces(next, is_comma()).drop_last() =~= p);
                assert(current@ =~= Seq::<char>::empty());
            }
        } else {
            current.push(c);
            proof {
                let p = pieces(prefix, is_comma());
                assert(pieces(next, is_comma()) == p.drop_last().push(p.last().push(c)));
                assert(pieces(next, is_comma()).drop_last() =~= p.drop_last());
            }
        }
        i += 1;
    }
    let ghost before = names@;
    names.push(current);
    proof {
        assert(chars@.subrange(0, chars@.len() as int) =~= chars@);
        let p = pieces(chars@, is_comma());
        lemma_pieces_nonempty(chars@, is_comma());
        assert(names@.map_values(|n: Vec<char>| n@) =~= before.map_values(|n: Vec<char>| n@).push(p.last()));
        assert(p =~= p.drop_last().push(p.last()));
    }
    names
}

/// Every field, in column order.
pub fn all_field_list() -> (r: Vec<ListField>)
    ensures
        r@ == all_fields(),
{
    let r = vec![
        ListField::Id,
        ListField::Path,
        ListField::Created,
        ListField::Updated,
        ListField::Title,
        ListField::Kind,
        ListField::Status,
        ListField::Priority,
        ListField::Scheduled,
        ListField::Due,
        ListField::Closed,
        ListField::Tag,
        ListField::Collection,
        ListField::Link,
        ListField::Source,
    ];
    assert(r@ =~= all_fields());
    r
}

/// The fields a listing shows unless told otherwise.
pub fn default_field_list() -> (r: Vec<ListField>)
    ensures
        r@ == default_fields(),
{
    let r = vec![
        ListField::Id,
        ListField::Title,
        ListField::Kind,
        ListField::Status,
        ListField::Due,
        ListField::Tag,
    ];
    assert(r@ =~= default_fields());
    r
}

// ---------------------------------------------------------------------------
// Rendering notes
// ---------------------------------------------------------------------------
/// What `Path::display` writes for a path, as text.
pub uninterp spec fn path_display(path: std::path::PathBuf) -> Seq<char>;

/// `PathBuf::display` written out: the text named by `path_display`, which
/// as a string holds at most `isize::MAX` bytes.
#[verifier::external_body]
fn path_text(path: &std::path::PathBuf) -> (r: String)
    ensures
        r@ == path_display(*path),
        r@.len() < cell_bound(),
{
    path.display().to_string()
}

/// An optional value, or `-`.
pub open spec fn optional_text(v: Option<String>) -> Seq<char> {
    match v {
        Some(s) => s@,
        None => "-"@,
    }
}

/// A list of values joined with commas, or `-` when there are none.
pub open spec fn values_text(v: Seq<Seq<char>>) -> Seq<char> {
    if v.len() == 0 {
        "-"@
    } else {
        joined_with(v, ',')
    }
}

/// The text of a field of a note.
pub open spec fn field_text(f: ListField, n: NoteMeta) -> Seq<char> {
    match f {
        ListField::Id => n.id@,
        ListField::Path => path_display(n.path),
        ListField::Created => n.created@,
        ListField::Updated => n.updated@,
        ListField::Title => n.title@,
        ListField::Kind => n.kind@,
        ListField::Status => optional_text(n.status),
        ListField::Priority => optional_text(n.priority),
        ListField::Scheduled => optional_text(n.scheduled),
        ListField::Due => optional_text(n.due),
        ListField::Closed => optional_text(n.closed),
        ListField::Tag => values_text(string_views(n.tags@)),
        ListField::Collection => values_text(string_views(n.collections@)),
        ListField::Link => values_text(string_views(n.links@)),
        ListField::Source => values_text(string_views(n.sources@)),
    }
}

/// Each column of a note listing shows that note's own value of the field:
/// the id, path, creation and update times, title and kind as they are; an
/// optional field's value, or `-` without one; a set's values joined with
/// commas, or `-` when it is empty. A row of one column is that text.
pub proof fn law_columns_show_their_fields(n: NoteMeta, f: ListField)
    ensures
        field_text(ListField::Id, n) == n.id@,
        field_text(ListField::Path, n) == path_display(n.path),
        field_text(ListField::Created, n) == n.created@,
        field_text(ListField::Updated, n) == n.updated@,
        field_text(ListField::Title, n) == n.title@,
        field_text(ListField::Kind, n) == n.kind@,
        n.status matches Some(v) ==> field_text(ListField::Status, n) == v@,
        n.priority matches Some(v) ==> field_text(ListField::Priority, n) == v@,
        n.scheduled matches Some(v) ==> field_text(ListField::Scheduled, n) == v@,
        n.due matches Some(v) ==> field_text(ListField::Due, n) == v@,
        n.closed matches Some(v) ==> field_text(ListField::Closed, n) == v@,
        n.status is None ==> field_text(ListField::Status, n) == seq!['-'],
        n.priority is None ==> field_text(ListField::Priority, n) == seq!['-'],
        n.scheduled is None ==> field_text(ListField::Scheduled, n) == seq!['-'],
        n.due is None ==> field_text(ListField::Due, n) == seq!['-'],
        n.closed is None ==> field_text(ListField::Closed, n) == seq!['-'],
        n.tags@.len() == 0 ==> field_text(ListField::Tag, n) == seq!['-'],
        n.tags@.len() > 0 ==> field_text(ListField::Tag, n) == joined_with(string_views(n.tags@), ','),
        n.collections@.len() == 0 ==> field_text(ListField::Collection, n) == seq!['-'],
        n.collections@.len() > 0 ==> field_text(ListField::Collection, n) == joined_with(
            string_views(n.collections@),
            ',',
        ),
        n.links@.len() == 0 ==> field_text(ListField::Link, n) == seq!['-'],
        n.links@.len() > 0 ==> field_text(ListField::Link, n) == joined_with(string_views(n.links@), ','),
        n.sources@.len() == 0 ==> field_text(ListField::Source, n) == seq!['-'],
        n.sources@.len() > 0 ==> field_text(ListField::Source, n) == joined_with(
            string_views(n.sources@),
            ',',
        ),
        joined_with(field_texts(n, seq![f]), '\t') == field_text(f, n),
{
    reveal_strlit("-");
    assert(field_texts(n, seq![f])[0] == field_text(f, n));
}

fn optional(value: &Option<String>) -> (out: String)
    ensures
        out@ == optional_text(*value),
{
    match value {
        Some(v) => v.clone(),
        None => owned("-"),
    }
}

fn values(list: &Vec<String>) -> (out: String)
    ensures
        out@ == values_text(string_views(list@)),
{
    if list.len() == 0 {
        return owned("-");
    }
    let mut out = String::new();
    let mut k: usize = 0;
    proof {
        assert(string_views(list@).subrange(0, 0) =~= Seq::<Seq<char>>::empty());
    }
    while k < list.len()
        invariant
            k <= list@.len(),
            out@ == joined_with(string_views(list@).subrange(0, k as int), ','),
        decreases list@.len() - k,
    {
        let ghost sv = string_views(list@);
        if k > 0 {
            push_char(&mut out, ',');
        }
        append_str(&mut out, list[k].as_str());
        proof {
            assert(sv.subrange(0, k + 1).drop_last() =~= sv.subrange(0, k as int));
            if k == 0 {
                assert(out@ =~= sv[0]);
            }
        }
        k += 1;
    }
    proof {
        assert(string_views(list@).subrange(0, list@.len() as int) =~= string_views(list@));
    }
    out
}

impl ListField {
    /// The text of this field of a note.
    pub fn render(self, note: &NoteMeta) -> (out: String)
        ensures
            out@ == field_text(self, *note),
            self == ListField::Path ==> out@.len() < cell_bound(),
    {
        match self {
            ListField::Id => note.id.clone(),
            ListField::Path => path_text(&note.path),
            ListField::Created => note.created.clone(),
            ListField::Updated => note.updated.clone(),
            ListField::Title => note.title.clone(),
            ListField::Kind => note.kind.clone(),
            ListField::Status => optional(&note.status),
            ListField::Priority => optional(&note.priority),
            ListField::Scheduled => optional(&note.scheduled),
            ListField::Due => optional(&note.due),
            ListField::Closed => optional(&note.closed),
            ListField::Tag => values(&note.tags),
            ListField::Collection => values(&note.collections),
            ListField::Link => values(&note.links),
            ListField::Source => values(&note.sources),
        }
    }
}

/// The texts of the fields of a note.
pub open spec fn field_texts(note: NoteMeta, fields: Seq<ListField>) -> Seq<Seq<char>> {
    fields.map_values(|f: ListField| field_text(f, note))
}

fn render_fields(note: &NoteMeta, fields: &[ListField]) -> (out: Vec<String>)
    ensures
        out@.len() == fields@.len(),
        forall|i: int| 0 <= i < fields@.len() ==> (#[trigger] out@[i])@ == field_text(fields@[i], *note),
        forall|i: int| 0 <= i < fields@.len() && fields@[i] == ListField::Path ==> (#[trigger] out@[i])@.len() < cell_bound(),
{
    let mut out: Vec<String> = Vec::new();
    let mut i: usize = 0;
    while i < fields.len()
        invariant
            i <= fields@.len(),
            out@.len() == i,
            forall|k: int| 0 <= k < i ==> (#[trigger] out@[k])@ == field_text(fields@[k], *note),
            forall|k: int| 0 <= k < i && fields@[k] == ListField::Path ==> (#[trigger] out@[k])@.len() < cell_bound(),
        decreases fields@.len() - i,
    {
        let text = fields[i].render(note);
        out.push(text);
        i += 1;
    }
    out
}

/// A note as the texts of its fields separated by tabs.
pub fn render_row(note: &NoteMeta, fields: &[ListField]) -> (out: String)
    ensures
        out@ == joined_with(field_texts(*note, fields@), '\t'),
{
    let texts = render_fields(note, fields);
    let row = crate::listing::ListRow { values: texts };
    let out = crate::listing::render_row(&row);
    proof {
        assert(string_views(row.values@) =~= field_texts(*note, fields@));
    }
    out
}

/// The headers of a note table: the field names in capitals.
pub open spec fn header_of(f: ListField) -> Seq<char> {
    field_name(f).map_values(|c: char| crate::text::ascii_upper(c))
}

proof fn lemma_byte_len_at_most(s: Seq<char>)
    ensures
        byte_len(s) <= 4 * s.len(),
    decreases s.len(),
{
    if s.len() > 0 {
        lemma_byte_len_at_most(s.drop_last());
    }
}

proof fn lemma_header_fits(f: ListField)
    ensures
        byte_len(header_of(f)) < cell_bound(),
{
    lemma_byte_len_at_most(header_of(f));
    reveal_strlit("id");
    reveal_strlit("path");
    reveal_strlit("created");
    reveal_strlit("updated");
    reveal_strlit("title");
    reveal_strlit("kind");
    reveal_strlit("status");
    reveal_strlit("priority");
    reveal_strlit("scheduled");
    reveal_strlit("due");
    reveal_strlit("closed");
    reveal_strlit("tag");
    reveal_strlit("collection");
    reveal_strlit("link");
    reveal_strlit("source");
}

/// A table of notes under the headers of the fields, every column as wide as
/// its widest value.
pub fn render_table(notes: &[&NoteMeta], fields: &[ListField]) -> (out: Vec<String>)
    requires
        forall|r: int, c: int|
            0 <= r < notes@.len() && 0 <= c < fields@.len() && (#[trigger] fields@[c]) != ListField::Path
                ==> field_text(fields@[c], *#[trigger] notes@[r]).len() < cell_bound(),
    ensures
        out@.len() == notes@.len() + 1,
        out@[0]@ == table_line(
            fields@.map_values(|f: ListField| header_of(f)),
            widths_of(
                fields@.map_values(|f: ListField| header_of(f)),
                notes@.map_values(|n: &NoteMeta| field_texts(*n, fields@)),
            ),
        ),
        forall|r: int| 0 <= r < notes@.len() ==> (#[trigger] out@[r + 1])@ == table_line(
            field_texts(*notes@[r], fields@),
            widths_of(
                fields@.map_values(|f: ListField| header_of(f)),
                notes@.map_values(|n: &NoteMeta| field_texts(*n, fields@)),
            ),
        ),
{
    let mut headers: Vec<String> = Vec::new();
    let mut c: usize = 0;
    while c < fields.len()
        invariant
            c <= fields@.len(),
            string_views(headers@) == fields@.subrange(0, c as int).map_values(|f: ListField| header_of(f)),
        decreases fields@.len() - c,
    {
        let h = upper_name(fields[c].name());
        headers.push(h);
        proof {
            assert(fields@.subrange(0, c + 1).map_values(|f: ListField| header_of(f)) =~= fields@.subrange(
                0,
                c as int,
            ).map_values(|f: ListField| header_of(f)).push(header_of(fields@[c as int])));
            assert(string_views(headers@) =~= fields@.subrange(0, c + 1).map_values(
                |f: ListField| header_of(f),
            ));
        }
        c += 1;
    }
    let ghost rows_spec = notes@.map_values(|n: &NoteMeta| field_texts(*n, fields@));
    let mut rows: Vec<Vec<String>> = Vec::new();
    let mut r: usize = 0;
    while r < notes.len()
        invariant
            r <= notes@.len(),
            forall|r: int, c: int|
                0 <= r < notes@.len() && 0 <= c < fields@.len() && (#[trigger] fields@[c]) != ListField::Path
                    ==> field_text(fields@[c], *#[trigger] notes@[r]).len() < cell_bound(),
            rows_spec == notes@.map_values(|n: &NoteMeta| field_texts(*n, fields@)),
            rows@.len() == r,
            forall|q: int| 0 <= q < r ==> (#[trigger] rows@[q])@.len() == fields@.len(),
            forall|q: int, k: int|
                0 <= q < r && 0 <= k < fields@.len() ==> (#[trigger] rows@[q]@[k])@.len() < cell_bound(),
            forall|q: int, k: int|
                0 <= q < r && 0 <= k < fields@.len() ==> (#[trigger] rows@[q]@[k])@
                    == field_text(fields@[k], *notes@[q]),
        decreases notes@.len() - r,
    {
        let texts = render_fields(notes[r], fields);
        proof {
            assert forall|k: int| 0 <= k < fields@.len() implies (#[trigger] texts@[k])@.len() < cell_bound() by {
                if fields@[k] != ListField::Path {
                    assert(field_text(fields@[k], *notes@[r as int]).len() < cell_bound());
                }
            }
        }
        rows.push(texts);
        r += 1;
    }
    let ghost rv = crate::listing::render::row_views(rows@);
    proof {
        assert(fields@.subrange(0, fields@.len() as int) =~= fields@);
        assert forall|k: int| 0 <= k < fields@.len() implies byte_len(
            #[trigger] string_views(headers@)[k],
        ) < cell_bound() by {
            lemma_header_fits(fields@[k]);
        }
        assert forall|q: int, k: int|
            0 <= q < rv.len() && 0 <= k < rv[q].len() implies (#[trigger] rv[q][k]).len() < cell_bound() by {
            assert(rv[q][k] == rows@[q]@[k]@);
        }
        assert forall|q: int| 0 <= q < rv.len() implies #[trigger] rv[q] == rows_spec[q] by {
            assert(rv[q] =~= field_texts(*notes@[q], fields@));
        }
        assert(rv =~= rows_spec);
    }
    render_columns(headers, rows)
}

/// A link as the ids and titles of its two ends, separated by tabs.
pub fn render_link_row(from: &NoteMeta, to: &NoteMeta) -> (out: String)
    ensures
        out@ == from.id@ + seq!['\t'] + from.title@ + seq!['\t'] + to.id@ + seq!['\t'] + to.title@,
{
    let mut out = from.id.clone();
    push_char(&mut out, '\t');
    append_str(&mut out, from.title.as_str());
    push_char(&mut out, '\t');
    append_str(&mut out, to.id.as_str());
    push_char(&mut out, '\t');
    append_str(&mut out, to.title.as_str());
    out
}

/// The headers of a link table.
pub open spec fn link_headers() -> Seq<Seq<char>> {
    seq!["FROM ID"@, "FROM TITLE"@, "TO ID"@, "TO TITLE"@]
}

/// The texts of a link: the ids and titles of its two ends.
pub open spec fn link_texts(link: (&NoteMeta, &NoteMeta)) -> Seq<Seq<char>> {
    seq![link.0.id@, link.0.title@, link.1.id@, link.1.title@]
}

/// A table of links under `FROM ID`, `FROM TITLE`, `TO ID` and `TO TITLE`.
pub fn render_link_table(links: &[(&NoteMeta, &NoteMeta)]) -> (out: Vec<String>)
    requires
        forall|r: int, k: int|
            0 <= r < links@.len() && 0 <= k < 4 ==> (#[trigger] link_texts(links@[r])[k]).len() < cell_bound(),
    ensures
        out@.len() == links@.len() + 1,
        out@[0]@ == table_line(link_headers(), widths_of(link_headers(), links@.map_values(|l: (&NoteMeta, &NoteMeta)| link_texts(l)))),
        forall|r: int| 0 <= r < links@.len() ==> (#[trigger] out@[r + 1])@ == table_line(
            link_texts(links@[r]),
            widths_of(link_headers(), links@.map_values(|l: (&NoteMeta, &NoteMeta)| link_texts(l))),
        ),
{
    let mut headers: Vec<String> = Vec::new();
    headers.push(owned("FROM ID"));
    headers.push(owned("FROM TITLE"));
    headers.push(owned("TO ID"));
    headers.push(owned("TO TITLE"));
    proof {
        assert(string_views(headers@) =~= link_headers());
        reveal_strlit("FROM ID");
        reveal_strlit("FROM TITLE");
        reveal_strlit("TO ID");
        reveal_strlit("TO TITLE");
    }
    let ghost rows_spec = links@.map_values(|l: (&NoteMeta, &NoteMeta)| link_texts(l));
    let mut rows: Vec<Vec<String>> = Vec::new();
    let mut r: usize = 0;
    while r < links.len()
        invariant
            r <= links@.len(),
            rows_spec == links@.map_values(|l: (&NoteMeta, &NoteMeta)| link_texts(l)),
            crate::listing::render::row_views(rows@) == rows_spec.subrange(0, r as int),
            forall|q: int| 0 <= q < r ==> (#[trigger] rows@[q])@.len() == 4,
        decreases links@.len() - r,
    {
        let (from, to) = links[r];
        let mut row: Vec<String> = Vec::new();
        row.push(from.id.clone());
        row.push(from.title.clone());
        row.push(to.id.clone());
        row.push(to.title.clone());
        let ghost before = rows@;
        proof {
            assert(string_views(row@) =~= link_texts(links@[r as int]));
        }
        rows.push(row);
        proof {
            assert(crate::listing::render::row_views(rows@) =~= crate::listing::render::row_views(before).push(link_texts(links@[r as int])));
            assert(rows_spec.subrange(0, r + 1) =~= rows_spec.subrange(0, r as int).push(rows_spec[r as int]));
        }
        r += 1;
    }
    proof {
        assert(rows_spec.subrange(0, links@.len() as int) =~= rows_spec);
        assert forall|k: int| 0 <= k < 4 implies byte_len(#[trigger] link_headers()[k]) < cell_bound() by {
            lemma_byte_len_at_most(link_headers()[k]);
        }
        assert forall|q: int, k: int|
            0 <= q < rows_spec.len() && 0 <= k < rows_spec[q].len() implies (#[trigger] rows_spec[q][k]).len() < cell_bound() by {
            assert(rows_spec[q] == link_texts(links@[q]));
        }
    }
    render_columns(headers, rows)
}

// ---------------------------------------------------------------------------
// Requests
// ---------------------------------------------------------------------------
/// What to list. The filter expressions are kept as they were written.
#[derive(Debug)]
pub enum ListRequest {
    Notes { fields: Vec<ListField>, filters: Vec<String> },
    Tags(Option<String>),
    Collections(Option<String>),
    LinkGraph { filters: Vec<String>, from: Option<String>, to: Option<String> },
}

/// What a listing's arguments ask for, before its filters are read.
pub enum ListPlan {
    /// Notes with these fields; the filters start at this argument.
    Notes(Seq<ListField>, int),
    Tags(Option<Seq<char>>),
    Collections(Option<Seq<char>>),
    /// The link graph; its filters start at the second argument.
    LinkGraph,
    /// Refused with this message.
    Refused(Seq<char>),
    /// Refused because this is no note id.
    BadId(Seq<char>),
    /// Refused because this field list does not read.
    BadFields(Seq<char>, (int, Seq<char>)),
}

/// A value without a leading `link:`.
pub open spec fn without_link_prefix(v: Seq<char>) -> Seq<char> {
    if has_prefix(v, "link:"@) {
        v.subrange(5, v.len() as int)
    } else {
        v
    }
}

pub open spec fn is_direction(v: Seq<char>) -> bool {
    v == "from"@ || v == "to"@
}

pub open spec fn is_mode(v: Seq<char>) -> bool {
    v == "ids"@ || v == "titles"@ || v == "tags"@ || v == "collections"@ || v == "links"@
}

/// What the arguments of a listing ask for.
pub open spec fn list_plan(a: Seq<Seq<char>>) -> ListPlan {
    if first_option(a) is Some {
        ListPlan::Refused("unexpected argument '"@ + a[first_option(a)->0] + "'"@)
    } else if a.len() == 2 && is_direction(a[1]) && is_note_id(without_link_prefix(a[0])) {
        ListPlan::Refused(
            "link direction `"@ + a[1] + "` must be an endpoint filter; use `nt list links "@ + a[1]
                + ":"@ + without_link_prefix(a[0]) + "`"@,
        )
    } else if a.len() >= 1 && a[0] == "all"@ {
        ListPlan::Notes(all_fields(), 1)
    } else if a.len() == 1 && a[0] == "ids"@ {
        ListPlan::Notes(seq![ListField::Id], 1)
    } else if a.len() == 1 && a[0] == "titles"@ {
        ListPlan::Notes(seq![ListField::Id, ListField::Title], 1)
    } else if a.len() >= 1 && a[0] == "links"@ && (a.len() == 1 || is_filter_text(a[1])) {
        ListPlan::LinkGraph
    } else if a.len() == 1 && a[0] == "tags"@ {
        ListPlan::Tags(None)
    } else if a.len() == 2 && a[0] == "tags"@ {
        ListPlan::Tags(Some(a[1]))
    } else if a.len() == 1 && a[0] == "collections"@ {
        ListPlan::Collections(None)
    } else if a.len() == 2 && a[0] == "collections"@ {
        ListPlan::Collections(Some(a[1]))
    } else if a.len() == 2 && a[0] == "links"@ {
        if is_note_id(a[1]) {
            ListPlan::Refused(
                "directionless link lookup is not supported; use `nt list links from:"@ + a[1]
                    + "` or `nt list links to:"@ + a[1] + "`"@,
            )
        } else {
            ListPlan::BadId(a[1])
        }
    } else if a.len() == 3 && a[0] == "links"@ && is_direction(a[2]) {
        if is_note_id(a[1]) {
            ListPlan::Refused(
                "positional link directions are not supported; use `nt list links "@ + a[2] + ":"@
                    + a[1] + "`"@,
            )
        } else {
            ListPlan::BadId(a[1])
        }
    } else if a.len() >= 1 && is_mode(a[0]) {
        ListPlan::Refused("invalid `nt list "@ + a[0] + "` arguments"@)
    } else if a.len() == 0 || is_filter_text(a[0]) {
        ListPlan::Notes(default_fields(), 0)
    } else {
        match field_list(pieces(a[0], is_comma())) {
            Ok(fields) => ListPlan::Notes(fields, 1),
            Err(bad) => ListPlan::BadFields(a[0], bad),
        }
    }
}

/// Endpoints and note filters read so far from a link graph's filters.
pub type LinkState = (Option<Seq<char>>, Option<Seq<char>>, Seq<Seq<char>>);

/// Why a link graph's filters do not read: a bad endpoint id, or an endpoint given twice.
pub enum LinkError {
    BadId(Seq<char>),
    Duplicate(Seq<char>),
}

/// The state after one more link graph filter: `from:<id>`, `to:<id>`, or a
/// note filter.
pub open spec fn link_step(st: LinkState, f: Seq<char>) -> core::result::Result<LinkState, LinkError> {
    if has_prefix(f, "from:"@) {
        let id = f.subrange(5, f.len() as int);
        if !is_note_id(id) {
            Err(LinkError::BadId(id))
        } else if st.0 is Some {
            Err(LinkError::Duplicate("from"@))
        } else {
            Ok((Some(id), st.1, st.2))
        }
    } else if has_prefix(f, "to:"@) {
        let id = f.subrange(3, f.len() as int);
        if !is_note_id(id) {
            Err(LinkError::BadId(id))
        } else if st.1 is Some {
            Err(LinkError::Duplicate("to"@))
        } else {
            Ok((st.0, Some(id), st.2))
        }
    } else {
        Ok((st.0, st.1, st.2.push(f)))
    }
}

pub open spec fn link_state(fs: Seq<Seq<char>>) -> core::result::Result<LinkState, LinkError>
    decreases fs.len(),
{
    if fs.len() == 0 {
        Ok((None, None, Seq::empty()))
    } else {
        match link_state(fs.drop_last()) {
            Ok(st) => link_step(st, fs.last()),
            Err(e) => Err(e),
        }
    }
}

pub open spec fn opt_view(v: Option<String>) -> Option<Seq<char>> {
    match v {
        Some(s) => Some(s@),
        None => None,
    }
}

/// The outcome of reading a notes listing with these filters.
pub open spec fn notes_outcome(r: Result<ListRequest>, fields: Seq<ListField>, filters: Seq<Seq<char>>) -> bool {
    r matches Ok(ListRequest::Notes { fields: fs, filters: q }) && fs@ == fields && string_views(q@) == filters
}

/// The outcome of reading a link graph's filters.
pub open spec fn link_outcome(r: Result<ListRequest>, filters: Seq<Seq<char>>) -> bool {
    match link_state(filters) {
        Ok(st) => r matches Ok(ListRequest::LinkGraph { filters, from, to }) && opt_view(from)
            == st.0 && opt_view(to) == st.1 && string_views(filters@) == st.2,
        Err(LinkError::BadId(id)) => r matches Err(e) && e is InvalidNoteId && e->InvalidNoteId_0@ == id,
        Err(LinkError::Duplicate(name)) => r matches Err(e) && e is Message && e->Message_0@
            == "duplicate link endpoint filter `"@ + name + "`"@,
    }
}

fn lit_eq(s: &String, text: &str) -> (r: bool)
    ensures
        r == (s@ == text@),
{
    str_eq(s.as_str(), text)
}

fn strip_link(value: &String) -> (r: String)
    ensures
        r@ == without_link_prefix(value@),
{
    let chars = chars_of(value.as_str());
    if starts_with(chars.as_slice(), "link:") {
        proof {
            reveal_strlit("link:");
        }
        string_of(slice_chars(chars.as_slice(), 5, chars.len()).as_slice())
    } else {
        value.clone()
    }
}

fn message(parts: &[&str]) -> (r: String)
    ensures
        r@ == concat_views(parts@),
{
    let mut out = String::new();
    let mut k: usize = 0;
    proof {
        assert(parts@.subrange(0, 0) =~= Seq::<&str>::empty());
    }
    while k < parts.len()
        invariant
            k <= parts@.len(),
            out@ == concat_views(parts@.subrange(0, k as int)),
        decreases parts@.len() - k,
    {
        append_str(&mut out, parts[k]);
        proof {
            assert(parts@.subrange(0, k + 1).drop_last() =~= parts@.subrange(0, k as int));
        }
        k += 1;
    }
    proof {
        assert(parts@.subrange(0, parts@.len() as int) =~= parts@);
    }
    out
}

/// The texts of string slices, one after another.
pub open spec fn concat_views(parts: Seq<&str>) -> Seq<char>
    decreases parts.len(),
{
    if parts.len() == 0 {
        Seq::empty()
    } else {
        concat_views(parts.drop_last()) + parts.last()@
    }
}

impl ListRequest {
    /// Reads the arguments of a listing: a mode (`all`, `ids`, `titles`,
    /// `links`, `tags`, `collections`), a field list such as `id,title`, or
    /// nothing, then filters.
    pub fn parse(args: &[String]) -> (r: Result<Self>)
        ensures
            ({
                let a = string_views(args@);
                match list_plan(a) {
                    ListPlan::Notes(fields, start) => notes_outcome(r, fields, a.subrange(start, a.len() as int)),
                    ListPlan::Tags(t) => r matches Ok(ListRequest::Tags(x)) && opt_view(x) == t,
                    ListPlan::Collections(c) => r matches Ok(ListRequest::Collections(x)) && opt_view(x) == c,
                    ListPlan::LinkGraph => link_outcome(r, a.subrange(1, a.len() as int)),
                    ListPlan::Refused(m) => r matches Err(e) && e is Message && e->Message_0@ == m,
                    ListPlan::BadId(id) => r matches Err(e) && e is InvalidNoteId && e->InvalidNoteId_0@ == id,
                    ListPlan::BadFields(v, bad) => r matches Err(e) && e is Message && e->Message_0@
                        == field_list_message(v, bad),
                }
            }),
    {
        proof {
            reveal_with_fuel(concat_views, 8);
        }
        let ghost a = string_views(args@);
        let n = args.len();
        let mut i: usize = 0;
        while i < n
            invariant
                n == args@.len(),
                i <= n,
                a == string_views(args@),
                forall|j: int| 0 <= j < i ==> !(a[j].len() > 0 && a[j][0] == '-'),
            decreases n - i,
        {
            let chars = chars_of(args[i].as_str());
            if chars.len() > 0 && chars[0] == '-' {
                proof {
                    assert(a[i as int] == chars@);
                    let k = choose|k: int|
                        0 <= k < a.len() && a[k].len() > 0 && a[k][0] == '-' && forall|j: int|
                            0 <= j < k ==> !(a[j].len() > 0 && a[j][0] == '-');
                    assert(k == i) by {
                        if k > i {
                            assert(!(a[i as int].len() > 0 && a[i as int][0] == '-'));
                        }
                    }
                    reveal_with_fuel(concat_views, 4);
                }
                return Err(NtError::Message(message(&["unexpected argument '", args[i].as_str(), "'"])));
            }
            i += 1;
        }
        proof {
            assert(first_option(a) is None);
            assert(a.subrange(0, a.len() as int) =~= a);
        }
        if n == 2 && (lit_eq(&args[1], "from") || lit_eq(&args[1], "to")) {
            let id = strip_link(&args[0]);
            if validate_id(id.as_str()).is_ok() {
                return Err(NtError::Message(message(&[
                    "link direction `",
                    args[1].as_str(),
                    "` must be an endpoint filter; use `nt list links ",
                    args[1].as_str(),
                    ":",
                    id.as_str(),
                    "`",
                ])));
            }
        }
        if n >= 1 && lit_eq(&args[0], "all") {
            let rest = vstd::slice::slice_subrange(args, 1, n);
            proof {
                assert(string_views(rest@) =~= a.subrange(1, a.len() as int));
            }
            return Self::notes(crate::notebook::listing::all_field_list(), rest);
        }
        if n == 1 && lit_eq(&args[0], "ids") {
            let fields = vec![ListField::Id];
            let rest = vstd::slice::slice_subrange(args, 1, n);
            proof {
                assert(string_views(rest@) =~= a.subrange(1, a.len() as int));
                assert(fields@ =~= seq![ListField::Id]);
            }
            return Self::notes(fields, rest);
        }
        if n == 1 && lit_eq(&args[0], "titles") {
            let fields = vec![ListField::Id, ListField::Title];
            let rest = vstd::slice::slice_subrange(args, 1, n);
            proof {
                assert(string_views(rest@) =~= a.subrange(1, a.len() as int));
                assert(fields@ =~= seq![ListField::Id, ListField::Title]);
            }
            return Self::notes(fields, rest);
        }
        if n >= 1 && lit_eq(&args[0], "links") && (n == 1 || crate::listing::is_filter_exec(args[1].as_str())) {
            let rest = vstd::slice::slice_subrange(args, 1, n);
            proof {
                assert(string_views(rest@) =~= a.subrange(1, a.len() as int));
            }
            return Self::link_graph(rest);
        }
        if n == 1 && lit_eq(&args[0], "tags") {
            return Ok(ListRequest::Tags(None));
        }
        if n == 2 && lit_eq(&args[0], "tags") {
            return Ok(ListRequest::Tags(Some(args[1].clone())));
        }
        if n == 1 && lit_eq(&args[0], "collections") {
            return Ok(ListRequest::Collections(None));
        }
        if n == 2 && lit_eq(&args[0], "collections") {
            return Ok(ListRequest::Collections(Some(args[1].clone())));
        }
        if n == 2 && lit_eq(&args[0], "links") {
            validate_id(args[1].as_str())?;
            return Err(NtError::Message(message(&[
                "directionless link lookup is not supported; use `nt list links from:",
                args[1].as_str(),
                "` or `nt list links to:",
                args[1].as_str(),
                "`",
            ])));
        }
        if n == 3 && lit_eq(&args[0], "links") && (lit_eq(&args[2], "from") || lit_eq(&args[2], "to")) {
            validate_id(args[1].as_str())?;
            return Err(NtError::Message(message(&[
                "positional link directions are not supported; use `nt list links ",
                args[2].as_str(),
                ":",
                args[1].as_str(),
                "`",
            ])));
        }
        if n >= 1 && (lit_eq(&args[0], "ids") || lit_eq(&args[0], "titles") || lit_eq(&args[0], "tags")
            || lit_eq(&args[0], "collections") || lit_eq(&args[0], "links")) {
            return Err(NtError::Message(message(&["invalid `nt list ", args[0].as_str(), "` arguments"])));
        }
        if n == 0 || crate::listing::is_filter_exec(args[0].as_str()) {
            return Self::notes(crate::notebook::listing::default_field_list(), args);
        }
        let fields = ListField::parse_list(args[0].as_str())?;
        let rest = vstd::slice::slice_subrange(args, 1, n);
        proof {
            assert(string_views(rest@) =~= a.subrange(1, a.len() as int));
        }
        Self::notes(fields, rest)
    }

    fn notes(fields: Vec<ListField>, filters: &[String]) -> (r: Result<Self>)
        ensures
            notes_outcome(r, fields@, string_views(filters@)),
    {
        Ok(ListRequest::Notes { fields, filters: copied(filters) })
    }

    fn link_graph(filters: &[String]) -> (r: Result<Self>)
        ensures
            link_outcome(r, string_views(filters@)),
    {
        let ghost fv = string_views(filters@);
        let mut from: Option<String> = None;
        let mut to: Option<String> = None;
        let mut note_filters: Vec<String> = Vec::new();
        let mut k: usize = 0;
        proof {
            assert(fv.subrange(0, 0) =~= Seq::<Seq<char>>::empty());
            assert(string_views(note_filters@) =~= Seq::<Seq<char>>::empty());
            reveal_strlit("from:");
            reveal_strlit("to:");
            reveal_strlit("from");
            reveal_strlit("to");
        }
        while k < filters.len()
            invariant
                k <= filters@.len(),
                fv == string_views(filters@),
                link_state(fv.subrange(0, k as int)) == core::result::Result::<LinkState, LinkError>::Ok(
                    (opt_view(from), opt_view(to), string_views(note_filters@)),
                ),
            decreases filters@.len() - k,
        {
            let chars = chars_of(filters[k].as_str());
            proof {
                assert(fv.subrange(0, k + 1).drop_last() =~= fv.subrange(0, k as int));
                assert(fv.subrange(0, k + 1).last() == chars@);
                reveal_strlit("from:");
                reveal_strlit("to:");
                reveal_strlit("from");
                reveal_strlit("to");
                reveal_with_fuel(concat_views, 4);
            }
            if starts_with(chars.as_slice(), "from:") {
                let id = string_of(slice_chars(chars.as_slice(), 5, chars.len()).as_slice());
                if let Err(e) = validate_id(id.as_str()) {
                    proof {
                        lemma_link_state_error(fv, k + 1);
                    }
                    return Err(e);
                }
                if from.is_some() {
                    proof {
                        lemma_link_state_error(fv, k + 1);
                    }
                    return Err(NtError::Message(message(&["duplicate link endpoint filter `", "from", "`"])));
                }
                from = Some(id);
            } else if starts_with(chars.as_slice(), "to:") {
                let id = string_of(slice_chars(chars.as_slice(), 3, chars.len()).as_slice());
                if let Err(e) = validate_id(id.as_str()) {
                    proof {
                        lemma_link_state_error(fv, k + 1);
                    }
                    return Err(e);
                }
                if to.is_some() {
                    proof {
                        lemma_link_state_error(fv, k + 1);
                    }
                    return Err(NtError::Message(message(&["duplicate link endpoint filter `", "to", "`"])));
                }
                to = Some(id);
            } else {
                let ghost before = note_filters@;
                note_filters.push(filters[k].clone());
                proof {
                    assert(string_views(note_filters@) =~= string_views(before).push(chars@));
                }
            }
            k += 1;
        }
        proof {
            assert(fv.subrange(0, filters@.len() as int) =~= fv);
        }
        Ok(ListRequest::LinkGraph { filters: note_filters, from, to })
    }
}

proof fn lemma_link_state_error(fs: Seq<Seq<char>>, k: int)
    requires
        0 <= k <= fs.len(),
        link_state(fs.subrange(0, k)) is Err,
    ensures
        link_state(fs) == link_state(fs.subrange(0, k)),
    decreases fs.len() - k,
{
    if k < fs.len() {
        assert(fs.subrange(0, k + 1).drop_last() =~= fs.subrange(0, k));
        lemma_link_state_error(fs, k + 1);
    } else {
        assert(fs.subrange(0, k) =~= fs);
    }
}

} // verus!
