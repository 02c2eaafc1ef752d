//! Note listings: which fields to show, which notes to list, and how to render them.
pub mod field;
pub mod render;

use vstd::prelude::*;

use crate::error::{NtError, Result};
use crate::lexical::string_views;
use crate::listing::field::{all_field_list, default_field_list, field_list, field_list_message, is_comma};
use crate::lexical::pieces;
use crate::text::{append_str, chars_of, contains_char, owned, starts_with};

pub use field::ListField;
pub use render::{render_row, render_table};

verus! {

/// The values of one listed note, one per field.
#[derive(Debug)]
pub struct ListRow {
    pub values: Vec<String>,
}

/// What to list: the fields to show and the filter expressions that pick the
/// notes, as they were written.
#[derive(Debug)]
pub struct ListRequest {
    pub fields: Vec<ListField>,
    pub filters: Vec<String>,
}

/// Copies of some strings, in order.
pub(crate) fn copied(values: &[String]) -> (r: Vec<String>)
    ensures
        string_views(r@) == string_views(values@),
{
    let mut out: Vec<String> = Vec::new();
    let mut k: usize = 0;
    while k < values.len()
        invariant
            k <= values@.len(),
            string_views(out@) == string_views(values@).subrange(0, k as int),
        decreases values@.len() - k,
    {
        let ghost before = out@;
        let item = values[k].clone();
        out.push(item);
        proof {
            assert(string_views(out@) =~= string_views(before).push(item@));
            assert(string_views(values@).subrange(0, k + 1) =~= string_views(values@).subrange(0, k as int).push(
                item@,
            ));
        }
        k += 1;
    }
    proof {
        assert(string_views(values@).subrange(0, values@.len() as int) =~= string_views(values@));
    }
    out
}

/// Whether an argument is a filter rather than a field list: it starts with
/// `#` or holds a `:`.
pub open spec fn is_filter_text(value: Seq<char>) -> bool {
    (value.len() > 0 && value[0] == '#') || value.contains(':')
}

pub(crate) fn is_filter_exec(value: &str) -> (r: bool)
    ensures
        r == is_filter_text(value@),
{
    let chars = chars_of(value);
    (chars.len() > 0 && chars[0] == '#') || contains_char(chars.as_slice(), ':')
}

/// The first argument that starts with `-`, if any.
pub open spec fn first_option(args: Seq<Seq<char>>) -> Option<int> {
    if exists|i: int| 0 <= i < args.len() && args[i].len() > 0 && args[i][0] == '-' {
        Some(choose|i: int|
            0 <= i < args.len() && args[i].len() > 0 && args[i][0] == '-' && forall|j: int|
                0 <= j < i ==> !(args[j].len() > 0 && args[j][0] == '-'))
    } else {
        None
    }
}

/// The fields a listing shows, and where its filters start, or the field list
/// it could not read.
pub open spec fn listing_fields(args: Seq<Seq<char>>) -> core::result::Result<(Seq<ListField>, int), (int, Seq<char>)> {
    if args.len() > 0 && args[0] == "all"@ {
        Ok((field::all_fields(), 1))
    } else if args.len() == 0 || is_filter_text(args[0]) {
        Ok((field::default_fields(), 0))
    } else {
        match field_list(pieces(args[0], is_comma())) {
            Ok(fields) => Ok((fields, 1)),
            Err(bad) => Err(bad),
        }
    }
}

impl ListRequest {
    /// Reads the arguments of a listing: `all`, a field list such as
    /// `id,title`, or nothing, then filters.
    pub fn parse(args: &[String]) -> (r: Result<Self>)
        ensures
            ({
                let a = string_views(args@);
                match first_option(a) {
                    Some(i) => r matches Err(e) && e is Message && e->Message_0@
                        == "unexpected argument '"@ + a[i] + "'"@,
                    None => match listing_fields(a) {
                        Err(bad) => r matches Err(e) && e is Message && e->Message_0@
                            == field_list_message(a[0], bad),
                        Ok((fields, start)) => r matches Ok(req) && req.fields@ == fields
                            && string_views(req.filters@) == a.subrange(start, a.len() as int),
                    },
                }
            }),
    {
        let ghost a = string_views(args@);
        let mut i: usize = 0;
        while i < args.len()
            invariant
                i <= args@.len(),
                a == string_views(args@),
                forall|j: int| 0 <= j < i ==> !(a[j].len() > 0 && a[j][0] == '-'),
            decreases args@.len() - i,
        {
            let chars = chars_of(args[i].as_str());
            if chars.len() > 0 && chars[0] == '-' {
                proof {
                    assert(a[i as int] == chars@);
                    let k = choose|k: int|
                        0 <= k < a.len() && a[k].len() > 0 && a[k][0] == '-' && forall|j: int|
                            0 <= j < k ==> !(a[j].len() > 0 && a[j][0] == '-');
                    assert(k == i) by {
                        if k < i {
                        } else if k > i {
                            assert(!(a[i as int].len() > 0 && a[i as int][0] == '-'));
                        }
                    }
                }
                let mut message = owned("unexpected argument '");
                append_str(&mut message, args[i].as_str());
                append_str(&mut message, "'");
                return Err(NtError::Message(message));
            }
            i += 1;
        }
        proof {
            assert(first_option(a) is None);
        }
        proof {
            assert(a.subrange(0, a.len() as int) =~= a);
        }
        if args.len() > 0 && crate::text::str_eq(args[0].as_str(), "all") {
            let rest = vstd::slice::slice_subrange(args, 1, args.len());
            proof {
                assert(string_views(rest@) =~= a.subrange(1, a.len() as int));
            }
            return Self::notes(all_field_list(), rest);
        }
        if args.len() == 0 {
            return Self::notes(default_field_list(), args);
        }
        if is_filter_exec(args[0].as_str()) {
            return Self::notes(default_field_list(), args);
        }
        let fields = ListField::parse_list(args[0].as_str())?;
        let rest = vstd::slice::slice_subrange(args, 1, args.len());
        proof {
            assert(string_views(rest@) =~= a.subrange(1, a.len() as int));
        }
        Self::notes(fields, rest)
    }

    fn notes(fields: Vec<ListField>, filters: &[String]) -> (r: Result<Self>)
        ensures
            r matches Ok(req) && req.fields == fields && string_views(req.filters@) == string_views(filters@),
    {
        Ok(ListRequest { fields, filters: copied(filters) })
    }
}

} // verus!
