//! Rendering listings: tab-separated rows, or a table of aligned columns under
//! uppercase headers.
use vstd::prelude::*;

use crate::listing::field::{field_name, ListField};
use crate::listing::ListRow;
use crate::lexical::string_views;
use crate::notebook::utf8_len;
use crate::text::{append_str, ascii_upper, chars_of, push_char, to_ascii_uppercase};

verus! {

/// The texts joined with a separator character.
pub open spec fn joined_with(parts: Seq<Seq<char>>, sep: char) -> Seq<char>
    decreases parts.len(),
{
    if parts.len() == 0 {
        Seq::empty()
    } else if parts.len() == 1 {
        parts[0]
    } else {
        joined_with(parts.drop_last(), sep) + seq![sep] + parts.last()
    }
}

/// How many bytes UTF-8 takes for a text.
pub open spec fn byte_len(s: Seq<char>) -> int
    decreases s.len(),
{
    if s.len() == 0 {
        0
    } else {
        byte_len(s.drop_last()) + utf8_len(s.last())
    }
}

/// The widest value of column `c`, in characters.
pub open spec fn max_cell(rows: Seq<Seq<Seq<char>>>, c: int) -> int
    decreases rows.len(),
{
    if rows.len() == 0 {
        0
    } else if max_cell(rows.drop_last(), c) >= rows.last()[c].len() {
        max_cell(rows.drop_last(), c)
    } else {
        rows.last()[c].len() as int
    }
}

/// The width of each column: its widest value, or the bytes of its header if more.
pub open spec fn widths_of(headers: Seq<Seq<char>>, rows: Seq<Seq<Seq<char>>>) -> Seq<int> {
    Seq::new(
        headers.len(),
        |c: int|
            if max_cell(rows, c) >= byte_len(headers[c]) {
                max_cell(rows, c)
            } else {
                byte_len(headers[c])
            },
    )
}

/// Above the most bytes a string can hold (`isize::MAX`).
pub open spec fn cell_bound() -> int {
    isize::MAX as int + 1
}

pub open spec fn spaces(n: nat) -> Seq<char> {
    Seq::new(n, |i: int| ' ')
}

/// A value padded to its column and two spaces more, unless it is in the last column.
pub open spec fn cell(v: Seq<char>, width: int, last: bool) -> Seq<char> {
    if last {
        v
    } else {
        v + spaces(((if width > v.len() {
            width - v.len()
        } else {
            0
        }) + 2) as nat)
    }
}

pub open spec fn last_column(widths: Seq<int>) -> int {
    if widths.len() == 0 {
        0
    } else {
        widths.len() - 1
    }
}

/// A line of a table: its values, each padded to its column.
pub open spec fn table_line(values: Seq<Seq<char>>, widths: Seq<int>) -> Seq<char>
    decreases values.len(),
{
    if values.len() == 0 {
        Seq::empty()
    } else {
        table_line(values.drop_last(), widths) + cell(
            values.last(),
            widths[values.len() - 1],
            values.len() - 1 == last_column(widths),
        )
    }
}

pub open spec fn row_views(rows: Seq<Vec<String>>) -> Seq<Seq<Seq<char>>> {
    rows.map_values(|r: Vec<String>| string_views(r@))
}

/// The values of a table are no wider than memory allows.
pub open spec fn fits(headers: Seq<Seq<char>>, rows: Seq<Seq<Seq<char>>>) -> bool {
    &&& forall|c: int| 0 <= c < headers.len() ==> byte_len(#[trigger] headers[c]) < cell_bound()
    &&& forall|r: int, c: int|
        0 <= r < rows.len() && 0 <= c < rows[r].len() ==> (#[trigger] rows[r][c]).len() < cell_bound()
}

fn byte_count(s: &String) -> (n: usize)
    requires
        byte_len(s@) < cell_bound(),
    ensures
        n == byte_len(s@),
{
    let chars = chars_of(s.as_str());
    let mut n: usize = 0;
    let mut i: usize = 0;
    proof {
        assert(chars@.subrange(0, 0) =~= Seq::<char>::empty());
        assert(chars@.subrange(0, chars@.len() as int) =~= chars@);
    }
    while i < chars.len()
        invariant
            chars@ == s@,
            i <= chars@.len(),
            n == byte_len(chars@.subrange(0, i as int)),
            byte_len(s@) < cell_bound(),
        decreases chars@.len() - i,
    {
        proof {
            assert(chars@.subrange(0, i + 1).drop_last() =~= chars@.subrange(0, i as int));
            assert(chars@.subrange(0, i + 1).last() == chars@[i as int]);
            lemma_byte_len_prefix(chars@, i + 1);
        }
        let code: u32 = chars[i] as u32;
        let width: usize = if code < 0x80 {
            1
        } else if code < 0x800 {
            2
        } else if code < 0x10000 {
            3
        } else {
            4
        };
        n = n + width;
        i += 1;
    }
    n
}

proof fn lemma_byte_len_prefix(s: Seq<char>, k: int)
    requires
        0 <= k <= s.len(),
    ensures
        byte_len(s.subrange(0, k)) <= byte_len(s),
    decreases s.len() - k,
{
    if k < s.len() {
        lemma_byte_len_prefix(s, k + 1);
        assert(s.subrange(0, k + 1).drop_last() =~= s.subrange(0, k));
    } else {
        assert(s.subrange(0, k) =~= s);
    }
}

/// The values padded to their columns and joined.
fn format_columns(values: &Vec<String>, widths: &Vec<usize>) -> (out: String)
    requires
        values@.len() <= widths@.len() || values@.len() == 0,
        forall|c: int| 0 <= c < widths@.len() ==> #[trigger] widths@[c] < cell_bound(),
    ensures
        out@ == table_line(string_views(values@), widths@.map_values(|w: usize| w as int)),
{
    let ghost ws = widths@.map_values(|w: usize| w as int);
    let last: usize = if widths.len() == 0 {
        0
    } else {
        widths.len() - 1
    };
    let mut out = String::new();
    let mut c: usize = 0;
    proof {
        assert(string_views(values@).subrange(0, 0) =~= Seq::<Seq<char>>::empty());
    }
    while c < values.len()
        invariant
            c <= values@.len(),
            values@.len() <= widths@.len() || values@.len() == 0,
            forall|k: int| 0 <= k < widths@.len() ==> #[trigger] widths@[k] < cell_bound(),
            ws == widths@.map_values(|w: usize| w as int),
            last == last_column(ws),
            out@ == table_line(string_views(values@).subrange(0, c as int), ws),
        decreases values@.len() - c,
    {
        let value = &values[c];
        let ghost before = out@;
        append_str(&mut out, value.as_str());
        if c != last {
            let count = chars_of(value.as_str()).len();
            let width = widths[c];
            assert(widths@[c as int] < cell_bound());
            let padding = if width > count {
                width - count
            } else {
                0
            } + 2;
            let mut p: usize = 0;
            while p < padding
                invariant
                    p <= padding,
                    out@ == before + value@ + spaces(p as nat),
                decreases padding - p,
            {
                push_char(&mut out, ' ');
                proof {
                    assert(spaces((p + 1) as nat) =~= spaces(p as nat).push(' '));
                }
                p += 1;
            }
        }
        proof {
            let sv = string_views(values@);
            assert(sv.subrange(0, c + 1).drop_last() =~= sv.subrange(0, c as int));
            assert(sv.subrange(0, c + 1).last() == value@);
            assert(ws[c as int] == widths@[c as int] as int);
            if c == last {
                assert(out@ =~= before + value@);
            }
        }
        c += 1;
    }
    proof {
        assert(string_views(values@).subrange(0, values@.len() as int) =~= string_views(values@));
    }
    out
}

proof fn lemma_max_cell_step(rows: Seq<Seq<Seq<char>>>, r: int, c: int)
    requires
        0 <= r < rows.len(),
    ensures
        max_cell(rows.subrange(0, r + 1), c) == (if max_cell(rows.subrange(0, r), c) >= rows[r][c].len() {
            max_cell(rows.subrange(0, r), c)
        } else {
            rows[r][c].len() as int
        }),
{
    assert(rows.subrange(0, r + 1).drop_last() =~= rows.subrange(0, r));
    assert(rows.subrange(0, r + 1).last() == rows[r]);
}

/// The header line and one line per row, with every column as wide as its
/// widest value (or header).
pub(crate) fn render_columns(headers: Vec<String>, rows: Vec<Vec<String>>) -> (out: Vec<String>)
    requires
        forall|r: int| 0 <= r < rows@.len() ==> (#[trigger] rows@[r])@.len() == headers@.len(),
        fits(string_views(headers@), row_views(rows@)),
    ensures
        out@.len() == rows@.len() + 1,
        out@[0]@ == table_line(string_views(headers@), widths_of(string_views(headers@), row_views(rows@))),
        forall|r: int| 0 <= r < rows@.len() ==> (#[trigger] out@[r + 1])@ == table_line(
            row_views(rows@)[r],
            widths_of(string_views(headers@), row_views(rows@)),
        ),
{
    let ghost hv = string_views(headers@);
    let ghost rv = row_views(rows@);
    let mut widths: Vec<usize> = Vec::new();
    let mut c: usize = 0;
    while c < headers.len()
        invariant
            c <= headers@.len(),
            hv == string_views(headers@),
            rv == row_views(rows@),
            forall|r: int| 0 <= r < rows@.len() ==> (#[trigger] rows@[r])@.len() == headers@.len(),
            fits(hv, rv),
            widths@.len() == c,
            forall|k: int| 0 <= k < c ==> #[trigger] widths@[k] as int == widths_of(hv, rv)[k],
            forall|k: int| 0 <= k < c ==> #[trigger] widths@[k] < cell_bound(),
        decreases headers@.len() - c,
    {
        let mut widest: usize = 0;
        let mut r: usize = 0;
        proof {
            assert(rv.subrange(0, 0) =~= Seq::<Seq<Seq<char>>>::empty());
        }
        while r < rows.len()
            invariant
                r <= rows@.len(),
                c < headers@.len(),
                rv == row_views(rows@),
                forall|q: int| 0 <= q < rows@.len() ==> (#[trigger] rows@[q])@.len() == headers@.len(),
                fits(hv, rv),
                widest as int == max_cell(rv.subrange(0, r as int), c as int),
                widest < cell_bound(),
            decreases rows@.len() - r,
        {
            let count = chars_of(rows[r][c].as_str()).len();
            proof {
                lemma_max_cell_step(rv, r as int, c as int);
                assert(rv[r as int][c as int] == rows@[r as int]@[c as int]@);
                assert(rv[r as int].len() == headers@.len());
            }
            if count > widest {
                widest = count;
            }
            r += 1;
        }
        proof {
            assert(rv.subrange(0, rows@.len() as int) =~= rv);
            assert(hv[c as int] == headers@[c as int]@);
        }
        let header_width = byte_count(&headers[c]);
        if header_width > widest {
            widest = header_width;
        }
        widths.push(widest);
        c += 1;
    }
    proof {
        assert(widths@.map_values(|w: usize| w as int) =~= widths_of(hv, rv));
    }
    let mut out: Vec<String> = Vec::new();
    out.push(format_columns(&headers, &widths));
    let mut r: usize = 0;
    while r < rows.len()
        invariant
            r <= rows@.len(),
            out@.len() == r + 1,
            rv == row_views(rows@),
            forall|q: int| 0 <= q < rows@.len() ==> (#[trigger] rows@[q])@.len() == headers@.len(),
            widths@.len() == headers@.len(),
            forall|k: int| 0 <= k < widths@.len() ==> #[trigger] widths@[k] < cell_bound(),
            widths@.map_values(|w: usize| w as int) == widths_of(hv, rv),
            out@[0]@ == table_line(hv, widths_of(hv, rv)),
            forall|q: int| 0 <= q < r ==> (#[trigger] out@[q + 1])@ == table_line(rv[q], widths_of(hv, rv)),
        decreases rows@.len() - r,
    {
        let line = format_columns(&rows[r], &widths);
        proof {
            assert(rv[r as int] == string_views(rows@[r as int]@));
        }
        out.push(line);
        r += 1;
    }
    out
}

/// A row as its values separated by tabs.
pub fn render_row(row: &ListRow) -> (out: String)
    ensures
        out@ == joined_with(string_views(row.values@), '\t'),
{
    let mut out = String::new();
    let mut k: usize = 0;
    proof {
        assert(string_views(row.values@).subrange(0, 0) =~= Seq::<Seq<char>>::empty());
    }
    while k < row.values.len()
        invariant
            k <= row.values@.len(),
            out@ == joined_with(string_views(row.values@).subrange(0, k as int), '\t'),
        decreases row.values@.len() - k,
    {
        let ghost sv = string_views(row.values@);
        if k > 0 {
            push_char(&mut out, '\t');
        }
        append_str(&mut out, row.values[k].as_str());
        proof {
            assert(sv.subrange(0, k + 1).drop_last() =~= sv.subrange(0, k as int));
            if k == 0 {
                assert(out@ =~= sv[0]);
            }
        }
        k += 1;
    }
    proof {
        assert(string_views(row.values@).subrange(0, row.values@.len() as int) =~= string_views(
            row.values@,
        ));
    }
    out
}

/// The header of a field: its name in capitals.
pub open spec fn header_of(f: ListField) -> Seq<char> {
    field_name(f).map_values(|c: char| ascii_upper(c))
}

pub(crate) fn upper_name(name: &str) -> (out: String)
    ensures
        out@ == name@.map_values(|c: char| ascii_upper(c)),
{
    let chars = chars_of(name);
    let mut out = String::new();
    let mut i: usize = 0;
    while i < chars.len()
        invariant
            i <= chars@.len(),
            chars@ == name@,
            out@ == chars@.subrange(0, i as int).map_values(|c: char| ascii_upper(c)),
        decreases chars@.len() - i,
    {
        push_char(&mut out, to_ascii_uppercase(chars[i]));
        proof {
            assert(chars@.subrange(0, i + 1).map_values(|c: char| ascii_upper(c)) =~= chars@.subrange(
                0,
                i as int,
            ).map_values(|c: char| ascii_upper(c)).push(ascii_upper(chars@[i as int])));
        }
        i += 1;
    }
    proof {
        assert(chars@.subrange(0, chars@.len() as int) =~= chars@);
    }
    out
}

proof fn lemma_header_fits(f: ListField)
    ensures
        byte_len(header_of(f)) < cell_bound(),
{
    lemma_header_short(f);
}

proof fn lemma_header_short(f: ListField)
    ensures
        byte_len(header_of(f)) <= 4 * header_of(f).len(),
        header_of(f).len() <= 10,
{
    lemma_byte_len_at_most(header_of(f));
    reveal_strlit("id");
    reveal_strlit("home");
    reveal_strlit("created");
    reveal_strlit("updated");
    reveal_strlit("title");
    reveal_strlit("kind");
    reveal_strlit("status");
    reveal_strlit("priority");
    reveal_strlit("scheduled");
    reveal_strlit("due");
    reveal_strlit("closed");
    reveal_strlit("tag");
    reveal_strlit("collection");
    reveal_strlit("link");
    reveal_strlit("source");
}

proof fn lemma_byte_len_at_most(s: Seq<char>)
    ensures
        byte_len(s) <= 4 * s.len(),
    decreases s.len(),
{
    if s.len() > 0 {
        lemma_byte_len_at_most(s.drop_last());
    }
}

/// A table of rows under the headers of their fields.
pub fn render_table(rows: &[ListRow], fields: &[ListField]) -> (out: Vec<String>)
    requires
        forall|r: int| 0 <= r < rows@.len() ==> (#[trigger] rows@[r]).values@.len() == fields@.len(),
        forall|r: int, c: int|
            0 <= r < rows@.len() && 0 <= c < fields@.len() ==> (#[trigger] rows@[r].values@[c])@.len()
                < cell_bound(),
    ensures
        out@.len() == rows@.len() + 1,
        out@[0]@ == table_line(
            fields@.map_values(|f: ListField| header_of(f)),
            widths_of(
                fields@.map_values(|f: ListField| header_of(f)),
                rows@.map_values(|r: ListRow| string_views(r.values@)),
            ),
        ),
        forall|r: int| 0 <= r < rows@.len() ==> (#[trigger] out@[r + 1])@ == table_line(
            string_views(rows@[r].values@),
            widths_of(
                fields@.map_values(|f: ListField| header_of(f)),
                rows@.map_values(|r: ListRow| string_views(r.values@)),
            ),
        ),
{
    let mut headers: Vec<String> = Vec::new();
    let mut c: usize = 0;
    while c < fields.len()
        invariant
            c <= fields@.len(),
            string_views(headers@) == fields@.subrange(0, c as int).map_values(|f: ListField| header_of(f)),
        decreases fields@.len() - c,
    {
        let h = upper_name(fields[c].name());
        headers.push(h);
        proof {
            assert(fields@.subrange(0, c + 1).map_values(|f: ListField| header_of(f)) =~= fields@.subrange(
                0,
                c as int,
            ).map_values(|f: ListField| header_of(f)).push(header_of(fields@[c as int])));
            assert(string_views(headers@) =~= fields@.subrange(0, c + 1).map_values(
                |f: ListField| header_of(f),
            ));
        }
        c += 1;
    }
    let mut table: Vec<Vec<String>> = Vec::new();
    let mut r: usize = 0;
    while r < rows.len()
        invariant
            r <= rows@.len(),
            row_views(table@) == rows@.subrange(0, r as int).map_values(|q: ListRow| string_views(q.values@)),
            forall|q: int| 0 <= q < r ==> (#[trigger] table@[q])@.len() == rows@[q].values@.len(),
        decreases rows@.len() - r,
    {
        let mut copy: Vec<String> = Vec::new();
        crate::lexical::append_strings(&mut copy, &rows[r].values);
        proof {
            assert(string_views(copy@) == crate::lexical::views(copy@));
            assert(string_views(copy@) =~= string_views(rows@[r as int].values@));
        }
        let ghost before = table@;
        table.push(copy);
        proof {
            assert(row_views(table@) =~= row_views(before).push(string_views(rows@[r as int].values@)));
            assert(rows@.subrange(0, r + 1).map_values(|q: ListRow| string_views(q.values@)) =~= rows@.subrange(
                0,
                r as int,
            ).map_values(|q: ListRow| string_views(q.values@)).push(string_views(rows@[r as int].values@)));
        }
        r += 1;
    }
    proof {
        assert(fields@.subrange(0, fields@.len() as int) =~= fields@);
        assert(rows@.subrange(0, rows@.len() as int) =~= rows@);
        assert forall|k: int| 0 <= k < fields@.len() implies byte_len(
            #[trigger] string_views(headers@)[k],
        ) < cell_bound() by {
            lemma_header_fits(fields@[k]);
        }
    }
    render_columns(headers, table)
}

} // verus!
