//! Rendering a report for its readers: a spreadsheet, a document, a terminal.
use vstd::prelude::*;
use vstd::string::*;
use crate::numeral::{decimal, decimal_chars, left_padded, pad_left, show_usize};
use crate::order::{sorted_texts, lemma_placed, place_name, placed};
use crate::scan::{
    ends, holds, join, join_strings, match_at, replace, replace_all, replace_from,
};
use crate::text::{copy_strings, from_chars, has_text, str_eq, to_chars, views};
use crate::types::{
    field_value, law_the_first_value_of_a_name_counts, FieldSource, MissionKind, Outcome, Passage,
    Record, ScoutReport, Stats,
};

verus! {

/// How a report is rendered.
#[derive(Debug, Clone, Copy, PartialEq, Eq, Structural)]
pub enum Format {
    /// One JSON document with everything.
    Json,
    /// One JSON object per line: records for a harvest, evidence for an answer.
    Jsonl,
    /// Markdown suitable for a document or a pull request.
    Markdown,
    /// Human-readable text for a terminal.
    Terminal,
    /// Records only, as a spreadsheet.
    Csv,
}

/// The format of that name, if there is one.
pub open spec fn format_named(s: Seq<char>) -> Option<Format> {
    if s == "json"@ {
        Some(Format::Json)
    } else if s == "jsonl"@ {
        Some(Format::Jsonl)
    } else if s == "markdown"@ {
        Some(Format::Markdown)
    } else if s == "terminal"@ {
        Some(Format::Terminal)
    } else if s == "csv"@ {
        Some(Format::Csv)
    } else {
        None
    }
}

/// Read a format by its name.
pub fn parse_format(s: &str) -> (r: Option<Format>)
    ensures
        r == format_named(s@),
{
    if str_eq(s, "json") {
        Some(Format::Json)
    } else if str_eq(s, "jsonl") {
        Some(Format::Jsonl)
    } else if str_eq(s, "markdown") {
        Some(Format::Markdown)
    } else if str_eq(s, "terminal") {
        Some(Format::Terminal)
    } else if str_eq(s, "csv") {
        Some(Format::Csv)
    } else {
        None
    }
}

// ----------------------------------------------------------------- columns --

/// The names so far and those of the first `n` fields that are not known.
pub open spec fn unknown_names(
    known: Seq<Seq<char>>,
    fields: Seq<(String, String)>,
    names: Seq<Seq<char>>,
    n: int,
) -> Seq<Seq<char>>
    decreases n,
{
    if n <= 0 {
        names
    } else {
        let before = unknown_names(known, fields, names, n - 1);
        if known.contains(fields[n - 1].0@) {
            before
        } else {
            placed(before, fields[n - 1].0@)
        }
    }
}

/// The field names of the first `n` records that are not known, in order.
pub open spec fn extra_names(known: Seq<Seq<char>>, records: Seq<Record>, n: int) -> Seq<Seq<char>>
    decreases n,
{
    if n <= 0 {
        Seq::empty()
    } else {
        unknown_names(
            known,
            records[n - 1].fields@,
            extra_names(known, records, n - 1),
            records[n - 1].fields@.len() as int,
        )
    }
}

/// The columns of a table: the mission's own fields in their order, then anything
/// else that turned up, by name.
pub open spec fn column_names(report: ScoutReport) -> Seq<Seq<char>> {
    views(report.mission.fields@) + extra_names(
        views(report.mission.fields@),
        report.records@,
        report.records@.len() as int,
    )
}

/// Column order for tabular output: the mission's own field order, then anything
/// else that turned up, so the columns match what was asked for.
pub fn columns(report: &ScoutReport) -> (r: Vec<String>)
    ensures
        views(r@) == column_names(*report),
{
    let fields = &report.mission.fields;
    let mut extra: Vec<String> = Vec::new();
    let mut i: usize = 0;
    assert(views(extra@) =~= Seq::<Seq<char>>::empty());
    while i < report.records.len()
        invariant
            i <= report.records@.len(),
            *fields == report.mission.fields,
            views(extra@) == extra_names(views(fields@), report.records@, i as int),
        decreases report.records@.len() - i,
    {
        let ghost before = views(extra@);
        let names = &report.records[i].fields;
        let mut k: usize = 0;
        while k < names.len()
            invariant
                k <= names@.len(),
                views(extra@) == unknown_names(views(fields@), names@, before, k as int),
            decreases names@.len() - k,
        {
            if !has_text(fields, names[k].0.as_str()) {
                place_name(&mut extra, names[k].0.as_str());
            }
            k += 1;
        }
        i += 1;
    }
    let mut cols = copy_strings(fields);
    let mut k: usize = 0;
    let ghost own = views(cols@);
    assert(own + views(extra@).take(0) =~= own);
    while k < extra.len()
        invariant
            k <= extra@.len(),
            views(cols@) == own + views(extra@).take(k as int),
        decreases extra@.len() - k,
    {
        let ghost before = cols@;
        let name = extra[k].as_str().to_owned();
        assert(name@ == views(extra@)[k as int]);
        cols.push(name);
        assert(views(cols@) =~= views(before).push(name@));
        assert(views(extra@).take(k + 1) =~= views(extra@).take(k as int).push(name@));
        assert(views(cols@) =~= own + views(extra@).take(k + 1));
        k += 1;
    }
    assert(views(extra@).take(k as int) =~= views(extra@));
    cols
}

/// The field is one of the first `n` of the list.
pub open spec fn has_field(fields: Seq<(String, String)>, name: Seq<char>, n: int) -> bool {
    exists|i: int| 0 <= i < n && (#[trigger] fields[i]).0@ == name
}

proof fn lemma_unknown_names(
    known: Seq<Seq<char>>,
    fields: Seq<(String, String)>,
    names: Seq<Seq<char>>,
    n: int,
)
    requires
        0 <= n <= fields.len(),
        sorted_texts(names),
    ensures
        sorted_texts(unknown_names(known, fields, names, n)),
        forall|x: Seq<char>| #[trigger]
            unknown_names(known, fields, names, n).contains(x) <==> names.contains(x) || (
            !known.contains(x) && has_field(fields, x, n)),
    decreases n,
{
    if n > 0 {
        lemma_unknown_names(known, fields, names, n - 1);
        let before = unknown_names(known, fields, names, n - 1);
        let k = fields[n - 1].0@;
        lemma_placed(before, k);
        let now = unknown_names(known, fields, names, n);
        assert forall|x: Seq<char>| #[trigger] now.contains(x) <==> names.contains(x) || (
        !known.contains(x) && has_field(fields, x, n)) by {
            if known.contains(k) {
                assert(now == before);
            } else {
                assert(placed(before, k).contains(x) <==> before.contains(x) || x == k);
            }
            assert(before.contains(x) <==> names.contains(x) || (!known.contains(x) && has_field(
                fields,
                x,
                n - 1,
            )));
            if has_field(fields, x, n) {
                let i = choose|i: int| 0 <= i < n && (#[trigger] fields[i]).0@ == x;
                if i < n - 1 {
                    assert(has_field(fields, x, n - 1));
                }
            }
            if has_field(fields, x, n - 1) {
                let i = choose|i: int| 0 <= i < n - 1 && (#[trigger] fields[i]).0@ == x;
                assert(fields[i].0@ == x);
            }
        }
    }
}

proof fn lemma_extra_names(known: Seq<Seq<char>>, records: Seq<Record>, n: int)
    requires
        0 <= n <= records.len(),
    ensures
        sorted_texts(extra_names(known, records, n)),
        forall|x: Seq<char>| #[trigger]
            extra_names(known, records, n).contains(x) <==> !known.contains(x) && exists|r: int|
                0 <= r < n && has_field(
                    (#[trigger] records[r]).fields@,
                    x,
                    records[r].fields@.len() as int,
                ),
    decreases n,
{
    if n > 0 {
        lemma_extra_names(known, records, n - 1);
        let before = extra_names(known, records, n - 1);
        let fields = records[n - 1].fields@;
        lemma_unknown_names(known, fields, before, fields.len() as int);
        let now = extra_names(known, records, n);
        assert forall|x: Seq<char>| #[trigger] now.contains(x) implies !known.contains(x)
            && exists|r: int|
            0 <= r < n && has_field(
                (#[trigger] records[r]).fields@,
                x,
                records[r].fields@.len() as int,
            ) by {
            if before.contains(x) {
                let r = choose|r: int|
                    0 <= r < n - 1 && has_field(
                        (#[trigger] records[r]).fields@,
                        x,
                        records[r].fields@.len() as int,
                    );
                assert(0 <= r < n);
            } else {
                assert(has_field(records[n - 1].fields@, x, records[n - 1].fields@.len() as int));
            }
        }
        assert forall|x: Seq<char>|
            !known.contains(x) && (exists|r: int|
                0 <= r < n && has_field(
                    (#[trigger] records[r]).fields@,
                    x,
                    records[r].fields@.len() as int,
                )) implies #[trigger] now.contains(x) by {
            let r = choose|r: int|
                0 <= r < n && has_field(
                    (#[trigger] records[r]).fields@,
                    x,
                    records[r].fields@.len() as int,
                );
            if r < n - 1 {
                assert(before.contains(x));
            }
        }
    }
}

/// The columns start with the mission's fields in their order; behind them, in
/// order and once each, stand exactly the other field names that records have.
pub proof fn law_columns_follow_the_mission(report: ScoutReport, name: Seq<char>)
    ensures
        ({
            let own = views(report.mission.fields@);
            let cols = column_names(report);
            let rest = cols.skip(own.len() as int);
            &&& cols.take(own.len() as int) == own
            &&& sorted_texts(rest)
            &&& rest.contains(name) <==> !own.contains(name) && exists|r: int|
                0 <= r < report.records@.len() && has_field(
                    (#[trigger] report.records@[r]).fields@,
                    name,
                    report.records@[r].fields@.len() as int,
                )
        }),
{
    let own = views(report.mission.fields@);
    let cols = column_names(report);
    let n = report.records@.len() as int;
    lemma_extra_names(own, report.records@, n);
    let extra = extra_names(own, report.records@, n);
    assert(cols.take(own.len() as int) =~= own);
    assert(cols.skip(own.len() as int) =~= extra);
    assert(extra.contains(name) <==> !own.contains(name) && exists|r: int|
        0 <= r < n && has_field(
            (#[trigger] report.records@[r]).fields@,
            name,
            report.records@[r].fields@.len() as int,
        ));
}

// -------------------------------------------------------------- provenance --

/// The address a field was verified at, by its first entry.
pub open spec fn source_of(
    provenance: Seq<(String, FieldSource)>,
    name: Seq<char>,
    i: int,
) -> Option<Seq<char>>
    decreases provenance.len() - i,
{
    if i < 0 || i >= provenance.len() {
        None
    } else if provenance[i].0@ == name {
        Some(provenance[i].1.source_url@)
    } else {
        source_of(provenance, name, i + 1)
    }
}

/// The address a field was verified at, where that is not the record's own.
pub open spec fn other_source(r: Record, name: Seq<char>) -> Option<Seq<char>> {
    match source_of(r.provenance@, name, 0) {
        Some(u) => if u != r.source_url@ {
            Some(u)
        } else {
            None
        },
        None => None,
    }
}

fn field_source<'a>(r: &'a Record, name: &str) -> (u: Option<&'a str>)
    ensures
        match u {
            Some(s) => source_of(r.provenance@, name@, 0) == Some(s@),
            None => source_of(r.provenance@, name@, 0) is None,
        },
{
    let mut i: usize = 0;
    while i < r.provenance.len()
        invariant
            i <= r.provenance@.len(),
            source_of(r.provenance@, name@, 0) == source_of(r.provenance@, name@, i as int),
        decreases r.provenance@.len() - i,
    {
        if str_eq(r.provenance[i].0.as_str(), name) {
            return Some(r.provenance[i].1.source_url.as_str());
        }
        i += 1;
    }
    None
}

fn stray_source<'a>(r: &'a Record, name: &str) -> (u: Option<&'a str>)
    ensures
        match u {
            Some(s) => other_source(*r, name@) == Some(s@),
            None => other_source(*r, name@) is None,
        },
{
    match field_source(r, name) {
        Some(s) => if str_eq(s, r.source_url.as_str()) {
            None
        } else {
            Some(s)
        },
        None => None,
    }
}

/// Some record verified this field elsewhere.
pub open spec fn strays(records: Seq<Record>, name: Seq<char>) -> bool {
    exists|i: int| 0 <= i < records.len() && other_source(#[trigger] records[i], name) is Some
}

/// The first `n` columns that some record verified elsewhere.
pub open spec fn stray_columns(
    records: Seq<Record>,
    cols: Seq<Seq<char>>,
    n: int,
) -> Seq<Seq<char>>
    decreases n,
{
    if n <= 0 {
        Seq::empty()
    } else {
        let before = stray_columns(records, cols, n - 1);
        if strays(records, cols[n - 1]) {
            before.push(cols[n - 1])
        } else {
            before
        }
    }
}

/// Fields whose source differs from the record's own address in at least one
/// record. These get a column of their own in a spreadsheet.
pub fn provenance_extra_cols(report: &ScoutReport, cols: &Vec<String>) -> (r: Vec<String>)
    ensures
        views(r@) == stray_columns(report.records@, views(cols@), cols@.len() as int),
{
    let mut out: Vec<String> = Vec::new();
    let mut i: usize = 0;
    assert(views(out@) =~= Seq::<Seq<char>>::empty());
    while i < cols.len()
        invariant
            i <= cols@.len(),
            views(out@) == stray_columns(report.records@, views(cols@), i as int),
        decreases cols@.len() - i,
    {
        let name = cols[i].as_str();
        let mut found: bool = false;
        let mut k: usize = 0;
        while k < report.records.len() && !found
            invariant
                k <= report.records@.len(),
                found ==> strays(report.records@, name@),
                !found ==> forall|m: int|
                    0 <= m < k ==> other_source(#[trigger] report.records@[m], name@) is None,
            decreases report.records@.len() - k + (if found {
                0int
            } else {
                1
            }),
        {
            match stray_source(&report.records[k], name) {
                Some(_) => {
                    found = true;
                },
                None => {
                    k += 1;
                },
            }
        }
        assert(found == strays(report.records@, name@));
        let ghost before = out@;
        if found {
            let c = name.to_owned();
            out.push(c);
            assert(views(out@) =~= views(before).push(name@));
        }
        i += 1;
    }
    out
}

// --------------------------------------------------------------------- csv --

/// The line that one record is written as, if it can be.
pub uninterp spec fn csv_line(row: Seq<Seq<char>>) -> Option<Seq<char>>;

/// Rows of strings as rows of texts.
pub open spec fn row_views(rows: Seq<Vec<String>>) -> Seq<Seq<Seq<char>>> {
    rows.map_values(|r: Vec<String>| views(r@))
}

/// `csv::Writer` with its default settings, one `write_record`, then `into_inner`:
/// what is written, the line's end included, depends on the fields alone. Nothing
/// where it refuses the record.
#[verifier::external_body]
fn write_line(row: &Vec<String>) -> (r: Option<String>)
    ensures
        match r {
            Some(t) => csv_line(views(row@)) == Some(t@),
            None => csv_line(views(row@)) is None,
        },
{
    let mut w = csv::Writer::from_writer(Vec::new());
    w.write_record(row).ok()?;
    String::from_utf8(w.into_inner().ok()?).ok()
}

/// The first `n` rows as lines one after the other, if each can be written.
pub open spec fn csv_document(rows: Seq<Seq<Seq<char>>>, n: int) -> Option<Seq<char>>
    decreases n,
{
    if n <= 0 {
        Some(Seq::empty())
    } else {
        match (csv_document(rows, n - 1), csv_line(rows[n - 1])) {
            (Some(a), Some(b)) => Some(a + b),
            _ => None,
        }
    }
}

proof fn lemma_csv_refused(rows: Seq<Seq<Seq<char>>>, k: int, n: int)
    requires
        0 <= k <= n,
        csv_document(rows, k) is None,
    ensures
        csv_document(rows, n) is None,
    decreases n - k,
{
    if k < n {
        lemma_csv_refused(rows, k, n - 1);
    }
}

/// The header: the columns, then where a record came from and how well it is
/// backed, then the columns of fields verified elsewhere.
pub open spec fn csv_header(cols: Seq<Seq<char>>, stray: Seq<Seq<char>>) -> Seq<Seq<char>> {
    cols + seq!["source_url"@, "grounding"@, "constraint_support"@] + Seq::new(
        stray.len(),
        |i: int| stray[i] + "_source_url"@,
    )
}

/// The text of an optional address.
pub open spec fn or_blank(u: Option<Seq<char>>) -> Seq<char> {
    match u {
        Some(s) => s,
        None => ""@,
    }
}

/// One record as a row.
pub open spec fn csv_row(r: Record, cols: Seq<Seq<char>>, stray: Seq<Seq<char>>) -> Seq<
    Seq<char>,
> {
    Seq::new(cols.len(), |i: int| field_value(r.fields@, cols[i], 0)) + seq![
        r.source_url@,
        r.grounding.text@,
        r.constraint_support.text@,
    ] + Seq::new(stray.len(), |i: int| or_blank(source_of(r.provenance@, stray[i], 0)))
}

/// The rows of the spreadsheet, header first.
pub open spec fn csv_rows(report: ScoutReport) -> Seq<Seq<Seq<char>>> {
    let cols = column_names(report);
    let stray = stray_columns(report.records@, cols, cols.len() as int);
    seq![csv_header(cols, stray)] + Seq::new(
        report.records@.len(),
        |i: int| csv_row(report.records@[i], cols, stray),
    )
}

fn header_row(cols: &Vec<String>, stray: &Vec<String>) -> (r: Vec<String>)
    ensures
        views(r@) == csv_header(views(cols@), views(stray@)),
{
    let mut row = copy_strings(cols);
    row.push("source_url".to_owned());
    row.push("grounding".to_owned());
    row.push("constraint_support".to_owned());
    let ghost head = views(cols@) + seq!["source_url"@, "grounding"@, "constraint_support"@];
    assert(views(row@) =~= head);
    let ghost tail = Seq::new(stray@.len(), |i: int| views(stray@)[i] + "_source_url"@);
    let mut i: usize = 0;
    assert(head + tail.take(0) =~= head);
    while i < stray.len()
        invariant
            i <= stray@.len(),
            tail == Seq::new(stray@.len(), |i: int| views(stray@)[i] + "_source_url"@),
            views(row@) == head + tail.take(i as int),
        decreases stray@.len() - i,
    {
        let mut name = stray[i].as_str().to_owned();
        name.append("_source_url");
        let ghost before = row@;
        row.push(name);
        assert(name@ == tail[i as int]);
        assert(views(row@) =~= views(before).push(name@));
        assert(tail.take(i + 1) =~= tail.take(i as int).push(name@));
        assert(views(row@) =~= head + tail.take(i + 1));
        i += 1;
    }
    assert(tail.take(i as int) =~= tail);
    assert(tail =~= Seq::new(
        views(stray@).len(),
        |i: int| views(stray@)[i] + "_source_url"@,
    ));
    row
}

fn record_row(rec: &Record, cols: &Vec<String>, stray: &Vec<String>) -> (r: Vec<String>)
    ensures
        views(r@) == csv_row(*rec, views(cols@), views(stray@)),
{
    let mut row: Vec<String> = Vec::new();
    let ghost own = Seq::new(
        views(cols@).len(),
        |i: int| field_value(rec.fields@, views(cols@)[i], 0),
    );
    let mut i: usize = 0;
    assert(views(row@) =~= own.take(0));
    while i < cols.len()
        invariant
            i <= cols@.len(),
            own == Seq::new(
                views(cols@).len(),
                |i: int| field_value(rec.fields@, views(cols@)[i], 0),
            ),
            views(row@) == own.take(i as int),
        decreases cols@.len() - i,
    {
        let v = rec.get(cols[i].as_str()).to_owned();
        assert(v@ == own[i as int]);
        let ghost before = row@;
        row.push(v);
        assert(views(row@) =~= views(before).push(v@));
        assert(own.take(i + 1) =~= own.take(i as int).push(v@));
        i += 1;
    }
    assert(own.take(i as int) =~= own);
    row.push(rec.source_url.as_str().to_owned());
    row.push(rec.grounding.text.as_str().to_owned());
    row.push(rec.constraint_support.text.as_str().to_owned());
    let ghost head = own + seq![
        rec.source_url@,
        rec.grounding.text@,
        rec.constraint_support.text@,
    ];
    assert(views(row@) =~= head);
    let ghost tail = Seq::new(
        views(stray@).len(),
        |i: int| or_blank(source_of(rec.provenance@, views(stray@)[i], 0)),
    );
    let mut k: usize = 0;
    assert(head + tail.take(0) =~= head);
    while k < stray.len()
        invariant
            k <= stray@.len(),
            tail == Seq::new(
                views(stray@).len(),
                |i: int| or_blank(source_of(rec.provenance@, views(stray@)[i], 0)),
            ),
            views(row@) == head + tail.take(k as int),
        decreases stray@.len() - k,
    {
        let u = match field_source(rec, stray[k].as_str()) {
            Some(s) => s.to_owned(),
            None => "".to_owned(),
        };
        assert(u@ == tail[k as int]);
        let ghost before = row@;
        row.push(u);
        assert(views(row@) =~= views(before).push(u@));
        assert(tail.take(k + 1) =~= tail.take(k as int).push(u@));
        assert(views(row@) =~= head + tail.take(k + 1));
        k += 1;
    }
    assert(tail.take(k as int) =~= tail);
    row
}

/// The rows of a report's spreadsheet, header first.
pub fn spreadsheet(report: &ScoutReport) -> (r: Vec<Vec<String>>)
    ensures
        row_views(r@) == csv_rows(*report),
{
    let cols = columns(report);
    let stray = provenance_extra_cols(report, &cols);
    let mut rows: Vec<Vec<String>> = Vec::new();
    rows.push(header_row(&cols, &stray));
    let ghost c = column_names(*report);
    let ghost x = stray_columns(report.records@, c, c.len() as int);
    let ghost body = Seq::new(report.records@.len(), |i: int| csv_row(report.records@[i], c, x));
    let mut i: usize = 0;
    assert(row_views(rows@) =~= seq![csv_header(c, x)] + body.take(0));
    while i < report.records.len()
        invariant
            i <= report.records@.len(),
            views(cols@) == c,
            views(stray@) == x,
            body == Seq::new(report.records@.len(), |i: int| csv_row(report.records@[i], c, x)),
            row_views(rows@) == seq![csv_header(c, x)] + body.take(i as int),
        decreases report.records@.len() - i,
    {
        let row = record_row(&report.records[i], &cols, &stray);
        assert(views(row@) == body[i as int]);
        let ghost before = rows@;
        rows.push(row);
        assert(row_views(rows@) =~= row_views(before).push(views(row@)));
        assert(body.take(i + 1) =~= body.take(i as int).push(views(row@)));
        assert(row_views(rows@) =~= seq![csv_header(c, x)] + body.take(i + 1));
        i += 1;
    }
    assert(body.take(i as int) =~= body);
    rows
}

/// Every row of the spreadsheet has as many cells as the header.
pub proof fn law_spreadsheet_is_rectangular(report: ScoutReport, i: int)
    requires
        0 <= i < csv_rows(report).len(),
    ensures
        csv_rows(report)[i].len() == csv_rows(report)[0].len(),
{
    let cols = column_names(report);
    let stray = stray_columns(report.records@, cols, cols.len() as int);
    if i > 0 {
        assert(csv_rows(report)[i] == csv_row(report.records@[i - 1], cols, stray));
    }
}

/// The `p`-th entry is the first one for that field.
pub open spec fn lists_first(
    provenance: Seq<(String, FieldSource)>,
    name: Seq<char>,
    p: int,
) -> bool {
    &&& 0 <= p < provenance.len()
    &&& provenance[p].0@ == name
    &&& forall|q: int| 0 <= q < p ==> (#[trigger] provenance[q]).0@ != name
}

proof fn lemma_source_of(
    provenance: Seq<(String, FieldSource)>,
    name: Seq<char>,
    i: int,
) -> (p: int)
    requires
        0 <= i <= provenance.len(),
        forall|q: int| 0 <= q < i ==> (#[trigger] provenance[q]).0@ != name,
    ensures
        match source_of(provenance, name, i) {
            Some(u) => lists_first(provenance, name, p) && u == provenance[p].1.source_url@,
            None => forall|q: int| 0 <= q < provenance.len() ==> (#[trigger] provenance[q]).0@
                != name,
        },
    decreases provenance.len() - i,
{
    if i < provenance.len() && provenance[i].0@ != name {
        lemma_source_of(provenance, name, i + 1)
    } else {
        i
    }
}

proof fn lemma_stray_columns(records: Seq<Record>, cols: Seq<Seq<char>>, n: int, name: Seq<char>)
    requires
        0 <= n <= cols.len(),
    ensures
        stray_columns(records, cols, n).contains(name) <==> cols.take(n).contains(name) && strays(
            records,
            name,
        ),
    decreases n,
{
    if n > 0 {
        lemma_stray_columns(records, cols, n - 1, name);
        let before = stray_columns(records, cols, n - 1);
        let now = stray_columns(records, cols, n);
        assert(cols.take(n) =~= cols.take(n - 1).push(cols[n - 1]));
        assert(cols.take(n)[n - 1] == cols[n - 1]);
        if now.contains(name) && !before.contains(name) {
            let k = choose|k: int| 0 <= k < now.len() && now[k] == name;
            assert(k == before.len());
        }
        if before.contains(name) {
            let k = choose|k: int| 0 <= k < before.len() && before[k] == name;
            assert(now[k] == name);
        }
        if cols.take(n - 1).contains(name) {
            let k = cols.take(n - 1).index_of(name);
            assert(cols.take(n)[k] == name);
        }
        if strays(records, cols[n - 1]) {
            assert(now[before.len() as int] == cols[n - 1]);
        }
        if cols.take(n).contains(name) && !cols.take(n - 1).contains(name) {
            let k = cols.take(n).index_of(name);
            if k < n - 1 {
                assert(cols.take(n - 1)[k] == name);
            }
        }
    }
}

/// A spreadsheet has one row for each record behind its header, in order, and each cell
/// is what its heading says of that record: under a column the record's first value of
/// that name, under the fixed headings where it came from and how well it is backed.
pub proof fn law_cells_stand_under_their_headings(report: ScoutReport, i: int)
    requires
        0 <= i < report.records@.len(),
    ensures
        csv_rows(report).len() == report.records@.len() + 1,
        ({
            let r = report.records@[i];
            let head = csv_rows(report)[0];
            let row = csv_rows(report)[i + 1];
            let n = column_names(report).len() as int;
            &&& head.take(n) == column_names(report)
            &&& head[n] == "source_url"@ && row[n] == r.source_url@
            &&& head[n + 1] == "grounding"@ && row[n + 1] == r.grounding.text@
            &&& head[n + 2] == "constraint_support"@ && row[n + 2] == r.constraint_support.text@
            &&& forall|c: int, k: int|
                0 <= c < n && 0 <= k < r.fields@.len() && (#[trigger] r.fields@[k]).0@
                    == #[trigger] head[c] && (forall|j: int|
                    0 <= j < k ==> (#[trigger] r.fields@[j]).0@ != head[c]) ==> row[c]
                    == r.fields@[k].1@
            &&& forall|c: int|
                0 <= c < n && (forall|k: int|
                    0 <= k < r.fields@.len() ==> (#[trigger] r.fields@[k]).0@ != head[c])
                    ==> (#[trigger] row[c]).len() == 0
        }),
{
    reveal_strlit("");
    let r = report.records@[i];
    let cols = column_names(report);
    let stray = stray_columns(report.records@, cols, cols.len() as int);
    let head = csv_rows(report)[0];
    let row = csv_rows(report)[i + 1];
    let n = cols.len() as int;
    assert(head == csv_header(cols, stray));
    assert(row == csv_row(r, cols, stray));
    assert(head.take(n) =~= cols);
    assert forall|c: int, k: int|
        0 <= c < n && 0 <= k < r.fields@.len() && (#[trigger] r.fields@[k]).0@ == #[trigger] head[c]
            && (forall|j: int| 0 <= j < k ==> (#[trigger] r.fields@[j]).0@ != head[c]) implies row[c]
        == r.fields@[k].1@ by {
        assert(head[c] == cols[c]);
        law_the_first_value_of_a_name_counts(r.fields@, cols[c], 0);
        assert(row[c] == field_value(r.fields@, cols[c], 0));
    }
    assert forall|c: int|
        0 <= c < n && (forall|k: int|
            0 <= k < r.fields@.len() ==> (#[trigger] r.fields@[k]).0@ != head[c]) implies (#[trigger] row[c]).len() == 0 by {
        assert(head[c] == cols[c]);
        law_the_first_value_of_a_name_counts(r.fields@, cols[c], 0);
        assert(row[c] == field_value(r.fields@, cols[c], 0));
    }
}

/// A cell of a column for the pages of a field: the page at which the record's field was
/// verified, by its first entry; blank where there is none.
pub open spec fn tells_source(r: Record, name: Seq<char>, cell: Seq<char>) -> bool {
    ||| exists|p: int| #[trigger]
        lists_first(r.provenance@, name, p) && cell == r.provenance@[p].1.source_url@
    ||| cell.len() == 0 && forall|p: int| !#[trigger] lists_first(r.provenance@, name, p)
}

/// A field that some record verified on another page than its own gets a column for such
/// pages, behind the fixed ones.
pub proof fn law_other_pages_get_a_column(
    report: ScoutReport,
    name: Seq<char>,
    k: int,
    p: int,
) -> (c: int)
    requires
        column_names(report).contains(name),
        0 <= k < report.records@.len(),
        lists_first(report.records@[k].provenance@, name, p),
        report.records@[k].provenance@[p].1.source_url@ != report.records@[k].source_url@,
    ensures
        column_names(report).len() + 3 <= c < csv_rows(report)[0].len(),
        csv_rows(report)[0][c] == name + "_source_url"@,
{
    let cols = column_names(report);
    let n = cols.len() as int;
    let stray = stray_columns(report.records@, cols, n);
    let from = report.records@[k].provenance@;
    let q = lemma_source_of(from, name, 0);
    assert(source_of(from, name, 0) is Some) by {
        assert(from[p].0@ == name);
    }
    assert(p == q) by {
        assert(from[p].0@ == name && from[q].0@ == name);
    }
    assert(other_source(report.records@[k], name) is Some);
    assert(cols.take(n) =~= cols);
    lemma_stray_columns(report.records@, cols, n, name);
    let j = stray.index_of(name);
    assert(csv_rows(report)[0] == csv_header(cols, stray));
    n + 3 + j
}

/// Every column behind the fixed ones is for the pages of one of the fields, and its cells
/// say where each record's field was verified.
pub proof fn law_other_pages_are_shown(report: ScoutReport, c: int) -> (name: Seq<char>)
    requires
        column_names(report).len() + 3 <= c < csv_rows(report)[0].len(),
    ensures
        column_names(report).contains(name),
        csv_rows(report)[0][c] == name + "_source_url"@,
        forall|i: int|
            0 <= i < report.records@.len() ==> tells_source(
                #[trigger] report.records@[i],
                name,
                csv_rows(report)[i + 1][c],
            ),
{
    reveal_strlit("");
    let cols = column_names(report);
    let n = cols.len() as int;
    let stray = stray_columns(report.records@, cols, n);
    assert(csv_rows(report)[0] == csv_header(cols, stray));
    let name = stray[c - n - 3];
    assert(stray.contains(name));
    assert(cols.take(n) =~= cols);
    lemma_stray_columns(report.records@, cols, n, name);
    assert forall|i: int| 0 <= i < report.records@.len() implies tells_source(
        #[trigger] report.records@[i],
        name,
        csv_rows(report)[i + 1][c],
    ) by {
        let r = report.records@[i];
        assert(csv_rows(report)[i + 1] == csv_row(r, cols, stray));
        let cell = or_blank(source_of(r.provenance@, name, 0));
        assert(csv_rows(report)[i + 1][c] == cell);
        let p = lemma_source_of(r.provenance@, name, 0);
        if source_of(r.provenance@, name, 0) is Some {
            assert(lists_first(r.provenance@, name, p));
        }
    }
    name
}

/// A report's records as a spreadsheet.
pub fn render_csv(report: &ScoutReport) -> (r: Option<String>)
    ensures
        match r {
            Some(t) => csv_document(csv_rows(*report), csv_rows(*report).len() as int) == Some(t@),
            None => csv_document(csv_rows(*report), csv_rows(*report).len() as int) is None,
        },
{
    let rows = spreadsheet(report);
    let ghost all = csv_rows(*report);
    let mut out = String::new();
    let mut i: usize = 0;
    assert(out@ =~= Seq::<char>::empty());
    assert(rows@.len() == row_views(rows@).len());
    while i < rows.len()
        invariant
            i <= rows@.len() == all.len(),
            row_views(rows@) == all,
            all == csv_rows(*report),
            csv_document(all, i as int) == Some(out@),
        decreases rows@.len() - i,
    {
        assert(row_views(rows@)[i as int] == views(rows@[i as int]@));
        match write_line(&rows[i]) {
            Some(line) => {
                out.append(line.as_str());
            },
            None => {
                proof {
                    lemma_csv_refused(all, i + 1, all.len() as int);
                }
                return None;
            },
        }
        i += 1;
    }
    Some(out)
}

// -------------------------------------------------------------------- text --

/// The outcome in capitals.
pub open spec fn loud(o: Outcome) -> Seq<char> {
    match o {
        Outcome::Complete => "COMPLETE"@,
        Outcome::Partial => "PARTIAL"@,
        Outcome::Truncated => "TRUNCATED"@,
        Outcome::Empty => "EMPTY"@,
    }
}

fn loud_outcome(o: Outcome) -> (r: &'static str)
    ensures
        r@ == loud(o),
{
    match o {
        Outcome::Complete => "COMPLETE",
        Outcome::Partial => "PARTIAL",
        Outcome::Truncated => "TRUNCATED",
        Outcome::Empty => "EMPTY",
    }
}

pub open spec fn or_zero(n: Option<usize>) -> usize {
    match n {
        Some(x) => x,
        None => 0,
    }
}

/// What an outcome means, in words.
pub open spec fn meaning(report: ScoutReport) -> Seq<char> {
    let found = decimal(report.records@.len());
    if report.mission.kind == MissionKind::Harvest {
        match report.outcome {
            Outcome::Complete => "collected "@ + found + " verified records"@,
            Outcome::Partial => "found "@ + found + " of the "@ + decimal(
                or_zero(report.mission.target_count) as nat,
            ) + " requested; the reachable web ran out first"@,
            Outcome::Truncated => "stopped at the round ceiling with "@ + found
                + " records and more still appearing"@,
            Outcome::Empty => "nothing verifiable was found"@,
        }
    } else {
        match report.outcome {
            Outcome::Complete => "the evidence answers the question"@,
            Outcome::Partial => "part of the question is answered, with gaps remaining"@,
            Outcome::Truncated => "stopped at the round ceiling with "@ + found
                + " records and more still appearing"@,
            Outcome::Empty =>
                "nothing found. Treat this as absence of evidence, not evidence of absence"@,
        }
    }
}

/// What an outcome means, in words.
pub fn gloss(report: &ScoutReport) -> (r: String)
    ensures
        r@ == meaning(*report),
{
    let found = show_usize(report.records.len());
    let harvest: bool = report.mission.kind == MissionKind::Harvest;
    match report.outcome {
        Outcome::Complete => if harvest {
            let mut s = "collected ".to_owned();
            s.append(found.as_str());
            s.append(" verified records");
            s
        } else {
            "the evidence answers the question".to_owned()
        },
        Outcome::Partial => if harvest {
            let wanted = show_usize(
                match report.mission.target_count {
                    Some(n) => n,
                    None => 0,
                },
            );
            let mut s = "found ".to_owned();
            s.append(found.as_str());
            s.append(" of the ");
            s.append(wanted.as_str());
            s.append(" requested; the reachable web ran out first");
            s
        } else {
            "part of the question is answered, with gaps remaining".to_owned()
        },
        Outcome::Truncated => {
            let mut s = "stopped at the round ceiling with ".to_owned();
            s.append(found.as_str());
            s.append(" records and more still appearing");
            s
        },
        Outcome::Empty => if harvest {
            "nothing verifiable was found".to_owned()
        } else {
            "nothing found. Treat this as absence of evidence, not evidence of absence".to_owned()
        },
    }
}

/// The part of the statistics that is always shown.
pub open spec fn basic_stats(st: Stats) -> Seq<char> {
    decimal(st.rounds as nat) + " round(s), "@ + decimal(st.queries_issued as nat) + " queries, "@
        + decimal(st.pages_fetched as nat) + " pages, "@ + decimal(st.chunks_examined as nat)
        + " chunks in "@ + st.elapsed_secs.text@ + "s. Jev: "@ + decimal(st.jev_requests as nat)
        + " requests, "@ + decimal(st.jev_input_tokens as nat) + " tokens, $"@
        + st.jev_cost_usd.text@ + ". LLM: "@ + decimal(st.llm_requests as nat) + " requests, "@
        + decimal(st.llm_prompt_tokens as nat) + " prompt + "@ + decimal(
        st.llm_completion_tokens as nat,
    ) + " completion tokens."@
}

/// What was turned away, if anything was.
pub open spec fn rejected_stats(st: Stats) -> Seq<char> {
    if st.rejected_ungrounded > 0 || st.quarantined > 0 {
        " Rejected "@ + decimal(st.rejected_ungrounded as nat)
            + " ungrounded record(s); quarantined "@ + decimal(st.quarantined as nat)
            + " passage(s)."@
    } else {
        ""@
    }
}

/// The claims that were marked, if any were.
pub open spec fn claim_stats(st: Stats) -> Seq<char> {
    if st.unsupported_claims > 0 {
        " "@ + decimal(st.unsupported_claims as nat) + " of "@ + decimal(st.claims_checked as nat)
            + " answer claim(s) unsupported by the evidence and marked in the text."@
    } else {
        ""@
    }
}

/// A part of the statistics that is shown when its count is not zero.
pub open spec fn counted(before: Seq<char>, n: usize, after: Seq<char>) -> Seq<char> {
    if n > 0 {
        before + decimal(n as nat) + after
    } else {
        ""@
    }
}

/// Enrichment and link following, if there was any.
pub open spec fn entity_stats(st: Stats) -> Seq<char> {
    if st.entities_discovered > 0 || st.entities_enriched > 0 || st.links_followed > 0 {
        " Entities: "@ + decimal(st.entities_discovered as nat) + " discovered"@ + counted(
            ", "@,
            st.entities_enriched,
            " enriched"@,
        ) + counted(". Links followed: "@, st.links_followed, ""@) + counted(
            ". Enrich searches: "@,
            st.enrich_searches,
            ""@,
        ) + "."@
    } else {
        ""@
    }
}

/// The statistics of a run in one line.
pub open spec fn stats_text(st: Stats) -> Seq<char> {
    basic_stats(st) + rejected_stats(st) + claim_stats(st) + entity_stats(st)
}

fn add_count(s: &mut String, n: usize)
    ensures
        final(s)@ == old(s)@ + decimal(n as nat),
{
    let t = show_usize(n);
    s.append(t.as_str());
}

fn basic_line(st: &Stats) -> (s: String)
    ensures
        s@ == basic_stats(*st),
{
    let mut s = show_usize(st.rounds);
    s.append(" round(s), ");
    add_count(&mut s, st.queries_issued);
    s.append(" queries, ");
    add_count(&mut s, st.pages_fetched);
    s.append(" pages, ");
    add_count(&mut s, st.chunks_examined);
    s.append(" chunks in ");
    s.append(st.elapsed_secs.text.as_str());
    s.append("s. Jev: ");
    add_count(&mut s, st.jev_requests);
    s.append(" requests, ");
    add_count(&mut s, st.jev_input_tokens);
    s.append(" tokens, $");
    s.append(st.jev_cost_usd.text.as_str());
    s.append(". LLM: ");
    add_count(&mut s, st.llm_requests);
    s.append(" requests, ");
    add_count(&mut s, st.llm_prompt_tokens);
    s.append(" prompt + ");
    add_count(&mut s, st.llm_completion_tokens);
    s.append(" completion tokens.");
    s
}

fn counted_part(before: &str, n: usize, after: &str) -> (r: String)
    ensures
        r@ == counted(before@, n, after@),
{
    if n > 0 {
        let mut s = before.to_owned();
        add_count(&mut s, n);
        s.append(after);
        s
    } else {
        "".to_owned()
    }
}

fn entity_part(st: &Stats) -> (r: String)
    ensures
        r@ == entity_stats(*st),
{
    if st.entities_discovered > 0 || st.entities_enriched > 0 || st.links_followed > 0 {
        let mut s = " Entities: ".to_owned();
        add_count(&mut s, st.entities_discovered);
        s.append(" discovered");
        let enriched = counted_part(", ", st.entities_enriched, " enriched");
        s.append(enriched.as_str());
        let followed = counted_part(". Links followed: ", st.links_followed, "");
        s.append(followed.as_str());
        let searches = counted_part(". Enrich searches: ", st.enrich_searches, "");
        s.append(searches.as_str());
        s.append(".");
        s
    } else {
        "".to_owned()
    }
}

/// The statistics of a run in one line. What did not happen is not mentioned.
pub fn stats_line(report: &ScoutReport) -> (r: String)
    ensures
        r@ == stats_text(report.stats),
{
    let st = &report.stats;
    let mut s = basic_line(st);
    let rejected = if st.rejected_ungrounded > 0 || st.quarantined > 0 {
        let mut t = " Rejected ".to_owned();
        add_count(&mut t, st.rejected_ungrounded);
        t.append(" ungrounded record(s); quarantined ");
        add_count(&mut t, st.quarantined);
        t.append(" passage(s).");
        t
    } else {
        "".to_owned()
    };
    s.append(rejected.as_str());
    let claims = if st.unsupported_claims > 0 {
        let mut t = " ".to_owned();
        add_count(&mut t, st.unsupported_claims);
        t.append(" of ");
        add_count(&mut t, st.claims_checked);
        t.append(" answer claim(s) unsupported by the evidence and marked in the text.");
        t
    } else {
        "".to_owned()
    };
    s.append(claims.as_str());
    let entities = entity_part(st);
    s.append(entities.as_str());
    s
}

// ------------------------------------------------------------------- parts --

/// The first `n` texts one after the other, each between `pre` and `post`.
pub open spec fn each(pre: Seq<char>, items: Seq<Seq<char>>, post: Seq<char>, n: int) -> Seq<char>
    decreases n,
{
    if n <= 0 {
        Seq::empty()
    } else {
        each(pre, items, post, n - 1) + (pre + items[n - 1] + post)
    }
}

fn each_of(pre: &str, items: &Vec<String>, post: &str) -> (r: String)
    ensures
        r@ == each(pre@, views(items@), post@, items@.len() as int),
{
    let mut s = String::new();
    let mut i: usize = 0;
    assert(s@ =~= Seq::<char>::empty());
    while i < items.len()
        invariant
            i <= items@.len(),
            s@ == each(pre@, views(items@), post@, i as int),
        decreases items@.len() - i,
    {
        let ghost before = s@;
        s.append(pre);
        s.append(items[i].as_str());
        s.append(post);
        assert(s@ =~= before + (pre@ + views(items@)[i as int] + post@));
        i += 1;
    }
    s
}

/// `n` copies of a text.
pub open spec fn copies(t: Seq<char>, n: int) -> Seq<char>
    decreases n,
{
    if n <= 0 {
        Seq::empty()
    } else {
        copies(t, n - 1) + t
    }
}

fn copies_of(t: &str, n: usize) -> (r: String)
    ensures
        r@ == copies(t@, n as int),
{
    let mut s = String::new();
    let mut i: usize = 0;
    assert(s@ =~= Seq::<char>::empty());
    while i < n
        invariant
            i <= n,
            s@ == copies(t@, i as int),
        decreases n - i,
    {
        s.append(t);
        i += 1;
    }
    s
}

/// Text for a table cell: pipes are escaped, line breaks are spaces.
pub open spec fn cell_text(s: Seq<char>) -> Seq<char> {
    replace(replace(s, "|"@, "\\|"@), "\n"@, " "@)
}

/// Escape what would end a table cell or its row.
pub fn escape_pipes(s: &str) -> (r: String)
    ensures
        r@ == cell_text(s@),
{
    proof {
        reveal_strlit("|");
        reveal_strlit("\n");
    }
    let v = to_chars(s);
    let a = replace_all(&v, "|", "\\|");
    let b = replace_all(&a, "\n", " ");
    from_chars(&b)
}

/// A note of where a field was verified, where that is not the record's own page.
pub open spec fn source_note(r: Record, name: Seq<char>) -> Seq<char> {
    match other_source(r, name) {
        Some(u) => " ← "@ + u,
        None => ""@,
    }
}

fn note_of(r: &Record, name: &str) -> (n: String)
    ensures
        n@ == source_note(*r, name@),
{
    match stray_source(r, name) {
        Some(u) => {
            let mut s = " ← ".to_owned();
            s.append(u);
            s
        },
        None => "".to_owned(),
    }
}

// ---------------------------------------------------------------- markdown --

/// One record's cells.
pub open spec fn md_cells(r: Record, cols: Seq<Seq<char>>) -> Seq<Seq<char>> {
    Seq::new(
        cols.len(),
        |i: int|
            cell_text(field_value(r.fields@, cols[i], 0)) + cell_text(source_note(r, cols[i])),
    )
}

/// The `n`-th record as a row, counted from 1.
pub open spec fn md_row(n: nat, r: Record, cols: Seq<Seq<char>>) -> Seq<char> {
    "| "@ + decimal(n) + " | "@ + join(md_cells(r, cols), " | "@) + " | [link]("@ + r.source_url@
        + ") | "@ + r.grounding.text@ + " |\n"@
}

pub open spec fn md_rows(records: Seq<Record>, cols: Seq<Seq<char>>, n: int) -> Seq<char>
    decreases n,
{
    if n <= 0 {
        Seq::empty()
    } else {
        md_rows(records, cols, n - 1) + md_row(n as nat, records[n - 1], cols)
    }
}

/// The header of the table.
pub open spec fn md_header(cols: Seq<Seq<char>>) -> Seq<char> {
    "| # | "@ + join(cols, " | "@) + " | source | grounding |\n"@
}

/// The row below the header: as many cells as that has.
pub open spec fn md_delimiter(cols: Seq<Seq<char>>) -> Seq<char> {
    "|"@ + copies("---|"@, cols.len() as int + 3) + "\n"@
}

pub open spec fn md_table(report: ScoutReport) -> Seq<char> {
    let cols = column_names(report);
    md_header(cols) + md_delimiter(cols) + md_rows(
        report.records@,
        cols,
        report.records@.len() as int,
    ) + "\n"@
}

pub open spec fn md_source(n: nat, p: Passage) -> Seq<char> {
    decimal(n) + ". ["@ + p.title@ + "]("@ + p.url@ + ") — supports "@ + p.supports.text@
        + "\n"@
}

pub open spec fn md_sources(evidence: Seq<Passage>, n: int) -> Seq<char>
    decreases n,
{
    if n <= 0 {
        Seq::empty()
    } else {
        md_sources(evidence, n - 1) + md_source(n as nat, evidence[n - 1])
    }
}

/// The answer, where there is one, and an empty line.
pub open spec fn answer_text(answer: Option<String>) -> Seq<char> {
    match answer {
        Some(a) => a@ + "\n\n"@,
        None => ""@,
    }
}

pub open spec fn md_body(report: ScoutReport) -> Seq<char> {
    if report.mission.kind == MissionKind::Harvest {
        if report.records@.len() > 0 {
            md_table(report)
        } else {
            ""@
        }
    } else {
        answer_text(report.answer) + (if report.evidence@.len() > 0 {
            "## Sources\n\n"@ + md_sources(report.evidence@, report.evidence@.len() as int) + "\n"@
        } else {
            ""@
        })
    }
}

pub open spec fn md_quarantined(urls: Seq<Seq<char>>) -> Seq<char> {
    if urls.len() > 0 {
        "## Quarantined\n\nThese pages contained text addressed to an AI reader. They were kept away from the generative model and contributed nothing.\n\n"@
            + each("- <"@, urls, ">\n"@, urls.len() as int) + "\n"@
    } else {
        ""@
    }
}

pub open spec fn md_notes(notes: Seq<Seq<char>>) -> Seq<char> {
    if notes.len() > 0 {
        "## Notes\n\n"@ + each("- "@, notes, "\n"@, notes.len() as int) + "\n"@
    } else {
        ""@
    }
}

/// A report as Markdown.
pub open spec fn markdown(report: ScoutReport) -> Seq<char> {
    "# "@ + report.query@ + "\n\n**"@ + loud(report.outcome) + "** — "@ + meaning(report)
        + "\n\n"@ + md_body(report) + md_quarantined(views(report.quarantined_sources@)) + md_notes(
        views(report.notes@),
    ) + "---\n\n"@ + stats_text(report.stats) + "\n"@
}

fn cells_of(r: &Record, cols: &Vec<String>) -> (out: Vec<String>)
    ensures
        views(out@) == md_cells(*r, views(cols@)),
{
    let ghost all = md_cells(*r, views(cols@));
    let mut out: Vec<String> = Vec::new();
    let mut i: usize = 0;
    assert(views(out@) =~= all.take(0));
    while i < cols.len()
        invariant
            i <= cols@.len(),
            all == md_cells(*r, views(cols@)),
            views(out@) == all.take(i as int),
        decreases cols@.len() - i,
    {
        let name = cols[i].as_str();
        let mut cell = escape_pipes(r.get(name));
        let note = note_of(r, name);
        let note = escape_pipes(note.as_str());
        cell.append(note.as_str());
        assert(cell@ == all[i as int]);
        let ghost before = out@;
        out.push(cell);
        assert(views(out@) =~= views(before).push(cell@));
        assert(all.take(i + 1) =~= all.take(i as int).push(cell@));
        i += 1;
    }
    assert(all.take(i as int) =~= all);
    out
}

fn table(report: &ScoutReport) -> (r: String)
    ensures
        r@ == md_table(*report),
{
    let cols = columns(report);
    let heads = join_strings(&cols, " | ");
    let mut s = "| # | ".to_owned();
    s.append(heads.as_str());
    s.append(" | source | grounding |\n");
    assert(s@ == md_header(views(cols@)));
    let mut rule = "|".to_owned();
    let dashes = copies_of("---|", cols.len());
    let three = copies_of("---|", 3);
    proof {
        assert(views(cols@).len() == cols@.len());
        lemma_copies_add("---|"@, cols@.len() as int, 3);
    }
    rule.append(dashes.as_str());
    rule.append(three.as_str());
    rule.append("\n");
    assert(rule@ =~= md_delimiter(views(cols@)));
    s.append(rule.as_str());
    let ghost head = s@;
    let mut i: usize = 0;
    assert(head + md_rows(report.records@, views(cols@), 0) =~= head);
    let n: usize = report.records.len();
    while i < n
        invariant
            i <= n == report.records@.len(),
            s@ == head + md_rows(report.records@, views(cols@), i as int),
        decreases report.records@.len() - i,
    {
        let r = &report.records[i];
        let cells = cells_of(r, &cols);
        let joined = join_strings(&cells, " | ");
        let mut row = "| ".to_owned();
        add_count(&mut row, i + 1);
        row.append(" | ");
        row.append(joined.as_str());
        row.append(" | [link](");
        row.append(r.source_url.as_str());
        row.append(") | ");
        row.append(r.grounding.text.as_str());
        row.append(" |\n");
        assert(row@ == md_row((i + 1) as nat, *r, views(cols@)));
        s.append(row.as_str());
        i += 1;
        assert(s@ =~= head + md_rows(report.records@, views(cols@), i as int));
    }
    s.append("\n");
    s
}

/// Copies of a text add up.
proof fn lemma_copies_add(t: Seq<char>, m: int, n: int)
    requires
        0 <= m,
        0 <= n,
    ensures
        copies(t, m) + copies(t, n) == copies(t, m + n),
    decreases n,
{
    if n == 0 {
        assert(copies(t, m) + copies(t, 0) =~= copies(t, m));
    } else {
        lemma_copies_add(t, m, n - 1);
        assert(copies(t, m) + (copies(t, n - 1) + t) =~= copies(t, m) + copies(t, n - 1) + t);
    }
}

fn source_list(evidence: &Vec<Passage>) -> (r: String)
    ensures
        r@ == md_sources(evidence@, evidence@.len() as int),
{
    let mut s = String::new();
    let mut i: usize = 0;
    assert(s@ =~= Seq::<char>::empty());
    let n: usize = evidence.len();
    while i < n
        invariant
            i <= n == evidence@.len(),
            s@ == md_sources(evidence@, i as int),
        decreases evidence@.len() - i,
    {
        let p = &evidence[i];
        let mut line = show_usize(i + 1);
        line.append(". [");
        line.append(p.title.as_str());
        line.append("](");
        line.append(p.url.as_str());
        line.append(") — supports ");
        line.append(p.supports.text.as_str());
        line.append("\n");
        s.append(line.as_str());
        i += 1;
    }
    s
}

fn answer_part(answer: &Option<String>) -> (r: String)
    ensures
        r@ == answer_text(*answer),
{
    match answer {
        Some(a) => {
            let mut s = a.as_str().to_owned();
            s.append("\n\n");
            s
        },
        None => "".to_owned(),
    }
}

/// The body of a report as Markdown: the records of a harvest as a table, or the
/// answer with its sources.
pub fn markdown_body(report: &ScoutReport) -> (r: String)
    ensures
        r@ == md_body(*report),
{
    if report.mission.kind == MissionKind::Harvest {
        if report.records.len() > 0 {
            table(report)
        } else {
            "".to_owned()
        }
    } else {
        let mut s = answer_part(&report.answer);
        let sources = if report.evidence.len() > 0 {
            let mut t = "## Sources\n\n".to_owned();
            let list = source_list(&report.evidence);
            t.append(list.as_str());
            t.append("\n");
            t
        } else {
            "".to_owned()
        };
        s.append(sources.as_str());
        s
    }
}

fn quarantine_part(urls: &Vec<String>) -> (r: String)
    ensures
        r@ == md_quarantined(views(urls@)),
{
    assert(views(urls@).len() == urls@.len());
    if urls.len() > 0 {
        let mut s =
            "## Quarantined\n\nThese pages contained text addressed to an AI reader. They were kept away from the generative model and contributed nothing.\n\n".to_owned();
        let list = each_of("- <", urls, ">\n");
        s.append(list.as_str());
        s.append("\n");
        s
    } else {
        "".to_owned()
    }
}

fn notes_part(notes: &Vec<String>) -> (r: String)
    ensures
        r@ == md_notes(views(notes@)),
{
    assert(views(notes@).len() == notes@.len());
    if notes.len() > 0 {
        let mut s = "## Notes\n\n".to_owned();
        let list = each_of("- ", notes, "\n");
        s.append(list.as_str());
        s.append("\n");
        s
    } else {
        "".to_owned()
    }
}

/// A report as Markdown.
pub fn render_markdown(report: &ScoutReport) -> (r: String)
    ensures
        r@ == markdown(*report),
{
    let mut s = "# ".to_owned();
    s.append(report.query.as_str());
    s.append("\n\n**");
    s.append(loud_outcome(report.outcome));
    s.append("** — ");
    let words = gloss(report);
    s.append(words.as_str());
    s.append("\n\n");
    let body = markdown_body(report);
    s.append(body.as_str());
    let quarantined = quarantine_part(&report.quarantined_sources);
    s.append(quarantined.as_str());
    let notes = notes_part(&report.notes);
    s.append(notes.as_str());
    s.append("---\n\n");
    let stats = stats_line(report);
    s.append(stats.as_str());
    s.append("\n");
    s
}

// ---------------------------------------------------------------- terminal --

/// The fields of a record that say something, each with its name.
pub open spec fn shown_fields(r: Record, cols: Seq<Seq<char>>, n: int) -> Seq<Seq<char>>
    decreases n,
{
    if n <= 0 {
        Seq::empty()
    } else {
        let before = shown_fields(r, cols, n - 1);
        let v = field_value(r.fields@, cols[n - 1], 0);
        if v.len() == 0 {
            before
        } else {
            before.push(cols[n - 1] + ": "@ + v + source_note(r, cols[n - 1]))
        }
    }
}

/// The `n`-th record, counted from 1.
pub open spec fn term_record(n: nat, r: Record, cols: Seq<Seq<char>>) -> Seq<char> {
    pad_left(decimal(n), 4, ' ') + ". "@ + join(
        shown_fields(r, cols, cols.len() as int),
        "  |  "@,
    ) + "\n      "@ + r.source_url@ + " (grounding "@ + r.grounding.text@ + ")\n"@
}

pub open spec fn term_records(records: Seq<Record>, cols: Seq<Seq<char>>, n: int) -> Seq<char>
    decreases n,
{
    if n <= 0 {
        Seq::empty()
    } else {
        term_records(records, cols, n - 1) + term_record(n as nat, records[n - 1], cols)
    }
}

pub open spec fn term_sources(evidence: Seq<Passage>, n: int) -> Seq<char>
    decreases n,
{
    if n <= 0 {
        Seq::empty()
    } else {
        term_sources(evidence, n - 1) + ("  ["@ + decimal(n as nat) + "] "@ + evidence[n - 1].url@
            + "\n"@)
    }
}

pub open spec fn term_body(report: ScoutReport) -> Seq<char> {
    if report.mission.kind == MissionKind::Harvest {
        term_records(report.records@, column_names(report), report.records@.len() as int) + (
        if report.records@.len() > 0 {
            "\n"@ + decimal(report.records@.len()) + " record(s) from "@ + decimal(
                report.sources@.len(),
            ) + " source(s).\n"@
        } else {
            ""@
        })
    } else {
        answer_text(report.answer) + (if report.evidence@.len() > 0 {
            "Sources:\n"@ + term_sources(report.evidence@, report.evidence@.len() as int)
        } else {
            ""@
        })
    }
}

pub open spec fn term_quarantined(urls: Seq<Seq<char>>) -> Seq<char> {
    if urls.len() > 0 {
        "\n!! "@ + decimal(urls.len())
            + " page(s) tried to address the model and were quarantined:\n"@ + each(
            "   "@,
            urls,
            "\n"@,
            urls.len() as int,
        )
    } else {
        ""@
    }
}

pub open spec fn term_notes(notes: Seq<Seq<char>>) -> Seq<char> {
    if notes.len() > 0 {
        "\nNotes:\n"@ + each("  - "@, notes, "\n"@, notes.len() as int)
    } else {
        ""@
    }
}

/// A report as text for a terminal.
pub open spec fn terminal(report: ScoutReport) -> Seq<char> {
    "\n"@ + copies("="@, 78) + "\n"@ + report.query@ + "\n"@ + copies("="@, 78) + "\n"@ + loud(
        report.outcome,
    ) + ": "@ + meaning(report) + "\n\n"@ + term_body(report) + term_quarantined(
        views(report.quarantined_sources@),
    ) + term_notes(views(report.notes@)) + "\n"@ + copies("-"@, 78) + "\n"@ + stats_text(
        report.stats,
    ) + "\n"@
}

fn shown_of(r: &Record, cols: &Vec<String>) -> (out: Vec<String>)
    ensures
        views(out@) == shown_fields(*r, views(cols@), cols@.len() as int),
{
    let mut out: Vec<String> = Vec::new();
    let mut i: usize = 0;
    assert(views(out@) =~= Seq::<Seq<char>>::empty());
    while i < cols.len()
        invariant
            i <= cols@.len(),
            views(out@) == shown_fields(*r, views(cols@), i as int),
        decreases cols@.len() - i,
    {
        let name = cols[i].as_str();
        let v = r.get(name);
        if v.unicode_len() > 0 {
            let mut t = name.to_owned();
            t.append(": ");
            t.append(v);
            let note = note_of(r, name);
            t.append(note.as_str());
            let ghost before = out@;
            out.push(t);
            assert(views(out@) =~= views(before).push(t@));
        }
        i += 1;
    }
    out
}

fn record_list(report: &ScoutReport) -> (r: String)
    ensures
        r@ == term_records(report.records@, column_names(*report), report.records@.len() as int),
{
    let cols = columns(report);
    let mut s = String::new();
    let mut i: usize = 0;
    assert(s@ =~= Seq::<char>::empty());
    let n: usize = report.records.len();
    while i < n
        invariant
            i <= n == report.records@.len(),
            views(cols@) == column_names(*report),
            s@ == term_records(report.records@, column_names(*report), i as int),
        decreases report.records@.len() - i,
    {
        let r = &report.records[i];
        let digits = decimal_chars((i + 1) as u128);
        let padded = left_padded(&digits, 4, ' ');
        let mut t = from_chars(&padded);
        t.append(". ");
        let shown = shown_of(r, &cols);
        let joined = join_strings(&shown, "  |  ");
        assert(views(cols@).len() == cols@.len());
        t.append(joined.as_str());
        t.append("\n      ");
        t.append(r.source_url.as_str());
        t.append(" (grounding ");
        t.append(r.grounding.text.as_str());
        t.append(")\n");
        assert(t@ == term_record((i + 1) as nat, *r, views(cols@)));
        s.append(t.as_str());
        i += 1;
    }
    s
}

fn source_lines(evidence: &Vec<Passage>) -> (r: String)
    ensures
        r@ == term_sources(evidence@, evidence@.len() as int),
{
    let mut s = String::new();
    let mut i: usize = 0;
    assert(s@ =~= Seq::<char>::empty());
    let n: usize = evidence.len();
    while i < n
        invariant
            i <= n == evidence@.len(),
            s@ == term_sources(evidence@, i as int),
        decreases evidence@.len() - i,
    {
        let mut t = "  [".to_owned();
        add_count(&mut t, i + 1);
        t.append("] ");
        t.append(evidence[i].url.as_str());
        t.append("\n");
        s.append(t.as_str());
        i += 1;
    }
    s
}

fn terminal_body(report: &ScoutReport) -> (r: String)
    ensures
        r@ == term_body(*report),
{
    if report.mission.kind == MissionKind::Harvest {
        let mut s = record_list(report);
        let tail = if report.records.len() > 0 {
            let mut t = "\n".to_owned();
            add_count(&mut t, report.records.len());
            t.append(" record(s) from ");
            add_count(&mut t, report.sources.len());
            t.append(" source(s).\n");
            t
        } else {
            "".to_owned()
        };
        s.append(tail.as_str());
        s
    } else {
        let mut s = answer_part(&report.answer);
        let sources = if report.evidence.len() > 0 {
            let mut t = "Sources:\n".to_owned();
            let lines = source_lines(&report.evidence);
            t.append(lines.as_str());
            t
        } else {
            "".to_owned()
        };
        s.append(sources.as_str());
        s
    }
}

/// A report as text for a terminal.
pub fn render_terminal(report: &ScoutReport) -> (r: String)
    ensures
        r@ == terminal(*report),
{
    let rule = copies_of("=", 78);
    let mut s = "\n".to_owned();
    s.append(rule.as_str());
    s.append("\n");
    s.append(report.query.as_str());
    s.append("\n");
    s.append(rule.as_str());
    s.append("\n");
    s.append(loud_outcome(report.outcome));
    s.append(": ");
    let words = gloss(report);
    s.append(words.as_str());
    s.append("\n\n");
    let body = terminal_body(report);
    s.append(body.as_str());
    let urls = &report.quarantined_sources;
    assert(views(urls@).len() == urls@.len());
    let quarantined = if urls.len() > 0 {
        let mut t = "\n!! ".to_owned();
        add_count(&mut t, urls.len());
        t.append(" page(s) tried to address the model and were quarantined:\n");
        let list = each_of("   ", urls, "\n");
        t.append(list.as_str());
        t
    } else {
        "".to_owned()
    };
    s.append(quarantined.as_str());
    assert(views(report.notes@).len() == report.notes@.len());
    let notes = if report.notes.len() > 0 {
        let mut t = "\nNotes:\n".to_owned();
        let list = each_of("  - ", &report.notes, "\n");
        t.append(list.as_str());
        t
    } else {
        "".to_owned()
    };
    s.append(notes.as_str());
    s.append("\n");
    let thin = copies_of("-", 78);
    s.append(thin.as_str());
    s.append("\n");
    let stats = stats_line(report);
    s.append(stats.as_str());
    s.append("\n");
    s
}

// ------------------------------------------------------------------ render --

/// The parts of a report as JSON texts.
#[derive(Debug)]
pub struct Serialized {
    /// The whole report, indented.
    pub document: String,
    pub records: Vec<String>,
    /// The line that carries the answer, where there is one.
    pub answer: Option<String>,
    pub evidence: Vec<String>,
    /// The line that says how the run went.
    pub summary: String,
}

/// One JSON object per line: the records of a harvest, or the answer and its
/// evidence; then a summary, so that a streaming reader learns the outcome without
/// counting.
pub open spec fn jsonl(kind: MissionKind, parts: Serialized) -> Seq<char> {
    (if kind == MissionKind::Harvest {
        each(""@, views(parts.records@), "\n"@, parts.records@.len() as int)
    } else {
        (match parts.answer {
            Some(a) => a@ + "\n"@,
            None => ""@,
        }) + each(""@, views(parts.evidence@), "\n"@, parts.evidence@.len() as int)
    }) + (parts.summary@ + "\n"@)
}

/// A report as JSON lines.
pub fn render_jsonl(report: &ScoutReport, parts: &Serialized) -> (r: String)
    ensures
        r@ == jsonl(report.mission.kind, *parts),
{
    let mut s = if report.mission.kind == MissionKind::Harvest {
        each_of("", &parts.records, "\n")
    } else {
        let mut t = match &parts.answer {
            Some(a) => {
                let mut line = a.as_str().to_owned();
                line.append("\n");
                line
            },
            None => "".to_owned(),
        };
        let evidence = each_of("", &parts.evidence, "\n");
        t.append(evidence.as_str());
        t
    };
    let ghost before = s@;
    s.append(parts.summary.as_str());
    s.append("\n");
    assert(s@ =~= before + (parts.summary@ + "\n"@));
    s
}

/// A report in a format; nothing where the spreadsheet cannot be written.
pub open spec fn rendered(
    report: ScoutReport,
    format: Format,
    parts: Serialized,
) -> Option<Seq<char>> {
    match format {
        Format::Json => Some(parts.document@ + "\n"@),
        Format::Jsonl => Some(jsonl(report.mission.kind, parts)),
        Format::Markdown => Some(markdown(report)),
        Format::Terminal => Some(terminal(report)),
        Format::Csv => csv_document(csv_rows(report), csv_rows(report).len() as int),
    }
}

/// Render a report, given its parts as JSON.
pub fn render(report: &ScoutReport, format: Format, parts: &Serialized) -> (r: Option<String>)
    ensures
        match r {
            Some(t) => rendered(*report, format, *parts) == Some(t@),
            None => rendered(*report, format, *parts) is None,
        },
{
    match format {
        Format::Json => {
            let mut s = parts.document.as_str().to_owned();
            s.append("\n");
            Some(s)
        },
        Format::Jsonl => Some(render_jsonl(report, parts)),
        Format::Markdown => Some(render_markdown(report)),
        Format::Terminal => Some(render_terminal(report)),
        Format::Csv => render_csv(report),
    }
}

// -------------------------------------------------------------------- laws --

/// How often `c` occurs.
pub open spec fn occurrences(s: Seq<char>, c: char) -> nat
    decreases s.len(),
{
    if s.len() == 0 {
        0
    } else {
        occurrences(s.drop_last(), c) + (if s.last() == c {
            1nat
        } else {
            0nat
        })
    }
}

proof fn lemma_occurrences_add(a: Seq<char>, b: Seq<char>, c: char)
    ensures
        occurrences(a + b, c) == occurrences(a, c) + occurrences(b, c),
    decreases b.len(),
{
    if b.len() == 0 {
        assert(a + b =~= a);
    } else {
        assert((a + b).drop_last() =~= a + b.drop_last());
        assert((a + b).last() == b.last());
        lemma_occurrences_add(a, b.drop_last(), c);
    }
}

proof fn lemma_occurrences_join(cols: Seq<Seq<char>>)
    requires
        cols.len() >= 1,
        forall|i: int| 0 <= i < cols.len() ==> occurrences(#[trigger] cols[i], '|') == 0,
    ensures
        occurrences(join(cols, " | "@), '|') == cols.len() - 1,
    decreases cols.len(),
{
    reveal_strlit(" | ");
    reveal_with_fuel(occurrences, 4);
    if cols.len() > 1 {
        let t = cols.drop_last();
        assert forall|i: int| 0 <= i < t.len() implies occurrences(#[trigger] t[i], '|') == 0 by {
            assert(t[i] == cols[i]);
        }
        lemma_occurrences_join(t);
        assert(occurrences(" | "@, '|') == 1);
        lemma_occurrences_add(join(t, " | "@), " | "@, '|');
        lemma_occurrences_add(join(t, " | "@) + " | "@, cols.last(), '|');
        assert(cols.last() == cols[cols.len() - 1]);
    }
}

proof fn lemma_occurrences_copies(n: int)
    requires
        n >= 0,
    ensures
        occurrences(copies("---|"@, n), '|') == n,
    decreases n,
{
    if n > 0 {
        lemma_occurrences_copies(n - 1);
        reveal_strlit("---|");
        reveal_with_fuel(occurrences, 5);
        assert(occurrences("---|"@, '|') == 1);
        lemma_occurrences_add(copies("---|"@, n - 1), "---|"@, '|');
    }
}

#[verifier::spinoff_prover]
#[verifier::rlimit(60)]
proof fn lemma_header_literals()
    ensures
        occurrences("| # | "@, '|') == 2,
        occurrences(" | source | grounding |\n"@, '|') == 3,
        occurrences("|"@, '|') == 1,
        occurrences("\n"@, '|') == 0,
{
    reveal_strlit("| # | ");
    reveal_strlit(" | source | grounding |\n");
    reveal_strlit("|");
    reveal_strlit("\n");
    reveal_with_fuel(occurrences, 26);
}

/// The row below the header of a table has as many cells as the header, so that
/// the block reads as a table: both have a pipe more than their cells, three cells
/// more than there are columns.
pub proof fn law_table_header_and_rule_agree(cols: Seq<Seq<char>>)
    requires
        cols.len() >= 1,
        forall|i: int| 0 <= i < cols.len() ==> occurrences(#[trigger] cols[i], '|') == 0,
    ensures
        occurrences(md_header(cols), '|') == cols.len() + 4,
        occurrences(md_delimiter(cols), '|') == cols.len() + 4,
{
    let a = "| # | "@;
    let b = join(cols, " | "@);
    let c = " | source | grounding |\n"@;
    lemma_header_literals();
    lemma_occurrences_join(cols);
    lemma_occurrences_add(a, b, '|');
    lemma_occurrences_add(a + b, c, '|');
    let d = copies("---|"@, cols.len() as int + 3);
    lemma_occurrences_copies(cols.len() as int + 3);
    lemma_occurrences_add("|"@, d, '|');
    lemma_occurrences_add("|"@ + d, "\n"@, '|');
}

/// Every pipe stands behind a backslash.
pub open spec fn pipes_escaped(s: Seq<char>) -> bool {
    forall|i: int| 0 <= i < s.len() && #[trigger] s[i] == '|' ==> i > 0 && s[i - 1] == '\\'
}

proof fn lemma_escaped_from(s: Seq<char>, i: int)
    requires
        0 <= i <= s.len(),
    ensures
        pipes_escaped(replace_from(s, i, "|"@, "\\|"@)),
    decreases s.len() - i,
{
    reveal_strlit("|");
    reveal_strlit("\\|");
    if i < s.len() {
        lemma_escaped_from(s, i + 1);
        let rest = replace_from(s, i + 1, "|"@, "\\|"@);
        let whole = replace_from(s, i, "|"@, "\\|"@);
        assert(s.subrange(i, i + 1) =~= seq![s[i]]);
        if s[i] == '|' {
            assert(s.subrange(i, i + 1) =~= "|"@);
            assert(match_at(s, i, "|"@));
            assert(whole == "\\|"@ + rest);
            assert forall|k: int| 0 <= k < whole.len() && #[trigger] whole[k] == '|' implies k > 0
                && whole[k - 1] == '\\' by {
                if k >= 2 {
                    assert(whole[k] == rest[k - 2]);
                    assert(k - 2 > 0 && rest[k - 3] == '\\');
                    assert(whole[k - 1] == rest[k - 3]);
                }
            }
        } else {
            assert(!match_at(s, i, "|"@)) by {
                if match_at(s, i, "|"@) {
                    assert(s.subrange(i, i + 1)[0] == "|"@[0]);
                }
            }
            assert(whole == seq![s[i]] + rest);
            assert forall|k: int| 0 <= k < whole.len() && #[trigger] whole[k] == '|' implies k > 0
                && whole[k - 1] == '\\' by {
                if k >= 1 {
                    assert(whole[k] == rest[k - 1]);
                    assert(k - 1 > 0 && rest[k - 2] == '\\');
                    assert(whole[k - 1] == rest[k - 2]);
                }
            }
        }
    }
}

/// Replacing line breaks by spaces changes nothing else.
proof fn lemma_unbroken_from(s: Seq<char>, i: int)
    requires
        0 <= i <= s.len(),
    ensures
        replace_from(s, i, "\n"@, " "@) == Seq::new(
            (s.len() - i) as nat,
            |k: int|
                if s[i + k] == '\n' {
                    ' '
                } else {
                    s[i + k]
                },
        ),
    decreases s.len() - i,
{
    reveal_strlit("\n");
    reveal_strlit(" ");
    let want = Seq::new(
        (s.len() - i) as nat,
        |k: int|
            if s[i + k] == '\n' {
                ' '
            } else {
                s[i + k]
            },
    );
    if i < s.len() {
        lemma_unbroken_from(s, i + 1);
        let rest = replace_from(s, i + 1, "\n"@, " "@);
        assert(s.subrange(i, i + 1) =~= seq![s[i]]);
        if s[i] == '\n' {
            assert(s.subrange(i, i + 1) =~= "\n"@);
            assert(match_at(s, i, "\n"@));
            assert(" "@ + rest =~= want);
        } else {
            assert(!match_at(s, i, "\n"@)) by {
                if match_at(s, i, "\n"@) {
                    assert(s.subrange(i, i + 1)[0] == "\n"@[0]);
                }
            }
            assert(seq![s[i]] + rest =~= want);
        }
    } else {
        assert(replace_from(s, i, "\n"@, " "@) =~= want);
    }
}

/// Text in a table cell ends neither the cell nor the row: every pipe in it is
/// escaped, and it holds no line break.
pub proof fn law_cell_text_stays_in_its_cell(s: Seq<char>)
    ensures
        pipes_escaped(cell_text(s)),
        !cell_text(s).contains('\n'),
{
    let a = replace(s, "|"@, "\\|"@);
    lemma_escaped_from(s, 0);
    lemma_unbroken_from(a, 0);
    let b = cell_text(s);
    assert(b.len() == a.len());
    assert forall|k: int| 0 <= k < b.len() && #[trigger] b[k] == '|' implies k > 0 && b[k - 1]
        == '\\' by {
        assert(a[k] == '|');
        assert(a[k - 1] == '\\');
    }
}

// --------------------------------------------------------- what is shown --

pub(crate) proof fn lemma_grown(x: Seq<char>, y: Seq<char>)
    ensures
        forall|p: Seq<char>| #[trigger] holds(x + y, p) <== holds(x, p) || holds(y, p),
{
    assert forall|p: Seq<char>| holds(x, p) || holds(y, p) implies #[trigger] holds(x + y, p) by {
        if holds(x, p) {
            let i = choose|i: int| match_at(x, i, p);
            assert((x + y).subrange(i, i + p.len()) =~= x.subrange(i, i + p.len()));
            assert(match_at(x + y, i, p));
        } else {
            let i = choose|i: int| match_at(y, i, p);
            let j = x.len() + i;
            assert((x + y).subrange(j, j + p.len()) =~= y.subrange(i, i + p.len()));
            assert(match_at(x + y, j, p));
        }
    }
}

pub(crate) proof fn lemma_holds_itself(p: Seq<char>)
    ensures
        holds(p, p),
{
    assert(p.subrange(0, p.len() as int) =~= p);
    assert(match_at(p, 0, p));
}

/// A number and its label stand side by side.
pub(crate) proof fn lemma_labelled(x: Seq<char>, number: Seq<char>, label: Seq<char>)
    ensures
        holds(x + number + label, number + label),
        forall|p: Seq<char>| #[trigger] holds(x + number + label, p) <== holds(x, p),
{
    assert(x + number + label =~= x + (number + label));
    lemma_holds_itself(number + label);
    lemma_grown(x, number + label);
}

/// The line of statistics names every count by what it counts, and what is turned away,
/// marked or followed is named as soon as there is any.
#[verifier::rlimit(40)]
pub proof fn law_statistics_are_labelled(st: Stats)
    ensures
        ({
            let t = stats_text(st);
            &&& holds(t, decimal(st.rounds as nat) + " round(s), "@)
            &&& holds(t, decimal(st.queries_issued as nat) + " queries, "@)
            &&& holds(t, decimal(st.pages_fetched as nat) + " pages, "@)
            &&& holds(t, decimal(st.chunks_examined as nat) + " chunks in "@)
            &&& holds(t, st.elapsed_secs.text@ + "s. Jev: "@)
            &&& holds(t, decimal(st.jev_requests as nat) + " requests, "@)
            &&& holds(t, decimal(st.jev_input_tokens as nat) + " tokens, $"@)
            &&& holds(t, st.jev_cost_usd.text@ + ". LLM: "@)
            &&& holds(t, decimal(st.llm_requests as nat) + " requests, "@)
            &&& holds(t, decimal(st.llm_prompt_tokens as nat) + " prompt + "@)
            &&& holds(t, decimal(st.llm_completion_tokens as nat) + " completion tokens."@)
        }),
        st.rejected_ungrounded > 0 || st.quarantined > 0 ==> holds(
            stats_text(st),
            decimal(st.rejected_ungrounded as nat) + " ungrounded record(s); quarantined "@,
        ) && holds(stats_text(st), decimal(st.quarantined as nat) + " passage(s)."@),
        st.unsupported_claims > 0 ==> holds(
            stats_text(st),
            decimal(st.unsupported_claims as nat) + " of "@,
        ) && holds(stats_text(st), decimal(st.claims_checked as nat)
            + " answer claim(s) unsupported by the evidence and marked in the text."@),
        st.entities_discovered > 0 || st.entities_enriched > 0 || st.links_followed > 0 ==> holds(
            stats_text(st),
            decimal(st.entities_discovered as nat) + " discovered"@,
        ),
        st.entities_enriched > 0 ==> holds(
            stats_text(st),
            ", "@ + decimal(st.entities_enriched as nat) + " enriched"@,
        ),
        st.links_followed > 0 ==> holds(
            stats_text(st),
            ". Links followed: "@ + decimal(st.links_followed as nat),
        ),
{
    lemma_basic_labels(st);
    lemma_extra_labels(st);
    lemma_grown(basic_stats(st), rejected_stats(st));
    lemma_grown(basic_stats(st) + rejected_stats(st), claim_stats(st));
    lemma_grown(basic_stats(st) + rejected_stats(st) + claim_stats(st), entity_stats(st));
}

#[verifier::rlimit(40)]
proof fn lemma_basic_labels(st: Stats)
    ensures
        ({
            let t = basic_stats(st);
            &&& holds(t, decimal(st.rounds as nat) + " round(s), "@)
            &&& holds(t, decimal(st.queries_issued as nat) + " queries, "@)
            &&& holds(t, decimal(st.pages_fetched as nat) + " pages, "@)
            &&& holds(t, decimal(st.chunks_examined as nat) + " chunks in "@)
            &&& holds(t, st.elapsed_secs.text@ + "s. Jev: "@)
            &&& holds(t, decimal(st.jev_requests as nat) + " requests, "@)
            &&& holds(t, decimal(st.jev_input_tokens as nat) + " tokens, $"@)
            &&& holds(t, st.jev_cost_usd.text@ + ". LLM: "@)
            &&& holds(t, decimal(st.llm_requests as nat) + " requests, "@)
            &&& holds(t, decimal(st.llm_prompt_tokens as nat) + " prompt + "@)
            &&& holds(t, decimal(st.llm_completion_tokens as nat) + " completion tokens."@)
        }),
{
    let a = decimal(st.rounds as nat) + " round(s), "@;
    lemma_holds_itself(a);
    let b = a + decimal(st.queries_issued as nat) + " queries, "@;
    lemma_labelled(a, decimal(st.queries_issued as nat), " queries, "@);
    let c = b + decimal(st.pages_fetched as nat) + " pages, "@;
    lemma_labelled(b, decimal(st.pages_fetched as nat), " pages, "@);
    let d = c + decimal(st.chunks_examined as nat) + " chunks in "@;
    lemma_labelled(c, decimal(st.chunks_examined as nat), " chunks in "@);
    let e = d + st.elapsed_secs.text@ + "s. Jev: "@;
    lemma_labelled(d, st.elapsed_secs.text@, "s. Jev: "@);
    let f = e + decimal(st.jev_requests as nat) + " requests, "@;
    lemma_labelled(e, decimal(st.jev_requests as nat), " requests, "@);
    let g = f + decimal(st.jev_input_tokens as nat) + " tokens, $"@;
    lemma_labelled(f, decimal(st.jev_input_tokens as nat), " tokens, $"@);
    let h = g + st.jev_cost_usd.text@ + ". LLM: "@;
    lemma_labelled(g, st.jev_cost_usd.text@, ". LLM: "@);
    let i = h + decimal(st.llm_requests as nat) + " requests, "@;
    lemma_labelled(h, decimal(st.llm_requests as nat), " requests, "@);
    let j = i + decimal(st.llm_prompt_tokens as nat) + " prompt + "@;
    lemma_labelled(i, decimal(st.llm_prompt_tokens as nat), " prompt + "@);
    let k = j + decimal(st.llm_completion_tokens as nat) + " completion tokens."@;
    lemma_labelled(j, decimal(st.llm_completion_tokens as nat), " completion tokens."@);
    assert(k == basic_stats(st));
}

#[verifier::rlimit(40)]
proof fn lemma_extra_labels(st: Stats)
    ensures
        st.rejected_ungrounded > 0 || st.quarantined > 0 ==> holds(
            rejected_stats(st),
            decimal(st.rejected_ungrounded as nat) + " ungrounded record(s); quarantined "@,
        ) && holds(rejected_stats(st), decimal(st.quarantined as nat) + " passage(s)."@),
        st.unsupported_claims > 0 ==> holds(
            claim_stats(st),
            decimal(st.unsupported_claims as nat) + " of "@,
        ) && holds(claim_stats(st), decimal(st.claims_checked as nat)
            + " answer claim(s) unsupported by the evidence and marked in the text."@),
        st.entities_discovered > 0 || st.entities_enriched > 0 || st.links_followed > 0 ==> holds(
            entity_stats(st),
            decimal(st.entities_discovered as nat) + " discovered"@,
        ),
        st.entities_enriched > 0 ==> holds(
            entity_stats(st),
            ", "@ + decimal(st.entities_enriched as nat) + " enriched"@,
        ),
        st.links_followed > 0 ==> holds(
            entity_stats(st),
            ". Links followed: "@ + decimal(st.links_followed as nat),
        ),
{
    let a = " Rejected "@ + decimal(st.rejected_ungrounded as nat)
        + " ungrounded record(s); quarantined "@;
    lemma_labelled(
        " Rejected "@,
        decimal(st.rejected_ungrounded as nat),
        " ungrounded record(s); quarantined "@,
    );
    lemma_labelled(a, decimal(st.quarantined as nat), " passage(s)."@);
    let b = " "@ + decimal(st.unsupported_claims as nat) + " of "@;
    lemma_labelled(" "@, decimal(st.unsupported_claims as nat), " of "@);
    lemma_labelled(
        b,
        decimal(st.claims_checked as nat),
        " answer claim(s) unsupported by the evidence and marked in the text."@,
    );
    let c = " Entities: "@ + decimal(st.entities_discovered as nat) + " discovered"@;
    lemma_labelled(" Entities: "@, decimal(st.entities_discovered as nat), " discovered"@);
    let enriched = counted(", "@, st.entities_enriched, " enriched"@);
    let followed = counted(". Links followed: "@, st.links_followed, ""@);
    let searched = counted(". Enrich searches: "@, st.enrich_searches, ""@);
    lemma_holds_itself(", "@ + decimal(st.entities_enriched as nat) + " enriched"@);
    lemma_holds_itself(". Links followed: "@ + decimal(st.links_followed as nat));
    reveal_strlit("");
    assert(st.links_followed > 0 ==> followed =~= ". Links followed: "@ + decimal(
        st.links_followed as nat,
    ));
    lemma_grown(c, enriched);
    lemma_grown(c + enriched, followed);
    lemma_grown(c + enriched + followed, searched);
    lemma_grown(c + enriched + followed + searched, "."@);
}

proof fn lemma_each_holds(
    pre: Seq<char>,
    items: Seq<Seq<char>>,
    post: Seq<char>,
    n: int,
    k: int,
)
    requires
        0 <= k < n <= items.len(),
    ensures
        holds(each(pre, items, post, n), pre + items[k] + post),
    decreases n,
{
    let before = each(pre, items, post, n - 1);
    lemma_grown(before, pre + items[n - 1] + post);
    if k == n - 1 {
        lemma_holds_itself(pre + items[k] + post);
    } else {
        lemma_each_holds(pre, items, post, n - 1, k);
    }
}

proof fn lemma_md_sources_hold(evidence: Seq<Passage>, n: int, k: int)
    requires
        0 <= k < n <= evidence.len(),
    ensures
        holds(
            md_sources(evidence, n),
            decimal((k + 1) as nat) + ". ["@ + evidence[k].title@ + "]("@ + evidence[k].url@
                + ") — supports "@ + evidence[k].supports.text@ + "\n"@,
        ),
    decreases n,
{
    lemma_grown(md_sources(evidence, n - 1), md_source(n as nat, evidence[n - 1]));
    if k == n - 1 {
        lemma_holds_itself(md_source(n as nat, evidence[k]));
    } else {
        lemma_md_sources_hold(evidence, n - 1, k);
    }
}

proof fn lemma_term_sources_hold(evidence: Seq<Passage>, n: int, k: int)
    requires
        0 <= k < n <= evidence.len(),
    ensures
        holds(
            term_sources(evidence, n),
            "  ["@ + decimal((k + 1) as nat) + "] "@ + evidence[k].url@ + "\n"@,
        ),
    decreases n,
{
    let line = "  ["@ + decimal(n as nat) + "] "@ + evidence[n - 1].url@ + "\n"@;
    lemma_grown(term_sources(evidence, n - 1), line);
    if k == n - 1 {
        lemma_holds_itself(line);
    } else {
        lemma_term_sources_hold(evidence, n - 1, k);
    }
}

/// The parts of a Markdown report: whatever its body, its quarantined pages, its notes and
/// its statistics say, the report says.
#[verifier::rlimit(40)]
proof fn lemma_markdown_parts(report: ScoutReport)
    ensures
        forall|p: Seq<char>| #[trigger]
            holds(markdown(report), p) <== holds(md_body(report), p) || holds(
                md_quarantined(views(report.quarantined_sources@)),
                p,
            ) || holds(md_notes(views(report.notes@)), p) || holds(stats_text(report.stats), p)
                || holds("# "@ + report.query@ + "\n\n**"@ + loud(report.outcome) + "** — "@ + meaning(
                report,
            ) + "\n\n"@, p),
{
    let a = "# "@ + report.query@ + "\n\n**"@ + loud(report.outcome) + "** — "@ + meaning(report)
        + "\n\n"@;
    let b = a + md_body(report);
    lemma_grown(a, md_body(report));
    let c = b + md_quarantined(views(report.quarantined_sources@));
    lemma_grown(b, md_quarantined(views(report.quarantined_sources@)));
    let d = c + md_notes(views(report.notes@));
    lemma_grown(c, md_notes(views(report.notes@)));
    lemma_grown(d, "---\n\n"@);
    lemma_grown(d + "---\n\n"@, stats_text(report.stats));
    lemma_grown(d + "---\n\n"@ + stats_text(report.stats), "\n"@);
}

#[verifier::rlimit(40)]
proof fn lemma_terminal_parts(report: ScoutReport)
    ensures
        forall|p: Seq<char>| #[trigger]
            holds(terminal(report), p) <== holds(term_body(report), p) || holds(
                term_quarantined(views(report.quarantined_sources@)),
                p,
            ) || holds(term_notes(views(report.notes@)), p) || holds(stats_text(report.stats), p)
                || holds(loud(report.outcome) + ": "@ + meaning(report) + "\n\n"@, p),
{
    let z = "\n"@ + copies("="@, 78) + "\n"@ + report.query@ + "\n"@ + copies("="@, 78) + "\n"@;
    let h = loud(report.outcome) + ": "@ + meaning(report) + "\n\n"@;
    let a = z + loud(report.outcome) + ": "@ + meaning(report) + "\n\n"@;
    assert(a =~= z + h);
    lemma_grown(z, h);
    let b = a + term_body(report);
    lemma_grown(a, term_body(report));
    let c = b + term_quarantined(views(report.quarantined_sources@));
    lemma_grown(b, term_quarantined(views(report.quarantined_sources@)));
    let d = c + term_notes(views(report.notes@));
    lemma_grown(c, term_notes(views(report.notes@)));
    lemma_grown(d, "\n"@);
    lemma_grown(d + "\n"@, copies("-"@, 78));
    lemma_grown(d + "\n"@ + copies("-"@, 78), "\n"@);
    lemma_grown(d + "\n"@ + copies("-"@, 78) + "\n"@, stats_text(report.stats));
    lemma_grown(d + "\n"@ + copies("-"@, 78) + "\n"@ + stats_text(report.stats), "\n"@);
}

/// Read as Markdown or on a terminal, an answer is shown whole, with every source under the
/// number by which the answer cites it.
#[verifier::rlimit(40)]
pub proof fn law_an_answer_is_shown_with_its_sources(report: ScoutReport, k: int)
    requires
        report.mission.kind != MissionKind::Harvest,
        0 <= k < report.evidence@.len(),
    ensures
        report.answer matches Some(a) ==> holds(markdown(report), a@) && holds(
            terminal(report),
            a@,
        ),
        holds(
            markdown(report),
            decimal((k + 1) as nat) + ". ["@ + report.evidence@[k].title@ + "]("@
                + report.evidence@[k].url@ + ") — supports "@ + report.evidence@[k].supports.text@
                + "\n"@,
        ),
        holds(
            terminal(report),
            "  ["@ + decimal((k + 1) as nat) + "] "@ + report.evidence@[k].url@ + "\n"@,
        ),
{
    let n = report.evidence@.len() as int;
    lemma_markdown_parts(report);
    lemma_terminal_parts(report);
    lemma_md_sources_hold(report.evidence@, n, k);
    lemma_term_sources_hold(report.evidence@, n, k);
    let sources = md_sources(report.evidence@, n);
    lemma_grown("## Sources\n\n"@, sources);
    lemma_grown("## Sources\n\n"@ + sources, "\n"@);
    lemma_grown(answer_text(report.answer), "## Sources\n\n"@ + sources + "\n"@);
    lemma_grown("Sources:\n"@, term_sources(report.evidence@, n));
    lemma_grown(answer_text(report.answer), "Sources:\n"@ + term_sources(report.evidence@, n));
    match report.answer {
        Some(a) => {
            lemma_holds_itself(a@);
            lemma_grown(a@, "\n\n"@);
        },
        None => {},
    }
}

proof fn lemma_quarantined_hold(urls: Seq<Seq<char>>, k: int)
    requires
        0 <= k < urls.len(),
    ensures
        holds(md_quarantined(urls), "- <"@ + urls[k] + ">\n"@),
        holds(term_quarantined(urls), "   "@ + urls[k] + "\n"@),
{
    let n = urls.len() as int;
    lemma_each_holds("- <"@, urls, ">\n"@, n, k);
    lemma_each_holds("   "@, urls, "\n"@, n, k);
    let head =
        "## Quarantined\n\nThese pages contained text addressed to an AI reader. They were kept away from the generative model and contributed nothing.\n\n"@;
    lemma_grown(head, each("- <"@, urls, ">\n"@, n));
    lemma_grown(head + each("- <"@, urls, ">\n"@, n), "\n"@);
    let warned = "\n!! "@ + decimal(urls.len())
        + " page(s) tried to address the model and were quarantined:\n"@;
    lemma_grown(warned, each("   "@, urls, "\n"@, n));
}

proof fn lemma_notes_hold(notes: Seq<Seq<char>>, k: int)
    requires
        0 <= k < notes.len(),
    ensures
        holds(md_notes(notes), "- "@ + notes[k] + "\n"@),
        holds(term_notes(notes), "  - "@ + notes[k] + "\n"@),
{
    let n = notes.len() as int;
    lemma_each_holds("- "@, notes, "\n"@, n, k);
    lemma_each_holds("  - "@, notes, "\n"@, n, k);
    lemma_grown("## Notes\n\n"@, each("- "@, notes, "\n"@, n));
    lemma_grown("## Notes\n\n"@ + each("- "@, notes, "\n"@, n), "\n"@);
    lemma_grown("\nNotes:\n"@, each("  - "@, notes, "\n"@, n));
}

#[verifier::rlimit(40)]
proof fn lemma_outcome_shown(q: Seq<char>, l: Seq<char>, m: Seq<char>)
    ensures
        holds(q + "\n\n**"@ + l + "** — "@ + m + "\n\n"@, "**"@ + l + "** — "@ + m),
        holds(l + ": "@ + m + "\n\n"@, l + ": "@ + m),
{
    let t = "**"@ + l + "** — "@ + m;
    let head = q + "\n\n"@;
    assert(q + "\n\n**"@ == head + "**"@) by {
        reveal_strlit("\n\n**");
        reveal_strlit("\n\n");
        reveal_strlit("**");
        assert(q + "\n\n**"@ =~= head + "**"@);
    }
    lemma_regroup(head, "**"@, l, "** — "@, m);
    assert(holds(head + t + "\n\n"@, t)) by {
        lemma_holds_itself(t);
        lemma_grown(head, t);
        lemma_grown(head + t, "\n\n"@);
    }
    assert(holds(l + ": "@ + m + "\n\n"@, l + ": "@ + m)) by {
        lemma_holds_itself(l + ": "@ + m);
        lemma_grown(l + ": "@ + m, "\n\n"@);
    }
}

/// Read as Markdown or on a terminal, a report names every page that was kept away from the
/// model, every note, its outcome and what that means, and its statistics.
#[verifier::rlimit(40)]
pub proof fn law_a_report_hides_nothing(report: ScoutReport)
    ensures
        forall|k: int|
            0 <= k < report.quarantined_sources@.len() ==> holds(
                markdown(report),
                "- <"@ + (#[trigger] report.quarantined_sources@[k])@ + ">\n"@,
            ) && holds(terminal(report), "   "@ + report.quarantined_sources@[k]@ + "\n"@),
        forall|k: int|
            0 <= k < report.notes@.len() ==> holds(
                markdown(report),
                "- "@ + (#[trigger] report.notes@[k])@ + "\n"@,
            ) && holds(terminal(report), "  - "@ + report.notes@[k]@ + "\n"@),
        holds(markdown(report), stats_text(report.stats)),
        holds(terminal(report), stats_text(report.stats)),
        holds(markdown(report), "**"@ + loud(report.outcome) + "** — "@ + meaning(report)),
        holds(terminal(report), loud(report.outcome) + ": "@ + meaning(report)),
{
    lemma_markdown_parts(report);
    lemma_terminal_parts(report);
    lemma_holds_itself(stats_text(report.stats));
    let urls = views(report.quarantined_sources@);
    let notes = views(report.notes@);
    assert forall|k: int| 0 <= k < report.quarantined_sources@.len() implies holds(
        markdown(report),
        "- <"@ + (#[trigger] report.quarantined_sources@[k])@ + ">\n"@,
    ) && holds(terminal(report), "   "@ + report.quarantined_sources@[k]@ + "\n"@) by {
        assert(urls[k] == report.quarantined_sources@[k]@);
        lemma_quarantined_hold(urls, k);
    }
    assert forall|k: int| 0 <= k < report.notes@.len() implies holds(
        markdown(report),
        "- "@ + (#[trigger] report.notes@[k])@ + "\n"@,
    ) && holds(terminal(report), "  - "@ + report.notes@[k]@ + "\n"@) by {
        assert(notes[k] == report.notes@[k]@);
        lemma_notes_hold(notes, k);
    }
    lemma_outcome_shown("# "@ + report.query@, loud(report.outcome), meaning(report));
}

proof fn lemma_md_rows_hold(records: Seq<Record>, cols: Seq<Seq<char>>, n: int, k: int)
    requires
        0 <= k < n <= records.len(),
    ensures
        holds(md_rows(records, cols, n), md_row((k + 1) as nat, records[k], cols)),
    decreases n,
{
    lemma_grown(md_rows(records, cols, n - 1), md_row(n as nat, records[n - 1], cols));
    if k == n - 1 {
        lemma_holds_itself(md_row(n as nat, records[k], cols));
    } else {
        lemma_md_rows_hold(records, cols, n - 1, k);
    }
}

/// A harvest read as Markdown has a row for every record, by number: its cells are the
/// record's values in the order of the header, then a link to its page and its grounding.
#[verifier::rlimit(40)]
pub proof fn law_every_record_has_its_row(report: ScoutReport, k: int) -> (cells: Seq<Seq<char>>)
    requires
        report.mission.kind == MissionKind::Harvest,
        0 <= k < report.records@.len(),
    ensures
        cells.len() == column_names(report).len(),
        holds(markdown(report), md_header(column_names(report))),
        holds(
            markdown(report),
            "| "@ + decimal((k + 1) as nat) + " | "@ + join(cells, " | "@) + " | [link]("@
                + report.records@[k].source_url@ + ") | "@ + report.records@[k].grounding.text@
                + " |\n"@,
        ),
        forall|c: int, f: int|
            0 <= c < cells.len() && 0 <= f < report.records@[k].fields@.len() && (
            #[trigger] report.records@[k].fields@[f]).0@ == (#[trigger] column_names(report)[c])
                && (forall|j: int|
                0 <= j < f ==> (#[trigger] report.records@[k].fields@[j]).0@ != column_names(
                    report,
                )[c]) ==> cell_text(report.records@[k].fields@[f].1@).is_prefix_of(cells[c]),
{
    let r = report.records@[k];
    let cols = column_names(report);
    let n = report.records@.len() as int;
    let cells = md_cells(r, cols);
    lemma_markdown_parts(report);
    lemma_md_rows_hold(report.records@, cols, n, k);
    let rows = md_rows(report.records@, cols, n);
    lemma_holds_itself(md_header(cols));
    lemma_grown(md_header(cols), md_delimiter(cols));
    lemma_grown(md_header(cols) + md_delimiter(cols), rows);
    lemma_grown(md_header(cols) + md_delimiter(cols) + rows, "\n"@);
    assert forall|c: int, f: int|
        0 <= c < cells.len() && 0 <= f < r.fields@.len() && (#[trigger] r.fields@[f]).0@ == (
        #[trigger] cols[c]) && (forall|j: int|
            0 <= j < f ==> (#[trigger] r.fields@[j]).0@ != cols[c]) implies cell_text(
        r.fields@[f].1@,
    ).is_prefix_of(cells[c]) by {
        law_the_first_value_of_a_name_counts(r.fields@, cols[c], 0);
        assert(cells[c] == cell_text(field_value(r.fields@, cols[c], 0)) + cell_text(
            source_note(r, cols[c]),
        ));
    }
    cells
}

proof fn lemma_term_records_hold(records: Seq<Record>, cols: Seq<Seq<char>>, n: int, k: int)
    requires
        0 <= k < n <= records.len(),
    ensures
        forall|p: Seq<char>| #[trigger]
            holds(term_records(records, cols, n), p) <== holds(
                term_record((k + 1) as nat, records[k], cols),
                p,
            ),
    decreases n,
{
    lemma_grown(term_records(records, cols, n - 1), term_record(n as nat, records[n - 1], cols));
    if k < n - 1 {
        lemma_term_records_hold(records, cols, n - 1, k);
    }
}

proof fn lemma_shown_fields(r: Record, cols: Seq<Seq<char>>, n: int, c: int)
    requires
        0 <= c < n <= cols.len(),
        field_value(r.fields@, cols[c], 0).len() > 0,
    ensures
        shown_fields(r, cols, n).contains(
            cols[c] + ": "@ + field_value(r.fields@, cols[c], 0) + source_note(r, cols[c]),
        ),
    decreases n,
{
    let before = shown_fields(r, cols, n - 1);
    let now = shown_fields(r, cols, n);
    let item = cols[c] + ": "@ + field_value(r.fields@, cols[c], 0) + source_note(r, cols[c]);
    if c == n - 1 {
        assert(now[before.len() as int] == item);
    } else {
        lemma_shown_fields(r, cols, n - 1, c);
        let i = before.index_of(item);
        assert(now[i] == item);
    }
}

proof fn lemma_join_keeps(parts: Seq<Seq<char>>, sep: Seq<char>, k: int)
    requires
        0 <= k < parts.len(),
    ensures
        forall|p: Seq<char>| #[trigger] holds(join(parts, sep), p) <== holds(parts[k], p),
    decreases parts.len(),
{
    if parts.len() == 1 {
        assert(join(parts, sep) =~= parts[0]);
    } else {
        let head = parts.drop_last();
        lemma_grown(join(head, sep), sep);
        lemma_grown(join(head, sep) + sep, parts.last());
        if k < parts.len() - 1 {
            lemma_join_keeps(head, sep, k);
        }
    }
}

/// What one record says on a terminal.
#[verifier::rlimit(40)]
proof fn lemma_term_record_holds(n: nat, r: Record, cols: Seq<Seq<char>>, c: int)
    requires
        0 <= c < cols.len(),
        field_value(r.fields@, cols[c], 0).len() > 0,
    ensures
        holds(term_record(n, r, cols), cols[c] + ": "@ + field_value(r.fields@, cols[c], 0)),
        holds(
            term_record(n, r, cols),
            r.source_url@ + " (grounding "@ + r.grounding.text@ + ")\n"@,
        ),
{
    let shown = shown_fields(r, cols, cols.len() as int);
    let said = cols[c] + ": "@ + field_value(r.fields@, cols[c], 0);
    let item = said + source_note(r, cols[c]);
    lemma_shown_fields(r, cols, cols.len() as int, c);
    let i = shown.index_of(item);
    lemma_holds_itself(said);
    lemma_grown(said, source_note(r, cols[c]));
    lemma_join_keeps(shown, "  |  "@, i);
    lemma_term_shape(
        pad_left(decimal(n), 4, ' ') + ". "@,
        join(shown, "  |  "@),
        r.source_url@,
        r.grounding.text@,
    );
}

#[verifier::rlimit(40)]
proof fn lemma_term_shape(a: Seq<char>, listed: Seq<char>, url: Seq<char>, grounding: Seq<char>)
    ensures
        forall|p: Seq<char>| #[trigger]
            holds(a + listed + "\n      "@ + url + " (grounding "@ + grounding + ")\n"@, p)
                <== holds(listed, p),
        holds(
            a + listed + "\n      "@ + url + " (grounding "@ + grounding + ")\n"@,
            url + " (grounding "@ + grounding + ")\n"@,
        ),
{
    let e = a + listed + "\n      "@;
    let tail = url + " (grounding "@ + grounding + ")\n"@;
    lemma_regroup(e, url, " (grounding "@, grounding, ")\n"@);
    let whole = e + tail;
    assert(holds(whole, tail)) by {
        lemma_holds_itself(tail);
        lemma_grown(e, tail);
    }
    assert forall|p: Seq<char>| holds(listed, p) implies #[trigger] holds(whole, p) by {
        lemma_grown(a, listed);
        lemma_grown(a + listed, "\n      "@);
        lemma_grown(e, tail);
        assert(holds(a + listed, p));
        assert(holds(e, p));
    }
}

proof fn lemma_regroup(e: Seq<char>, u: Seq<char>, v: Seq<char>, w: Seq<char>, x: Seq<char>)
    ensures
        e + u + v + w + x == e + (u + v + w + x),
{
    assert(e + u + v + w + x =~= e + (u + v + w + x));
}

/// A harvest read on a terminal shows every record: each value that is not empty under its
/// name, and its page with its grounding.
#[verifier::rlimit(40)]
pub proof fn law_every_record_is_listed(report: ScoutReport, k: int, f: int)
    requires
        report.mission.kind == MissionKind::Harvest,
        0 <= k < report.records@.len(),
        0 <= f < report.records@[k].fields@.len(),
        report.records@[k].fields@[f].1@.len() > 0,
        forall|j: int|
            0 <= j < f ==> (#[trigger] report.records@[k].fields@[j]).0@
                != report.records@[k].fields@[f].0@,
    ensures
        holds(
            terminal(report),
            report.records@[k].fields@[f].0@ + ": "@ + report.records@[k].fields@[f].1@,
        ),
        holds(
            terminal(report),
            report.records@[k].source_url@ + " (grounding "@ + report.records@[k].grounding.text@
                + ")\n"@,
        ),
{
    let r = report.records@[k];
    let cols = column_names(report);
    let n = report.records@.len() as int;
    let name = r.fields@[f].0@;
    law_columns_follow_the_mission(report, name);
    assert(has_field(r.fields@, name, r.fields@.len() as int));
    assert(cols.contains(name));
    let c = cols.index_of(name);
    law_the_first_value_of_a_name_counts(r.fields@, name, 0);
    lemma_term_record_holds((k + 1) as nat, r, cols, c);
    lemma_term_records_hold(report.records@, cols, n, k);
    let total = "\n"@ + decimal(report.records@.len()) + " record(s) from "@ + decimal(
        report.sources@.len(),
    ) + " source(s).\n"@;
    lemma_grown(term_records(report.records@, cols, n), total);
    lemma_terminal_parts(report);
}

/// As JSON lines, every record of a harvest is a line, in order, and the summary is the last
/// line: one record more is one line more before the summary.
#[verifier::rlimit(40)]
pub proof fn law_every_record_is_a_line(p: Serialized, q: Serialized, x: Seq<char>)
    requires
        views(q.records@) == views(p.records@).push(x),
        q.summary@ == p.summary@,
    ensures
        jsonl(MissionKind::Harvest, q) == jsonl(MissionKind::Harvest, p).take(
            jsonl(MissionKind::Harvest, p).len() - p.summary@.len() - 1,
        ) + x + "\n"@ + p.summary@ + "\n"@,
        p.records@.len() == 0 ==> jsonl(MissionKind::Harvest, p) == p.summary@ + "\n"@,
{
    reveal_strlit("\n");
    reveal_strlit("");
    let a = views(p.records@);
    let b = views(q.records@);
    assert(a.len() == p.records@.len() && b.len() == q.records@.len());
    lemma_each_same(""@, a, b, "\n"@, a.len() as int);
    let body = each(""@, a, "\n"@, a.len() as int);
    let whole = jsonl(MissionKind::Harvest, p);
    assert(whole.take(whole.len() - p.summary@.len() - 1) =~= body);
    assert(b[a.len() as int] == x);
    assert(jsonl(MissionKind::Harvest, q) =~= body + (""@ + x + "\n"@) + (q.summary@ + "\n"@));
    assert(jsonl(MissionKind::Harvest, q) =~= body + x + "\n"@ + p.summary@ + "\n"@);
}

proof fn lemma_each_same(
    pre: Seq<char>,
    a: Seq<Seq<char>>,
    b: Seq<Seq<char>>,
    post: Seq<char>,
    n: int,
)
    requires
        n <= a.len() <= b.len(),
        forall|i: int| 0 <= i < a.len() ==> #[trigger] a[i] == b[i],
    ensures
        each(pre, a, post, n) == each(pre, b, post, n),
    decreases n,
{
    if n > 0 {
        lemma_each_same(pre, a, b, post, n - 1);
        assert(a[n - 1] == b[n - 1]);
    }
}

/// As JSON lines, an answer is the first line, its evidence follows line by line, and the
/// summary is the last line.
#[verifier::rlimit(40)]
pub proof fn law_an_answer_comes_before_its_evidence(p: Serialized, k: int)
    requires
        0 <= k < p.evidence@.len(),
    ensures
        p.answer matches Some(a) ==> (a@ + "\n"@).is_prefix_of(jsonl(MissionKind::Answer, p)),
        holds(jsonl(MissionKind::Answer, p), p.evidence@[k]@ + "\n"@),
        ends(jsonl(MissionKind::Answer, p), p.summary@ + "\n"@),
{
    reveal_strlit("");
    let e = views(p.evidence@);
    assert(e[k] == p.evidence@[k]@);
    let lines = each(""@, e, "\n"@, e.len() as int);
    lemma_each_holds(""@, e, "\n"@, e.len() as int, k);
    assert(""@ + e[k] + "\n"@ =~= p.evidence@[k]@ + "\n"@);
    let a = match p.answer {
        Some(a) => a@ + "\n"@,
        None => ""@,
    };
    let s = p.summary@ + "\n"@;
    lemma_grown(a, lines);
    lemma_grown(a + lines, s);
    let whole = jsonl(MissionKind::Answer, p);
    assert(whole == (a + lines) + s);
    assert(whole.subrange(whole.len() - s.len(), whole.len() as int) =~= s);
    assert(whole.take(a.len() as int) =~= a);
}

/// The outcomes are told apart by their labels, and a harvest says how many records it found,
/// next to how many were asked for where it fell short.
#[verifier::rlimit(40)]
pub proof fn law_outcomes_are_told_apart(a: Outcome, b: Outcome, report: ScoutReport)
    ensures
        loud(a) == loud(b) ==> a == b,
        report.mission.kind == MissionKind::Harvest && report.outcome == Outcome::Complete
            ==> holds(meaning(report), decimal(report.records@.len()) + " verified records"@),
        report.mission.kind == MissionKind::Harvest && report.outcome == Outcome::Partial
            ==> holds(meaning(report), decimal(report.records@.len()) + " of the "@) && (
        report.mission.target_count matches Some(n) ==> holds(
            meaning(report),
            decimal(n as nat) + " requested; the reachable web ran out first"@,
        )),
        report.outcome == Outcome::Truncated ==> holds(
            meaning(report),
            decimal(report.records@.len()) + " records and more still appearing"@,
        ),
{
    reveal_strlit("COMPLETE");
    reveal_strlit("PARTIAL");
    reveal_strlit("TRUNCATED");
    reveal_strlit("EMPTY");
    assert("COMPLETE"@[0] == 'C' && "PARTIAL"@[0] == 'P' && "TRUNCATED"@[0] == 'T' && "EMPTY"@[0]
        == 'E');
    let found = decimal(report.records@.len());
    lemma_labelled("collected "@, found, " verified records"@);
    lemma_labelled("found "@, found, " of the "@);
    lemma_labelled("stopped at the round ceiling with "@, found, " records and more still appearing"@);
    let head = "found "@ + found + " of the "@;
    let wanted = decimal(or_zero(report.mission.target_count) as nat);
    lemma_labelled(head, wanted, " requested; the reachable web ran out first"@);
}

} // verus!
