//! The statements the explorer sends to the database, and what it reads
//! back from it: the stored columns of a table and its range of years.

use crate::cli::{column_id_cuttable, record_views, Table, TableRecord, TableVersion};
use crate::sort::{is_stable_sort, sort_records};
use crate::text::{
    bytes,
    chars_of,
    replace_all,
    replace_chars,
    same_chars,
    split_chars,
    split_on,
    string_of,
    trim,
    trim_exec,
    views,
};
use vstd::prelude::*;
use vstd::string::{StringExecFns, StringSliceAdditionalSpecFns};

verus! {

// ---------------------------------------------------------------------
// Statements
// ---------------------------------------------------------------------

/// `schema."table"`: where a table is stored.
pub open spec fn qualified(schema: Seq<char>, table_id: Seq<char>) -> Seq<char> {
    schema + ".\""@ + table_id + "\""@
}

/// The statement that creates the schema unless it exists.
pub open spec fn schema_statement(schema: Seq<char>) -> Seq<char> {
    "CREATE SCHEMA IF NOT EXISTS "@ + schema
}

/// The statement that creates the table of a table id.
pub open spec fn create_statement(schema: Seq<char>, table_id: Seq<char>) -> Seq<char> {
    "CREATE TABLE "@ + qualified(schema, table_id) + " (column_id TEXT, column_name TEXT)"@
}

/// The statement that reads the stored rows of a table.
pub open spec fn select_statement(schema: Seq<char>, table_id: Seq<char>) -> Seq<char> {
    "SELECT column_id, column_name FROM "@ + qualified(schema, table_id)
}

/// The statement that stores one row: a column id and a column name.
pub open spec fn insert_statement(
    schema: Seq<char>,
    table_id: Seq<char>,
    column_id: Seq<char>,
    column_name: Seq<char>,
) -> Seq<char> {
    "INSERT INTO "@ + qualified(schema, table_id) + " (column_id, column_name) VALUES('"@
        + column_id + "', '"@ + column_name + "')"@
}

/// The statement that sets the stored value of the row `bound`
/// (`min_year` or `max_year`) to a year.
pub open spec fn update_statement(
    schema: Seq<char>,
    table_id: Seq<char>,
    year: Seq<char>,
    bound: Seq<char>,
) -> Seq<char> {
    "UPDATE "@ + qualified(schema, table_id) + " set column_name="@ + year
        + " where column_id='"@ + bound + "'"@
}

/// Appends `schema."table"`.
fn push_qualified(out: &mut String, schema: &str, table_id: &str)
    ensures
        final(out)@ == old(out)@ + qualified(schema@, table_id@),
{
    out.append(schema);
    out.append(".\"");
    out.append(table_id);
    out.append("\"");
    assert(final(out)@ =~= old(out)@ + qualified(schema@, table_id@));
}

/// The statement that creates the schema unless it exists.
pub fn schema_query(schema: &str) -> (q: String)
    ensures
        q@ == schema_statement(schema@),
{
    let mut q = "CREATE SCHEMA IF NOT EXISTS ".to_owned();
    q.append(schema);
    q
}

/// The statement that creates the table of a table id.
pub fn create_table_query(schema: &str, table_id: &str) -> (q: String)
    ensures
        q@ == create_statement(schema@, table_id@),
{
    let mut q = "CREATE TABLE ".to_owned();
    push_qualified(&mut q, schema, table_id);
    q.append(" (column_id TEXT, column_name TEXT)");
    assert(q@ =~= create_statement(schema@, table_id@));
    q
}

/// The statement that reads the stored rows of a table.
pub fn select_query(schema: &str, table_id: &str) -> (q: String)
    ensures
        q@ == select_statement(schema@, table_id@),
{
    let mut q = "SELECT column_id, column_name FROM ".to_owned();
    push_qualified(&mut q, schema, table_id);
    assert(q@ =~= select_statement(schema@, table_id@));
    q
}

/// The statement that stores one row.
pub fn insert_query(schema: &str, table_id: &str, column_id: &str, column_name: &str) -> (q:
    String)
    ensures
        q@ == insert_statement(schema@, table_id@, column_id@, column_name@),
{
    let mut q = "INSERT INTO ".to_owned();
    push_qualified(&mut q, schema, table_id);
    q.append(" (column_id, column_name) VALUES('");
    q.append(column_id);
    q.append("', '");
    q.append(column_name);
    q.append("')");
    assert(q@ =~= insert_statement(schema@, table_id@, column_id@, column_name@));
    q
}

/// The statements that store a table: its year as the first (`min_year`)
/// and the last (`max_year`) year, then one row per column, in order.
pub fn insert_queries(schema: &str, table: &Table) -> (qs: Vec<String>)
    ensures
        qs.len() == table.record.len() + 2,
        qs@[0]@ == insert_statement(schema@, table.table_id@, "min_year"@, table.year@),
        qs@[1]@ == insert_statement(schema@, table.table_id@, "max_year"@, table.year@),
        forall|i: int|
            0 <= i < table.record.len() ==> (#[trigger] qs@[i + 2])@ == insert_statement(
                schema@,
                table.table_id@,
                table.record@[i].column_id@,
                table.record@[i].label@,
            ),
{
    let mut qs: Vec<String> = Vec::new();
    let id = table.table_id.as_str();
    qs.push(insert_query(schema, id, "min_year", table.year.as_str()));
    qs.push(insert_query(schema, id, "max_year", table.year.as_str()));
    let n = table.record.len();
    for i in 0..n
        invariant
            n == table.record.len(),
            id@ == table.table_id@,
            qs.len() == i + 2,
            qs@[0]@ == insert_statement(schema@, table.table_id@, "min_year"@, table.year@),
            qs@[1]@ == insert_statement(schema@, table.table_id@, "max_year"@, table.year@),
            forall|t: int|
                0 <= t < i ==> (#[trigger] qs@[t + 2])@ == insert_statement(
                    schema@,
                    table.table_id@,
                    table.record@[t].column_id@,
                    table.record@[t].label@,
                ),
    {
        let r = &table.record[i];
        qs.push(insert_query(schema, id, r.column_id.as_str(), r.label.as_str()));
    }
    qs
}

/// The statement that sets the stored first (`min`) or last year of a
/// table to the table's year.
pub fn update_query(schema: &str, table: &Table, min: bool) -> (q: String)
    ensures
        q@ == update_statement(
            schema@,
            table.table_id@,
            table.year@,
            if min {
                "min_year"@
            } else {
                "max_year"@
            },
        ),
{
    let mut q = "UPDATE ".to_owned();
    push_qualified(&mut q, schema, table.table_id.as_str());
    q.append(" set column_name=");
    q.append(table.year.as_str());
    q.append(" where column_id='");
    if min {
        q.append("min_year");
    } else {
        q.append("max_year");
    }
    q.append("'");
    assert(q@ =~= update_statement(
        schema@,
        table.table_id@,
        table.year@,
        if min {
            "min_year"@
        } else {
            "max_year"@
        },
    ));
    q
}

// ---------------------------------------------------------------------
// Numbers
// ---------------------------------------------------------------------

/// A decimal digit.
pub open spec fn is_digit(c: char) -> bool {
    '0' <= c && c <= '9'
}

/// The value of a sequence of decimal digits.
pub open spec fn digits_value(s: Seq<char>) -> int
    decreases s.len(),
{
    if s.len() == 0 {
        0
    } else {
        digits_value(s.drop_last()) * 10 + (s.last() as int - 48)
    }
}

/// Every character is a decimal digit.
pub open spec fn all_digits(s: Seq<char>) -> bool {
    forall|i: int| 0 <= i < s.len() ==> is_digit(#[trigger] s[i])
}

/// A text without its leading sign, if it has one.
pub open spec fn unsigned_part(s: Seq<char>) -> Seq<char> {
    if s.len() > 0 && (s[0] == '-' || s[0] == '+') {
        s.drop_first()
    } else {
        s
    }
}

/// The `i32` that a text denotes (`str::parse::<i32>`): an optional sign
/// and at least one decimal digit, of a value within the range of `i32`.
pub open spec fn parse_int(s: Seq<char>) -> Option<int> {
    let ds = unsigned_part(s);
    if ds.len() == 0 || !all_digits(ds) {
        None
    } else {
        let v = if s[0] == '-' {
            -digits_value(ds)
        } else {
            digits_value(ds)
        };
        if i32::MIN <= v <= i32::MAX {
            Some(v)
        } else {
            None
        }
    }
}

/// One more digit of a value kept below a cap.
proof fn lemma_capped_step(acc: int, v: int, d: int)
    requires
        0 <= d <= 9,
        v >= 0,
        acc == if v < 2147483649 {
            v
        } else {
            2147483649
        },
    ensures
        v * 10 + d >= 0,
        (if acc >= 2147483649 {
            2147483649
        } else if acc * 10 + d < 2147483649 {
            acc * 10 + d
        } else {
            2147483649
        }) == if v * 10 + d < 2147483649 {
            v * 10 + d
        } else {
            2147483649
        },
{
}

/// The `i32` that a text denotes, if any.
pub fn parse_i32(s: &Vec<char>) -> (r: Option<i32>)
    ensures
        match r {
            Some(v) => parse_int(s@) == Some(v as int),
            None => parse_int(s@) is None,
        },
{
    if s.len() == 0 {
        return None;
    }
    let signed = s[0] == '-' || s[0] == '+';
    let start: usize = if signed {
        1
    } else {
        0
    };
    let ghost ds = unsigned_part(s@);
    assert(ds =~= s@.subrange(start as int, s.len() as int));
    if start == s.len() {
        return None;
    }
    for k in start..s.len()
        invariant
            s.len() > 0,
            start <= s.len(),
            ds == s@.subrange(start as int, s.len() as int),
            ds == unsigned_part(s@),
            forall|i: int| 0 <= i < k - start ==> is_digit(#[trigger] ds[i]),
    {
        let c = s[k];
        if !('0' <= c && c <= '9') {
            assert(ds[k - start] == c);
            assert(!is_digit(ds[k - start]));
            return None;
        }
    }
    let cap: i64 = 2147483649;
    let mut acc: i64 = 0;
    let mut k = start;
    while k < s.len()
        invariant
            start <= k <= s.len(),
            ds == s@.subrange(start as int, s.len() as int),
            cap == 2147483649,
            forall|i: int| 0 <= i < ds.len() ==> is_digit(#[trigger] ds[i]),
            acc == if digits_value(ds.take(k - start)) < cap {
                digits_value(ds.take(k - start))
            } else {
                cap as int
            },
            digits_value(ds.take(k - start)) >= 0,
        decreases s.len() - k,
    {
        let c = s[k];
        assert(ds[k - start] == c);
        let d: i64 = (c as u32 - 48) as i64;
        proof {
            assert(ds.take(k - start + 1).drop_last() =~= ds.take(k - start));
            assert(ds.take(k - start + 1).last() == c);
            lemma_capped_step(acc as int, digits_value(ds.take(k - start)), d as int);
        }
        if acc >= cap {
            acc = cap;
        } else {
            let next = acc * 10 + d;
            acc = if next < cap {
                next
            } else {
                cap
            };
        }
        k += 1;
    }
    assert(ds.take(ds.len() as int) =~= ds);
    let v: i64 = if s[0] == '-' {
        -acc
    } else {
        acc
    };
    if v < -2147483648 || v > 2147483647 {
        None
    } else {
        Some(v as i32)
    }
}

// ---------------------------------------------------------------------
// Reading back a stored table
// ---------------------------------------------------------------------

/// What reading the rows of the database's answer has found so far: the
/// first year, the last year, and the stored columns; `None` once a year
/// is not a number.
pub open spec fn details_state(rows: Seq<Seq<char>>) -> Option<
    (int, int, Seq<(Seq<char>, Seq<char>)>),
>
    decreases rows.len(),
{
    if rows.len() == 0 {
        Some((0, 0, seq![]))
    } else {
        match details_state(rows.drop_last()) {
            None => None,
            Some(st) => {
                let r = split_on(rows.last(), "|"@);
                if rows.len() - 1 < 2 || r.len() == 1 {
                    Some(st)
                } else {
                    let key = trim(r[0]);
                    if key == "min_year"@ {
                        match parse_int(replace_all(r[1], " "@, Seq::<char>::empty())) {
                            Some(v) => Some((v, st.1, st.2)),
                            None => None,
                        }
                    } else if key == "max_year"@ {
                        match parse_int(replace_all(r[1], " "@, Seq::<char>::empty())) {
                            Some(v) => Some((st.0, v, st.2)),
                            None => None,
                        }
                    } else {
                        Some((st.0, st.1, st.2.push((key, trim(r[1])))))
                    }
                }
            }
        }
    }
}

/// The rows of the database's answer: its lines, cut at `\r\n`.
pub open spec fn answer_rows(output: Seq<char>) -> Seq<Seq<char>> {
    split_on(output, "\r\n"@)
}

/// Once reading has failed, it stays failed.
proof fn lemma_details_state_fails(rows: Seq<Seq<char>>, k: int)
    requires
        0 <= k <= rows.len(),
        details_state(rows.take(k)) is None,
    ensures
        details_state(rows) is None,
    decreases rows.len() - k,
{
    if k < rows.len() {
        assert(rows.take(k + 1).drop_last() =~= rows.take(k));
        lemma_details_state_fails(rows, k + 1);
    } else {
        assert(rows.take(k) =~= rows);
    }
}

/// The stored columns can be sorted: with two or more of them, every id
/// can be cut after its third byte.
pub open spec fn stored_sortable(cs: Seq<(Seq<char>, Seq<char>)>) -> bool {
    cs.len() >= 2 ==> forall|j: int| 0 <= j < cs.len() ==> column_id_cuttable(#[trigger] cs[j].0)
}

/// Stored columns whose ids can all be cut after their third byte can be
/// sorted, whether or not several share an id (the estimate and the margin
/// of error of a column are stored under the same shortened id).
pub proof fn cuttable_columns_are_stored(cs: Seq<(Seq<char>, Seq<char>)>)
    requires
        forall|j: int| 0 <= j < cs.len() ==> column_id_cuttable(#[trigger] cs[j].0),
    ensures
        stored_sortable(cs),
{
}

/// The stored table in the database's answer to the select statement:
/// the rows after the first two (the heading) that hold a `|`; a row whose
/// first field is `min_year` or `max_year` gives the first or last year
/// (the last such row wins), any other row a column. The columns are sorted
/// by id. `None` when a year is not a number, or when columns cannot be
/// compared.
pub fn details_from_output(output: &str, table_id: &str) -> (r: Option<TableVersion>)
    ensures
        match r {
            None => details_state(answer_rows(output@)) is None || !stored_sortable(
                details_state(answer_rows(output@)).unwrap().2,
            ),
            Some(v) => {
                let st = details_state(answer_rows(output@));
                &&& st is Some
                &&& stored_sortable(st.unwrap().2)
                &&& v.table_id@ == table_id@
                &&& v.min_year == st.unwrap().0
                &&& v.max_year == st.unwrap().1
                &&& is_stable_sort(record_views(v.record@), st.unwrap().2)
                &&& v.record.len() == st.unwrap().2.len()
            },
        },
        details_state(answer_rows(output@)) matches Some(st) && (st.2.len() >= 2 ==> forall|j: int|
            0 <= j < st.2.len() ==> column_id_cuttable(#[trigger] st.2[j].0)) ==> r is Some,
{
    let text = chars_of(output);
    let rows = split_chars(&text, &chars_of("\r\n"));
    let bar = chars_of("|");
    let space = chars_of(" ");
    let nothing: Vec<char> = Vec::new();
    let min_key = chars_of("min_year");
    let max_key = chars_of("max_year");
    let ghost all = views(rows@);
    let mut min_year: i32 = 0;
    let mut max_year: i32 = 0;
    let mut records: Vec<TableRecord> = Vec::new();
    assert(all.take(0) =~= Seq::<Seq<char>>::empty());
    assert(record_views(records@) =~= Seq::<(Seq<char>, Seq<char>)>::empty());
    let n = rows.len();
    for count in 0..n
        invariant
            n == rows.len(),
            all == views(rows@),
            all == answer_rows(text@),
            text@ == output@,
            bar@ == "|"@,
            space@ == " "@,
            nothing@ == Seq::<char>::empty(),
            min_key@ == "min_year"@,
            max_key@ == "max_year"@,
            details_state(all.take(count as int)) == Some(
                (min_year as int, max_year as int, record_views(records@)),
            ),
    {
        let ghost prefix = all.take(count + 1);
        assert(prefix.drop_last() =~= all.take(count as int));
        assert(prefix.last() == rows@[count as int]@);
        let r = split_chars(&rows[count], &bar);
        assert(views(r@).len() == r@.len());
        assert(split_on(rows@[count as int]@, bar@).len() >= 1);
        if count == 0 || count == 1 || r.len() == 1 {
        } else {
            let key = trim_exec(&r[0]);
            assert(views(r@)[0] == r@[0]@);
            assert(views(r@)[1] == r@[1]@);
            if same_chars(&key, &min_key) {
                let digits = replace_chars(&r[1], &space, &nothing);
                match parse_i32(&digits) {
                    Some(v) => {
                        min_year = v;
                    },
                    None => {
                        proof {
                            lemma_details_state_fails(all, count + 1);
                        }
                        return None;
                    },
                }
            } else if same_chars(&key, &max_key) {
                let digits = replace_chars(&r[1], &space, &nothing);
                match parse_i32(&digits) {
                    Some(v) => {
                        max_year = v;
                    },
                    None => {
                        proof {
                            lemma_details_state_fails(all, count + 1);
                        }
                        return None;
                    },
                }
            } else {
                let label = trim_exec(&r[1]);
                let ghost before = record_views(records@);
                records.push(TableRecord { column_id: string_of(&key), label: string_of(&label) });
                assert(record_views(records@) =~= before.push((key@, label@)));
            }
        }
    }
    assert(all.take(n as int) =~= all);
    let ghost cs = record_views(records@);
    if records.len() >= 2 {
        let m = records.len();
        for j in 0..m
            invariant
                m == records.len(),
                m >= 2,
                cs == record_views(records@),
                details_state(answer_rows(output@)) == Some(
                    (min_year as int, max_year as int, cs),
                ),
                forall|t: int| 0 <= t < j ==> column_id_cuttable(#[trigger] cs[t].0),
        {
            assert(cs[j as int].0 == records@[j as int].column_id@);
            if !records[j].column_id.as_str().is_char_boundary(3) {
                assert(!column_id_cuttable(cs[j as int].0));
                return None;
            }
        }
    }
    assert forall|i: int| 0 <= i < records.len() && records.len() >= 2 implies column_id_cuttable(
        #[trigger] records@[i].column_id@,
    ) by {
        assert(cs[i].0 == records@[i].column_id@);
    }
    let sorted = sort_records(records);
    let mut id = String::new();
    id.append(table_id);
    Some(TableVersion { table_id: id, min_year, max_year, record: sorted })
}

// ---------------------------------------------------------------------
// Comparing a stored table with a fetched one
// ---------------------------------------------------------------------

/// What comparing the stored version of a table with the fetched table
/// finds.
pub enum CompareOutcome {
    /// The two have different numbers of columns.
    CountDiffers,
    /// A column's label differs in length.
    LabelDiffers,
    /// The fetched year lies outside the stored range: this statement
    /// widens it.
    Update(String),
    /// Nothing to do.
    Unchanged,
}

/// The labels of the stored and the fetched columns have the same byte
/// lengths, column by column.
pub open spec fn same_label_lengths(stored: Seq<TableRecord>, fetched: Seq<TableRecord>) -> bool {
    forall|i: int|
        0 <= i < stored.len() ==> bytes(#[trigger] stored[i].label@).len() == bytes(
            fetched[i].label@,
        ).len()
}

/// Compares the stored version of a table with the fetched table: first the
/// number of columns, then the byte length of each label; when they agree
/// and the fetched year lies before the stored first year, the statement
/// that lowers the first year, else when it lies after the stored last
/// year, the one that raises the last year. `None` when the fetched year is
/// not a number.
pub fn compare_tables(schema: &str, stored: &TableVersion, table: &Table) -> (r: Option<
    CompareOutcome,
>)
    ensures
        r is None <==> parse_int(table.year@) is None,
        r matches Some(o) ==> {
            let y = parse_int(table.year@).unwrap();
            &&& (o is CountDiffers <==> stored.record.len() != table.record.len())
            &&& (o is LabelDiffers <==> stored.record.len() == table.record.len()
                && !same_label_lengths(stored.record@, table.record@))
            &&& (o is Update <==> stored.record.len() == table.record.len() && same_label_lengths(
                stored.record@,
                table.record@,
            ) && (stored.min_year > y || stored.max_year < y))
            &&& (o matches CompareOutcome::Update(q) ==> q@ == update_statement(
                schema@,
                table.table_id@,
                table.year@,
                if stored.min_year > y {
                    "min_year"@
                } else {
                    "max_year"@
                },
            ))
        },
{
    let year = match parse_i32(&chars_of(table.year.as_str())) {
        Some(y) => y,
        None => {
            return None;
        },
    };
    if stored.record.len() != table.record.len() {
        return Some(CompareOutcome::CountDiffers);
    }
    let n = stored.record.len();
    for i in 0..n
        invariant
            n == stored.record.len(),
            n == table.record.len(),
            parse_int(table.year@) == Some(year as int),
            forall|t: int|
                0 <= t < i ==> bytes(#[trigger] stored.record@[t].label@).len() == bytes(
                    table.record@[t].label@,
                ).len(),
    {
        let a = stored.record[i].label.as_str().as_bytes().len();
        let b = table.record[i].label.as_str().as_bytes().len();
        if a != b {
            assert(bytes(stored.record@[i as int].label@).len() != bytes(
                table.record@[i as int].label@,
            ).len());
            return Some(CompareOutcome::LabelDiffers);
        }
    }
    if stored.min_year > year {
        Some(CompareOutcome::Update(update_query(schema, table, true)))
    } else if stored.max_year < year {
        Some(CompareOutcome::Update(update_query(schema, table, false)))
    } else {
        Some(CompareOutcome::Unchanged)
    }
}

} // verus!
