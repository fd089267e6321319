//! Reading the survey's variables into tables, and the two listings of a
//! table's columns: the pretty one and the configuration one.

use crate::cli::{column_id_cuttable, record_views, Table, TableRecord, TableVersion};
use crate::sort::{is_stable_sort, sort_records};

use crate::text::{
    bytes,
    camel_case,
    chars_of,
    decimal,
    decimal_text,
    find,
    find_from,
    find_from_exec,
    free_of,
    join_levels,
    lemma_find_from,
    lemma_find_from_is,
    lemma_replace_all_leading,
    lemma_no_match_in_free,
    lemma_rfind_from,
    lemma_rfind_from_is,
    lemma_split_joined,
    matches_at,
    push_chars,
    repeat,
    repeat_exec,
    replace_all,
    replace_chars,
    rfind,
    rfind_exec,
    split_chars,
    split_on,
    string_of,
    to_camelcase,
    trim_end_char,
    trim_end_char_exec,
    views,
};
use vstd::string::{StringExecFns, StringSliceAdditionalSpecFns};
use vstd::prelude::*;
use vstd::utf8::*;

verus! {

broadcast use {
    encode_utf8_valid_utf8,
    encode_utf8_decode_utf8,
    decode_utf8_encode_utf8,
    is_char_boundary_start_end_of_seq,
    valid_utf8_split,
};

/// A variable of the survey, as the variables document lists it: its name
/// (such as `B01001_001E`) and its label.
pub struct Variable {
    pub name: String,
    pub label: String,
}

impl View for Variable {
    type V = (Seq<char>, Seq<char>);

    open spec fn view(&self) -> (Seq<char>, Seq<char>) {
        (self.name@, self.label@)
    }
}

/// The (name, label) pairs of a sequence of variables.
pub open spec fn variable_views(vs: Seq<Variable>) -> Seq<(Seq<char>, Seq<char>)> {
    vs.map_values(|v: Variable| v@)
}

/// A column of a table before its id is shortened: the part of the
/// variable's name after the table id, and the variable's label.
pub struct RawColumn {
    pub column: String,
    pub label: String,
}

/// The variables of one table: the table id and its columns, in the order
/// of the variables document.
pub struct VarGroup {
    pub table_id: String,
    pub columns: Vec<RawColumn>,
}

/// The (column, label) pairs of a group.
pub open spec fn columns_view(g: VarGroup) -> Seq<(Seq<char>, Seq<char>)> {
    g.columns@.map_values(|c: RawColumn| (c.column@, c.label@))
}

/// A group as its table id and its (column, label) pairs.
pub open spec fn group_view(g: VarGroup) -> (Seq<char>, Seq<(Seq<char>, Seq<char>)>) {
    (g.table_id@, columns_view(g))
}

/// The views of a sequence of groups.
pub open spec fn group_views(gs: Seq<VarGroup>) -> Seq<(Seq<char>, Seq<(Seq<char>, Seq<char>)>)> {
    gs.map_values(|g: VarGroup| group_view(g))
}

/// Why exploring the variables of a year and estimate failed.
#[derive(Debug, PartialEq, Eq)]
pub enum ExploreError {
    /// The variables document is not JSON.
    Parse,
    /// The server answered with a server error (5xx).
    ServerError,
    /// The server answered with another status that is not a success.
    Status(u16),
    /// A column id cannot be shortened or compared (it is cut inside a
    /// character, or is shorter than three bytes in a table of several
    /// columns).
    ColumnId,
}

/// The pieces of a variable name between underscores.
pub open spec fn name_parts(name: Seq<char>) -> Seq<Seq<char>> {
    split_on(name, seq!['_'])
}

/// A variable belongs to a table when its name holds exactly one
/// underscore: the table id before it and the column after it.
pub open spec fn is_table_variable(name: Seq<char>) -> bool {
    name_parts(name).len() == 2
}

/// The (column, label) pairs of the variables of table `k`, in order.
pub open spec fn columns_of(vars: Seq<(Seq<char>, Seq<char>)>, k: Seq<char>) -> Seq<
    (Seq<char>, Seq<char>),
>
    decreases vars.len(),
{
    if vars.len() == 0 {
        seq![]
    } else {
        let v = vars.last();
        let prev = columns_of(vars.drop_last(), k);
        if is_table_variable(v.0) && name_parts(v.0)[0] == k {
            prev.push((name_parts(v.0)[1], v.1))
        } else {
            prev
        }
    }
}

/// `gs` groups the variables `vars` by table: one group per table id, each
/// with the columns of that table in order, and every table variable in
/// its table's group.
pub open spec fn groups_vars(
    gs: Seq<(Seq<char>, Seq<(Seq<char>, Seq<char>)>)>,
    vars: Seq<(Seq<char>, Seq<char>)>,
) -> bool {
    &&& forall|i: int, j: int| 0 <= i < j < gs.len() ==> #[trigger] gs[i].0 != #[trigger] gs[j].0
    &&& forall|i: int|
        0 <= i < gs.len() ==> #[trigger] gs[i].1 == columns_of(vars, gs[i].0) && gs[i].1.len() > 0
    &&& forall|e: int|
        0 <= e < vars.len() && is_table_variable(#[trigger] vars[e].0) ==> exists|i: int|
            0 <= i < gs.len() && #[trigger] gs[i].0 == name_parts(vars[e].0)[0]
}

/// The list of (name, label) pairs that `parse_variables` reads from a
/// variables document; `None` when the text is not JSON.
pub uninterp spec fn json_variables(text: Seq<char>) -> Option<Seq<(Seq<char>, Seq<char>)>>;

/// The error that `json::parse` returns, carried through opaquely.
#[verifier::external_type_specification]
#[verifier::external_body]
pub struct ExJsonError(json::Error);

/// Calls `json::parse` on `text`, then walks the entries of the object
/// under the key "variables" in the object's order and hands out each
/// entry's key and the `to_string` text of its "label" member. The contract
/// names that list `json_variables(text)`, a function of the text alone,
/// and says nothing more of it; it is `None` when `json::parse` fails.
#[verifier::external_body]
fn parse_variables(text: &str) -> (r: Result<Vec<Variable>, json::Error>)
    ensures
        match r {
            Ok(vs) => json_variables(text@) == Some(variable_views(vs@)),
            Err(_) => json_variables(text@) is None,
        },
{
    let data = json::parse(text)?;
    let vars = &data["variables"];
    let mut out = Vec::new();
    for (key, _) in vars.entries() {
        out.push(Variable { name: key.to_string(), label: vars[key]["label"].to_string() });
    }
    Ok(out)
}

/// A table that has columns has a variable of that table.
proof fn lemma_columns_of_nonempty(vars: Seq<(Seq<char>, Seq<char>)>, k: Seq<char>)
    ensures
        columns_of(vars, k).len() > 0 ==> exists|e: int|
            0 <= e < vars.len() && is_table_variable(#[trigger] vars[e].0) && name_parts(
                vars[e].0,
            )[0] == k,
    decreases vars.len(),
{
    if vars.len() > 0 {
        lemma_columns_of_nonempty(vars.drop_last(), k);
        if columns_of(vars.drop_last(), k).len() > 0 {
            let e = choose|e: int|
                0 <= e < vars.drop_last().len() && is_table_variable(
                    #[trigger] vars.drop_last()[e].0,
                ) && name_parts(vars.drop_last()[e].0)[0] == k;
            assert(vars[e] == vars.drop_last()[e]);
        }
    }
}

/// The index of the group with table id `key`, if there is one.
fn find_group(groups: &Vec<VarGroup>, key: &String) -> (r: Option<usize>)
    ensures
        match r {
            Some(j) => j < groups.len() && groups@[j as int].table_id@ == key@,
            None => forall|t: int| 0 <= t < groups.len() ==> groups@[t].table_id@ != key@,
        },
{
    let mut j: usize = 0;
    while j < groups.len()
        invariant
            j <= groups.len(),
            forall|t: int| 0 <= t < j ==> groups@[t].table_id@ != key@,
        decreases groups.len() - j,
    {
        if groups[j].table_id == *key {
            return Some(j);
        }
        j += 1;
    }
    None
}

/// Groups the variables by table. A variable whose name holds exactly one
/// underscore is a column of the table named by the part before it; the
/// part after it is the column. Other variables are left out.
pub fn group_variables(vars: &Vec<Variable>) -> (groups: Vec<VarGroup>)
    ensures
        groups_vars(group_views(groups@), variable_views(vars@)),
{
    let mut groups: Vec<VarGroup> = Vec::new();
    let mut underscore: Vec<char> = Vec::new();
    underscore.push('_');
    assert(underscore@ =~= seq!['_']);
    let ghost vv = variable_views(vars@);
    assert(group_views(groups@) =~= Seq::<(Seq<char>, Seq<(Seq<char>, Seq<char>)>)>::empty());
    let n = vars.len();
    for i in 0..n
        invariant
            n == vars.len(),
            vv == variable_views(vars@),
            underscore@ == seq!['_'],
            groups_vars(group_views(groups@), vv.take(i as int)),
    {
        let ghost old_views = group_views(groups@);
        let ghost vi = vv.take(i as int);
        let ghost vi1 = vv.take(i + 1);
        assert(vi1.drop_last() =~= vi);
        assert(vi1.last() == vv[i as int]);
        let name = chars_of(vars[i].name.as_str());
        let parts = split_chars(&name, &underscore);
        if parts.len() == 2 {
            let key = string_of(&parts[0]);
            let col = RawColumn { column: string_of(&parts[1]), label: vars[i].label.clone() };
            let ghost item = (col.column@, col.label@);
            assert(name_parts(vv[i as int].0) == views(parts@));
            match find_group(&groups, &key) {
                Some(j) => {
                    let mut g = groups.remove(j);
                    let ghost gv = group_view(g);
                    g.columns.push(col);
                    assert(columns_view(g) =~= gv.1.push(item));
                    groups.insert(j, g);
                    proof {
                        let nv = group_views(groups@);
                        assert(nv =~= old_views.update(j as int, (gv.0, gv.1.push(item))));
                        assert(gv == old_views[j as int]);
                        assert forall|t: int| 0 <= t < nv.len() implies #[trigger] nv[t].1
                            == columns_of(vi1, nv[t].0) && nv[t].1.len() > 0 by {
                            if t != j {
                                assert(nv[t] == old_views[t]);
                            }
                        }
                        assert forall|e: int|
                            0 <= e < vi1.len() && is_table_variable(
                                #[trigger] vi1[e].0,
                            ) implies exists|t: int|
                            0 <= t < nv.len() && #[trigger] nv[t].0 == name_parts(vi1[e].0)[0] by {
                            if e < i {
                                assert(vi1[e] == vi[e]);
                                let t = choose|t: int|
                                    0 <= t < old_views.len() && #[trigger] old_views[t].0
                                        == name_parts(vi[e].0)[0];
                                assert(nv[t].0 == old_views[t].0);
                            } else {
                                assert(nv[j as int].0 == key@);
                            }
                        }
                        assert forall|a: int, b: int| 0 <= a < b < nv.len() implies #[trigger] nv[a].0
                            != #[trigger] nv[b].0 by {
                            assert(nv[a].0 == old_views[a].0);
                            assert(nv[b].0 == old_views[b].0);
                        }
                    }
                },
                None => {
                    proof {
                        lemma_columns_of_nonempty(vi, key@);
                        if columns_of(vi, key@).len() > 0 {
                            let e = choose|e: int|
                                0 <= e < vi.len() && is_table_variable(#[trigger] vi[e].0)
                                    && name_parts(vi[e].0)[0] == key@;
                            let t = choose|t: int|
                                0 <= t < old_views.len() && #[trigger] old_views[t].0
                                    == name_parts(vi[e].0)[0];
                            assert(groups@[t].table_id@ == old_views[t].0);
                        }
                    }
                    let mut cols: Vec<RawColumn> = Vec::new();
                    cols.push(col);
                    let g = VarGroup { table_id: key, columns: cols };
                    assert(columns_view(g) =~= seq![item]);
                    groups.push(g);
                    proof {
                        let nv = group_views(groups@);
                        assert(nv =~= old_views.push((key@, seq![item])));
                        assert(columns_of(vi1, key@) =~= seq![item]);
                        assert forall|t: int| 0 <= t < nv.len() implies #[trigger] nv[t].1
                            == columns_of(vi1, nv[t].0) && nv[t].1.len() > 0 by {
                            if t < old_views.len() {
                                assert(nv[t] == old_views[t]);
                                assert(old_views[t].0 == groups@[t].table_id@);
                            }
                        }
                        assert forall|e: int|
                            0 <= e < vi1.len() && is_table_variable(
                                #[trigger] vi1[e].0,
                            ) implies exists|t: int|
                            0 <= t < nv.len() && #[trigger] nv[t].0 == name_parts(vi1[e].0)[0] by {
                            if e < i {
                                assert(vi1[e] == vi[e]);
                                let t = choose|t: int|
                                    0 <= t < old_views.len() && #[trigger] old_views[t].0
                                        == name_parts(vi[e].0)[0];
                                assert(nv[t].0 == old_views[t].0);
                            } else {
                                assert(nv[old_views.len() as int].0 == key@);
                            }
                        }
                        assert forall|a: int, b: int| 0 <= a < b < nv.len() implies #[trigger] nv[a].0
                            != #[trigger] nv[b].0 by {
                            assert(nv[a].0 == old_views[a].0 || a == old_views.len());
                            if b == old_views.len() {
                                assert(old_views[a].0 == groups@[a].table_id@);
                            }
                        }
                    }
                },
            }
        } else {
            proof {
                let nv = group_views(groups@);
                assert forall|t: int| 0 <= t < nv.len() implies #[trigger] nv[t].1 == columns_of(
                    vi1,
                    nv[t].0,
                ) && nv[t].1.len() > 0 by {}
                assert forall|e: int|
                    0 <= e < vi1.len() && is_table_variable(#[trigger] vi1[e].0) implies exists|
                    t: int,
                | 0 <= t < nv.len() && #[trigger] nv[t].0 == name_parts(vi1[e].0)[0] by {
                    assert(vi1[e] == vi[e]);
                }
            }
        }
    }
    assert(vv.take(n as int) =~= vv);
    groups
}

/// Reads the variables document: the variables grouped by table.
pub fn process_vars_data(text: &str) -> (r: Result<Vec<VarGroup>, ExploreError>)
    ensures
        match r {
            Ok(gs) => json_variables(text@) is Some && groups_vars(
                group_views(gs@),
                json_variables(text@).unwrap(),
            ),
            Err(e) => json_variables(text@) is None && e == ExploreError::Parse,
        },
{
    match parse_variables(text) {
        Ok(vars) => Ok(group_variables(&vars)),
        Err(_) => Err(ExploreError::Parse),
    }
}

/// A column id shortened to its first three bytes (`String::truncate(3)`);
/// ids of at most three bytes stay as they are.
pub open spec fn short_id(c: Seq<char>) -> Seq<char> {
    if bytes(c).len() <= 3 {
        c
    } else {
        decode_utf8(bytes(c).subrange(0, 3))
    }
}

/// The columns of a group as a table lists them before sorting: with
/// shortened ids.
pub open spec fn short_columns(cs: Seq<(Seq<char>, Seq<char>)>) -> Seq<(Seq<char>, Seq<char>)> {
    cs.map_values(|c: (Seq<char>, Seq<char>)| (short_id(c.0), c.1))
}

/// Columns can be shortened and sorted: every id longer than three bytes
/// has a character boundary after its third byte, and when there are two
/// or more columns every id has at least three bytes.
pub open spec fn columns_sortable(cs: Seq<(Seq<char>, Seq<char>)>) -> bool {
    forall|j: int|
        0 <= j < cs.len() ==> {
            let b = bytes(#[trigger] cs[j].0);
            &&& b.len() > 3 ==> is_char_boundary(b, 3)
            &&& cs.len() >= 2 ==> b.len() >= 3
        }
}

/// The columns of a group can be shortened and sorted.
pub open spec fn group_sortable(g: VarGroup) -> bool {
    columns_sortable(columns_view(g))
}

/// `t` is the table that the group `g` makes for the given year and
/// estimate: same id, and the group's columns with shortened ids, sorted by
/// id (columns with the same id keep their order).
pub open spec fn table_of_group(t: Table, g: VarGroup, year: Seq<char>, acs_est: Seq<char>) -> bool {
    &&& t.table_id@ == g.table_id@
    &&& t.year@ == year
    &&& t.acs_estimate@ == acs_est
    &&& t.record.len() == g.columns.len()
    &&& is_stable_sort(record_views(t.record@), short_columns(columns_view(g)))
}

/// Shortens a column id to its first three bytes.
fn short_id_exec(c: &String) -> (r: String)
    requires
        bytes(c@).len() > 3 ==> is_char_boundary(bytes(c@), 3),
    ensures
        r@ == short_id(c@),
        bytes(r@).len() == (if bytes(c@).len() <= 3 {
            bytes(c@).len()
        } else {
            3
        }),
{
    let s = c.as_str();
    if s.as_bytes().len() <= 3 {
        s.to_owned()
    } else {
        let (head, _) = s.split_at(3);
        assert(bytes(head@) == head.spec_bytes());
        head.to_owned()
    }
}

/// Whether the columns of every group can be shortened and sorted.
pub fn groups_sortable(groups: &Vec<VarGroup>) -> (b: bool)
    ensures
        b == forall|i: int| 0 <= i < groups.len() ==> group_sortable(#[trigger] groups@[i]),
{
    for i in 0..groups.len()
        invariant
            forall|t: int| 0 <= t < i ==> group_sortable(#[trigger] groups@[t]),
    {
        let g = &groups[i];
        let n = g.columns.len();
        for j in 0..n
            invariant
                n == g.columns.len(),
                i < groups.len(),
                *g == groups@[i as int],
                forall|t: int|
                    0 <= t < j ==> {
                        let b = bytes(#[trigger] g.columns@[t].column@);
                        &&& b.len() > 3 ==> is_char_boundary(b, 3)
                        &&& g.columns.len() >= 2 ==> b.len() >= 3
                    },
        {
            let s = g.columns[j].column.as_str();
            let len = s.as_bytes().len();
            if (len > 3 && !s.is_char_boundary(3)) || (n >= 2 && len < 3) {
                assert(bytes(g.columns@[j as int].column@) == s.spec_bytes());
                assert(groups@[i as int] == *g);
                assert(columns_view(*g)[j as int].0 == g.columns@[j as int].column@);
                assert(!group_sortable(groups@[i as int]));
                return false;
            }
        }
    }
    true
}

/// Makes the tables of a year and estimate from the variables grouped by
/// table: each column id shortened to three bytes (which drops the `E` of
/// `001E`), the columns sorted by id.
pub fn format_table(year: &str, groups: &Vec<VarGroup>, acs_est: &str) -> (tables: Vec<Table>)
    requires
        forall|i: int| 0 <= i < groups.len() ==> group_sortable(#[trigger] groups@[i]),
    ensures
        tables.len() == groups.len(),
        forall|i: int|
            0 <= i < groups.len() ==> table_of_group(
                #[trigger] tables@[i],
                groups@[i],
                year@,
                acs_est@,
            ),
{
    let mut tables: Vec<Table> = Vec::new();
    for i in 0..groups.len()
        invariant
            tables.len() == i,
            forall|t: int|
                0 <= t < groups.len() ==> group_sortable(#[trigger] groups@[t]),
            forall|t: int|
                0 <= t < i ==> table_of_group(#[trigger] tables@[t], groups@[t], year@, acs_est@),
    {
        let g = &groups[i];
        assert(group_sortable(groups@[i as int]));
        let n = g.columns.len();
        let mut r: Vec<TableRecord> = Vec::new();
        for j in 0..n
            invariant
                n == g.columns.len(),
                group_sortable(*g),
                r.len() == j,
                record_views(r@) == short_columns(columns_view(*g)).take(j as int),
                n >= 2 ==> forall|t: int|
                    0 <= t < j ==> column_id_cuttable(#[trigger] r@[t].column_id@),
        {
            let c = &g.columns[j];
            assert(g.columns@[j as int] == *c);
            assert(columns_view(*g)[j as int].0 == c.column@);
            let cid = short_id_exec(&c.column);
            let rec = TableRecord { column_id: cid, label: c.label.clone() };
            let ghost before = r@;
            r.push(rec);
            assert(record_views(r@) =~= short_columns(columns_view(*g)).take(j + 1));
            assert forall|t: int| 0 <= t < j + 1 && n >= 2 implies column_id_cuttable(
                #[trigger] r@[t].column_id@,
            ) by {
                if t < j {
                    assert(r@[t] == before[t]);
                }
            }
        }
        assert(short_columns(columns_view(*g)).take(n as int) =~= short_columns(columns_view(*g)));
        let sorted = sort_records(r);
        tables.push(
            Table {
                table_id: g.table_id.clone(),
                year: year.to_owned(),
                acs_estimate: acs_est.to_owned(),
                record: sorted,
            },
        );
    }
    tables
}

/// The tables made from groups hold column ids of at most three bytes:
/// what follows the third byte (such as the `E` of `001E`) is dropped.
pub proof fn table_column_ids_short(
    t: Table,
    g: VarGroup,
    year: Seq<char>,
    acs_est: Seq<char>,
    i: int,
)
    requires
        group_sortable(g),
        table_of_group(t, g, year, acs_est),
        0 <= i < t.record.len(),
    ensures
        bytes(t.record@[i].column_id@).len() <= 3,
{
    let out = record_views(t.record@);
    let inp = short_columns(columns_view(g));
    crate::sort::stable_sort_members(out, inp, i);
    let j = choose|j: int| 0 <= j < inp.len() && inp[j] == out[i];
    let c = columns_view(g)[j].0;
    assert(inp[j].0 == short_id(c));
    let b = bytes(c);
    if b.len() > 3 {
        assert(is_char_boundary(b, 3));
        assert(bytes(decode_utf8(b.subrange(0, 3))) == b.subrange(0, 3));
    }
}

// ---------------------------------------------------------------------
// Listings of a table's columns
// ---------------------------------------------------------------------

/// The line under the header of a table loaded from the database.
pub open spec fn rule_line() -> Seq<char> {
    "---------------------------------------------------------------------------------------------------------------------\n"@
}

/// The header printed before the columns of a table loaded from the
/// database: its id, its first and last year, and a rule.
pub open spec fn version_header(v: TableVersion) -> Seq<char> {
    "Table Id: "@ + v.table_id@ + "\n"@ + "Min Year: "@ + decimal(v.min_year as int) + "\n"@
        + "Max Year: "@ + decimal(v.max_year as int) + "\n"@ + rule_line()
}

/// Where the last level of a label begins: after its last `!!`, or at its
/// start when it has none.
pub open spec fn last_level_start(label: Seq<char>) -> int {
    let i = rfind(label, "!!"@);
    if i < 0 {
        0
    } else {
        i + 2
    }
}

/// How deep a label is indented: the levels before its last one, less
/// two (the estimate and the total).
pub open spec fn indent_depth(label: Seq<char>) -> nat {
    let n = split_on(label.subrange(0, last_level_start(label)), "!!"@).len();
    if n > 3 {
        (n - 3) as nat
    } else {
        0
    }
}

/// The pretty line of a column: its id, a bar, four spaces per level of
/// depth, and the last level of its label without trailing colons.
pub open spec fn pretty_line(cid: Seq<char>, label: Seq<char>) -> Seq<char> {
    cid + "|"@ + repeat("    "@, indent_depth(label)) + trim_end_char(
        label.subrange(last_level_start(label), label.len() as int),
        ':',
    ) + "\n"@
}

/// A label of two or more levels free of `!`, joined by `!!`, is shown by
/// its last level without trailing colons, indented four spaces for each
/// level after the third: a label of `n` levels gets `n - 3` indents (none
/// for three or fewer), with no upper limit.
pub proof fn pretty_line_indents_each_level(cid: Seq<char>, head: Seq<Seq<char>>, last: Seq<char>)
    requires
        head.len() >= 1,
        forall|t: int| 0 <= t < head.len() ==> free_of(#[trigger] head[t], '!'),
        free_of(last, '!'),
    ensures
        pretty_line(cid, join_levels(head, "!!"@) + "!!"@ + last) == cid + "|"@ + repeat(
            "    "@,
            if head.len() + 1 > 3 {
                (head.len() + 1 - 3) as nat
            } else {
                0
            },
        ) + trim_end_char(last, ':') + "\n"@,
{
    reveal_strlit("!!");
    let p = "!!"@;
    let j = join_levels(head, p);
    let label = j + p + last;
    let m = j.len() as int;
    let k = label.len() - 2;
    assert(label.subrange(m, m + 2) =~= p);
    assert forall|i: int| m < i <= k implies !matches_at(label, p, i) by {
        assert(label[i + 1] == last[i + 1 - m - 2]);
        if matches_at(label, p, i) {
            assert(label.subrange(i, i + 2)[1] == label[i + 1]);
        }
    }
    lemma_rfind_from_is(label, p, k, m);
    assert(last_level_start(label) == m + 2);
    assert(label.subrange(0, m + 2) =~= j + p);
    assert((j + p).subrange(0, (j + p).len() as int) =~= j + p);
    lemma_split_joined(j + p, 0, head);
    assert(label.subrange(m + 2, label.len() as int) =~= last);
}

/// A label of one level (no `!`) is shown whole, without trailing colons
/// and without indent.
pub proof fn pretty_line_single_level(cid: Seq<char>, label: Seq<char>)
    requires
        free_of(label, '!'),
    ensures
        pretty_line(cid, label) == cid + "|"@ + trim_end_char(label, ':') + "\n"@,
{
    reveal_strlit("!!");
    let p = "!!"@;
    lemma_rfind_from(label, p, label.len() - 2);
    let r = rfind(label, p);
    if r != -1 {
        assert(label.subrange(r, r + 2)[0] == label[r]);
    }
    assert(last_level_start(label) == 0);
    let e = label.subrange(0, 0);
    assert(e =~= Seq::<char>::empty());
    assert(find_from(e, p, 0) == -1);
    assert(e.subrange(0, e.len() as int) =~= e);
    assert(split_on(e, p) =~= seq![e]);
    assert(label.subrange(0, label.len() as int) =~= label);
    assert(repeat("    "@, 0) =~= Seq::<char>::empty());
}

/// The pretty lines of a sequence of (column id, label) pairs.
pub open spec fn pretty_text(rs: Seq<(Seq<char>, Seq<char>)>) -> Seq<char>
    decreases rs.len(),
{
    if rs.len() == 0 {
        seq![]
    } else {
        pretty_text(rs.drop_last()) + pretty_line(rs.last().0, rs.last().1)
    }
}

/// The configuration name of a column: its label after the first `!!`,
/// without `Total!!` (except for column `001`), with `!!` turned into `_`
/// and apostrophes dropped, in camel case.
pub open spec fn config_name(cid: Seq<char>, label: Seq<char>) -> Seq<char> {
    let i = find(label, "!!"@);
    let good = if i < 0 {
        label
    } else {
        label.subrange(i + 2, label.len() as int)
    };
    let kept = if cid != "001"@ {
        replace_all(good, "Total!!"@, Seq::<char>::empty())
    } else {
        good
    };
    camel_case(replace_all(replace_all(kept, "!!"@, "_"@), "'"@, Seq::<char>::empty()))
}

/// In a label whose first level holds no `!`, the text after the first
/// level is what follows its `!!`.
proof fn lemma_after_first_level(first: Seq<char>, rest: Seq<char>)
    requires
        free_of(first, '!'),
    ensures
        find(first + "!!"@ + rest, "!!"@) == first.len(),
        (first + "!!"@ + rest).subrange(first.len() as int + 2, (first + "!!"@ + rest).len() as int)
            == rest,
{
    reveal_strlit("!!");
    let p = "!!"@;
    let label = first + p + rest;
    let m = first.len() as int;
    assert(label.subrange(m, m + 2) =~= p);
    assert(label.subrange(0, m) =~= first);
    lemma_no_match_in_free(label, p, '!', 0, m);
    lemma_find_from_is(label, p, 0, m);
    assert(label.subrange(m + 2, label.len() as int) =~= rest);
}

/// For every column but `001`, every `Total!!` after the first level is
/// deleted, wherever it stands: the name is the one column `001` gets for
/// the label with those deleted.
pub proof fn config_name_drops_every_total(cid: Seq<char>, first: Seq<char>, rest: Seq<char>)
    requires
        cid != "001"@,
        free_of(first, '!'),
    ensures
        config_name(cid, first + "!!"@ + rest) == config_name(
            "001"@,
            first + "!!"@ + replace_all(rest, "Total!!"@, Seq::<char>::empty()),
        ),
{
    lemma_after_first_level(first, rest);
    lemma_after_first_level(first, replace_all(rest, "Total!!"@, Seq::<char>::empty()));
}

/// For every column but `001`, a `Total` level right after the first level
/// changes nothing: the name is the one of the label without it.
pub proof fn config_name_skips_total_level(cid: Seq<char>, first: Seq<char>, rest: Seq<char>)
    requires
        cid != "001"@,
        free_of(first, '!'),
    ensures
        config_name(cid, first + "!!"@ + ("Total!!"@ + rest)) == config_name(
            cid,
            first + "!!"@ + rest,
        ),
{
    reveal_strlit("Total!!");
    lemma_after_first_level(first, "Total!!"@ + rest);
    lemma_after_first_level(first, rest);
    lemma_replace_all_leading("Total!!"@, rest, Seq::<char>::empty());
    assert(Seq::<char>::empty() + replace_all(rest, "Total!!"@, Seq::<char>::empty())
        =~= replace_all(rest, "Total!!"@, Seq::<char>::empty()));
}

/// What `format!("{:?}", s)` writes for the string `s`.
pub uninterp spec fn debug_text(s: Seq<char>) -> Seq<char>;

/// The configuration line of a column: its id, a colon, and its
/// configuration name as a quoted string.
pub open spec fn config_line(cid: Seq<char>, label: Seq<char>) -> Seq<char> {
    cid + ": "@ + debug_text(config_name(cid, label)) + "\n"@
}

/// The configuration lines of a sequence of (column id, label) pairs.
pub open spec fn config_text(rs: Seq<(Seq<char>, Seq<char>)>) -> Seq<char>
    decreases rs.len(),
{
    if rs.len() == 0 {
        seq![]
    } else {
        config_text(rs.drop_last()) + config_line(rs.last().0, rs.last().1)
    }
}

/// Writes `s` with `Debug` formatting (`format!("{:?}", s)`): the string in
/// double quotes with its special characters escaped. The contract names
/// the result `debug_text(s)`, a function of `s` alone, and says nothing
/// more of it.
#[verifier::external_body]
fn debug_quoted(s: &str) -> (r: String)
    ensures
        r@ == debug_text(s@),
{
    format!("{:?}", s)
}

/// Appends the header of a table loaded from the database.
fn push_header(out: &mut String, v: &TableVersion)
    ensures
        final(out)@ == old(out)@ + version_header(*v),
{
    let min = decimal_text(v.min_year);
    let max = decimal_text(v.max_year);
    out.append("Table Id: ");
    out.append(v.table_id.as_str());
    out.append("\n");
    out.append("Min Year: ");
    out.append(min.as_str());
    out.append("\n");
    out.append("Max Year: ");
    out.append(max.as_str());
    out.append("\n");
    out.append(
        "---------------------------------------------------------------------------------------------------------------------\n",
    );
    assert(final(out)@ =~= old(out)@ + version_header(*v));
}

/// Appends the pretty line of a column.
fn push_pretty_line(out: &mut String, cid: &String, label: &String)
    ensures
        final(out)@ == old(out)@ + pretty_line(cid@, label@),
{
    let l = chars_of(label.as_str());
    let bang = chars_of("!!");
    proof {
        reveal_strlit("!!");
        lemma_rfind_from(l@, bang@, l@.len() - bang@.len());
    }
    let k: usize = match rfind_exec(&l, &bang) {
        Some(i) => {
            assert(bang@.len() == 2);
            assert(i + 2 <= l.len());
            i + 2
        },
        None => 0,
    };
    let head = crate::text::slice_chars(&l, 0, k);
    let tail = crate::text::slice_chars(&l, k, l.len());
    let pieces = split_chars(&head, &bang);
    let depth: usize = if pieces.len() > 3 {
        pieces.len() - 3
    } else {
        0
    };
    let indent = repeat_exec(&chars_of("    "), depth);
    let last = trim_end_char_exec(&tail, ':');
    out.append(cid.as_str());
    out.append("|");
    push_chars(out, &indent);
    push_chars(out, &last);
    out.append("\n");
    proof {
        assert(views(pieces@).len() == pieces@.len());
    }
    assert(final(out)@ =~= old(out)@ + pretty_line(cid@, label@));
}

/// Appends the configuration line of a column.
fn push_config_line(out: &mut String, cid: &String, label: &String)
    ensures
        final(out)@ == old(out)@ + config_line(cid@, label@),
{
    let l = chars_of(label.as_str());
    let bang = chars_of("!!");
    proof {
        reveal_strlit("!!");
        lemma_find_from(l@, bang@, 0);
    }
    let good = match find_from_exec(&l, &bang, 0) {
        Some(i) => {
            assert(bang@.len() == 2);
            assert(i + 2 <= l.len());
            crate::text::slice_chars(&l, i + 2, l.len())
        },
        None => crate::text::slice_chars(&l, 0, l.len()),
    };
    assert(l@.subrange(0, l@.len() as int) =~= l@);
    let nothing: Vec<char> = Vec::new();
    let first = "001".to_owned();
    let kept = if !(*cid == first) {
        replace_chars(&good, &chars_of("Total!!"), &nothing)
    } else {
        good
    };
    let joined = replace_chars(&kept, &bang, &chars_of("_"));
    let plain = replace_chars(&joined, &chars_of("'"), &nothing);
    let name = to_camelcase(string_of(&plain).as_str());
    let quoted = debug_quoted(name.as_str());
    out.append(cid.as_str());
    out.append(": ");
    out.append(quoted.as_str());
    out.append("\n");
    assert(final(out)@ =~= old(out)@ + config_line(cid@, label@));
}

/// Appends the pretty lines of the columns `rs`.
fn push_pretty_lines(out: &mut String, rs: &Vec<TableRecord>)
    ensures
        final(out)@ == old(out)@ + pretty_text(record_views(rs@)),
{
    let n = rs.len();
    for j in 0..n
        invariant
            n == rs.len(),
            out@ == old(out)@ + pretty_text(record_views(rs@).take(j as int)),
    {
        let ghost before = out@;
        push_pretty_line(out, &rs[j].column_id, &rs[j].label);
        assert(record_views(rs@).take(j + 1).drop_last() =~= record_views(rs@).take(j as int));
        assert(out@ =~= old(out)@ + pretty_text(record_views(rs@).take(j + 1)));
    }
    assert(record_views(rs@).take(n as int) =~= record_views(rs@));
}

/// Appends the configuration lines of the columns `rs`.
fn push_config_lines(out: &mut String, rs: &Vec<TableRecord>)
    ensures
        final(out)@ == old(out)@ + config_text(record_views(rs@)),
{
    let n = rs.len();
    for j in 0..n
        invariant
            n == rs.len(),
            out@ == old(out)@ + config_text(record_views(rs@).take(j as int)),
    {
        push_config_line(out, &rs[j].column_id, &rs[j].label);
        assert(record_views(rs@).take(j + 1).drop_last() =~= record_views(rs@).take(j as int));
        assert(out@ =~= old(out)@ + config_text(record_views(rs@).take(j + 1)));
    }
    assert(record_views(rs@).take(n as int) =~= record_views(rs@));
}

/// The pretty listing of a table's columns: one line per column with its
/// id and the last level of its label, indented by depth. For a table
/// loaded from the database (`loaded`), the header and the columns of the
/// loaded table instead.
pub fn format_label(records: &Table, loaded: Option<&TableVersion>) -> (r: String)
    ensures
        r@ == match loaded {
            None => pretty_text(record_views(records.record@)),
            Some(v) => version_header(*v) + pretty_text(record_views(v.record@)),
        },
{
    let mut res = String::new();
    match loaded {
        None => {
            push_pretty_lines(&mut res, &records.record);
        },
        Some(v) => {
            push_header(&mut res, v);
            push_pretty_lines(&mut res, &v.record);
        },
    }
    assert(res@ =~= match loaded {
        None => pretty_text(record_views(records.record@)),
        Some(v) => version_header(*v) + pretty_text(record_views(v.record@)),
    });
    res
}

/// The configuration listing of a table's columns: one line per column
/// with its id and its configuration name. For a table loaded from the
/// database (`loaded`), the header and the columns of the loaded table
/// instead.
pub fn format_table_config(records: &Table, loaded: Option<&TableVersion>) -> (r: String)
    ensures
        r@ == match loaded {
            None => config_text(record_views(records.record@)),
            Some(v) => version_header(*v) + config_text(record_views(v.record@)),
        },
{
    let mut res = String::new();
    match loaded {
        None => {
            push_config_lines(&mut res, &records.record);
        },
        Some(v) => {
            push_header(&mut res, v);
            push_config_lines(&mut res, &v.record);
        },
    }
    assert(res@ =~= match loaded {
        None => config_text(record_views(records.record@)),
        Some(v) => version_header(*v) + config_text(record_views(v.record@)),
    });
    res
}

// ---------------------------------------------------------------------
// Fetching the variables of a year and estimate
// ---------------------------------------------------------------------

/// The name of an estimate in the survey's paths: `acs` and the estimate,
/// such as `acs1` or `acs5`.
pub open spec fn acs_name(estimate: Seq<char>) -> Seq<char> {
    "acs"@ + estimate
}

/// Where the variables document of a year and estimate is served.
pub open spec fn variables_url(year: Seq<char>, estimate: Seq<char>) -> Seq<char> {
    "https://api.census.gov/data/"@ + year + "/acs/"@ + acs_name(estimate) + "/"@
        + "variables.json"@
}

/// The name of an estimate in the survey's paths.
pub fn acs_estimate_name(estimate: &str) -> (r: String)
    ensures
        r@ == acs_name(estimate@),
{
    let mut r = "acs".to_owned();
    r.append(estimate);
    r
}

/// The address of the variables document of a year and estimate.
pub fn variables_address(year: &str, estimate: &str) -> (r: String)
    ensures
        r@ == variables_url(year@, estimate@),
{
    let acs = acs_estimate_name(estimate);
    let mut r = "https://api.census.gov/data/".to_owned();
    r.append(year);
    r.append("/acs/");
    r.append(acs.as_str());
    r.append("/");
    r.append("variables.json");
    assert(r@ =~= variables_url(year@, estimate@));
    r
}

/// The address of the variables document names the estimate: it is the
/// survey's data root, the year, `/acs/acs`, the estimate and
/// `/variables.json`, so two estimates of one year are served from two
/// different addresses.
pub proof fn variables_url_names_estimate(year: Seq<char>, e1: Seq<char>, e2: Seq<char>)
    ensures
        variables_url(year, e1) == "https://api.census.gov/data/"@ + year + "/acs/acs"@ + e1
            + "/variables.json"@,
        variables_url(year, e1) == variables_url(year, e2) ==> e1 == e2,
{
    reveal_strlit("https://api.census.gov/data/");
    reveal_strlit("/acs/");
    reveal_strlit("acs");
    reveal_strlit("/");
    reveal_strlit("variables.json");
    reveal_strlit("/acs/acs");
    reveal_strlit("/variables.json");
    let s1 = variables_url(year, e1);
    let s2 = variables_url(year, e2);
    assert(s1 =~= "https://api.census.gov/data/"@ + year + "/acs/acs"@ + e1 + "/variables.json"@);
    if s1 == s2 {
        assert(s2 =~= "https://api.census.gov/data/"@ + year + "/acs/acs"@ + e2
            + "/variables.json"@);
        let o: int = 28 + year.len() as int + 8;
        assert(e1.len() == e2.len());
        assert(e1 =~= s1.subrange(o, o + e1.len() as int));
        assert(e2 =~= s2.subrange(o, o + e2.len() as int));
    }
}

/// What the status of the server's answer means: a server error (5xx),
/// another status that is no success (not 2xx), or success.
pub fn check_status(code: u16) -> (r: Result<(), ExploreError>)
    ensures
        r == if 500 <= code < 600 {
            Err(ExploreError::ServerError)
        } else if !(200 <= code < 300) {
            Err(ExploreError::Status(code))
        } else {
            Ok(())
        },
{
    if 500 <= code && code < 600 {
        Err(ExploreError::ServerError)
    } else if !(200 <= code && code < 300) {
        Err(ExploreError::Status(code))
    } else {
        Ok(())
    }
}

/// The columns of every table of `vars` can be shortened and sorted.
pub open spec fn vars_sortable(vars: Seq<(Seq<char>, Seq<char>)>) -> bool {
    forall|e: int|
        0 <= e < vars.len() && is_table_variable(#[trigger] vars[e].0) ==> columns_sortable(
            columns_of(vars, name_parts(vars[e].0)[0]),
        )
}

/// Every column id in the variables can be cut after its third byte: it has
/// at least three bytes and a character boundary there.
pub open spec fn column_ids_cuttable(vars: Seq<(Seq<char>, Seq<char>)>) -> bool {
    forall|e: int|
        0 <= e < vars.len() && is_table_variable(#[trigger] vars[e].0) ==> column_id_cuttable(
            name_parts(vars[e].0)[1],
        )
}

/// Each column of table `k` comes from a variable of that table.
proof fn lemma_columns_of_origin(vars: Seq<(Seq<char>, Seq<char>)>, k: Seq<char>, t: int)
    requires
        0 <= t < columns_of(vars, k).len(),
    ensures
        exists|e: int|
            0 <= e < vars.len() && is_table_variable(#[trigger] vars[e].0) && name_parts(
                vars[e].0,
            )[0] == k && columns_of(vars, k)[t].0 == name_parts(vars[e].0)[1],
    decreases vars.len(),
{
    let prev = columns_of(vars.drop_last(), k);
    if t < prev.len() {
        lemma_columns_of_origin(vars.drop_last(), k, t);
        let e = choose|e: int|
            0 <= e < vars.drop_last().len() && is_table_variable(#[trigger] vars.drop_last()[e].0)
                && name_parts(vars.drop_last()[e].0)[0] == k && prev[t].0 == name_parts(
                vars.drop_last()[e].0,
            )[1];
        assert(vars[e] == vars.drop_last()[e]);
    } else {
        let e = vars.len() - 1;
        assert(vars[e] == vars.last());
    }
}

/// A byte index that is a character boundary lies within the bytes.
proof fn lemma_boundary_within(b: Seq<u8>, i: int)
    requires
        valid_utf8(b),
        is_char_boundary(b, i),
    ensures
        0 <= i <= b.len(),
{
}

/// Column ids that can all be cut after their third byte can be shortened
/// and sorted, however long they are: reading the variables then succeeds
/// (see `tables_from_variables`), and an id such as `001EA` becomes `001`.
pub proof fn cuttable_ids_are_sortable(vars: Seq<(Seq<char>, Seq<char>)>)
    requires
        column_ids_cuttable(vars),
    ensures
        vars_sortable(vars),
{
    assert forall|e: int|
        0 <= e < vars.len() && is_table_variable(#[trigger] vars[e].0) implies columns_sortable(
        columns_of(vars, name_parts(vars[e].0)[0]),
    ) by {
        let k = name_parts(vars[e].0)[0];
        let cs = columns_of(vars, k);
        assert forall|j: int| 0 <= j < cs.len() implies {
            let b = bytes(#[trigger] cs[j].0);
            &&& b.len() > 3 ==> is_char_boundary(b, 3)
            &&& cs.len() >= 2 ==> b.len() >= 3
        } by {
            lemma_columns_of_origin(vars, k, j);
            let f = choose|f: int|
                0 <= f < vars.len() && is_table_variable(#[trigger] vars[f].0) && name_parts(
                    vars[f].0,
                )[0] == k && cs[j].0 == name_parts(vars[f].0)[1];
            assert(column_id_cuttable(name_parts(vars[f].0)[1]));
            lemma_boundary_within(bytes(cs[j].0), 3);
        }
    }
}

/// A column id that can be cut after its third byte is shortened to
/// exactly its first three bytes, whatever follows them.
pub proof fn short_id_keeps_three_bytes(c: Seq<char>)
    requires
        column_id_cuttable(c),
    ensures
        bytes(short_id(c)) == bytes(c).subrange(0, 3),
{
    let b = bytes(c);
    lemma_boundary_within(b, 3);
    if b.len() == 3 {
        assert(b.subrange(0, 3) =~= b);
    } else {
        assert(bytes(decode_utf8(b.subrange(0, 3))) == b.subrange(0, 3));
    }
}

/// `ts` are the tables of the variables `vars` for a year and estimate:
/// one per table id, each with that table's columns, their ids shortened,
/// sorted by id; and every table variable has its table.
pub open spec fn tables_of_vars(
    ts: Seq<Table>,
    vars: Seq<(Seq<char>, Seq<char>)>,
    year: Seq<char>,
    acs_est: Seq<char>,
) -> bool {
    &&& forall|i: int, j: int|
        0 <= i < j < ts.len() ==> #[trigger] ts[i].table_id@ != #[trigger] ts[j].table_id@
    &&& forall|i: int|
        0 <= i < ts.len() ==> {
            &&& (#[trigger] ts[i]).year@ == year
            &&& ts[i].acs_estimate@ == acs_est
            &&& columns_of(vars, ts[i].table_id@).len() > 0
            &&& is_stable_sort(
                record_views(ts[i].record@),
                short_columns(columns_of(vars, ts[i].table_id@)),
            )
        }
    &&& forall|e: int|
        0 <= e < vars.len() && is_table_variable(#[trigger] vars[e].0) ==> exists|i: int|
            0 <= i < ts.len() && #[trigger] ts[i].table_id@ == name_parts(vars[e].0)[0]
}

/// The tables of a year and estimate from the text of the variables
/// document: `Parse` when the text is not JSON, `ColumnId` when a table's
/// column ids cannot be shortened or compared.
pub fn tables_from_variables(year: &str, acs_est: &str, text: &str) -> (r: Result<
    Vec<Table>,
    ExploreError,
>)
    ensures
        match r {
            Ok(ts) => json_variables(text@) is Some && vars_sortable(json_variables(text@).unwrap())
                && tables_of_vars(ts@, json_variables(text@).unwrap(), year@, acs_est@),
            Err(e) => (e == ExploreError::Parse && json_variables(text@) is None) || (e
                == ExploreError::ColumnId && json_variables(text@) is Some && !vars_sortable(
                json_variables(text@).unwrap(),
            )),
        },
        json_variables(text@) is Some && column_ids_cuttable(json_variables(text@).unwrap())
            ==> r is Ok,
{
    let groups = match process_vars_data(text) {
        Ok(g) => g,
        Err(e) => {
            return Err(e);
        },
    };
    let ghost vars = json_variables(text@).unwrap();
    let ghost gv = group_views(groups@);
    assert forall|i: int| 0 <= i < groups.len() implies #[trigger] group_views(groups@)[i]
        == group_view(groups@[i]) by {}
    if !groups_sortable(&groups) {
        proof {
            if column_ids_cuttable(vars) {
                cuttable_ids_are_sortable(vars);
            }
            let i = choose|i: int| 0 <= i < groups.len() && !group_sortable(#[trigger] groups@[i]);
            assert(gv[i] == group_view(groups@[i]));
            assert(gv[i].1 == columns_of(vars, gv[i].0));
            lemma_columns_of_nonempty(vars, gv[i].0);
            let e = choose|e: int|
                0 <= e < vars.len() && is_table_variable(#[trigger] vars[e].0) && name_parts(
                    vars[e].0,
                )[0] == gv[i].0;
            assert(!columns_sortable(columns_of(vars, name_parts(vars[e].0)[0])));
        }
        return Err(ExploreError::ColumnId);
    }
    let tables = format_table(year, &groups, acs_est);
    proof {
        assert forall|e: int|
            0 <= e < vars.len() && is_table_variable(#[trigger] vars[e].0) implies columns_sortable(
            columns_of(vars, name_parts(vars[e].0)[0]),
        ) by {
            let i = choose|i: int| 0 <= i < gv.len() && #[trigger] gv[i].0 == name_parts(vars[e].0)[0];
            assert(gv[i] == group_view(groups@[i]));
            assert(gv[i].1 == columns_of(vars, gv[i].0));
            assert(group_sortable(groups@[i]));
        }
        assert forall|i: int| 0 <= i < tables.len() implies {
            &&& (#[trigger] tables@[i]).year@ == year@
            &&& tables@[i].acs_estimate@ == acs_est@
            &&& columns_of(vars, tables@[i].table_id@).len() > 0
            &&& is_stable_sort(
                record_views(tables@[i].record@),
                short_columns(columns_of(vars, tables@[i].table_id@)),
            )
        } by {
            assert(table_of_group(tables@[i], groups@[i], year@, acs_est@));
            assert(gv[i] == group_view(groups@[i]));
            assert(gv[i].1 == columns_of(vars, gv[i].0));
            assert(tables@[i].table_id@ == gv[i].0);
        }
        assert forall|a: int, b: int| 0 <= a < b < tables.len() implies #[trigger] tables@[a].table_id@
            != #[trigger] tables@[b].table_id@ by {
            assert(table_of_group(tables@[a], groups@[a], year@, acs_est@));
            assert(table_of_group(tables@[b], groups@[b], year@, acs_est@));
            assert(gv[a] == group_view(groups@[a]));
            assert(gv[b] == group_view(groups@[b]));
            assert(gv[a].0 != gv[b].0);
        }
        assert forall|e: int|
            0 <= e < vars.len() && is_table_variable(#[trigger] vars[e].0) implies exists|i: int|
            0 <= i < tables.len() && #[trigger] tables@[i].table_id@ == name_parts(vars[e].0)[0] by {
            let i = choose|i: int| 0 <= i < gv.len() && #[trigger] gv[i].0 == name_parts(vars[e].0)[0];
            assert(gv[i] == group_view(groups@[i]));
            assert(table_of_group(tables@[i], groups@[i], year@, acs_est@));
        }
    }
    Ok(tables)
}

} // verus!
