//! The explorer's options and its data: tables of the survey, their
//! columns, and the order in which tables and columns are listed.

use crate::order::{
    byte_order,
    compare_bytes,
    lemma_byte_order_concat,
    lemma_byte_order_equal,
    lemma_byte_order_reversed,
    lemma_byte_order_transitive,
    reversed,
};
use crate::text::{bytes, lemma_bytes_len};
use std::cmp::Ordering;
use vstd::prelude::*;
use vstd::string::{StrSliceExecFns, StringSliceAdditionalSpecFns};
use vstd::utf8::*;

verus! {

broadcast use {
    encode_utf8_valid_utf8,
    encode_utf8_decode_utf8,
    is_char_boundary_start_end_of_seq,
    valid_utf8_split,
};

/// The options the explorer is started with.
#[derive(Debug)]
pub struct CliCommand {
    pub year: String,
    pub estimate: String,
    pub load: bool,
    pub table_id: String,
    pub prettify: bool,
    pub config: bool,
    pub username: String,
    pub schema: String,
    pub database: String,
}

/// A table as the database holds it: its columns and the range of years
/// that it has been loaded for.
#[derive(Debug, Clone, PartialEq, Eq, Hash)]
pub struct TableVersion {
    pub table_id: String,
    pub min_year: i32,
    pub max_year: i32,
    pub record: Vec<TableRecord>,
}

/// A table of one year and one estimate of the survey.
#[derive(Debug, Clone, PartialEq, Eq, Hash)]
pub struct Table {
    pub table_id: String,
    pub year: String,
    pub acs_estimate: String,
    pub record: Vec<TableRecord>,
}

/// A column of a table: its id and its label.
#[derive(Debug, Clone, PartialEq, Eq, Hash)]
pub struct TableRecord {
    pub column_id: String,
    pub label: String,
}

impl View for TableRecord {
    type V = (Seq<char>, Seq<char>);

    open spec fn view(&self) -> (Seq<char>, Seq<char>) {
        (self.column_id@, self.label@)
    }
}

/// The (column id, label) pairs of a sequence of columns.
pub open spec fn record_views(rs: Seq<TableRecord>) -> Seq<(Seq<char>, Seq<char>)> {
    rs.map_values(|r: TableRecord| r@)
}

/// A table id can be cut after its first byte and again five bytes later,
/// both cuts falling between characters.
pub open spec fn table_id_cuttable(id: Seq<char>) -> bool {
    let b = bytes(id);
    is_char_boundary(b, 1) && is_char_boundary(b.subrange(1, b.len() as int), 5)
}

/// The parts of a table id, as bytes: its first byte (the prefix), the next
/// five (the table number), and the rest (the suffix) when the rest is a
/// single byte, else nothing.
pub open spec fn table_id_parts(id: Seq<char>) -> (Seq<u8>, Seq<u8>, Seq<u8>) {
    let b = bytes(id);
    let rest = b.subrange(6, b.len() as int);
    (b.subrange(0, 1), b.subrange(1, 6), if rest.len() == 1 {
        rest
    } else {
        seq![]
    })
}

/// The order of tables: by table number, then by prefix, and a table
/// without suffix before one with a suffix.
pub open spec fn table_order(a: Seq<char>, b: Seq<char>) -> Ordering {
    let x = table_id_parts(a);
    let y = table_id_parts(b);
    if x.1 != y.1 {
        byte_order(x.1, y.1)
    } else if x.0 != y.0 {
        byte_order(x.0, y.0)
    } else if x.2.len() == 0 && y.2.len() != 0 {
        Ordering::Less
    } else if x.2.len() != 0 && y.2.len() == 0 {
        Ordering::Greater
    } else {
        Ordering::Equal
    }
}

/// A column id can be cut after its third byte, between characters.
pub open spec fn column_id_cuttable(id: Seq<char>) -> bool {
    is_char_boundary(bytes(id), 3)
}

/// Splits a table id such as `B01001A` into its prefix `B`, its table
/// number `01001` and its one-character suffix `A` (empty unless exactly one
/// byte follows the number).
pub fn parse_table_id(id: &str) -> (r: (String, String, String))
    requires
        table_id_cuttable(id@),
    ensures
        bytes(r.0@) == table_id_parts(id@).0,
        bytes(r.1@) == table_id_parts(id@).1,
        bytes(r.2@) == table_id_parts(id@).2,
{
    let (prefix, i) = id.split_at(1);
    let (table, rest) = i.split_at(5);
    proof {
        let b = bytes(id@);
        assert(b.subrange(1, b.len() as int).subrange(5, b.len() - 1) =~= b.subrange(
            6,
            b.len() as int,
        ));
        assert(b.subrange(1, b.len() as int).subrange(0, 5) =~= b.subrange(1, 6));
    }
    proof {
        lemma_bytes_len(rest@);
    }
    if rest.unicode_len() == 1 && (rest.get_char(0) as u32) < 128 {
        (prefix.to_owned(), table.to_owned(), rest.to_owned())
    } else {
        let empty = String::new();
        assert(bytes(empty@) =~= Seq::<u8>::empty());
        (prefix.to_owned(), table.to_owned(), empty)
    }
}

/// Splits a column id such as `001E` into its first three bytes and the
/// rest.
pub fn parse_column_id(id: &str) -> (r: (String, String))
    requires
        column_id_cuttable(id@),
    ensures
        bytes(r.0@) == bytes(id@).subrange(0, 3),
        bytes(r.1@) == bytes(id@).subrange(3, bytes(id@).len() as int),
        bytes(id@) == bytes(r.0@) + bytes(r.1@),
{
    let (column, rest) = id.split_at(3);
    proof {
        let b = bytes(id@);
        assert(b =~= b.subrange(0, 3) + b.subrange(3, b.len() as int));
    }
    (column.to_owned(), rest.to_owned())
}

/// Two strings are equal exactly when their bytes are.
pub proof fn lemma_bytes_injective(a: Seq<char>, b: Seq<char>)
    ensures
        (bytes(a) == bytes(b)) <==> (a == b),
{
    if bytes(a) == bytes(b) {
        assert(decode_utf8(encode_utf8(a)) == a);
        assert(decode_utf8(encode_utf8(b)) == b);
    }
}

impl Table {
    /// Compares two tables: by table number, then by prefix, and a table
    /// without suffix comes before one with a suffix.
    pub fn cmp(&self, other: &Table) -> (r: Ordering)
        requires
            table_id_cuttable(self.table_id@),
            table_id_cuttable(other.table_id@),
        ensures
            r == table_order(self.table_id@, other.table_id@),
    {
        let (p1, t1, s1) = parse_table_id(self.table_id.as_str());
        let (p2, t2, s2) = parse_table_id(other.table_id.as_str());
        proof {
            lemma_bytes_injective(t1@, t2@);
            lemma_bytes_injective(p1@, p2@);
            lemma_bytes_len(s1@);
            lemma_bytes_len(s2@);
        }
        if !(t1 == t2) {
            compare_bytes(t1.as_str().as_bytes(), t2.as_str().as_bytes())
        } else if !(p1 == p2) {
            compare_bytes(p1.as_str().as_bytes(), p2.as_str().as_bytes())
        } else if s1.as_str().is_empty() && !s2.as_str().is_empty() {
            Ordering::Less
        } else if !s1.as_str().is_empty() && s2.as_str().is_empty() {
            Ordering::Greater
        } else {
            Ordering::Equal
        }
    }

    /// The comparison of `cmp`, always defined.
    pub fn partial_cmp(&self, other: &Table) -> (r: Option<Ordering>)
        requires
            table_id_cuttable(self.table_id@),
            table_id_cuttable(other.table_id@),
        ensures
            r == Some(table_order(self.table_id@, other.table_id@)),
    {
        Some(self.cmp(other))
    }
}

impl TableRecord {
    /// Compares two columns by their ids: by the first three bytes, then by
    /// the rest. This is the byte order of the whole ids.
    pub fn cmp(&self, other: &TableRecord) -> (r: Ordering)
        requires
            column_id_cuttable(self.column_id@),
            column_id_cuttable(other.column_id@),
        ensures
            r == byte_order(bytes(self.column_id@), bytes(other.column_id@)),
    {
        let (c1, s1) = parse_column_id(self.column_id.as_str());
        let (c2, s2) = parse_column_id(other.column_id.as_str());
        proof {
            lemma_bytes_injective(c1@, c2@);
            lemma_bytes_injective(s1@, s2@);
            lemma_byte_order_equal(bytes(c1@), bytes(c2@));
            lemma_byte_order_equal(bytes(s1@), bytes(s2@));
            lemma_byte_order_concat(bytes(c1@), bytes(s1@), bytes(c2@), bytes(s2@));
        }
        if !(c1 == c2) {
            compare_bytes(c1.as_str().as_bytes(), c2.as_str().as_bytes())
        } else if !(s1 == s2) {
            compare_bytes(s1.as_str().as_bytes(), s2.as_str().as_bytes())
        } else {
            Ordering::Equal
        }
    }

    /// The comparison of `cmp`, always defined.
    pub fn partial_cmp(&self, other: &TableRecord) -> (r: Option<Ordering>)
        requires
            column_id_cuttable(self.column_id@),
            column_id_cuttable(other.column_id@),
        ensures
            r == Some(byte_order(bytes(self.column_id@), bytes(other.column_id@))),
    {
        Some(self.cmp(other))
    }
}

/// Comparing two tables the other way round gives the opposite outcome.
pub proof fn table_order_reverses(a: Seq<char>, b: Seq<char>)
    ensures
        table_order(b, a) == reversed(table_order(a, b)),
{
    let x = table_id_parts(a);
    let y = table_id_parts(b);
    lemma_byte_order_reversed(x.1, y.1);
    lemma_byte_order_reversed(x.0, y.0);
}

/// The order of tables is transitive: if `a` comes no later than `b` and
/// `b` no later than `c`, then `a` comes no later than `c`.
pub proof fn table_order_transitive(a: Seq<char>, b: Seq<char>, c: Seq<char>)
    requires
        table_order(a, b) != Ordering::Greater,
        table_order(b, c) != Ordering::Greater,
    ensures
        table_order(a, c) != Ordering::Greater,
{
    let x = table_id_parts(a);
    let y = table_id_parts(b);
    let z = table_id_parts(c);
    lemma_byte_order_equal(x.1, y.1);
    lemma_byte_order_equal(y.1, z.1);
    lemma_byte_order_equal(x.1, z.1);
    lemma_byte_order_equal(x.0, y.0);
    lemma_byte_order_equal(y.0, z.0);
    lemma_byte_order_equal(x.0, z.0);
    if byte_order(x.1, y.1) != Ordering::Greater && byte_order(y.1, z.1) != Ordering::Greater {
        lemma_byte_order_transitive(x.1, y.1, z.1);
    }
    if byte_order(x.0, y.0) != Ordering::Greater && byte_order(y.0, z.0) != Ordering::Greater {
        lemma_byte_order_transitive(x.0, y.0, z.0);
    }
}

/// Two columns compare equal exactly when their ids are the same.
pub proof fn column_order_equal_iff_same_id(a: Seq<char>, b: Seq<char>)
    ensures
        (byte_order(bytes(a), bytes(b)) == Ordering::Equal) <==> (a == b),
{
    lemma_byte_order_equal(bytes(a), bytes(b));
    lemma_bytes_injective(a, b);
}

} // verus!
