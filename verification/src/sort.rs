//! Stable sorting of columns by their ids.

use crate::cli::{column_id_cuttable, record_views, TableRecord};
use crate::order::{
    byte_order,
    bytes_le,
    is_greater,
    lemma_byte_order_equal,
    lemma_byte_order_reversed,
    lemma_byte_order_transitive,
};
use crate::text::bytes;
use std::cmp::Ordering;
use vstd::prelude::*;

verus! {

/// The sort key of a column (id, label): the bytes of its id.
pub open spec fn column_key(r: (Seq<char>, Seq<char>)) -> Seq<u8> {
    bytes(r.0)
}

/// The columns are in byte order of their ids.
pub open spec fn sorted_by_id(s: Seq<(Seq<char>, Seq<char>)>) -> bool {
    forall|i: int, j: int|
        0 <= i < j < s.len() ==> bytes_le(#[trigger] column_key(s[i]), #[trigger] column_key(s[j]))
}

/// The columns of `s` whose id has the bytes `k`, in their order in `s`.
pub open spec fn with_id(s: Seq<(Seq<char>, Seq<char>)>, k: Seq<u8>) -> Seq<
    (Seq<char>, Seq<char>),
>
    decreases s.len(),
{
    if s.len() == 0 {
        seq![]
    } else if column_key(s.last()) == k {
        with_id(s.drop_last(), k).push(s.last())
    } else {
        with_id(s.drop_last(), k)
    }
}

/// `out` holds the columns of `inp` sorted by id, and columns with the same
/// id keep their order in `inp`: `out` is the stable sort of `inp`.
pub open spec fn is_stable_sort(
    out: Seq<(Seq<char>, Seq<char>)>,
    inp: Seq<(Seq<char>, Seq<char>)>,
) -> bool {
    &&& sorted_by_id(out)
    &&& forall|k: Seq<u8>| #[trigger] with_id(out, k) == with_id(inp, k)
}

/// Selecting by id distributes over concatenation.
pub proof fn lemma_with_id_concat(
    a: Seq<(Seq<char>, Seq<char>)>,
    b: Seq<(Seq<char>, Seq<char>)>,
    k: Seq<u8>,
)
    ensures
        with_id(a + b, k) == with_id(a, k) + with_id(b, k),
    decreases b.len(),
{
    if b.len() == 0 {
        assert(a + b =~= a);
        assert(with_id(a, k) + with_id(b, k) =~= with_id(a, k));
    } else {
        assert((a + b).drop_last() =~= a + b.drop_last());
        lemma_with_id_concat(a, b.drop_last(), k);
        if column_key(b.last()) == k {
            assert(with_id(a, k) + with_id(b.drop_last(), k).push(b.last()) =~= (with_id(a, k)
                + with_id(b.drop_last(), k)).push(b.last()));
        }
    }
}

/// No column of `s` has id `k`: selecting `k` gives nothing.
pub proof fn lemma_with_id_absent(s: Seq<(Seq<char>, Seq<char>)>, k: Seq<u8>)
    requires
        forall|i: int| 0 <= i < s.len() ==> column_key(#[trigger] s[i]) != k,
    ensures
        with_id(s, k) == Seq::<(Seq<char>, Seq<char>)>::empty(),
    decreases s.len(),
{
    if s.len() > 0 {
        lemma_with_id_absent(s.drop_last(), k);
    }
}

/// A column of `s` is among the columns that share its id.
proof fn lemma_with_id_has(s: Seq<(Seq<char>, Seq<char>)>, i: int)
    requires
        0 <= i < s.len(),
    ensures
        with_id(s, column_key(s[i])).contains(s[i]),
    decreases s.len(),
{
    let k = column_key(s[i]);
    if i == s.len() - 1 {
        assert(with_id(s, k).last() == s[i]);
    } else {
        lemma_with_id_has(s.drop_last(), i);
        let w = with_id(s.drop_last(), k);
        let j = choose|j: int| 0 <= j < w.len() && w[j] == s[i];
        if column_key(s.last()) == k {
            assert(w.push(s.last())[j] == s[i]);
        }
    }
}

/// The columns that share an id are columns of `s`.
proof fn lemma_with_id_from(s: Seq<(Seq<char>, Seq<char>)>, k: Seq<u8>, j: int)
    requires
        0 <= j < with_id(s, k).len(),
    ensures
        s.contains(with_id(s, k)[j]),
    decreases s.len(),
{
    if s.len() > 0 {
        let w = with_id(s.drop_last(), k);
        if column_key(s.last()) == k && j == w.len() {
            assert(s[s.len() - 1] == s.last());
        } else {
            lemma_with_id_from(s.drop_last(), k, j);
            let t = choose|t: int| 0 <= t < s.drop_last().len() && s.drop_last()[t] == w[j];
            assert(s[t] == w[j]);
            if column_key(s.last()) == k {
                assert(w.push(s.last())[j] == w[j]);
            }
        }
    }
}

/// A stable sort invents no column: each column of the result is a column
/// of the input.
pub proof fn stable_sort_members(
    out: Seq<(Seq<char>, Seq<char>)>,
    inp: Seq<(Seq<char>, Seq<char>)>,
    i: int,
)
    requires
        is_stable_sort(out, inp),
        0 <= i < out.len(),
    ensures
        inp.contains(out[i]),
{
    let k = column_key(out[i]);
    lemma_with_id_has(out, i);
    let w = with_id(out, k);
    let j = choose|j: int| 0 <= j < w.len() && w[j] == out[i];
    assert(with_id(out, k) == with_id(inp, k));
    lemma_with_id_from(inp, k, j);
}

/// Inserting `x` into a sorted sequence after every column whose id is no
/// greater, and before every column whose id is greater, keeps it sorted and
/// appends `x` to the columns that share its id.
pub proof fn lemma_insert_sorted(s: Seq<(Seq<char>, Seq<char>)>, p: int, x: (Seq<char>, Seq<char>))
    requires
        sorted_by_id(s),
        0 <= p <= s.len(),
        p > 0 ==> bytes_le(column_key(s[p - 1]), column_key(x)),
        forall|j: int|
            p <= j < s.len() ==> byte_order(column_key(#[trigger] s[j]), column_key(x))
                == Ordering::Greater,
    ensures
        sorted_by_id(s.insert(p, x)),
        forall|k: Seq<u8>| #[trigger]
            with_id(s.insert(p, x), k) == if k == column_key(x) {
                with_id(s, k).push(x)
            } else {
                with_id(s, k)
            },
{
    let t = s.insert(p, x);
    assert forall|i: int, j: int| 0 <= i < j < t.len() implies bytes_le(
        #[trigger] column_key(t[i]),
        #[trigger] column_key(t[j]),
    ) by {
        if i < p && j < p {
            assert(t[i] == s[i] && t[j] == s[j]);
        } else if i < p && j == p {
            if i < p - 1 {
                lemma_byte_order_transitive(
                    column_key(s[i]),
                    column_key(s[p - 1]),
                    column_key(x),
                );
            }
        } else if i < p && j > p {
            assert(t[j] == s[j - 1]);
        } else if i == p {
            assert(t[j] == s[j - 1]);
            lemma_byte_order_reversed(column_key(s[j - 1]), column_key(x));
        } else {
            assert(t[i] == s[i - 1] && t[j] == s[j - 1]);
        }
    }
    assert forall|k: Seq<u8>| #[trigger]
        with_id(s.insert(p, x), k) == if k == column_key(x) {
            with_id(s, k).push(x)
        } else {
            with_id(s, k)
        } by {
        let a = s.take(p);
        let b = s.skip(p);
        assert(t =~= a + seq![x] + b);
        assert(s =~= a + b);
        lemma_with_id_concat(a + seq![x], b, k);
        lemma_with_id_concat(a, seq![x], k);
        lemma_with_id_concat(a, b, k);
        assert(seq![x].drop_last() =~= Seq::<(Seq<char>, Seq<char>)>::empty());
        assert(seq![x].last() == x);
        assert(with_id(Seq::<(Seq<char>, Seq<char>)>::empty(), k) =~= Seq::<
            (Seq<char>, Seq<char>),
        >::empty());
        if k == column_key(x) {
            assert(with_id(seq![x], k) =~= seq![x]);
            assert forall|i: int| 0 <= i < b.len() implies column_key(#[trigger] b[i]) != k by {
                assert(b[i] == s[p + i]);
                lemma_byte_order_equal(column_key(s[p + i]), column_key(x));
            }
            lemma_with_id_absent(b, k);
            assert(with_id(a, k) + seq![x] + with_id(b, k) =~= (with_id(a, k) + with_id(
                b,
                k,
            )).push(x));
        } else {
            assert(with_id(seq![x], k) =~= Seq::<(Seq<char>, Seq<char>)>::empty());
            assert(with_id(a, k) + with_id(seq![x], k) =~= with_id(a, k));
        }
    }
}

/// Sorts columns by id, keeping columns with the same id in their order
/// (as `sort_by` with the column order does). Comparing needs every id to
/// be cut after its third byte; with fewer than two columns nothing is
/// compared.
pub fn sort_records(v: Vec<TableRecord>) -> (out: Vec<TableRecord>)
    requires
        v.len() >= 2 ==> forall|i: int|
            0 <= i < v.len() ==> column_id_cuttable(#[trigger] v@[i].column_id@),
    ensures
        is_stable_sort(record_views(out@), record_views(v@)),
        out.len() == v.len(),
{
    let mut out: Vec<TableRecord> = Vec::new();
    let mut rest = v;
    let ghost vs = rest@;
    let ghost mut n: int = 0;
    assert(vs.skip(0) =~= vs);
    assert(record_views(vs.take(0)) =~= Seq::<(Seq<char>, Seq<char>)>::empty());
    assert(record_views(out@) =~= Seq::<(Seq<char>, Seq<char>)>::empty());
    while rest.len() > 0
        invariant
            out.len() + rest.len() == vs.len(),
            n == out.len(),
            rest@ == vs.skip(n),
            vs.len() >= 2 ==> forall|i: int|
                0 <= i < vs.len() ==> column_id_cuttable(#[trigger] vs[i].column_id@),
            vs.len() >= 2 ==> forall|i: int|
                0 <= i < out.len() ==> column_id_cuttable(#[trigger] out@[i].column_id@),
            is_stable_sort(record_views(out@), record_views(vs.take(n))),
        decreases rest.len(),
    {
        let x = rest.remove(0);
        assert(x == vs[n]);
        let mut p = out.len();
        let ghost mut gp: int = n;
        while p > 0 && is_greater(out[p - 1].cmp(&x))
            invariant
                gp == p,
                p <= out.len(),
                n == out.len(),
                out.len() + rest.len() + 1 == vs.len(),
                p > 0 ==> vs.len() >= 2,
                vs.len() >= 2 ==> forall|i: int|
                    0 <= i < out.len() ==> column_id_cuttable(#[trigger] out@[i].column_id@),
                vs.len() >= 2 ==> column_id_cuttable(x.column_id@),
                forall|j: int|
                    gp <= j < out.len() ==> byte_order(
                        column_key(#[trigger] record_views(out@)[j]),
                        column_key(x@),
                    ) == Ordering::Greater,
            decreases p,
        {
            p -= 1;
            proof {
                gp = gp - 1;
            }
        }
        let ghost before = record_views(out@);
        proof {
            lemma_insert_sorted(before, gp, x@);
        }
        out.insert(p, x);
        proof {
            assert(record_views(out@) =~= before.insert(gp, x@));
            assert(vs.take(n + 1) =~= vs.take(n).push(x));
            assert(record_views(vs.take(n + 1)) =~= record_views(vs.take(n)).push(x@));
            assert(record_views(vs.take(n + 1)).drop_last() =~= record_views(vs.take(n)));
            assert forall|k: Seq<u8>| #[trigger]
                with_id(record_views(out@), k) == with_id(record_views(vs.take(n + 1)), k) by {
                assert(with_id(before.insert(gp, x@), k) == if k == column_key(x@) {
                    with_id(before, k).push(x@)
                } else {
                    with_id(before, k)
                });
            }
            assert(rest@ =~= vs.skip(n + 1));
            n = n + 1;
        }
    }
    assert(vs.take(n) =~= vs);
    out
}

} // verus!
