//! The rows of a store as a sequence in the order of listings, and the
//! mapping that such a sequence holds.

use vstd::prelude::*;
use crate::names::{valid_name, valid_value};
use crate::text::{lemma_lex_irreflexive, lemma_lex_transitive, lex_lt};

verus! {

/// One stored value with the database and the key it stands under.
pub struct Row {
    pub database: Seq<char>,
    pub key: Seq<char>,
    pub value: Seq<char>,
}

/// Whether every part of a row is acceptable.
pub open spec fn valid_row(r: Row) -> bool {
    valid_name(r.database) && valid_name(r.key) && valid_value(r.value)
}

/// The order of listings: by key, and among equal keys by database.
pub open spec fn row_lt(a: Row, b: Row) -> bool {
    lex_lt(a.key, b.key) || (a.key == b.key && lex_lt(a.database, b.database))
}

/// Whether row `i` stands under the database and key `n`.
pub open spec fn row_named(rows: Seq<Row>, i: int, n: (Seq<char>, Seq<char>)) -> bool {
    0 <= i < rows.len() && rows[i].database == n.0 && rows[i].key == n.1
}

/// The mapping from (database, key) to value that a sequence of rows holds.
pub open spec fn rows_map(rows: Seq<Row>) -> Map<(Seq<char>, Seq<char>), Seq<char>> {
    Map::new(
        |n: (Seq<char>, Seq<char>)| exists|i: int| row_named(rows, i, n),
        |n: (Seq<char>, Seq<char>)| rows[choose|i: int| row_named(rows, i, n)].value,
    )
}

/// Whether the rows stand in strictly increasing order.
pub open spec fn rows_sorted(rows: Seq<Row>) -> bool {
    forall|i: int, j: int| 0 <= i < j < rows.len() ==> row_lt(#[trigger] rows[i], #[trigger] rows[j])
}

/// Whether every row is acceptable.
pub open spec fn rows_valid(rows: Seq<Row>) -> bool {
    forall|i: int| 0 <= i < rows.len() ==> valid_row(#[trigger] rows[i])
}

/// The order of rows is transitive.
pub proof fn lemma_row_lt_transitive(a: Row, b: Row, c: Row)
    requires
        row_lt(a, b),
        row_lt(b, c),
    ensures
        row_lt(a, c),
{
    lemma_lex_irreflexive(a.key);
    lemma_lex_irreflexive(c.key);
    if lex_lt(a.key, b.key) && lex_lt(b.key, c.key) {
        lemma_lex_transitive(a.key, b.key, c.key);
    }
    if a.key == b.key && b.key == c.key {
        lemma_lex_transitive(a.database, b.database, c.database);
    }
}

/// In sorted rows no database and key occur twice.
pub proof fn lemma_rows_unique(rows: Seq<Row>, i: int, j: int, n: (Seq<char>, Seq<char>))
    requires
        rows_sorted(rows),
        row_named(rows, i, n),
        row_named(rows, j, n),
    ensures
        i == j,
{
    lemma_lex_irreflexive(n.0);
    lemma_lex_irreflexive(n.1);
    if i < j {
        assert(row_lt(rows[i], rows[j]));
    }
    if j < i {
        assert(row_lt(rows[j], rows[i]));
    }
}

/// Sorted rows map the name of each row to that row's value.
pub proof fn lemma_rows_lookup(rows: Seq<Row>, i: int)
    requires
        rows_sorted(rows),
        0 <= i < rows.len(),
    ensures
        rows_map(rows).contains_key((rows[i].database, rows[i].key)),
        rows_map(rows)[(rows[i].database, rows[i].key)] == rows[i].value,
{
    let n = (rows[i].database, rows[i].key);
    assert(row_named(rows, i, n));
    let j = choose|j: int| row_named(rows, j, n);
    lemma_rows_unique(rows, i, j, n);
}

/// Putting a row into its place in sorted rows keeps them sorted and adds
/// its value under its name.
pub proof fn lemma_rows_insert(rows: Seq<Row>, i: int, r: Row)
    requires
        rows_sorted(rows),
        0 <= i <= rows.len(),
        forall|j: int| 0 <= j < i ==> row_lt(#[trigger] rows[j], r),
        forall|j: int| i <= j < rows.len() ==> row_lt(r, #[trigger] rows[j]),
    ensures
        rows_sorted(rows.insert(i, r)),
        rows_map(rows.insert(i, r)) == rows_map(rows).insert((r.database, r.key), r.value),
{
    let new = rows.insert(i, r);
    let k = (r.database, r.key);
    assert forall|a: int, b: int| 0 <= a < b < new.len() implies row_lt(
        #[trigger] new[a],
        #[trigger] new[b],
    ) by {
        if a < i && b > i {
            assert(row_lt(rows[a], r));
            assert(row_lt(r, rows[b - 1]));
            lemma_row_lt_transitive(rows[a], r, rows[b - 1]);
        } else if a < i && b < i {
            assert(row_lt(rows[a], rows[b]));
        } else if a > i {
            assert(row_lt(rows[a - 1], rows[b - 1]));
        }
    }
    let m1 = rows_map(new);
    let m2 = rows_map(rows).insert(k, r.value);
    lemma_lex_irreflexive(r.key);
    lemma_lex_irreflexive(r.database);
    assert forall|n: (Seq<char>, Seq<char>)| m1.contains_key(n) <==> m2.contains_key(n) by {
        if m1.contains_key(n) {
            let j = choose|j: int| row_named(new, j, n);
            if j != i {
                let j2 = if j < i { j } else { j - 1 };
                assert(row_named(rows, j2, n));
            }
        }
        if m2.contains_key(n) {
            if n == k {
                assert(row_named(new, i, n));
            } else {
                let j = choose|j: int| row_named(rows, j, n);
                let j2 = if j < i { j } else { j + 1 };
                assert(row_named(new, j2, n));
            }
        }
    }
    assert forall|n: (Seq<char>, Seq<char>)| m1.contains_key(n) implies m1[n] == m2[n] by {
        let j = choose|j: int| row_named(new, j, n);
        lemma_rows_lookup(new, j);
        if j != i {
            let j2 = if j < i { j } else { j - 1 };
            assert(row_named(rows, j2, n));
            lemma_rows_lookup(rows, j2);
            if n == k {
                if j2 < i {
                    assert(row_lt(rows[j2], r));
                } else {
                    assert(row_lt(r, rows[j2]));
                }
            }
        }
    }
    assert(m1 =~= m2);
}

/// Replacing the value of a row keeps sorted rows sorted and puts the new
/// value under the row's name.
pub proof fn lemma_rows_update(rows: Seq<Row>, i: int, v: Seq<char>)
    requires
        rows_sorted(rows),
        0 <= i < rows.len(),
    ensures
        rows_sorted(rows.update(i, Row { database: rows[i].database, key: rows[i].key, value: v })),
        rows_map(rows.update(i, Row { database: rows[i].database, key: rows[i].key, value: v }))
            == rows_map(rows).insert((rows[i].database, rows[i].key), v),
{
    let r = Row { database: rows[i].database, key: rows[i].key, value: v };
    let new = rows.update(i, r);
    let k = (r.database, r.key);
    assert forall|a: int, b: int| 0 <= a < b < new.len() implies row_lt(
        #[trigger] new[a],
        #[trigger] new[b],
    ) by {
        assert(row_lt(rows[a], rows[b]));
    }
    let m1 = rows_map(new);
    let m2 = rows_map(rows).insert(k, v);
    assert forall|n: (Seq<char>, Seq<char>)| m1.contains_key(n) <==> m2.contains_key(n) by {
        if m1.contains_key(n) {
            let j = choose|j: int| row_named(new, j, n);
            assert(row_named(rows, j, n));
        }
        if m2.contains_key(n) {
            if n == k {
                assert(row_named(new, i, n));
            } else {
                let j = choose|j: int| row_named(rows, j, n);
                assert(row_named(new, j, n));
            }
        }
    }
    assert forall|n: (Seq<char>, Seq<char>)| m1.contains_key(n) implies m1[n] == m2[n] by {
        let j = choose|j: int| row_named(new, j, n);
        lemma_rows_lookup(new, j);
        assert(row_named(rows, j, n));
        lemma_rows_lookup(rows, j);
        if n == k {
            assert(row_named(rows, i, n));
            lemma_rows_unique(rows, i, j, n);
        }
    }
    assert(m1 =~= m2);
}

/// Taking a row out of sorted rows keeps them sorted and removes its name.
pub proof fn lemma_rows_remove(rows: Seq<Row>, i: int)
    requires
        rows_sorted(rows),
        0 <= i < rows.len(),
    ensures
        rows_sorted(rows.remove(i)),
        rows_map(rows.remove(i)) == rows_map(rows).remove((rows[i].database, rows[i].key)),
{
    let new = rows.remove(i);
    let k = (rows[i].database, rows[i].key);
    assert forall|a: int, b: int| 0 <= a < b < new.len() implies row_lt(
        #[trigger] new[a],
        #[trigger] new[b],
    ) by {
        let a2 = if a < i { a } else { a + 1 };
        let b2 = if b < i { b } else { b + 1 };
        assert(row_lt(rows[a2], rows[b2]));
    }
    let m1 = rows_map(new);
    let m2 = rows_map(rows).remove(k);
    assert forall|n: (Seq<char>, Seq<char>)| m1.contains_key(n) <==> m2.contains_key(n) by {
        if m1.contains_key(n) {
            let j = choose|j: int| row_named(new, j, n);
            let j2 = if j < i { j } else { j + 1 };
            assert(row_named(rows, j2, n));
            if n == k {
                assert(row_named(rows, i, n));
                lemma_rows_unique(rows, i, j2, n);
            }
        }
        if m2.contains_key(n) {
            let j = choose|j: int| row_named(rows, j, n);
            let j2 = if j < i { j } else { j - 1 };
            assert(row_named(new, j2, n));
        }
    }
    assert forall|n: (Seq<char>, Seq<char>)| m1.contains_key(n) implies m1[n] == m2[n] by {
        let j = choose|j: int| row_named(new, j, n);
        lemma_rows_lookup(new, j);
        let j2 = if j < i { j } else { j + 1 };
        assert(row_named(rows, j2, n));
        lemma_rows_lookup(rows, j2);
    }
    assert(m1 =~= m2);
}

/// Whether a listing of the given scope shows a row.
pub open spec fn in_scope(r: Row, s: Option<Seq<char>>) -> bool {
    match s {
        Some(d) => r.database == d,
        None => true,
    }
}

/// The keys and values of the rows that a listing of the given scope shows,
/// in the order of the rows.
pub open spec fn listed(rows: Seq<Row>, s: Option<Seq<char>>) -> Seq<(Seq<char>, Seq<char>)>
    decreases rows.len(),
{
    if rows.len() == 0 {
        Seq::empty()
    } else if in_scope(rows[0], s) {
        seq![(rows[0].key, rows[0].value)] + listed(rows.skip(1), s)
    } else {
        listed(rows.skip(1), s)
    }
}

/// The keys of a sequence of keys and values.
pub open spec fn keys_of(entries: Seq<(Seq<char>, Seq<char>)>) -> Seq<Seq<char>> {
    Seq::new(entries.len(), |i: int| entries[i].0)
}

/// The texts of a sequence of strings.
pub open spec fn text_views(v: Seq<String>) -> Seq<Seq<char>> {
    Seq::new(v.len(), |i: int| v[i]@)
}

/// The rows that a sequence of (database, key, value) triples stands for.
pub open spec fn rows_of(records: Seq<(String, String, String)>) -> Seq<Row> {
    Seq::new(
        records.len(),
        |i: int| Row { database: records[i].0@, key: records[i].1@, value: records[i].2@ },
    )
}

/// A listing of all databases shows every row, in the order of the rows.
pub proof fn lemma_listed_all(rows: Seq<Row>)
    ensures
        listed(rows, None) == Seq::new(rows.len(), |i: int| (rows[i].key, rows[i].value)),
    decreases rows.len(),
{
    if rows.len() > 0 {
        lemma_listed_all(rows.skip(1));
    }
    assert(listed(rows, None) =~= Seq::new(rows.len(), |i: int| (rows[i].key, rows[i].value)));
}

/// Sorted rows are determined by the mapping they hold: two sorted sequences
/// of rows with one mapping are the same sequence.
pub proof fn lemma_rows_determined(a: Seq<Row>, b: Seq<Row>)
    requires
        rows_sorted(a),
        rows_sorted(b),
        rows_map(a) == rows_map(b),
    ensures
        a == b,
    decreases a.len(),
{
    if a.len() == 0 || b.len() == 0 {
        if b.len() > 0 {
            lemma_rows_lookup(b, 0);
            let n = (b[0].database, b[0].key);
            assert(rows_map(a).contains_key(n));
            let i = choose|i: int| row_named(a, i, n);
            assert(row_named(a, i, n));
        }
        if a.len() > 0 {
            lemma_rows_lookup(a, 0);
            let n = (a[0].database, a[0].key);
            assert(rows_map(b).contains_key(n));
            let i = choose|i: int| row_named(b, i, n);
            assert(row_named(b, i, n));
        }
        assert(a =~= b);
    } else {
        let na = (a[0].database, a[0].key);
        let nb = (b[0].database, b[0].key);
        lemma_rows_lookup(a, 0);
        lemma_rows_lookup(b, 0);
        assert(rows_map(b).contains_key(na));
        assert(rows_map(a).contains_key(nb));
        let j = choose|j: int| row_named(b, j, na);
        let i = choose|i: int| row_named(a, i, nb);
        assert(row_named(b, j, na));
        assert(row_named(a, i, nb));
        if j > 0 {
            assert(row_lt(b[0], b[j]));
            if i > 0 {
                assert(row_lt(a[0], a[i]));
                lemma_row_lt_transitive(a[0], a[i], a[0]);
                lemma_lex_irreflexive(a[0].key);
                lemma_lex_irreflexive(a[0].database);
            } else {
                assert(row_named(b, 0, na));
                lemma_rows_unique(b, 0, j, na);
            }
        }
        assert(j == 0);
        assert(a[0] == b[0]);
        lemma_rows_remove(a, 0);
        lemma_rows_remove(b, 0);
        lemma_rows_determined(a.remove(0), b.remove(0));
        assert(a =~= seq![a[0]] + a.remove(0));
        assert(b =~= seq![b[0]] + b.remove(0));
    }
}

/// Whether a listing shows `key` with `value` at place `i`.
pub open spec fn shows(
    l: Seq<(Seq<char>, Seq<char>)>,
    i: int,
    key: Seq<char>,
    value: Seq<char>,
) -> bool {
    0 <= i < l.len() && l[i] == (key, value)
}

/// Whether a listing shows `key` with `value` somewhere.
pub open spec fn shown_in(l: Seq<(Seq<char>, Seq<char>)>, key: Seq<char>, value: Seq<char>) -> bool {
    exists|i: int| shows(l, i, key, value)
}

/// Whether row `j` stands in the database `d` and holds the entry `e`.
pub open spec fn row_holds(rows: Seq<Row>, j: int, d: Seq<char>, e: (Seq<char>, Seq<char>)) -> bool {
    row_named(rows, j, (d, e.0)) && rows[j].value == e.1
}

/// Whether some row stands in the database `d` and holds the entry `e`.
pub open spec fn held_in(rows: Seq<Row>, d: Seq<char>, e: (Seq<char>, Seq<char>)) -> bool {
    exists|j: int| row_holds(rows, j, d, e)
}

/// The listing of one database, taken from sorted rows, shows the rows of
/// that database and nothing else, in strictly increasing order of keys.
pub proof fn lemma_listed_database(rows: Seq<Row>, d: Seq<char>)
    requires
        rows_sorted(rows),
    ensures
        forall|i: int|
            0 <= i < listed(rows, Some(d)).len() ==> held_in(
                rows,
                d,
                #[trigger] listed(rows, Some(d))[i],
            ),
        forall|j: int|
            0 <= j < rows.len() && (#[trigger] rows[j]).database == d ==> shown_in(
                listed(rows, Some(d)),
                rows[j].key,
                rows[j].value,
            ),
        forall|a: int, b: int|
            0 <= a < b < listed(rows, Some(d)).len() ==> lex_lt(
                (#[trigger] listed(rows, Some(d))[a]).0,
                (#[trigger] listed(rows, Some(d))[b]).0,
            ),
    decreases rows.len(),
{
    if rows.len() > 0 {
        let tail = rows.skip(1);
        let all = listed(rows, Some(d));
        let rest = listed(tail, Some(d));
        assert(rows_sorted(tail)) by {
            assert forall|a: int, b: int| 0 <= a < b < tail.len() implies row_lt(
                #[trigger] tail[a],
                #[trigger] tail[b],
            ) by {
                assert(row_lt(rows[a + 1], rows[b + 1]));
            }
        }
        lemma_listed_database(tail, d);
        let off: int = if rows[0].database == d { 1 } else { 0 };
        assert(all.len() == rest.len() + off);
        assert forall|i: int| off <= i < all.len() implies #[trigger] all[i] == rest[i - off] by {}
        assert forall|i: int| 0 <= i < all.len() implies held_in(rows, d, #[trigger] all[i]) by {
            if i < off {
                assert(row_holds(rows, 0, d, all[i]));
            } else {
                let e = rest[i - off];
                assert(held_in(tail, d, e));
                let j = choose|j: int| row_holds(tail, j, d, e);
                assert(row_holds(tail, j, d, e));
                assert(tail[j] == rows[j + 1]);
                assert(row_holds(rows, j + 1, d, all[i]));
            }
        }
        assert forall|j: int| 0 <= j < rows.len() && (#[trigger] rows[j]).database
            == d implies shown_in(all, rows[j].key, rows[j].value) by {
            if j == 0 {
                assert(shows(all, 0, rows[j].key, rows[j].value));
            } else {
                let t = tail[j - 1];
                assert(t == rows[j]);
                assert(shown_in(rest, t.key, t.value));
                let i = choose|i: int| shows(rest, i, t.key, t.value);
                assert(shows(rest, i, t.key, t.value));
                assert(all[i + off] == rest[i]);
                assert(shows(all, i + off, rows[j].key, rows[j].value));
            }
        }
        assert forall|a: int, b: int| 0 <= a < b < all.len() implies lex_lt(
            (#[trigger] all[a]).0,
            (#[trigger] all[b]).0,
        ) by {
            if a < off {
                let e = rest[b - off];
                assert(all[b] == e);
                assert(held_in(tail, d, e));
                let j = choose|j: int| row_holds(tail, j, d, e);
                assert(row_holds(tail, j, d, e));
                assert(tail[j] == rows[j + 1]);
                assert(row_lt(rows[0], rows[j + 1]));
                lemma_lex_irreflexive(d);
            } else {
                assert(all[a] == rest[a - off]);
                assert(all[b] == rest[b - off]);
                assert(lex_lt(rest[a - off].0, rest[b - off].0));
            }
        }
    }
}

} // verus!
