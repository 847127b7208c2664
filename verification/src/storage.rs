//! The store: databases of keys and values, kept in the order in which they
//! are listed.

use vstd::prelude::*;
use crate::entry::{SkateEntry, entry_views};
use crate::names::{
    db_chars, db_name, is_valid_name, is_valid_value, lemma_default_db_valid, scope, valid_name,
    valid_value,
};
use crate::rows::{
    Row, held_in, in_scope, keys_of, lemma_listed_database, lemma_row_lt_transitive,
    lemma_rows_determined, lemma_rows_insert, lemma_rows_lookup, lemma_rows_remove,
    lemma_rows_update, listed, row_holds, row_lt, row_named, rows_map, rows_of, rows_sorted,
    rows_valid, shown_in, text_views, valid_row,
};
use crate::text::{
    Place, chars_of, lemma_lex_irreflexive, lemma_lex_transitive, lex_lt, place_of, slice_chars,
    string_of,
};

verus! {

/// The kinds of failure that the store and the tool around it report.
#[derive(Clone, Copy, Debug, PartialEq, Eq, Structural)]
pub enum ErrorKind {
    InvalidName,
    ValueTooLarge,
    NotFound,
    IoError,
    CorruptStore,
    LockTimeout,
    LegacyToolMissing,
}

/// The exit code that the tool ends with on a failure of the given kind: 2
/// for an argument that the store refuses, 3 for a corrupt store, 4 for a
/// missing legacy tool, 1 for anything else.
pub open spec fn exit_code_of(kind: ErrorKind) -> u8 {
    match kind {
        ErrorKind::InvalidName | ErrorKind::ValueTooLarge => 2,
        ErrorKind::CorruptStore => 3,
        ErrorKind::LegacyToolMissing => 4,
        ErrorKind::NotFound | ErrorKind::IoError | ErrorKind::LockTimeout => 1,
    }
}

impl ErrorKind {
    /// The exit code that the tool ends with on this failure.
    pub fn exit_code(&self) -> (r: u8)
        ensures
            r == exit_code_of(*self),
    {
        match self {
            ErrorKind::InvalidName | ErrorKind::ValueTooLarge => 2,
            ErrorKind::CorruptStore => 3,
            ErrorKind::LegacyToolMissing => 4,
            ErrorKind::NotFound | ErrorKind::IoError | ErrorKind::LockTimeout => 1,
        }
    }
}

/// Whether the store holds anything in the database `d`.
pub open spec fn has_database(m: Map<(Seq<char>, Seq<char>), Seq<char>>, d: Seq<char>) -> bool {
    exists|k: Seq<char>| m.contains_key((d, k))
}

/// Whether the names stand in strictly increasing order.
pub open spec fn names_sorted(names: Seq<Seq<char>>) -> bool {
    forall|i: int, j: int|
        0 <= i < j < names.len() ==> lex_lt(#[trigger] names[i], #[trigger] names[j])
}

spec fn char_views(v: Seq<Vec<char>>) -> Seq<Seq<char>> {
    Seq::new(v.len(), |i: int| v[i]@)
}

spec fn row_in_db(rows: Seq<Row>, j: int, d: Seq<char>) -> bool {
    0 <= j < rows.len() && rows[j].database == d
}

spec fn db_seen(rows: Seq<Row>, i: int, d: Seq<char>) -> bool {
    exists|j: int| j < i && row_in_db(rows, j, d)
}

/// Puts `name` into a sorted sequence of names, unless it is there already.
fn insert_name(out: &mut Vec<Vec<char>>, name: Vec<char>)
    requires
        names_sorted(char_views(old(out)@)),
    ensures
        names_sorted(char_views(final(out)@)),
        forall|d: Seq<char>|
            char_views(final(out)@).contains(d) <==> (char_views(old(out)@).contains(d) || d
                == name@),
{
    let ghost before = char_views(out@);
    let mut p: usize = 0;
    let mut stop = false;
    let mut found = false;
    while p < out.len() && !stop
        invariant
            p <= out.len(),
            before == char_views(out@),
            forall|j: int| 0 <= j < p ==> lex_lt(#[trigger] before[j], name@),
            found ==> stop,
            stop ==> p < out.len(),
            stop && found ==> before[p as int] == name@,
            stop && !found ==> lex_lt(name@, before[p as int]),
        decreases out.len() - p + (if stop { 0int } else { 1int }),
    {
        assert(before[p as int] == out@[p as int]@);
        match place_of(&out[p], &name) {
            Place::Before => {
                p += 1;
            },
            Place::Same => {
                stop = true;
                found = true;
            },
            Place::After => {
                stop = true;
            },
        }
    }
    if found {
        assert(before.contains(name@));
    } else {
        let ghost n = name@;
        out.insert(p, name);
        proof {
            let after = char_views(out@);
            assert(after =~= before.insert(p as int, n));
            assert forall|a: int, b: int| 0 <= a < b < after.len() implies lex_lt(
                #[trigger] after[a],
                #[trigger] after[b],
            ) by {
                if a < p && b == p {
                    assert(lex_lt(before[a], n));
                } else if a < p && b > p {
                    assert(lex_lt(before[a], before[b - 1]));
                } else if a < p {
                    assert(lex_lt(before[a], before[b]));
                } else if a == p {
                    if b - 1 > p {
                        assert(lex_lt(before[p as int], before[b - 1]));
                        lemma_lex_transitive(n, before[p as int], before[b - 1]);
                    }
                } else {
                    assert(lex_lt(before[a - 1], before[b - 1]));
                }
            }
            assert forall|d: Seq<char>| after.contains(d) <==> (before.contains(d) || d == n) by {
                if after.contains(d) {
                    let j = choose|j: int| 0 <= j < after.len() && after[j] == d;
                    if j < p {
                        assert(before[j] == d);
                    } else if j > p {
                        assert(before[j - 1] == d);
                    }
                }
                if before.contains(d) {
                    let j = choose|j: int| 0 <= j < before.len() && before[j] == d;
                    if j < p {
                        assert(after[j] == d);
                    } else {
                        assert(after[j + 1] == d);
                    }
                }
                if d == n {
                    assert(after[p as int] == d);
                }
            }
        }
    }
}

/// The mapping after a run of `set` calls, each given as the database, key
/// and value it was called with: a call with acceptable arguments puts its
/// value under its name, any other changes nothing.
pub open spec fn after_sets(m: Map<(Seq<char>, Seq<char>), Seq<char>>, ops: Seq<Row>) -> Map<
    (Seq<char>, Seq<char>),
    Seq<char>,
>
    decreases ops.len(),
{
    if ops.len() == 0 {
        m
    } else if valid_row(ops.last()) {
        after_sets(m, ops.drop_last()).insert(
            (ops.last().database, ops.last().key),
            ops.last().value,
        )
    } else {
        after_sets(m, ops.drop_last())
    }
}

/// After any run of `set` calls, the store holds under a database and key
/// the value of the last accepted call that named them.
pub proof fn law_get_returns_last_set(
    m: Map<(Seq<char>, Seq<char>), Seq<char>>,
    ops: Seq<Row>,
    i: int,
)
    requires
        0 <= i < ops.len(),
        valid_row(ops[i]),
        forall|j: int|
            i < j < ops.len() && valid_row(#[trigger] ops[j]) ==> !(ops[j].database
                == ops[i].database && ops[j].key == ops[i].key),
    ensures
        after_sets(m, ops).contains_key((ops[i].database, ops[i].key)),
        after_sets(m, ops)[(ops[i].database, ops[i].key)] == ops[i].value,
    decreases ops.len(),
{
    if i < ops.len() - 1 {
        let before = ops.drop_last();
        assert(before[i] == ops[i]);
        assert forall|j: int| i < j < before.len() && valid_row(#[trigger] before[j]) implies !(
        before[j].database == before[i].database && before[j].key == before[i].key) by {
            assert(before[j] == ops[j]);
        }
        law_get_returns_last_set(m, before, i);
    }
}

/// Once a key is deleted from a database it is not found there, and
/// deleting it again finds nothing to remove and changes nothing.
pub proof fn law_delete_then_absent(
    m: Map<(Seq<char>, Seq<char>), Seq<char>>,
    n: (Seq<char>, Seq<char>),
)
    ensures
        !m.remove(n).contains_key(n),
        m.remove(n).remove(n) == m.remove(n),
{
    assert(m.remove(n).remove(n) =~= m.remove(n));
}

struct Record {
    database: Vec<char>,
    key: Vec<char>,
    value: Vec<char>,
}

impl Record {
    spec fn row(&self) -> Row {
        Row { database: self.database@, key: self.key@, value: self.value@ }
    }
}

/// The store: every database with its keys and values.
pub struct Storage {
    records: Vec<Record>,
}

impl View for Storage {
    type V = Map<(Seq<char>, Seq<char>), Seq<char>>;

    /// The stored values by (database, key).
    open spec fn view(&self) -> Map<(Seq<char>, Seq<char>), Seq<char>> {
        rows_map(self.rows())
    }
}

impl Storage {
    /// The rows of the store in the order of listings.
    pub closed spec fn rows(&self) -> Seq<Row> {
        Seq::new(self.records@.len(), |i: int| self.records@[i].row())
    }

    /// The invariant of the store: its rows are in strictly increasing order
    /// (so that no database holds a key twice) and each of them is acceptable.
    pub open spec fn wf(&self) -> bool {
        rows_sorted(self.rows()) && rows_valid(self.rows())
    }

    /// An empty store.
    pub fn new() -> (r: Storage)
        ensures
            r.wf(),
            r@ == Map::<(Seq<char>, Seq<char>), Seq<char>>::empty(),
            r.rows().len() == 0,
    {
        let r = Storage { records: Vec::new() };
        assert(r@ =~= Map::<(Seq<char>, Seq<char>), Seq<char>>::empty());
        r
    }

    /// The store that holds the given (database, key, value) triples, as they
    /// were read from the store's file; of two triples with one database and
    /// key the later one counts. A triple that the store would refuse makes
    /// the file corrupt.
    pub fn load(records: &[(String, String, String)]) -> (r: Result<Storage, ErrorKind>)
        ensures
            match r {
                Ok(s) => {
                    &&& s.wf()
                    &&& rows_valid(rows_of(records@))
                    &&& s@ == after_sets(Map::empty(), rows_of(records@))
                },
                Err(e) => e == ErrorKind::CorruptStore && !rows_valid(rows_of(records@)),
            },
    {
        let ghost rows = rows_of(records@);
        let mut store = Storage::new();
        let mut i: usize = 0;
        assert(rows.take(0) =~= Seq::empty());
        while i < records.len()
            invariant
                i <= records.len(),
                rows == rows_of(records@),
                store.wf(),
                store@ == after_sets(Map::empty(), rows.take(i as int)),
                forall|j: int| 0 <= j < i ==> valid_row(#[trigger] rows[j]),
            decreases records.len() - i,
        {
            let rec = &records[i];
            proof {
                assert(rows.take(i + 1).drop_last() =~= rows.take(i as int));
                assert(rows.take(i + 1).last() == rows[i as int]);
            }
            let target = rec.0.as_str();
            let r = store.set(rec.1.as_str(), rec.2.as_str(), Some(target));
            if r.is_err() {
                assert(!valid_row(rows[i as int]));
                return Err(ErrorKind::CorruptStore);
            }
            i += 1;
        }
        assert(rows.take(rows.len() as int) =~= rows);
        Ok(store)
    }

    fn locate(&self, db: &Vec<char>, key: &Vec<char>) -> (r: (bool, usize))
        requires
            self.wf(),
        ensures
            r.1 <= self.rows().len(),
            forall|j: int|
                0 <= j < r.1 ==> row_lt(
                    #[trigger] self.rows()[j],
                    Row { database: db@, key: key@, value: Seq::empty() },
                ),
            forall|j: int|
                r.1 + (if r.0 { 1int } else { 0int }) <= j < self.rows().len() ==> row_lt(
                    Row { database: db@, key: key@, value: Seq::empty() },
                    #[trigger] self.rows()[j],
                ),
            r.0 ==> row_named(self.rows(), r.1 as int, (db@, key@)),
            !r.0 ==> !self@.contains_key((db@, key@)),
    {
        let ghost target = Row { database: db@, key: key@, value: Seq::empty() };
        let ghost rows = self.rows();
        let mut i: usize = 0;
        let mut found = false;
        let mut stop = false;
        while i < self.records.len() && !stop
            invariant
                i <= self.records.len(),
                rows == self.rows(),
                rows.len() == self.records.len(),
                rows_sorted(rows),
                target == (Row { database: db@, key: key@, value: Seq::empty() }),
                forall|j: int| 0 <= j < i ==> row_lt(#[trigger] rows[j], target),
                found ==> stop,
                stop ==> i < rows.len(),
                stop && found ==> row_named(rows, i as int, (db@, key@)),
                stop && !found ==> row_lt(target, rows[i as int]),
            decreases self.records.len() - i + (if stop { 0int } else { 1int }),
        {
            let rec = &self.records[i];
            assert(rows[i as int] == rec.row());
            let by_key = place_of(&rec.key, key);
            match by_key {
                Place::Before => {
                    i += 1;
                },
                Place::After => {
                    stop = true;
                },
                Place::Same => {
                    let by_db = place_of(&rec.database, db);
                    match by_db {
                        Place::Before => {
                            i += 1;
                        },
                        Place::After => {
                            stop = true;
                        },
                        Place::Same => {
                            stop = true;
                            found = true;
                        },
                    }
                },
            }
        }
        proof {
            let n = (db@, key@);
            lemma_lex_irreflexive(db@);
            lemma_lex_irreflexive(key@);
            assert forall|j: int|
                i + (if found { 1int } else { 0int }) <= j < rows.len() implies row_lt(
                target,
                #[trigger] rows[j],
            ) by {
                if found {
                    assert(row_lt(rows[i as int], rows[j]));
                } else if j > i {
                    assert(row_lt(rows[i as int], rows[j]));
                    lemma_row_lt_transitive(target, rows[i as int], rows[j]);
                }
            }
            if !found {
                if self@.contains_key(n) {
                    let j = choose|j: int| row_named(rows, j, n);
                    if j < i {
                        assert(row_lt(rows[j], target));
                    } else {
                        assert(row_lt(target, rows[j]));
                    }
                }
            }
        }
        (found, i)
    }

    /// Stores `value` under `key` in the database `db`, or in the default
    /// database where none is given; a value that stood there is replaced.
    /// The names are checked first, then the size of the value; a refused
    /// call leaves the store as it was.
    pub fn set(&mut self, key: &str, value: &str, db: Option<&str>) -> (r: Result<(), ErrorKind>)
        requires
            old(self).wf(),
        ensures
            final(self).wf(),
            r is Ok <==> valid_name(key@) && valid_name(db_name(db)) && valid_value(value@),
            r is Ok ==> final(self)@ == old(self)@.insert((db_name(db), key@), value@),
            r is Err ==> final(self)@ == old(self)@ && final(self).rows() == old(self).rows(),
            r == Err::<(), ErrorKind>(ErrorKind::InvalidName) <==> !(valid_name(key@) && valid_name(
                db_name(db),
            )),
            r == Err::<(), ErrorKind>(ErrorKind::ValueTooLarge) <==> valid_name(key@) && valid_name(
                db_name(db),
            ) && !valid_value(value@),
    {
        let d = db_chars(db);
        let k = chars_of(key);
        let db_ok = match db {
            Some(name) => is_valid_name(name),
            None => {
                proof {
                    lemma_default_db_valid();
                }
                true
            },
        };
        if !is_valid_name(key) || !db_ok {
            return Err(ErrorKind::InvalidName);
        }
        if !is_valid_value(value) {
            return Err(ErrorKind::ValueTooLarge);
        }
        let v = chars_of(value);
        let (found, i) = self.locate(&d, &k);
        let ghost rows = self.rows();
        let rec = Record { database: d, key: k, value: v };
        if found {
            proof {
                lemma_rows_update(rows, i as int, value@);
            }
            self.records.set(i, rec);
            assert(self.rows() =~= rows.update(
                i as int,
                Row { database: rows[i as int].database, key: rows[i as int].key, value: value@ },
            ));
        } else {
            proof {
                lemma_rows_insert(rows, i as int, rec.row());
            }
            self.records.insert(i, rec);
            assert(self.rows() =~= rows.insert(i as int, rec.row()));
        }
        Ok(())
    }

    /// The value under `key` in the database `db` (the default database where
    /// none is given), or `None` where there is none.
    pub fn get(&self, key: &str, db: Option<&str>) -> (r: Option<String>)
        requires
            self.wf(),
        ensures
            match r {
                Some(v) => self@.contains_key((db_name(db), key@)) && v@ == self@[(
                    db_name(db),
                    key@,
                )],
                None => !self@.contains_key((db_name(db), key@)),
            },
    {
        let d = db_chars(db);
        let k = chars_of(key);
        let (found, i) = self.locate(&d, &k);
        if found {
            proof {
                lemma_rows_lookup(self.rows(), i as int);
            }
            Some(string_of(&self.records[i].value))
        } else {
            None
        }
    }

    /// Removes the value under `key` in the database `db` (the default
    /// database where none is given), and tells whether there was one.
    pub fn delete(&mut self, key: &str, db: Option<&str>) -> (r: bool)
        requires
            old(self).wf(),
        ensures
            final(self).wf(),
            r == old(self)@.contains_key((db_name(db), key@)),
            final(self)@ == old(self)@.remove((db_name(db), key@)),
    {
        let d = db_chars(db);
        let k = chars_of(key);
        let (found, i) = self.locate(&d, &k);
        let ghost rows = self.rows();
        if found {
            proof {
                lemma_rows_remove(rows, i as int);
                lemma_rows_lookup(rows, i as int);
            }
            let _ = self.records.remove(i);
            assert(self.rows() =~= rows.remove(i as int));
            true
        } else {
            assert(self@.remove((db_name(db), key@)) =~= self@);
            false
        }
    }
    /// The entries of one database, or of all of them where none is named,
    /// in the order of the rows: by key, and among equal keys by database.
    pub fn list(&self, db: Option<&str>) -> (r: Vec<SkateEntry>)
        requires
            self.wf(),
        ensures
            entry_views(r@) == listed(self.rows(), scope(db)),
    {
        let only = match db {
            Some(d) => Some(chars_of(d)),
            None => None,
        };
        let ghost sc = scope(db);
        let ghost rows = self.rows();
        let mut out: Vec<SkateEntry> = Vec::new();
        let mut i: usize = 0;
        assert(rows.skip(0) =~= rows);
        assert(entry_views(out@) + listed(rows, sc) =~= listed(rows, sc));
        while i < self.records.len()
            invariant
                i <= self.records.len(),
                rows == self.rows(),
                rows.len() == self.records.len(),
                sc == scope(db),
                match only {
                    Some(d) => sc == Some(d@),
                    None => sc.is_none(),
                },
                entry_views(out@) + listed(rows.skip(i as int), sc) == listed(rows, sc),
            decreases self.records.len() - i,
        {
            let rec = &self.records[i];
            let ghost rest = rows.skip(i as int);
            let ghost shown = entry_views(out@);
            assert(rest[0] == rec.row());
            assert(rest.skip(1) =~= rows.skip(i + 1));
            let take = match &only {
                Some(d) => place_of(&rec.database, d) == Place::Same,
                None => true,
            };
            assert(take == in_scope(rest[0], sc));
            if take {
                let e = SkateEntry { key: string_of(&rec.key), value: string_of(&rec.value) };
                out.push(e);
                assert(entry_views(out@) =~= shown + seq![(rest[0].key, rest[0].value)]);
                assert(entry_views(out@) + listed(rest.skip(1), sc) =~= shown + listed(rest, sc));
            }
            i += 1;
        }
        assert(entry_views(out@) + listed(rows.skip(rows.len() as int), sc) =~= entry_views(out@));
        out
    }

    /// The keys that `list` shows for the same scope, in the same order.
    pub fn list_keys(&self, db: Option<&str>) -> (r: Vec<String>)
        requires
            self.wf(),
        ensures
            text_views(r@) == keys_of(listed(self.rows(), scope(db))),
    {
        let entries = self.list(db);
        let mut out: Vec<String> = Vec::new();
        let mut i: usize = 0;
        while i < entries.len()
            invariant
                i <= entries.len(),
                out@.len() == i,
                forall|j: int| 0 <= j < i ==> out@[j]@ == #[trigger] entries@[j].key@,
            decreases entries.len() - i,
        {
            out.push(entries[i].key.clone());
            i += 1;
        }
        assert(text_views(out@) =~= keys_of(entry_views(entries@)));
        out
    }

    /// The names of the databases that hold at least one entry, each once, in
    /// the lexicographic order of their code points.
    pub fn list_databases(&self) -> (r: Vec<String>)
        requires
            self.wf(),
        ensures
            names_sorted(text_views(r@)),
            forall|d: Seq<char>| text_views(r@).contains(d) <==> has_database(self@, d),
    {
        let ghost rows = self.rows();
        let mut names: Vec<Vec<char>> = Vec::new();
        let mut i: usize = 0;
        while i < self.records.len()
            invariant
                i <= self.records.len(),
                rows == self.rows(),
                rows.len() == self.records.len(),
                names_sorted(char_views(names@)),
                forall|d: Seq<char>| char_views(names@).contains(d) <==> db_seen(rows, i as int, d),
            decreases self.records.len() - i,
        {
            let ghost before = char_views(names@);
            let name = slice_chars(&self.records[i].database, 0, self.records[i].database.len());
            assert(name@ =~= self.records@[i as int].database@);
            insert_name(&mut names, name);
            proof {
                assert(rows[i as int].database == name@);
                assert forall|d: Seq<char>| char_views(names@).contains(d) <==> db_seen(
                    rows,
                    i + 1,
                    d,
                ) by {
                    if db_seen(rows, i + 1, d) {
                        let j = choose|j: int| j < i + 1 && row_in_db(rows, j, d);
                        if j < i {
                            assert(db_seen(rows, i as int, d));
                        }
                    }
                    if before.contains(d) {
                        assert(db_seen(rows, i as int, d));
                        let j = choose|j: int| j < i && row_in_db(rows, j, d);
                        assert(j < i + 1 && row_in_db(rows, j, d));
                    }
                    if d == name@ {
                        assert(row_in_db(rows, i as int, d));
                    }
                }
            }
            i += 1;
        }
        let mut out: Vec<String> = Vec::new();
        let mut k: usize = 0;
        while k < names.len()
            invariant
                k <= names.len(),
                out@.len() == k,
                forall|j: int| 0 <= j < k ==> #[trigger] out@[j]@ == names@[j]@,
            decreases names.len() - k,
        {
            out.push(string_of(&names[k]));
            k += 1;
        }
        proof {
            assert(text_views(out@) =~= char_views(names@));
            assert forall|d: Seq<char>| db_seen(rows, rows.len() as int, d) <==> has_database(
                self@,
                d,
            ) by {
                if db_seen(rows, rows.len() as int, d) {
                    let j = choose|j: int| j < rows.len() && row_in_db(rows, j, d);
                    assert(row_named(rows, j, (d, rows[j].key)));
                    assert(self@.contains_key((d, rows[j].key)));
                }
                if has_database(self@, d) {
                    let key = choose|key: Seq<char>| self@.contains_key((d, key));
                    let j = choose|j: int| row_named(rows, j, (d, key));
                    assert(row_in_db(rows, j, d));
                }
            }
        }
        out
    }
}

proof fn lemma_tail_members(a: Seq<Seq<char>>, d: Seq<char>)
    requires
        names_sorted(a),
        a.len() > 0,
    ensures
        a.skip(1).contains(d) <==> (a.contains(d) && d != a[0]),
        names_sorted(a.skip(1)),
{
    let tail = a.skip(1);
    assert forall|i: int, j: int| 0 <= i < j < tail.len() implies lex_lt(
        #[trigger] tail[i],
        #[trigger] tail[j],
    ) by {
        assert(lex_lt(a[i + 1], a[j + 1]));
    }
    if tail.contains(d) {
        let i = choose|i: int| 0 <= i < tail.len() && tail[i] == d;
        assert(a[i + 1] == d);
        assert(lex_lt(a[0], a[i + 1]));
        lemma_lex_irreflexive(d);
    }
    if a.contains(d) && d != a[0] {
        let i = choose|i: int| 0 <= i < a.len() && a[i] == d;
        assert(tail[i - 1] == d);
    }
}

/// The listing of the databases is determined by the databases that hold
/// something: two strictly increasing sequences of names with the same
/// members are the same sequence.
pub proof fn law_databases_determined(a: Seq<Seq<char>>, b: Seq<Seq<char>>)
    requires
        names_sorted(a),
        names_sorted(b),
        forall|d: Seq<char>| a.contains(d) <==> b.contains(d),
    ensures
        a == b,
    decreases a.len(),
{
    if a.len() == 0 || b.len() == 0 {
        if b.len() > 0 {
            assert(b.contains(b[0]));
        }
        if a.len() > 0 {
            assert(a.contains(a[0]));
        }
        assert(a =~= b);
    } else {
        assert(a.contains(a[0]));
        assert(b.contains(b[0]));
        let j = choose|j: int| 0 <= j < b.len() && b[j] == a[0];
        let i = choose|i: int| 0 <= i < a.len() && a[i] == b[0];
        lemma_lex_irreflexive(a[0]);
        if j > 0 {
            assert(lex_lt(b[0], b[j]));
            if i > 0 {
                assert(lex_lt(a[0], a[i]));
                lemma_lex_transitive(a[0], a[i], a[0]);
            }
        }
        assert(a[0] == b[0]);
        assert forall|d: Seq<char>| a.skip(1).contains(d) <==> b.skip(1).contains(d) by {
            lemma_tail_members(a, d);
            lemma_tail_members(b, d);
        }
        lemma_tail_members(a, a[0]);
        lemma_tail_members(b, b[0]);
        law_databases_determined(a.skip(1), b.skip(1));
        assert(a =~= seq![a[0]] + a.skip(1));
        assert(b =~= seq![b[0]] + b.skip(1));
    }
}

/// A listing of one database shows exactly the keys of that database, each
/// with its value, in the strictly increasing lexicographic order of the
/// keys.
pub proof fn law_list_of_database(s: Storage, d: Seq<char>)
    requires
        s.wf(),
    ensures
        forall|i: int|
            0 <= i < listed(s.rows(), Some(d)).len() ==> s@.contains_key(
                (d, (#[trigger] listed(s.rows(), Some(d))[i]).0),
            ) && s@[(d, listed(s.rows(), Some(d))[i].0)] == listed(s.rows(), Some(d))[i].1,
        forall|k: Seq<char>| #[trigger]
            s@.contains_key((d, k)) ==> shown_in(listed(s.rows(), Some(d)), k, s@[(d, k)]),
        forall|a: int, b: int|
            0 <= a < b < listed(s.rows(), Some(d)).len() ==> lex_lt(
                (#[trigger] listed(s.rows(), Some(d))[a]).0,
                (#[trigger] listed(s.rows(), Some(d))[b]).0,
            ),
{
    let rows = s.rows();
    let all = listed(rows, Some(d));
    lemma_listed_database(rows, d);
    assert forall|i: int| 0 <= i < all.len() implies s@.contains_key((d, (#[trigger] all[i]).0))
        && s@[(d, all[i].0)] == all[i].1 by {
        assert(held_in(rows, d, all[i]));
        let j = choose|j: int| row_holds(rows, j, d, all[i]);
        assert(row_holds(rows, j, d, all[i]));
        lemma_rows_lookup(rows, j);
    }
    assert forall|k: Seq<char>| #[trigger] s@.contains_key((d, k)) implies shown_in(
        all,
        k,
        s@[(d, k)],
    ) by {
        let j = choose|j: int| row_named(rows, j, (d, k));
        assert(row_named(rows, j, (d, k)));
        lemma_rows_lookup(rows, j);
        assert(rows[j].database == d);
        assert(shown_in(all, rows[j].key, rows[j].value));
    }
}

/// What a store holds determines the order of its rows, and so every
/// listing of it: two stores that hold the same have the same rows.
pub proof fn law_listing_determined(s: Storage, t: Storage)
    requires
        s.wf(),
        t.wf(),
        s@ == t@,
    ensures
        s.rows() == t.rows(),
{
    lemma_rows_determined(s.rows(), t.rows());
}

} // verus!
