//! The bridge to the legacy `skate` tool: reading what it prints, and taking
//! its entries into the store.

use vstd::prelude::*;
use vstd::hash_map::StringHashMap;
use crate::entry::{SkateEntry, entry_views};
use crate::names::{db_name, default_db, default_db_chars, valid_name, valid_value};
use crate::rows::text_views;
use crate::storage::{ErrorKind, Storage};
use crate::text::{chars_of, slice_chars, string_of};

verus! {

/// The place of the first `c` in `s`, or the length of `s` where there is
/// none.
pub open spec fn index_of_first(s: Seq<char>, c: char) -> nat
    decreases s.len(),
{
    if s.len() == 0 || s[0] == c {
        0
    } else {
        1 + index_of_first(s.skip(1), c)
    }
}

/// The place of the last `c` in `s`, or -1 where there is none.
pub open spec fn index_of_last(s: Seq<char>, c: char) -> int
    decreases s.len(),
{
    if s.len() == 0 {
        -1
    } else if s.last() == c {
        s.len() - 1
    } else {
        index_of_last(s.drop_last(), c)
    }
}

/// A line without the carriage return that may end it.
pub open spec fn strip_cr(line: Seq<char>) -> Seq<char> {
    if line.len() > 0 && line.last() == '\r' {
        line.drop_last()
    } else {
        line
    }
}

/// The lines of a text. A line ends at a newline, which is not part of it,
/// nor is a carriage return just before that newline; what follows the last
/// newline is a line too, unless it is empty.
pub open spec fn lines_of(s: Seq<char>) -> Seq<Seq<char>>
    decreases s.len(),
{
    if s.len() == 0 {
        Seq::empty()
    } else {
        let n = index_of_first(s, '\n');
        if n < s.len() {
            seq![strip_cr(s.take(n as int))] + lines_of(s.skip(n as int + 1))
        } else {
            seq![s]
        }
    }
}

/// The qualified key and the value of a line of the legacy listing: what
/// stands before its first tab and what stands after it. A line without a
/// tab holds no entry.
pub open spec fn pair_of_line(line: Seq<char>) -> Option<(Seq<char>, Seq<char>)> {
    let n = index_of_first(line, '\t');
    if n < line.len() {
        Some((line.take(n as int), line.skip(n as int + 1)))
    } else {
        None
    }
}

/// The entries of the lines that hold one, in the order of the lines.
pub open spec fn pairs_of_lines(lines: Seq<Seq<char>>) -> Seq<(Seq<char>, Seq<char>)>
    decreases lines.len(),
{
    if lines.len() == 0 {
        Seq::empty()
    } else {
        match pair_of_line(lines[0]) {
            Some(p) => seq![p] + pairs_of_lines(lines.skip(1)),
            None => pairs_of_lines(lines.skip(1)),
        }
    }
}

/// The lines that hold no entry are at most all of them.
pub proof fn lemma_pairs_bound(lines: Seq<Seq<char>>)
    ensures
        pairs_of_lines(lines).len() <= lines.len(),
    decreases lines.len(),
{
    if lines.len() > 0 {
        lemma_pairs_bound(lines.skip(1));
    }
}

/// The database and the key that a qualified key `key@database` names: the
/// text after the last `@` is the database, the text before it the key. With
/// no `@`, or nothing after the last one, the database is the default one.
pub open spec fn split_qualified(q: Seq<char>) -> (Seq<char>, Seq<char>) {
    let p = index_of_last(q, '@');
    if p < 0 {
        (default_db(), q)
    } else if p + 1 == q.len() {
        (default_db(), q.take(p))
    } else {
        (q.skip(p + 1), q.take(p))
    }
}

/// Whether the store accepts an entry of the legacy listing.
pub open spec fn importable(e: (Seq<char>, Seq<char>)) -> bool {
    valid_name(split_qualified(e.0).0) && valid_name(split_qualified(e.0).1) && valid_value(e.1)
}

/// The store after taking in the entries of a legacy listing, one after the
/// other, each under the database and key that its qualified key names;
/// entries that the store does not accept are passed over.
pub open spec fn imported(
    m: Map<(Seq<char>, Seq<char>), Seq<char>>,
    entries: Seq<(Seq<char>, Seq<char>)>,
) -> Map<(Seq<char>, Seq<char>), Seq<char>>
    decreases entries.len(),
{
    if entries.len() == 0 {
        m
    } else if importable(entries.last()) {
        imported(m, entries.drop_last()).insert(split_qualified(entries.last().0), entries.last().1)
    } else {
        imported(m, entries.drop_last())
    }
}

/// How many entries of a legacy listing the store accepts.
pub open spec fn import_count(entries: Seq<(Seq<char>, Seq<char>)>) -> nat
    decreases entries.len(),
{
    if entries.len() == 0 {
        0
    } else if importable(entries.last()) {
        import_count(entries.drop_last()) + 1
    } else {
        import_count(entries.drop_last())
    }
}

/// The mapping from key to value that a sequence of entries gives; of two
/// entries with one key the later one counts.
pub open spec fn env_map(entries: Seq<(Seq<char>, Seq<char>)>) -> Map<Seq<char>, Seq<char>>
    decreases entries.len(),
{
    if entries.len() == 0 {
        Map::empty()
    } else {
        env_map(entries.drop_last()).insert(entries.last().0, entries.last().1)
    }
}

/// The texts of the values of a map of strings.
pub open spec fn value_views(m: Map<Seq<char>, String>) -> Map<Seq<char>, Seq<char>> {
    Map::new(|k: Seq<char>| m.contains_key(k), |k: Seq<char>| m[k]@)
}

/// Whether a character is white space: one of the code points that Unicode
/// gives the property `White_Space`.
pub open spec fn is_space(c: char) -> bool {
    ||| ('\u{9}' <= c && c <= '\u{d}')
    ||| c == ' '
    ||| c == '\u{85}'
    ||| c == '\u{a0}'
    ||| c == '\u{1680}'
    ||| ('\u{2000}' <= c && c <= '\u{200a}')
    ||| c == '\u{2028}'
    ||| c == '\u{2029}'
    ||| c == '\u{202f}'
    ||| c == '\u{205f}'
    ||| c == '\u{3000}'
}

/// A text without the white space that begins it.
pub open spec fn trimmed_start(s: Seq<char>) -> Seq<char>
    decreases s.len(),
{
    if s.len() > 0 && is_space(s[0]) {
        trimmed_start(s.skip(1))
    } else {
        s
    }
}

/// A text without the white space that ends it.
pub open spec fn trimmed_end(s: Seq<char>) -> Seq<char>
    decreases s.len(),
{
    if s.len() > 0 && is_space(s.last()) {
        trimmed_end(s.drop_last())
    } else {
        s
    }
}

/// A text without the white space around it.
pub open spec fn trimmed(s: Seq<char>) -> Seq<char> {
    trimmed_end(trimmed_start(s))
}

fn is_space_char(c: char) -> (r: bool)
    ensures
        r == is_space(c),
{
    ('\u{9}' <= c && c <= '\u{d}') || c == ' ' || c == '\u{85}' || c == '\u{a0}' || c
        == '\u{1680}' || ('\u{2000}' <= c && c <= '\u{200a}') || c == '\u{2028}' || c
        == '\u{2029}' || c == '\u{202f}' || c == '\u{205f}' || c == '\u{3000}'
}

fn trimmed_chars(s: &Vec<char>) -> (r: Vec<char>)
    ensures
        r@ == trimmed(s@),
{
    let mut a: usize = 0;
    assert(s@.skip(0) =~= s@);
    while a < s.len() && is_space_char(s[a])
        invariant
            a <= s.len(),
            trimmed_start(s@) == trimmed_start(s@.skip(a as int)),
        decreases s.len() - a,
    {
        assert(s@.skip(a as int)[0] == s@[a as int]);
        assert(s@.skip(a as int).skip(1) =~= s@.skip(a + 1));
        a += 1;
    }
    proof {
        if a < s.len() {
            assert(s@.skip(a as int)[0] == s@[a as int]);
        }
        assert(trimmed_start(s@) == s@.skip(a as int));
    }
    let mut b: usize = s.len();
    assert(s@.subrange(a as int, b as int) =~= s@.skip(a as int));
    while b > a && is_space_char(s[b - 1])
        invariant
            a <= b <= s.len(),
            trimmed(s@) == trimmed_end(s@.subrange(a as int, b as int)),
        decreases b,
    {
        assert(s@.subrange(a as int, b as int).last() == s@[b - 1]);
        assert(s@.subrange(a as int, b as int).drop_last() =~= s@.subrange(a as int, b - 1));
        b -= 1;
    }
    proof {
        if b > a {
            assert(s@.subrange(a as int, b as int).last() == s@[b - 1]);
        }
    }
    slice_chars(s, a, b)
}

fn find_first(s: &Vec<char>, from: usize, c: char) -> (r: usize)
    requires
        from <= s.len(),
    ensures
        from <= r <= s.len(),
        r == from + index_of_first(s@.skip(from as int), c),
{
    let mut j: usize = from;
    while j < s.len() && s[j] != c
        invariant
            from <= j <= s.len(),
            from + index_of_first(s@.skip(from as int), c) == j + index_of_first(
                s@.skip(j as int),
                c,
            ),
        decreases s.len() - j,
    {
        assert(s@.skip(j as int)[0] == s@[j as int]);
        assert(s@.skip(j as int).skip(1) =~= s@.skip(j + 1));
        j += 1;
    }
    proof {
        if j < s.len() {
            assert(s@.skip(j as int)[0] == s@[j as int]);
        } else {
            assert(s@.skip(j as int).len() == 0);
        }
    }
    j
}

fn find_last(s: &Vec<char>, c: char) -> (r: Option<usize>)
    ensures
        match r {
            Some(p) => p < s.len() && p == index_of_last(s@, c),
            None => index_of_last(s@, c) == -1,
        },
{
    let mut j: usize = s.len();
    assert(s@.take(j as int) =~= s@);
    while j > 0
        invariant
            j <= s.len(),
            index_of_last(s@, c) == index_of_last(s@.take(j as int), c),
        decreases j,
    {
        assert(s@.take(j as int).last() == s@[j - 1]);
        assert(s@.take(j as int).drop_last() =~= s@.take(j - 1));
        if s[j - 1] == c {
            return Some(j - 1);
        }
        j -= 1;
    }
    None
}

fn line_vecs(s: &Vec<char>) -> (r: Vec<Vec<char>>)
    ensures
        r@.len() == lines_of(s@).len(),
        forall|i: int| 0 <= i < r@.len() ==> (#[trigger] r@[i])@ == lines_of(s@)[i],
{
    let mut out: Vec<Vec<char>> = Vec::new();
    let ghost mut shown: Seq<Seq<char>> = Seq::empty();
    let mut pos: usize = 0;
    assert(s@.skip(0) =~= s@);
    assert(shown + lines_of(s@) =~= lines_of(s@));
    while pos < s.len()
        invariant
            pos <= s.len(),
            out@.len() == shown.len(),
            forall|i: int| 0 <= i < out@.len() ==> (#[trigger] out@[i])@ == shown[i],
            shown + lines_of(s@.skip(pos as int)) == lines_of(s@),
        decreases s.len() - pos,
    {
        let ghost rest = s@.skip(pos as int);
        let n = find_first(s, pos, '\n');
        if n < s.len() {
            let end = if n > pos && s[n - 1] == '\r' {
                n - 1
            } else {
                n
            };
            let line = slice_chars(s, pos, end);
            proof {
                let raw = rest.take(n - pos);
                assert(raw =~= s@.subrange(pos as int, n as int));
                if raw.len() > 0 {
                    assert(raw.last() == s@[n - 1]);
                }
                assert(line@ =~= strip_cr(raw));
                assert(rest.skip(n - pos + 1) =~= s@.skip(n + 1));
                assert(shown.push(line@) + lines_of(s@.skip(n + 1)) =~= shown + lines_of(rest));
                shown = shown.push(line@);
            }
            out.push(line);
            pos = n + 1;
        } else {
            let line = slice_chars(s, pos, n);
            proof {
                assert(line@ =~= rest);
                assert(s@.skip(s@.len() as int).len() == 0);
                assert(shown.push(line@) + lines_of(s@.skip(s@.len() as int)) =~= shown + lines_of(
                    rest,
                ));
                shown = shown.push(line@);
            }
            out.push(line);
            pos = s.len();
        }
    }
    proof {
        assert(s@.skip(pos as int).len() == 0);
        assert(shown + lines_of(s@.skip(pos as int)) =~= shown);
    }
    out
}

spec fn char_lines(v: Seq<Vec<char>>) -> Seq<Seq<char>> {
    Seq::new(v.len(), |i: int| v[i]@)
}

fn split_qualified_chars(q: &Vec<char>) -> (r: (Vec<char>, Vec<char>))
    ensures
        (r.0@, r.1@) == split_qualified(q@),
{
    match find_last(q, '@') {
        None => {
            let key = slice_chars(q, 0, q.len());
            assert(key@ =~= q@);
            (default_db_chars(), key)
        },
        Some(p) => {
            let key = slice_chars(q, 0, p);
            assert(key@ =~= q@.take(p as int));
            if p + 1 == q.len() {
                (default_db_chars(), key)
            } else {
                let db = slice_chars(q, p + 1, q.len());
                assert(db@ =~= q@.skip(p + 1));
                (db, key)
            }
        },
    }
}

/// What the legacy tool prints, read as values.
pub struct Skate;

impl Skate {
    /// The entries of a listing of the legacy tool: one for each line that
    /// holds a tab, its key what stands before the first tab (a qualified
    /// key), its value what stands after it.
    pub fn list(output: &str) -> (r: Vec<SkateEntry>)
        ensures
            entry_views(r@) == pairs_of_lines(lines_of(output@)),
    {
        let text = chars_of(output);
        let lines = line_vecs(&text);
        let ghost all = lines_of(output@);
        assert(char_lines(lines@) =~= all);
        let mut out: Vec<SkateEntry> = Vec::new();
        let mut i: usize = 0;
        assert(all.skip(0) =~= all);
        assert(entry_views(out@) + pairs_of_lines(all) =~= pairs_of_lines(all));
        while i < lines.len()
            invariant
                i <= lines.len(),
                all == char_lines(lines@),
                entry_views(out@) + pairs_of_lines(all.skip(i as int)) == pairs_of_lines(all),
            decreases lines.len() - i,
        {
            let line = &lines[i];
            let ghost rest = all.skip(i as int);
            let ghost shown = entry_views(out@);
            assert(rest[0] == line@);
            assert(rest.skip(1) =~= all.skip(i + 1));
            assert(line@.skip(0) =~= line@);
            let n = find_first(line, 0, '\t');
            if n < line.len() {
                let key = slice_chars(line, 0, n);
                let value = slice_chars(line, n + 1, line.len());
                assert(key@ =~= line@.take(n as int));
                assert(value@ =~= line@.skip(n + 1));
                out.push(SkateEntry { key: string_of(&key), value: string_of(&value) });
                assert(entry_views(out@) =~= shown + seq![(key@, value@)]);
                assert(entry_views(out@) + pairs_of_lines(rest.skip(1)) =~= shown + pairs_of_lines(
                    rest,
                ));
            }
            i += 1;
        }
        assert(entry_views(out@) + pairs_of_lines(all.skip(all.len() as int)) =~= entry_views(
            out@,
        ));
        out
    }

    /// How many lines of a listing of the legacy tool hold no entry.
    pub fn skipped_lines(output: &str) -> (r: usize)
        ensures
            r == lines_of(output@).len() - pairs_of_lines(lines_of(output@)).len(),
    {
        let text = chars_of(output);
        let lines = line_vecs(&text);
        let entries = Self::list(output);
        proof {
            lemma_pairs_bound(lines_of(output@));
        }
        lines.len() - entries.len()
    }

    /// The value that the legacy tool prints for a key: its output without
    /// the white space around it.
    pub fn get(output: &str) -> (r: String)
        ensures
            r@ == trimmed(output@),
    {
        let text = chars_of(output);
        let t = trimmed_chars(&text);
        string_of(&t)
    }

    /// The keys that the legacy tool prints one to a line.
    pub fn list_keys(output: &str) -> (r: Vec<String>)
        ensures
            text_views(r@) == lines_of(output@),
    {
        let text = chars_of(output);
        let lines = line_vecs(&text);
        let mut out: Vec<String> = Vec::new();
        let mut i: usize = 0;
        while i < lines.len()
            invariant
                i <= lines.len(),
                out@.len() == i,
                forall|j: int| 0 <= j < i ==> #[trigger] out@[j]@ == lines@[j]@,
            decreases lines.len() - i,
        {
            out.push(string_of(&lines[i]));
            i += 1;
        }
        assert(text_views(out@) =~= lines_of(output@));
        out
    }

    /// The database names that the legacy tool prints one to a line.
    pub fn list_dbs(output: &str) -> (r: Vec<String>)
        ensures
            text_views(r@) == lines_of(output@),
    {
        Self::list_keys(output)
    }

    /// The database and the key that a qualified key names.
    pub fn split_key(qualified: &str) -> (r: (String, String))
        ensures
            (r.0@, r.1@) == split_qualified(qualified@),
    {
        let q = chars_of(qualified);
        let (db, key) = split_qualified_chars(&q);
        (string_of(&db), string_of(&key))
    }

    /// The entries as a map from key to value; of two entries with one key
    /// the later one counts.
    pub fn to_env_map(entries: &[SkateEntry]) -> (r: StringHashMap<String>)
        ensures
            value_views(r@) == env_map(entry_views(entries@)),
    {
        let ghost all = entry_views(entries@);
        let mut out: StringHashMap<String> = StringHashMap::new();
        let mut i: usize = 0;
        assert(all.take(0) =~= Seq::empty());
        assert(value_views(out@) =~= Map::<Seq<char>, Seq<char>>::empty());
        while i < entries.len()
            invariant
                i <= entries.len(),
                all == entry_views(entries@),
                value_views(out@) == env_map(all.take(i as int)),
            decreases entries.len() - i,
        {
            let e = &entries[i];
            let ghost before = out@;
            out.insert(e.key.clone(), e.value.clone());
            proof {
                assert(all.take(i + 1).drop_last() =~= all.take(i as int));
                assert(all.take(i + 1).last() == e@);
                assert(value_views(out@) =~= value_views(before).insert(e.key@, e.value@));
            }
            i += 1;
        }
        assert(all.take(all.len() as int) =~= all);
        out
    }
}

impl Storage {
    /// Takes the entries of a listing of the legacy tool into the store, each
    /// under the database and key that its qualified key names, and tells how
    /// many were stored. Lines without a tab, and entries that the store
    /// refuses, are passed over. `None` stands for a legacy tool that was not
    /// found: the store stays as it was.
    pub fn import_from_skate(&mut self, listing: Option<&str>) -> (r: Result<usize, ErrorKind>)
        requires
            old(self).wf(),
        ensures
            final(self).wf(),
            match listing {
                Some(text) => {
                    &&& r matches Ok(count) && count == import_count(
                        pairs_of_lines(lines_of(text@)),
                    )
                    &&& final(self)@ == imported(old(self)@, pairs_of_lines(lines_of(text@)))
                },
                None => {
                    &&& r == Err::<usize, ErrorKind>(ErrorKind::LegacyToolMissing)
                    &&& final(self)@ == old(self)@
                },
            },
    {
        match listing {
            None => Err(ErrorKind::LegacyToolMissing),
            Some(text) => {
                let entries = Skate::list(text);
                let ghost all = entry_views(entries@);
                let mut count: usize = 0;
                let mut i: usize = 0;
                assert(all.take(0) =~= Seq::empty());
                while i < entries.len()
                    invariant
                        i <= entries.len(),
                        count <= i,
                        all == entry_views(entries@),
                        self.wf(),
                        self@ == imported(old(self)@, all.take(i as int)),
                        count == import_count(all.take(i as int)),
                    decreases entries.len() - i,
                {
                    let e = &entries[i];
                    proof {
                        assert(all.take(i + 1).drop_last() =~= all.take(i as int));
                        assert(all.take(i + 1).last() == e@);
                    }
                    let (db, key) = Skate::split_key(e.key.as_str());
                    let target = db.as_str();
                    let r = self.set(key.as_str(), e.value.as_str(), Some(target));
                    assert(db_name(Some(target)) == db@);
                    if r.is_ok() {
                        count += 1;
                    }
                    i += 1;
                }
                assert(all.take(all.len() as int) =~= all);
                Ok(count)
            },
        }
    }
}

} // verus!
