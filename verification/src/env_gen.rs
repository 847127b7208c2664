//! Projections of entries into `.env` text and shell `export` lines.

use vstd::prelude::*;
use crate::entry::{SkateEntry, entry_views};
use crate::names::{default_db, lemma_default_db_valid, scope, valid_name, valid_value};
use crate::rows::{
    Row, lemma_listed_all, lemma_rows_insert, lemma_rows_lookup, listed, row_lt, row_named,
    rows_map, rows_sorted, rows_valid, text_views, valid_row,
};
use crate::storage::{ErrorKind, Storage};
use crate::text::{append_all, chars_of, contains_char, has_prefix, starts_with, string_of};

verus! {

/// The upper-case form of an ASCII lower-case letter; any other character is
/// left as it is.
pub open spec fn ascii_upper(c: char) -> char {
    if 'a' <= c && c <= 'z' {
        ((c as u8) - 32) as char
    } else {
        c
    }
}

/// What one character of a key becomes in an identifier.
pub open spec fn normalized_char(c: char) -> char {
    if c == '-' || c == ' ' {
        '_'
    } else {
        ascii_upper(c)
    }
}

/// The identifier that a key projects to: ASCII letters in upper case, `-`
/// and space replaced by `_`, everything else unchanged.
pub open spec fn normalized(key: Seq<char>) -> Seq<char> {
    Seq::new(key.len(), |i: int| normalized_char(key[i]))
}

/// `s` with every occurrence of `c` replaced by the sequence `r`.
pub open spec fn replace_each(s: Seq<char>, c: char, r: Seq<char>) -> Seq<char>
    decreases s.len(),
{
    if s.len() == 0 {
        Seq::empty()
    } else if s[0] == c {
        r + replace_each(s.skip(1), c, r)
    } else {
        seq![s[0]] + replace_each(s.skip(1), c, r)
    }
}

/// Whether a value has to be quoted in a `.env` line.
pub open spec fn needs_quotes(v: Seq<char>) -> bool {
    v.contains(' ') || v.contains('\n') || v.contains('"')
}

/// A value as it stands in a `.env` line: bare where it holds no space,
/// newline or double quote; otherwise between double quotes, each double
/// quote inside preceded by a backslash.
pub open spec fn quoted(v: Seq<char>) -> Seq<char> {
    if needs_quotes(v) {
        seq!['"'] + replace_each(v, '"', seq!['\\', '"']) + seq!['"']
    } else {
        v
    }
}

/// A value as a single-quoted shell word: each single quote inside becomes
/// the four characters `'\''`.
pub open spec fn shell_escaped(v: Seq<char>) -> Seq<char> {
    seq!['\''] + replace_each(v, '\'', seq!['\'', '\\', '\'', '\'']) + seq!['\'']
}

/// The `.env` line of one entry.
pub open spec fn env_line(e: (Seq<char>, Seq<char>)) -> Seq<char> {
    normalized(e.0) + seq!['='] + quoted(e.1)
}

/// The `export` line of one entry.
pub open spec fn export_line(e: (Seq<char>, Seq<char>)) -> Seq<char> {
    seq!['e', 'x', 'p', 'o', 'r', 't', ' '] + normalized(e.0) + seq!['='] + shell_escaped(e.1)
}

/// The lines joined by single newlines, with none at the end.
pub open spec fn joined(lines: Seq<Seq<char>>) -> Seq<char>
    decreases lines.len(),
{
    if lines.len() == 0 {
        Seq::empty()
    } else if lines.len() == 1 {
        lines[0]
    } else {
        lines[0] + seq!['\n'] + joined(lines.skip(1))
    }
}

/// The `.env` text of a sequence of entries.
pub open spec fn env_text(entries: Seq<(Seq<char>, Seq<char>)>) -> Seq<char> {
    joined(Seq::new(entries.len(), |i: int| env_line(entries[i])))
}

/// `s` with every backslash that stands before a double quote removed,
/// reading from the left.
pub open spec fn unescape_quotes(s: Seq<char>) -> Seq<char>
    decreases s.len(),
{
    if s.len() == 0 {
        Seq::empty()
    } else if s.len() >= 2 && s[0] == '\\' && s[1] == '"' {
        seq!['"'] + unescape_quotes(s.skip(2))
    } else {
        seq![s[0]] + unescape_quotes(s.skip(1))
    }
}

/// The value that a reader of `.env` lines takes from the text after `=`:
/// between double quotes the text inside with `\"` read as `"`, otherwise the
/// text as it stands.
pub open spec fn unquoted(t: Seq<char>) -> Seq<char> {
    if t.len() >= 2 && t[0] == '"' && t.last() == '"' {
        unescape_quotes(t.subrange(1, t.len() - 1))
    } else {
        t
    }
}

/// What a POSIX shell reads from a word made of single-quoted stretches and
/// backslash-escaped characters; `None` for a word that is not of that form.
/// `in_quotes` says whether the reading starts inside a quoted stretch.
pub open spec fn shell_word_value(w: Seq<char>, in_quotes: bool) -> Option<Seq<char>>
    decreases w.len(),
{
    if w.len() == 0 {
        if in_quotes {
            None
        } else {
            Some(Seq::empty())
        }
    } else if in_quotes {
        if w[0] == '\'' {
            shell_word_value(w.skip(1), false)
        } else {
            match shell_word_value(w.skip(1), true) {
                Some(r) => Some(seq![w[0]] + r),
                None => None,
            }
        }
    } else if w[0] == '\'' {
        shell_word_value(w.skip(1), true)
    } else if w[0] == '\\' && w.len() >= 2 {
        match shell_word_value(w.skip(2), false) {
            Some(r) => Some(seq![w[1]] + r),
            None => None,
        }
    } else {
        None
    }
}

proof fn lemma_escaped_head(v: Seq<char>)
    ensures
        replace_each(v, '"', seq!['\\', '"']).len() > 0 ==> replace_each(
            v,
            '"',
            seq!['\\', '"'],
        )[0] != '"',
        v.len() > 0 ==> replace_each(v, '"', seq!['\\', '"']).len() > 0,
{
    if v.len() > 0 {
        let rest = replace_each(v.skip(1), '"', seq!['\\', '"']);
        if v[0] == '"' {
            assert((seq!['\\', '"'] + rest)[0] == '\\');
        } else {
            assert((seq![v[0]] + rest)[0] == v[0]);
        }
    }
}

proof fn lemma_unescape_escaped(v: Seq<char>)
    ensures
        unescape_quotes(replace_each(v, '"', seq!['\\', '"'])) == v,
    decreases v.len(),
{
    let e = replace_each(v, '"', seq!['\\', '"']);
    if v.len() > 0 {
        let rest = replace_each(v.skip(1), '"', seq!['\\', '"']);
        lemma_unescape_escaped(v.skip(1));
        lemma_escaped_head(v.skip(1));
        if v[0] == '"' {
            assert(e == seq!['\\', '"'] + rest);
            assert(e[0] == '\\' && e[1] == '"');
            assert(e.skip(2) =~= rest);
            assert(seq!['"'] + v.skip(1) =~= v);
        } else {
            assert(e == seq![v[0]] + rest);
            assert(e[0] == v[0]);
            if e.len() >= 2 {
                assert(e[1] == rest[0]);
            }
            assert(e.skip(1) =~= rest);
            assert(seq![v[0]] + v.skip(1) =~= v);
        }
    }
}

/// The quoting of `.env` values can be undone: reading back the text that
/// stands for a value gives the value.
pub proof fn law_quoting_reversible(v: Seq<char>)
    ensures
        unquoted(quoted(v)) == v,
{
    if needs_quotes(v) {
        let e = replace_each(v, '"', seq!['\\', '"']);
        let t = seq!['"'] + e + seq!['"'];
        assert(t.len() == e.len() + 2);
        assert(t[0] == '"');
        assert(t.last() == '"');
        assert(t.subrange(1, t.len() - 1) =~= e);
        lemma_unescape_escaped(v);
    } else {
        if v.len() >= 2 && v[0] == '"' {
            assert(v.contains('"'));
        }
    }
}

proof fn lemma_shell_body(v: Seq<char>)
    ensures
        shell_word_value(
            replace_each(v, '\'', seq!['\'', '\\', '\'', '\'']) + seq!['\''],
            true,
        ) == Some(v),
    decreases v.len(),
{
    let q = seq!['\'', '\\', '\'', '\''];
    let w = replace_each(v, '\'', q) + seq!['\''];
    if v.len() == 0 {
        assert(w[0] == '\'');
        assert(w.skip(1) =~= Seq::<char>::empty());
        assert(shell_word_value(w.skip(1), false) == Some(Seq::<char>::empty()));
        assert(v =~= Seq::<char>::empty());
    } else {
        let tail = replace_each(v.skip(1), '\'', q) + seq!['\''];
        lemma_shell_body(v.skip(1));
        if v[0] == '\'' {
            assert(w =~= q + tail);
            assert(w[0] == '\'');
            let w1 = w.skip(1);
            assert(w1[0] == '\\' && w1[1] == '\'' && w1.len() >= 2);
            let w3 = w1.skip(2);
            assert(w3[0] == '\'');
            assert(w3.skip(1) =~= tail);
            assert(shell_word_value(w3, false) == Some(v.skip(1)));
            assert(shell_word_value(w1, false) == Some(seq!['\''] + v.skip(1)));
            assert(seq!['\''] + v.skip(1) =~= v);
        } else {
            assert(w =~= seq![v[0]] + tail);
            assert(w[0] == v[0]);
            assert(w.skip(1) =~= tail);
            assert(seq![v[0]] + v.skip(1) =~= v);
        }
    }
}

/// The shell word written for a value is read back by a POSIX shell as
/// exactly that value, whatever characters it holds.
pub proof fn law_shell_escape_safe(v: Seq<char>)
    ensures
        shell_word_value(shell_escaped(v), false) == Some(v),
{
    let w = shell_escaped(v);
    assert(w[0] == '\'');
    assert(w.skip(1) =~= replace_each(v, '\'', seq!['\'', '\\', '\'', '\'']) + seq!['\'']);
    lemma_shell_body(v);
}

/// Whether a filter keeps an entry: its key, as stored, begins with the
/// prefix; with no prefix every entry is kept.
pub open spec fn keeps(e: (Seq<char>, Seq<char>), prefix: Option<Seq<char>>) -> bool {
    match prefix {
        Some(p) => starts_with(e.0, p),
        None => true,
    }
}

/// The entries that a filter keeps, in their order.
pub open spec fn filtered(entries: Seq<(Seq<char>, Seq<char>)>, prefix: Option<Seq<char>>) -> Seq<
    (Seq<char>, Seq<char>),
>
    decreases entries.len(),
{
    if entries.len() == 0 {
        Seq::empty()
    } else if keeps(entries[0], prefix) {
        seq![entries[0]] + filtered(entries.skip(1), prefix)
    } else {
        filtered(entries.skip(1), prefix)
    }
}

/// The `.env` lines of a sequence of entries, one each.
pub open spec fn env_lines(entries: Seq<(Seq<char>, Seq<char>)>) -> Seq<Seq<char>> {
    Seq::new(entries.len(), |i: int| env_line(entries[i]))
}

/// The `export` lines of a sequence of entries, one each.
pub open spec fn export_lines(entries: Seq<(Seq<char>, Seq<char>)>) -> Seq<Seq<char>> {
    Seq::new(entries.len(), |i: int| export_line(entries[i]))
}

/// Whether a restore can store an entry: its key can name one and its value
/// is not too large.
pub open spec fn restorable(e: (Seq<char>, Seq<char>)) -> bool {
    valid_name(e.0) && valid_value(e.1)
}

/// The store after a restore of the entries, one after the other, into the
/// default database; entries that cannot be stored are passed over.
pub open spec fn restored(
    m: Map<(Seq<char>, Seq<char>), Seq<char>>,
    entries: Seq<(Seq<char>, Seq<char>)>,
) -> Map<(Seq<char>, Seq<char>), Seq<char>>
    decreases entries.len(),
{
    if entries.len() == 0 {
        m
    } else if restorable(entries.last()) {
        restored(m, entries.drop_last()).insert(
            (default_db(), entries.last().0),
            entries.last().1,
        )
    } else {
        restored(m, entries.drop_last())
    }
}

/// How many of the entries a restore can store.
pub open spec fn accepted(entries: Seq<(Seq<char>, Seq<char>)>) -> nat
    decreases entries.len(),
{
    if entries.len() == 0 {
        0
    } else if restorable(entries.last()) {
        accepted(entries.drop_last()) + 1
    } else {
        accepted(entries.drop_last())
    }
}

proof fn lemma_restore_prefix(rows: Seq<Row>, n: int)
    requires
        rows_sorted(rows),
        rows_valid(rows),
        forall|i: int| 0 <= i < rows.len() ==> (#[trigger] rows[i]).database == default_db(),
        0 <= n <= rows.len(),
    ensures
        restored(Map::empty(), listed(rows, None).take(n)) == rows_map(rows.take(n)),
        accepted(listed(rows, None).take(n)) == n,
    decreases n,
{
    lemma_listed_all(rows);
    let all = listed(rows, None);
    if n == 0 {
        assert(rows_map(rows.take(0)) =~= Map::<(Seq<char>, Seq<char>), Seq<char>>::empty());
    } else {
        lemma_restore_prefix(rows, n - 1);
        let head = rows.take(n - 1);
        let r = rows[n - 1];
        assert(all.take(n).drop_last() =~= all.take(n - 1));
        assert(all.take(n).last() == (r.key, r.value));
        assert(valid_name(r.key) && valid_value(r.value)) by {
            assert(rows_valid(rows));
        }
        assert(rows_sorted(head)) by {
            assert forall|a: int, b: int| 0 <= a < b < head.len() implies row_lt(
                #[trigger] head[a],
                #[trigger] head[b],
            ) by {
                assert(row_lt(rows[a], rows[b]));
            }
        }
        assert forall|j: int| 0 <= j < n - 1 implies row_lt(
            #[trigger] head[j],
            r,
        ) by {
            assert(row_lt(rows[j], rows[n - 1]));
        }
        lemma_rows_insert(head, n - 1, r);
        assert(head.insert(n - 1, r) =~= rows.take(n));
    }
}

/// What reading the lines of the entries in their order, each as an
/// assignment to its identifier, leaves assigned.
pub open spec fn assigned(entries: Seq<(Seq<char>, Seq<char>)>) -> Map<Seq<char>, Seq<char>>
    decreases entries.len(),
{
    if entries.len() == 0 {
        Map::empty()
    } else {
        assigned(entries.drop_last()).insert(normalized(entries.last().0), entries.last().1)
    }
}

/// Where the keys of several entries project to one identifier, the value
/// of the last of them is the one assigned.
pub proof fn law_later_entry_wins(entries: Seq<(Seq<char>, Seq<char>)>, i: int)
    requires
        0 <= i < entries.len(),
        forall|j: int|
            i < j < entries.len() ==> normalized((#[trigger] entries[j]).0) != normalized(
                entries[i].0,
            ),
    ensures
        assigned(entries).contains_key(normalized(entries[i].0)),
        assigned(entries)[normalized(entries[i].0)] == entries[i].1,
    decreases entries.len(),
{
    if i < entries.len() - 1 {
        let before = entries.drop_last();
        assert(before[i] == entries[i]);
        assert forall|j: int| i < j < before.len() implies normalized((#[trigger] before[j]).0)
            != normalized(before[i].0) by {
            assert(before[j] == entries[j]);
        }
        law_later_entry_wins(before, i);
        assert(entries.last() == entries[entries.len() - 1]);
    }
}

/// Whether row `j` holds `value` under `key`, in whatever database.
pub open spec fn row_gives(rows: Seq<Row>, j: int, key: Seq<char>, value: Seq<char>) -> bool {
    0 <= j < rows.len() && rows[j].key == key && rows[j].value == value
}

proof fn lemma_collapse_prefix(rows: Seq<Row>, n: int)
    requires
        rows_valid(rows),
        0 <= n <= rows.len(),
    ensures
        forall|j: int|
            0 <= j < n ==> restored(Map::empty(), listed(rows, None).take(n)).contains_key(
                (default_db(), (#[trigger] rows[j]).key),
            ),
        forall|m: (Seq<char>, Seq<char>)| #[trigger]
            restored(Map::empty(), listed(rows, None).take(n)).contains_key(m) ==> m.0
                == default_db() && exists|j: int|
                j < n && row_gives(
                    rows,
                    j,
                    m.1,
                    restored(Map::empty(), listed(rows, None).take(n))[m],
                ),
        accepted(listed(rows, None).take(n)) == n,
    decreases n,
{
    lemma_listed_all(rows);
    let all = listed(rows, None);
    if n > 0 {
        lemma_collapse_prefix(rows, n - 1);
        let r = rows[n - 1];
        let before = restored(Map::empty(), all.take(n - 1));
        let after = restored(Map::empty(), all.take(n));
        assert(all.take(n).drop_last() =~= all.take(n - 1));
        assert(all.take(n).last() == (r.key, r.value));
        assert(valid_row(r));
        assert(after == before.insert((default_db(), r.key), r.value));
        assert forall|m: (Seq<char>, Seq<char>)| #[trigger] after.contains_key(m) implies m.0
            == default_db() && exists|j: int| j < n && row_gives(rows, j, m.1, after[m]) by {
            if m == (default_db(), r.key) {
                assert(row_gives(rows, n - 1, m.1, after[m]));
            } else {
                assert(before.contains_key(m));
                let j = choose|j: int| j < n - 1 && row_gives(rows, j, m.1, before[m]);
                assert(j < n && row_gives(rows, j, m.1, after[m]));
            }
        }
    }
}

/// A backup of any store, restored into an empty store, puts every key of
/// every database into the default database: each key of the store is found
/// there, each value found there stood under that key in some database of
/// the store, and every entry of the backup is stored.
pub proof fn law_restore_collapses(s: Storage)
    requires
        s.wf(),
    ensures
        forall|n: (Seq<char>, Seq<char>)| #[trigger]
            s@.contains_key(n) ==> restored(Map::empty(), listed(s.rows(), None)).contains_key(
                (default_db(), n.1),
            ),
        forall|m: (Seq<char>, Seq<char>)| #[trigger]
            restored(Map::empty(), listed(s.rows(), None)).contains_key(m) ==> m.0 == default_db()
                && exists|d: Seq<char>| #[trigger]
                s@.contains_key((d, m.1)) && s@[(d, m.1)] == restored(
                    Map::empty(),
                    listed(s.rows(), None),
                )[m],
        accepted(listed(s.rows(), None)) == s.rows().len(),
{
    let rows = s.rows();
    let all = listed(rows, None);
    let r = restored(Map::empty(), all);
    lemma_listed_all(rows);
    lemma_collapse_prefix(rows, rows.len() as int);
    assert(all.take(rows.len() as int) =~= all);
    assert forall|n: (Seq<char>, Seq<char>)| #[trigger] s@.contains_key(n) implies r.contains_key(
        (default_db(), n.1),
    ) by {
        let j = choose|j: int| row_named(rows, j, n);
        assert(row_named(rows, j, n));
        assert(r.contains_key((default_db(), rows[j].key)));
    }
    assert forall|m: (Seq<char>, Seq<char>)| #[trigger] r.contains_key(m) implies m.0
        == default_db() && exists|d: Seq<char>| #[trigger]
        s@.contains_key((d, m.1)) && s@[(d, m.1)] == r[m] by {
        let j = choose|j: int| j < rows.len() && row_gives(rows, j, m.1, r[m]);
        lemma_rows_lookup(rows, j);
        let d = rows[j].database;
        assert(s@.contains_key((d, m.1)) && s@[(d, m.1)] == r[m]);
    }
}

/// A backup of a store that holds entries in the default database only,
/// restored into an empty store, gives the same store again, and every entry
/// of the backup is stored.
pub proof fn law_backup_restore(s: Storage)
    requires
        s.wf(),
        forall|n: (Seq<char>, Seq<char>)| s@.contains_key(n) ==> n.0 == default_db(),
    ensures
        restored(Map::empty(), listed(s.rows(), None)) == s@,
        accepted(listed(s.rows(), None)) == s.rows().len(),
{
    let rows = s.rows();
    assert forall|i: int| 0 <= i < rows.len() implies (#[trigger] rows[i]).database
        == default_db() by {
        lemma_rows_lookup(rows, i);
        let n = (rows[i].database, rows[i].key);
        assert(s@.contains_key(n));
        assert(n.0 == default_db());
    }
    lemma_listed_all(rows);
    lemma_restore_prefix(rows, rows.len() as int);
    assert(rows.take(rows.len() as int) =~= rows);
    assert(listed(rows, None).take(rows.len() as int) =~= listed(rows, None));
}

fn upper_char(c: char) -> (r: char)
    ensures
        r == ascii_upper(c),
{
    if 'a' <= c && c <= 'z' {
        ((c as u8) - 32) as char
    } else {
        c
    }
}

fn append_replaced(out: &mut Vec<char>, s: &Vec<char>, c: char, r: &Vec<char>)
    ensures
        final(out)@ == old(out)@ + replace_each(s@, c, r@),
{
    let mut i: usize = 0;
    assert(s@.skip(0) =~= s@);
    while i < s.len()
        invariant
            i <= s.len(),
            out@ + replace_each(s@.skip(i as int), c, r@) == old(out)@ + replace_each(s@, c, r@),
        decreases s.len() - i,
    {
        let ghost before = out@;
        let ghost rest = s@.skip(i as int);
        assert(rest.skip(1) =~= s@.skip(i + 1));
        if s[i] == c {
            append_all(out, r);
            assert(out@ + replace_each(rest.skip(1), c, r@) =~= before + replace_each(rest, c, r@));
        } else {
            out.push(s[i]);
            assert(out@ + replace_each(rest.skip(1), c, r@) =~= before + replace_each(rest, c, r@));
        }
        i += 1;
    }
    assert(out@ + replace_each(s@.skip(s@.len() as int), c, r@) =~= out@);
}

fn normalized_chars(key: &Vec<char>) -> (r: Vec<char>)
    ensures
        r@ == normalized(key@),
{
    let mut out: Vec<char> = Vec::new();
    let mut i: usize = 0;
    while i < key.len()
        invariant
            i <= key.len(),
            out@.len() == i,
            forall|j: int| 0 <= j < i ==> out@[j] == normalized_char(key@[j]),
        decreases key.len() - i,
    {
        let c = key[i];
        if c == '-' || c == ' ' {
            out.push('_');
        } else {
            out.push(upper_char(c));
        }
        i += 1;
    }
    assert(out@ =~= normalized(key@));
    out
}

fn quoted_chars(v: &Vec<char>) -> (r: Vec<char>)
    ensures
        r@ == quoted(v@),
{
    if contains_char(v, ' ') || contains_char(v, '\n') || contains_char(v, '"') {
        let mut out: Vec<char> = Vec::new();
        out.push('"');
        let mut r: Vec<char> = Vec::new();
        r.push('\\');
        r.push('"');
        assert(r@ =~= seq!['\\', '"']);
        append_replaced(&mut out, v, '"', &r);
        out.push('"');
        assert(out@ =~= quoted(v@));
        out
    } else {
        let mut out: Vec<char> = Vec::new();
        append_all(&mut out, v);
        assert(out@ =~= v@);
        out
    }
}

fn shell_escaped_chars(v: &Vec<char>) -> (r: Vec<char>)
    ensures
        r@ == shell_escaped(v@),
{
    let mut out: Vec<char> = Vec::new();
    out.push('\'');
    let mut r: Vec<char> = Vec::new();
    r.push('\'');
    r.push('\\');
    r.push('\'');
    r.push('\'');
    assert(r@ =~= seq!['\'', '\\', '\'', '\'']);
    append_replaced(&mut out, v, '\'', &r);
    out.push('\'');
    assert(out@ =~= shell_escaped(v@));
    out
}

fn env_line_chars(e: &SkateEntry) -> (r: Vec<char>)
    ensures
        r@ == env_line(e@),
{
    let key = chars_of(e.key.as_str());
    let value = chars_of(e.value.as_str());
    let mut out = normalized_chars(&key);
    out.push('=');
    let q = quoted_chars(&value);
    append_all(&mut out, &q);
    assert(out@ =~= env_line(e@));
    out
}

fn export_line_chars(e: &SkateEntry) -> (r: Vec<char>)
    ensures
        r@ == export_line(e@),
{
    let key = chars_of(e.key.as_str());
    let value = chars_of(e.value.as_str());
    let mut out: Vec<char> = Vec::new();
    out.push('e');
    out.push('x');
    out.push('p');
    out.push('o');
    out.push('r');
    out.push('t');
    out.push(' ');
    let n = normalized_chars(&key);
    append_all(&mut out, &n);
    out.push('=');
    let q = shell_escaped_chars(&value);
    append_all(&mut out, &q);
    assert(out@ =~= export_line(e@));
    out
}

/// The projections, gathered under one name.
pub struct EnvGenerator;

impl EnvGenerator {
    /// The identifier that a key projects to.
    pub fn normalize_key(key: &str) -> (r: String)
        ensures
            r@ == normalized(key@),
    {
        let k = chars_of(key);
        let n = normalized_chars(&k);
        string_of(&n)
    }

    /// A value as it stands in a `.env` line.
    pub fn quote_value(value: &str) -> (r: String)
        ensures
            r@ == quoted(value@),
    {
        let v = chars_of(value);
        let q = quoted_chars(&v);
        string_of(&q)
    }

    /// A value as a single-quoted shell word.
    pub fn shell_escape(value: &str) -> (r: String)
        ensures
            r@ == shell_escaped(value@),
    {
        let v = chars_of(value);
        let q = shell_escaped_chars(&v);
        string_of(&q)
    }

    /// The `.env` text of the entries, in the order given: one `KEY=VALUE`
    /// line each, joined by single newlines.
    pub fn entries_to_env_format(entries: &[SkateEntry]) -> (r: String)
        ensures
            r@ == env_text(entry_views(entries@)),
    {
        let ghost lines = Seq::new(entries@.len(), |i: int| env_line(entry_views(entries@)[i]));
        let mut out: Vec<char> = Vec::new();
        let mut i: usize = 0;
        while i < entries.len()
            invariant
                i <= entries.len(),
                lines == Seq::new(entries@.len(), |i: int| env_line(entry_views(entries@)[i])),
                i == 0 ==> out@.len() == 0,
                i < entries.len() ==> (if i == 0 {
                    joined(lines)
                } else {
                    out@ + seq!['\n'] + joined(lines.skip(i as int))
                }) == joined(lines),
                i == entries.len() ==> out@ == joined(lines),
            decreases entries.len() - i,
        {
            let ghost before = out@;
            let ghost rest = lines.skip(i as int);
            if i > 0 {
                out.push('\n');
            }
            let line = env_line_chars(&entries[i]);
            append_all(&mut out, &line);
            proof {
                assert(rest[0] == line@);
                assert(rest.skip(1) =~= lines.skip(i + 1));
                if i == 0 {
                    assert(rest =~= lines);
                    assert(out@ =~= line@);
                } else {
                    assert(out@ =~= before + seq!['\n'] + line@);
                }
                if i + 1 < entries.len() {
                    assert(joined(rest) == rest[0] + seq!['\n'] + joined(rest.skip(1)));
                    assert(out@ + seq!['\n'] + joined(lines.skip(i + 1)) =~= joined(lines));
                } else {
                    assert(rest.len() == 1);
                    assert(joined(rest) == rest[0]);
                    assert(out@ =~= joined(lines));
                }
            }
            i += 1;
        }
        string_of(&out)
    }
    /// The entries whose key begins with `filter`, in their order; all of
    /// them where no filter is given.
    pub fn filter_entries(entries: &[SkateEntry], filter: Option<&str>) -> (r: Vec<SkateEntry>)
        ensures
            entry_views(r@) == filtered(entry_views(entries@), scope(filter)),
    {
        let prefix = match filter {
            Some(p) => Some(chars_of(p)),
            None => None,
        };
        let ghost all = entry_views(entries@);
        let ghost sc = scope(filter);
        let mut out: Vec<SkateEntry> = Vec::new();
        let mut i: usize = 0;
        assert(all.skip(0) =~= all);
        assert(entry_views(out@) + filtered(all, sc) =~= filtered(all, sc));
        while i < entries.len()
            invariant
                i <= entries.len(),
                all == entry_views(entries@),
                sc == scope(filter),
                match prefix {
                    Some(p) => sc == Some(p@),
                    None => sc.is_none(),
                },
                entry_views(out@) + filtered(all.skip(i as int), sc) == filtered(all, sc),
            decreases entries.len() - i,
        {
            let e = &entries[i];
            let ghost rest = all.skip(i as int);
            let ghost shown = entry_views(out@);
            assert(rest[0] == e@);
            assert(rest.skip(1) =~= all.skip(i + 1));
            let take = match &prefix {
                Some(p) => {
                    let k = chars_of(e.key.as_str());
                    has_prefix(&k, p)
                },
                None => true,
            };
            assert(take == keeps(rest[0], sc));
            if take {
                out.push(SkateEntry { key: e.key.clone(), value: e.value.clone() });
                assert(entry_views(out@) =~= shown + seq![rest[0]]);
                assert(entry_views(out@) + filtered(rest.skip(1), sc) =~= shown + filtered(
                    rest,
                    sc,
                ));
            }
            i += 1;
        }
        assert(entry_views(out@) + filtered(all.skip(all.len() as int), sc) =~= entry_views(out@));
        out
    }

    /// The `.env` text of the entries of all databases whose key begins with
    /// `filter`, and how many they are.
    pub fn generate_env_file(storage: &Storage, filter: Option<&str>) -> (r: (String, usize))
        requires
            storage.wf(),
        ensures
            r.0@ == env_text(filtered(listed(storage.rows(), None), scope(filter))),
            r.1 == filtered(listed(storage.rows(), None), scope(filter)).len(),
    {
        let entries = storage.list(None);
        let kept = Self::filter_entries(entries.as_slice(), filter);
        let text = Self::entries_to_env_format(kept.as_slice());
        (text, kept.len())
    }

    /// The `.env` text of the entries of one database, and how many they are;
    /// `NotFound` where that database holds nothing.
    pub fn generate_from_db(storage: &Storage, db_name: &str) -> (r: Result<
        (String, usize),
        ErrorKind,
    >)
        requires
            storage.wf(),
        ensures
            match r {
                Ok(p) => {
                    &&& listed(storage.rows(), Some(db_name@)).len() > 0
                    &&& p.0@ == env_text(listed(storage.rows(), Some(db_name@)))
                    &&& p.1 == listed(storage.rows(), Some(db_name@)).len()
                },
                Err(e) => e == ErrorKind::NotFound && listed(storage.rows(), Some(db_name@)).len()
                    == 0,
            },
    {
        let entries = storage.list(Some(db_name));
        if entries.len() == 0 {
            return Err(ErrorKind::NotFound);
        }
        let text = Self::entries_to_env_format(entries.as_slice());
        Ok((text, entries.len()))
    }

    /// The lines that the `.env` text of the filtered entries of all
    /// databases is made of, one for each entry.
    pub fn show_preview(storage: &Storage, filter: Option<&str>) -> (r: Vec<String>)
        requires
            storage.wf(),
        ensures
            text_views(r@) == env_lines(filtered(listed(storage.rows(), None), scope(filter))),
    {
        let entries = storage.list(None);
        let kept = Self::filter_entries(entries.as_slice(), filter);
        let mut out: Vec<String> = Vec::new();
        let mut i: usize = 0;
        while i < kept.len()
            invariant
                i <= kept.len(),
                out@.len() == i,
                forall|j: int| 0 <= j < i ==> #[trigger] out@[j]@ == env_line(kept@[j]@),
            decreases kept.len() - i,
        {
            let line = env_line_chars(&kept[i]);
            out.push(string_of(&line));
            i += 1;
        }
        assert(text_views(out@) =~= env_lines(entry_views(kept@)));
        out
    }

    /// The `export` lines of the filtered entries of one database, or of all
    /// databases where none is named, one for each entry.
    pub fn export_shell(storage: &Storage, database: Option<&str>, filter: Option<&str>) -> (r:
        Vec<String>)
        requires
            storage.wf(),
        ensures
            text_views(r@) == export_lines(
                filtered(listed(storage.rows(), scope(database)), scope(filter)),
            ),
    {
        let entries = storage.list(database);
        let kept = Self::filter_entries(entries.as_slice(), filter);
        let mut out: Vec<String> = Vec::new();
        let mut i: usize = 0;
        while i < kept.len()
            invariant
                i <= kept.len(),
                out@.len() == i,
                forall|j: int| 0 <= j < i ==> #[trigger] out@[j]@ == export_line(kept@[j]@),
            decreases kept.len() - i,
        {
            let line = export_line_chars(&kept[i]);
            out.push(string_of(&line));
            i += 1;
        }
        assert(text_views(out@) =~= export_lines(entry_views(kept@)));
        out
    }

    /// The entries that a backup holds: those of all databases, in the order
    /// of a listing.
    pub fn backup_to_file(storage: &Storage) -> (r: Vec<SkateEntry>)
        requires
            storage.wf(),
        ensures
            entry_views(r@) == listed(storage.rows(), None),
    {
        storage.list(None)
    }

    /// Stores the entries of a backup, one after the other, in the default
    /// database, and tells how many were stored; an entry that the store
    /// refuses is passed over.
    pub fn restore_from_file(storage: &mut Storage, entries: &[SkateEntry]) -> (count: usize)
        requires
            old(storage).wf(),
        ensures
            final(storage).wf(),
            final(storage)@ == restored(old(storage)@, entry_views(entries@)),
            count == accepted(entry_views(entries@)),
    {
        let ghost all = entry_views(entries@);
        let mut count: usize = 0;
        let mut i: usize = 0;
        assert(all.take(0) =~= Seq::empty());
        while i < entries.len()
            invariant
                i <= entries.len(),
                count <= i,
                all == entry_views(entries@),
                storage.wf(),
                storage@ == restored(old(storage)@, all.take(i as int)),
                count == accepted(all.take(i as int)),
            decreases entries.len() - i,
        {
            let e = &entries[i];
            proof {
                lemma_default_db_valid();
                assert(all.take(i + 1).drop_last() =~= all.take(i as int));
                assert(all.take(i + 1).last() == e@);
            }
            let r = storage.set(e.key.as_str(), e.value.as_str(), None);
            if r.is_ok() {
                count += 1;
            }
            i += 1;
        }
        assert(all.take(all.len() as int) =~= all);
        count
    }
}

} // verus!
