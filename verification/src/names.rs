//! The rules for the names of keys and databases and for the size of values.

use vstd::prelude::*;
use crate::text::{chars_of, contains_char};

verus! {

/// The most bytes that a key or a database name may take.
pub const MAX_NAME_BYTES: usize = 512;

/// The most bytes that a value may take: one mebibyte.
pub const MAX_VALUE_BYTES: usize = 1048576;

/// The name of the database that is meant where none is given.
pub open spec fn default_db() -> Seq<char> {
    seq!['d', 'e', 'f', 'a', 'u', 'l', 't']
}

/// The database that an operation targets.
pub open spec fn db_name(db: Option<&str>) -> Seq<char> {
    match db {
        Some(d) => d@,
        None => default_db(),
    }
}

/// The databases that a listing covers: one, or all of them.
pub open spec fn scope(db: Option<&str>) -> Option<Seq<char>> {
    match db {
        Some(d) => Some(d@),
        None => None,
    }
}

/// The length of a text in bytes, in UTF-8.
pub open spec fn byte_len(s: Seq<char>) -> nat {
    vstd::utf8::encode_utf8(s).len()
}

/// Whether a text can name a key or a database: not empty, without `@`,
/// without NUL, and of at most 512 bytes.
pub open spec fn valid_name(s: Seq<char>) -> bool {
    &&& s.len() > 0
    &&& !s.contains('@')
    &&& !s.contains('\0')
    &&& byte_len(s) <= MAX_NAME_BYTES
}

/// Whether a text can be stored as a value: at most one mebibyte.
pub open spec fn valid_value(v: Seq<char>) -> bool {
    byte_len(v) <= MAX_VALUE_BYTES
}

/// The name of the default database, as characters.
pub fn default_db_chars() -> (r: Vec<char>)
    ensures
        r@ == default_db(),
{
    let mut v: Vec<char> = Vec::new();
    v.push('d');
    v.push('e');
    v.push('f');
    v.push('a');
    v.push('u');
    v.push('l');
    v.push('t');
    assert(v@ =~= default_db());
    v
}

/// The name of the database that an operation targets, as characters.
pub fn db_chars(db: Option<&str>) -> (r: Vec<char>)
    ensures
        r@ == db_name(db),
{
    match db {
        Some(d) => chars_of(d),
        None => default_db_chars(),
    }
}

/// Tells whether a text can name a key or a database.
pub fn is_valid_name(s: &str) -> (r: bool)
    ensures
        r == valid_name(s@),
{
    let c = chars_of(s);
    let bytes = s.as_bytes();
    c.len() > 0 && !contains_char(&c, '@') && !contains_char(&c, '\0') && bytes.len()
        <= MAX_NAME_BYTES
}

/// Tells whether a text can be stored as a value.
pub fn is_valid_value(s: &str) -> (r: bool)
    ensures
        r == valid_value(s@),
{
    let bytes = s.as_bytes();
    bytes.len() <= MAX_VALUE_BYTES
}

/// The name of the default database is an acceptable name.
pub proof fn lemma_default_db_valid()
    ensures
        valid_name(default_db()),
{
    let d = default_db();
    assert(d.len() == 7);
    assert(byte_len(d) <= MAX_NAME_BYTES) by {
        lemma_byte_len_bound(d);
    }
}

/// A text takes at most four bytes for each of its characters.
pub proof fn lemma_byte_len_bound(s: Seq<char>)
    ensures
        byte_len(s) <= 4 * s.len(),
    decreases s.len(),
{
    reveal_with_fuel(vstd::utf8::encode_utf8, 2);
    if s.len() > 0 {
        lemma_byte_len_bound(s.drop_first());
    }
}

} // verus!
