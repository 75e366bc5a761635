//! The Bencode grammar as mathematics.
//!
//! `parse_at` and its helpers define, for every byte sequence and position,
//! exactly which value a well-formed encoding denotes and which failure a
//! malformed one produces.  The decoder in the crate root is proved to return
//! precisely these results.
//!
//! Dictionaries are modelled as maps without any key order: the format's
//! canonical sorted order is neither checked nor preserved, and a repeated
//! key overwrites the earlier entry (last write wins).

use vstd::prelude::*;

verus! {

/// A decoded Bencode value, in mathematical form: byte strings are byte
/// sequences, integers are unbounded, lists are sequences, dictionaries are
/// unordered maps from key bytes to values.
pub enum BValue {
    Str(Seq<u8>),
    Int(int),
    List(Seq<BValue>),
    Dict(Map<Seq<u8>, BValue>),
}

/// The closed set of decode failures.
pub enum ErrKind {
    /// The byte source ended (or failed) in the middle of a read.
    IoFailure,
    /// A byte at a type-dispatch position matched no marker; carries it.
    UnknownSymbol(char),
    /// An integer began with `0` but was not exactly `i0e`.
    LeadingZero,
    /// An integer began with `-0`.
    NegativeZero,
    /// A non-digit where a digit or terminator was expected; carries it.
    InvalidNumber(char),
    /// A dictionary key decoded to a non-string value; carries that value.
    KeyNotString(BValue),
    /// A length or integer whose digits exceed the machine range.
    Overflow,
}

/// The outcome of decoding one unit: a value, the end marker of an
/// enclosing aggregate, or a failure.  `int` is the position just past the
/// consumed bytes.
pub enum ParseStep {
    Val(BValue, int),
    End(int),
    Fail(ErrKind),
}

/// The byte `'0'`.
pub const DIGIT_ZERO: u8 = 48;

/// The byte `'9'`.
pub const DIGIT_NINE: u8 = 57;

/// The byte `'-'`.
pub const MINUS: u8 = 45;

/// The byte `':'`, terminating a string's length prefix.
pub const COLON: u8 = 58;

/// The byte `'i'`, opening an integer.
pub const MARK_INT: u8 = 105;

/// The byte `'l'`, opening a list.
pub const MARK_LIST: u8 = 108;

/// The byte `'d'`, opening a dictionary.
pub const MARK_DICT: u8 = 100;

/// The byte `'e'`, the end marker.
pub const MARK_END: u8 = 101;

pub open spec fn is_digit(b: u8) -> bool {
    DIGIT_ZERO <= b && b <= DIGIT_NINE
}

pub open spec fn digit_val(b: u8) -> nat {
    (b - DIGIT_ZERO) as nat
}

/// Decode one unit starting at `pos`: dispatch on the marker byte.
pub open spec fn parse_at(s: Seq<u8>, pos: int) -> ParseStep
    decreases s.len() - pos, 0int,
{
    if !(0 <= pos < s.len()) {
        ParseStep::Fail(ErrKind::IoFailure)
    } else {
        let b = s[pos];
        if is_digit(b) {
            parse_str_len(s, pos + 1, digit_val(b))
        } else if b == MARK_INT {
            parse_int_start(s, pos + 1)
        } else if b == MARK_LIST {
            parse_list_items(s, pos + 1, Seq::empty())
        } else if b == MARK_DICT {
            parse_dict_items(s, pos + 1, Map::empty())
        } else if b == MARK_END {
            ParseStep::End(pos + 1)
        } else {
            ParseStep::Fail(ErrKind::UnknownSymbol(b as char))
        }
    }
}

/// Scan the rest of a string's length prefix (`acc` holds the digits read so
/// far), then take exactly that many payload bytes.  Length digits may
/// carry leading zeros; only the integer form restricts those.
pub open spec fn parse_str_len(s: Seq<u8>, pos: int, acc: nat) -> ParseStep
    decreases s.len() - pos, 0int,
{
    if !(0 <= pos < s.len()) {
        ParseStep::Fail(ErrKind::IoFailure)
    } else {
        let b = s[pos];
        if is_digit(b) {
            parse_str_len(s, pos + 1, acc * 10 + digit_val(b))
        } else if b == COLON {
            if acc > usize::MAX {
                ParseStep::Fail(ErrKind::Overflow)
            } else if pos + 1 + acc <= s.len() {
                ParseStep::Val(BValue::Str(s.subrange(pos + 1, pos + 1 + acc)), pos + 1 + acc)
            } else {
                ParseStep::Fail(ErrKind::IoFailure)
            }
        } else {
            ParseStep::Fail(ErrKind::InvalidNumber(b as char))
        }
    }
}

/// Decode an integer body (just after `i`): two bytes decide the shape, as
/// the special forms `i0e`, `i-0…` and single digits are settled there.
pub open spec fn parse_int_start(s: Seq<u8>, pos: int) -> ParseStep
    decreases s.len() - pos, 0int,
{
    if !(0 <= pos && pos + 1 < s.len()) {
        ParseStep::Fail(ErrKind::IoFailure)
    } else {
        let c1 = s[pos];
        let c2 = s[pos + 1];
        if c1 == DIGIT_ZERO {
            if c2 == MARK_END {
                ParseStep::Val(BValue::Int(0), pos + 2)
            } else {
                ParseStep::Fail(ErrKind::LeadingZero)
            }
        } else if c1 == MINUS {
            if c2 == DIGIT_ZERO {
                ParseStep::Fail(ErrKind::NegativeZero)
            } else if is_digit(c2) {
                parse_int_digits(s, pos + 2, digit_val(c2), true)
            } else {
                ParseStep::Fail(ErrKind::InvalidNumber(c2 as char))
            }
        } else if is_digit(c1) {
            if c2 == MARK_END {
                ParseStep::Val(BValue::Int(digit_val(c1) as int), pos + 2)
            } else if is_digit(c2) {
                parse_int_digits(s, pos + 2, digit_val(c1) * 10 + digit_val(c2), false)
            } else {
                ParseStep::Fail(ErrKind::InvalidNumber(c2 as char))
            }
        } else {
            ParseStep::Fail(ErrKind::InvalidNumber(c1 as char))
        }
    }
}

/// Scan the remaining digits of an integer up to the `e` terminator, then
/// require the signed value to fit a 64-bit integer.
pub open spec fn parse_int_digits(s: Seq<u8>, pos: int, acc: nat, neg: bool) -> ParseStep
    decreases s.len() - pos, 0int,
{
    if !(0 <= pos < s.len()) {
        ParseStep::Fail(ErrKind::IoFailure)
    } else {
        let b = s[pos];
        if is_digit(b) {
            parse_int_digits(s, pos + 1, acc * 10 + digit_val(b), neg)
        } else if b == MARK_END {
            let v: int = if neg {
                -(acc as int)
            } else {
                acc as int
            };
            if i64::MIN <= v <= i64::MAX {
                ParseStep::Val(BValue::Int(v), pos + 1)
            } else {
                ParseStep::Fail(ErrKind::Overflow)
            }
        } else {
            ParseStep::Fail(ErrKind::InvalidNumber(b as char))
        }
    }
}

/// Decode list elements until the end marker; order is preserved.
pub open spec fn parse_list_items(s: Seq<u8>, pos: int, acc: Seq<BValue>) -> ParseStep
    decreases s.len() - pos, 1int,
{
    if !(0 <= pos <= s.len()) {
        ParseStep::Fail(ErrKind::IoFailure)
    } else {
        match parse_at(s, pos) {
            ParseStep::End(n) => ParseStep::Val(BValue::List(acc), n),
            ParseStep::Fail(e) => ParseStep::Fail(e),
            ParseStep::Val(v, n) => if pos < n && n <= s.len() {
                parse_list_items(s, n, acc.push(v))
            } else {
                ParseStep::Fail(ErrKind::IoFailure)
            },
        }
    }
}

/// Decode dictionary entries until the end marker.  A key must decode to a
/// string; an end marker in a value position is malformed; a repeated key
/// overwrites the earlier entry.
pub open spec fn parse_dict_items(s: Seq<u8>, pos: int, acc: Map<Seq<u8>, BValue>) -> ParseStep
    decreases s.len() - pos, 1int,
{
    if !(0 <= pos <= s.len()) {
        ParseStep::Fail(ErrKind::IoFailure)
    } else {
        match parse_at(s, pos) {
            ParseStep::End(n) => ParseStep::Val(BValue::Dict(acc), n),
            ParseStep::Fail(e) => ParseStep::Fail(e),
            ParseStep::Val(k, n) => match k {
                BValue::Str(key) => if pos < n && n <= s.len() {
                    match parse_at(s, n) {
                        ParseStep::End(_) => ParseStep::Fail(ErrKind::UnknownSymbol('e')),
                        ParseStep::Fail(e) => ParseStep::Fail(e),
                        ParseStep::Val(v, n2) => if n < n2 && n2 <= s.len() {
                            parse_dict_items(s, n2, acc.insert(key, v))
                        } else {
                            ParseStep::Fail(ErrKind::IoFailure)
                        },
                    }
                } else {
                    ParseStep::Fail(ErrKind::IoFailure)
                },
                _ => ParseStep::Fail(ErrKind::KeyNotString(k)),
            },
        }
    }
}

/// What importing a whole stream from `pos` yields: a value, or the first
/// failure; a bare end marker at the top level is an unknown symbol.
pub open spec fn decoded_from(s: Seq<u8>, pos: int) -> Result<BValue, ErrKind> {
    match parse_at(s, pos) {
        ParseStep::Val(v, _) => Ok(v),
        ParseStep::End(_) => Err(ErrKind::UnknownSymbol('e')),
        ParseStep::Fail(e) => Err(e),
    }
}

/// What importing a whole byte sequence from the start yields.
pub open spec fn decoded(s: Seq<u8>) -> Result<BValue, ErrKind> {
    decoded_from(s, 0)
}

/// The map denoted by a sequence of key/value pairs, inserted left to
/// right, so a later pair with the same key overwrites an earlier one.
pub open spec fn entries_map(es: Seq<(Seq<u8>, BValue)>) -> Map<Seq<u8>, BValue>
    decreases es.len(),
{
    if es.len() == 0 {
        Map::empty()
    } else {
        entries_map(es.drop_last()).insert(es.last().0, es.last().1)
    }
}

/// Last write wins: inserting a value for a key that is already present
/// leaves a single entry for that key, holding the later value, and adds
/// nothing else.  Dictionary decoding inserts each decoded pair in order,
/// so a key encoded twice ends up with the value encoded later.
pub proof fn lemma_duplicate_key_last_write_wins(
    m: Map<Seq<u8>, BValue>,
    k: Seq<u8>,
    v1: BValue,
    v2: BValue,
)
    ensures
        m.insert(k, v1).insert(k, v2) == m.insert(k, v2),
        m.insert(k, v1).insert(k, v2)[k] == v2,
        m.insert(k, v1).insert(k, v2).dom() == m.dom().insert(k),
{
    assert(m.insert(k, v1).insert(k, v2) =~= m.insert(k, v2));
    assert(m.insert(k, v1).insert(k, v2).dom() =~= m.dom().insert(k));
}

/// Decoding is a function of the input bytes alone: equal byte sequences
/// yield equal outcomes, so re-decoding the same malformed input always
/// fails with the same error.
pub proof fn lemma_decode_deterministic(s1: Seq<u8>, s2: Seq<u8>)
    requires
        s1 == s2,
    ensures
        decoded(s1) == decoded(s2),
{
}

/// When keys are pairwise distinct, replacing the value stored beside one
/// key changes the denoted map exactly as an insert of that key does.
pub proof fn lemma_entries_map_update(es: Seq<(Seq<u8>, BValue)>, i: int, v: BValue)
    requires
        0 <= i < es.len(),
        forall|a: int, b: int| 0 <= a < b < es.len() ==> es[a].0 != es[b].0,
    ensures
        entries_map(es.update(i, (es[i].0, v))) == entries_map(es).insert(es[i].0, v),
    decreases es.len(),
{
    let es2 = es.update(i, (es[i].0, v));
    if i == es.len() - 1 {
        assert(es2.drop_last() =~= es.drop_last());
        assert(es2.last() == (es[i].0, v));
        assert(entries_map(es.drop_last()).insert(es[i].0, es[i].1).insert(es[i].0, v)
            =~= entries_map(es.drop_last()).insert(es[i].0, v));
    } else {
        assert(es2.drop_last() =~= es.drop_last().update(i, (es[i].0, v)));
        assert(es.drop_last()[i] == es[i]);
        lemma_entries_map_update(es.drop_last(), i, v);
        let lastp = es.last();
        assert(es2.last() == lastp);
        assert(es[i].0 != lastp.0);
        assert(entries_map(es.drop_last()).insert(es[i].0, v).insert(lastp.0, lastp.1)
            =~= entries_map(es.drop_last()).insert(lastp.0, lastp.1).insert(es[i].0, v));
    }
}

/// A successful step consumes at least one byte and never passes the end.
pub proof fn lemma_step_bounds(s: Seq<u8>, pos: int)
    ensures
        (parse_at(s, pos) matches ParseStep::Val(v, n) ==> pos < n <= s.len()),
        (parse_at(s, pos) matches ParseStep::End(n) ==> pos < n <= s.len()),
    decreases s.len() - pos, 0int,
{
    if 0 <= pos < s.len() {
        let b = s[pos];
        if is_digit(b) {
            lemma_strlen_bounds(s, pos + 1, digit_val(b));
        } else if b == MARK_INT {
            lemma_intstart_bounds(s, pos + 1);
        } else if b == MARK_LIST {
            lemma_list_bounds(s, pos + 1, Seq::empty());
        } else if b == MARK_DICT {
            lemma_dict_bounds(s, pos + 1, Map::empty());
        }
    }
}

proof fn lemma_strlen_bounds(s: Seq<u8>, pos: int, acc: nat)
    ensures
        (parse_str_len(s, pos, acc) matches ParseStep::Val(v, n) ==> pos < n <= s.len()),
        !(parse_str_len(s, pos, acc) is End),
    decreases s.len() - pos, 0int,
{
    if 0 <= pos < s.len() && is_digit(s[pos]) {
        lemma_strlen_bounds(s, pos + 1, acc * 10 + digit_val(s[pos]));
    }
}

proof fn lemma_intstart_bounds(s: Seq<u8>, pos: int)
    ensures
        (parse_int_start(s, pos) matches ParseStep::Val(v, n) ==> pos + 1 < n <= s.len()),
        !(parse_int_start(s, pos) is End),
    decreases s.len() - pos, 0int,
{
    if 0 <= pos && pos + 1 < s.len() {
        lemma_intdigits_bounds(s, pos + 2, digit_val(s[pos + 1]), true);
        lemma_intdigits_bounds(s, pos + 2, digit_val(s[pos]) * 10 + digit_val(s[pos + 1]), false);
    }
}

proof fn lemma_intdigits_bounds(s: Seq<u8>, pos: int, acc: nat, neg: bool)
    ensures
        (parse_int_digits(s, pos, acc, neg) matches ParseStep::Val(v, n) ==> pos < n <= s.len()),
        !(parse_int_digits(s, pos, acc, neg) is End),
    decreases s.len() - pos, 0int,
{
    if 0 <= pos < s.len() && is_digit(s[pos]) {
        lemma_intdigits_bounds(s, pos + 1, acc * 10 + digit_val(s[pos]), neg);
    }
}

proof fn lemma_list_bounds(s: Seq<u8>, pos: int, acc: Seq<BValue>)
    ensures
        (parse_list_items(s, pos, acc) matches ParseStep::Val(v, n) ==> pos < n <= s.len()),
        !(parse_list_items(s, pos, acc) is End),
    decreases s.len() - pos, 1int,
{
    if 0 <= pos <= s.len() {
        lemma_step_bounds(s, pos);
        match parse_at(s, pos) {
            ParseStep::Val(v, n) => {
                if pos < n && n <= s.len() {
                    lemma_list_bounds(s, n, acc.push(v));
                }
            },
            _ => {},
        }
    }
}

proof fn lemma_dict_bounds(s: Seq<u8>, pos: int, acc: Map<Seq<u8>, BValue>)
    ensures
        (parse_dict_items(s, pos, acc) matches ParseStep::Val(v, n) ==> pos < n <= s.len()),
        !(parse_dict_items(s, pos, acc) is End),
    decreases s.len() - pos, 1int,
{
    if 0 <= pos <= s.len() {
        lemma_step_bounds(s, pos);
        match parse_at(s, pos) {
            ParseStep::Val(k, n) => {
                if k is Str && pos < n && n <= s.len() {
                    lemma_step_bounds(s, n);
                    match parse_at(s, n) {
                        ParseStep::Val(v, n2) => {
                            if n < n2 && n2 <= s.len() {
                                match k {
                                    BValue::Str(key) => {
                                        lemma_dict_bounds(s, n2, acc.insert(key, v));
                                    },
                                    _ => {},
                                }
                            }
                        },
                        _ => {},
                    }
                }
            },
            _ => {},
        }
    }
}

/// Cutting the input off strictly before the bytes a step consumed turns
/// that step into the I/O failure; cutting at or after them leaves it
/// unchanged.  The decoder never peeks past what it consumes.
pub proof fn lemma_step_truncation(s: Seq<u8>, m: int, pos: int)
    requires
        0 <= pos <= m <= s.len(),
    ensures
        (parse_at(s, pos) matches ParseStep::Val(v, n) ==> {
            &&& n <= m ==> parse_at(s.take(m), pos) == parse_at(s, pos)
            &&& n > m ==> parse_at(s.take(m), pos) == ParseStep::Fail(ErrKind::IoFailure)
        }),
        (parse_at(s, pos) matches ParseStep::End(n) ==> {
            &&& n <= m ==> parse_at(s.take(m), pos) == parse_at(s, pos)
            &&& n > m ==> parse_at(s.take(m), pos) == ParseStep::Fail(ErrKind::IoFailure)
        }),
    decreases s.len() - pos, 0int,
{
    let t = s.take(m);
    assert(t.len() == m);
    lemma_step_bounds(s, pos);
    if pos == m {
        // the truncated input is already exhausted at `pos`
    } else if pos < s.len() {
        let b = s[pos];
        assert(t[pos] == b);
        if is_digit(b) {
            lemma_strlen_bounds(s, pos + 1, digit_val(b));
            lemma_strlen_bounds(t, pos + 1, digit_val(b));
            lemma_strlen_truncation(s, m, pos + 1, digit_val(b));
        } else if b == MARK_INT {
            lemma_intstart_bounds(s, pos + 1);
            lemma_intstart_bounds(t, pos + 1);
            lemma_intstart_truncation(s, m, pos + 1);
        } else if b == MARK_LIST {
            lemma_list_bounds(s, pos + 1, Seq::empty());
            lemma_list_bounds(t, pos + 1, Seq::empty());
            lemma_list_truncation(s, m, pos + 1, Seq::empty());
        } else if b == MARK_DICT {
            lemma_dict_bounds(s, pos + 1, Map::empty());
            lemma_dict_bounds(t, pos + 1, Map::empty());
            lemma_dict_truncation(s, m, pos + 1, Map::empty());
        }
    }
}

proof fn lemma_strlen_truncation(s: Seq<u8>, m: int, pos: int, acc: nat)
    requires
        0 <= pos <= m <= s.len(),
    ensures
        (parse_str_len(s, pos, acc) matches ParseStep::Val(v, n) ==> {
            &&& n <= m ==> parse_str_len(s.take(m), pos, acc) == parse_str_len(s, pos, acc)
            &&& n > m ==> parse_str_len(s.take(m), pos, acc) == ParseStep::Fail(
                ErrKind::IoFailure,
            )
        }),
    decreases s.len() - pos, 0int,
{
    let t = s.take(m);
    assert(t.len() == m);
    lemma_strlen_bounds(s, pos, acc);
    if pos == m {
    } else if pos < s.len() {
        let b = s[pos];
        assert(t[pos] == b);
        if is_digit(b) {
            lemma_strlen_truncation(s, m, pos + 1, acc * 10 + digit_val(b));
        } else if b == COLON {
            if acc <= usize::MAX && pos + 1 + acc <= s.len() {
                let n = pos + 1 + acc;
                if n <= m {
                    assert(t.subrange(pos + 1, n) =~= s.subrange(pos + 1, n));
                }
            }
        }
    }
}

proof fn lemma_intstart_truncation(s: Seq<u8>, m: int, pos: int)
    requires
        0 <= pos <= m <= s.len(),
    ensures
        (parse_int_start(s, pos) matches ParseStep::Val(v, n) ==> {
            &&& n <= m ==> parse_int_start(s.take(m), pos) == parse_int_start(s, pos)
            &&& n > m ==> parse_int_start(s.take(m), pos) == ParseStep::Fail(ErrKind::IoFailure)
        }),
    decreases s.len() - pos, 0int,
{
    let t = s.take(m);
    assert(t.len() == m);
    lemma_intstart_bounds(s, pos);
    if pos + 1 < m {
        assert(t[pos] == s[pos]);
        assert(t[pos + 1] == s[pos + 1]);
        if pos + 1 < s.len() {
            lemma_intdigits_truncation(s, m, pos + 2, digit_val(s[pos + 1]), true);
            lemma_intdigits_truncation(
                s,
                m,
                pos + 2,
                digit_val(s[pos]) * 10 + digit_val(s[pos + 1]),
                false,
            );
        }
    }
}

proof fn lemma_intdigits_truncation(s: Seq<u8>, m: int, pos: int, acc: nat, neg: bool)
    requires
        0 <= pos <= m <= s.len(),
    ensures
        (parse_int_digits(s, pos, acc, neg) matches ParseStep::Val(v, n) ==> {
            &&& n <= m ==> parse_int_digits(s.take(m), pos, acc, neg) == parse_int_digits(
                s,
                pos,
                acc,
                neg,
            )
            &&& n > m ==> parse_int_digits(s.take(m), pos, acc, neg) == ParseStep::Fail(
                ErrKind::IoFailure,
            )
        }),
    decreases s.len() - pos, 0int,
{
    let t = s.take(m);
    assert(t.len() == m);
    lemma_intdigits_bounds(s, pos, acc, neg);
    if pos == m {
    } else if pos < s.len() {
        assert(t[pos] == s[pos]);
        if is_digit(s[pos]) {
            lemma_intdigits_truncation(s, m, pos + 1, acc * 10 + digit_val(s[pos]), neg);
        }
    }
}

proof fn lemma_list_truncation(s: Seq<u8>, m: int, pos: int, acc: Seq<BValue>)
    requires
        0 <= pos <= m <= s.len(),
    ensures
        (parse_list_items(s, pos, acc) matches ParseStep::Val(v, n) ==> {
            &&& n <= m ==> parse_list_items(s.take(m), pos, acc) == parse_list_items(s, pos, acc)
            &&& n > m ==> parse_list_items(s.take(m), pos, acc) == ParseStep::Fail(
                ErrKind::IoFailure,
            )
        }),
    decreases s.len() - pos, 1int,
{
    let t = s.take(m);
    assert(t.len() == m);
    lemma_step_bounds(s, pos);
    lemma_step_truncation(s, m, pos);
    match parse_at(s, pos) {
        ParseStep::End(n) => {},
        ParseStep::Fail(e) => {},
        ParseStep::Val(v, n) => {
            if pos < n && n <= s.len() {
                lemma_list_bounds(s, n, acc.push(v));
                if n <= m {
                    lemma_list_truncation(s, m, n, acc.push(v));
                }
            }
        },
    }
}

proof fn lemma_dict_truncation(s: Seq<u8>, m: int, pos: int, acc: Map<Seq<u8>, BValue>)
    requires
        0 <= pos <= m <= s.len(),
    ensures
        (parse_dict_items(s, pos, acc) matches ParseStep::Val(v, n) ==> {
            &&& n <= m ==> parse_dict_items(s.take(m), pos, acc) == parse_dict_items(s, pos, acc)
            &&& n > m ==> parse_dict_items(s.take(m), pos, acc) == ParseStep::Fail(
                ErrKind::IoFailure,
            )
        }),
    decreases s.len() - pos, 1int,
{
    let t = s.take(m);
    assert(t.len() == m);
    lemma_step_bounds(s, pos);
    lemma_step_truncation(s, m, pos);
    match parse_at(s, pos) {
        ParseStep::End(n) => {},
        ParseStep::Fail(e) => {},
        ParseStep::Val(k, n) => {
            if k is Str && pos < n && n <= s.len() {
                lemma_step_bounds(s, n);
                if n <= m {
                    lemma_step_truncation(s, m, n);
                }
                match parse_at(s, n) {
                    ParseStep::End(n2) => {},
                    ParseStep::Fail(e) => {},
                    ParseStep::Val(v, n2) => {
                        if n < n2 && n2 <= s.len() {
                            match k {
                                BValue::Str(key) => {
                                    lemma_dict_bounds(s, n2, acc.insert(key, v));
                                    if n2 <= m {
                                        lemma_dict_truncation(s, m, n2, acc.insert(key, v));
                                    }
                                },
                                _ => {},
                            }
                        }
                    },
                }
            }
        },
    }
}

/// Truncating a well-formed encoding by one or more of the bytes it
/// consumed makes decoding fail with the I/O failure: the reader runs out
/// of input rather than returning a silently short value.
pub proof fn lemma_truncation_io_failure(s: Seq<u8>, m: int)
    requires
        0 <= m,
        parse_at(s, 0) matches ParseStep::Val(v, n) && m < n,
    ensures
        decoded(s.take(m)) == Err::<BValue, ErrKind>(ErrKind::IoFailure),
{
    lemma_step_bounds(s, 0);
    lemma_step_truncation(s, m, 0);
}

} // verus!
