//! A verified Bencode decoder.
//!
//! Bencode is the length-prefixed, self-delimiting binary format used for
//! BitTorrent metadata.  [`Bencoding::import`] reads one encoded value from a
//! [`cursor::ByteCursor`] and is proved to return exactly the value (or the
//! failure) that the grammar in [`grammar`] assigns to the input bytes.

use vstd::prelude::*;

pub mod cursor;
pub mod error;
pub mod grammar;
pub mod render;

use crate::cursor::ByteCursor;
use crate::error::DecodeError;
use crate::grammar::{
    digit_val, entries_map, is_digit, parse_at, parse_dict_items, parse_int_digits,
    parse_int_start, parse_list_items, parse_str_len, BValue, ErrKind, ParseStep, COLON,
    DIGIT_NINE, DIGIT_ZERO, MARK_DICT, MARK_END, MARK_INT, MARK_LIST, MINUS,
};

verus! {

broadcast use crate::cursor::ByteCursor::lemma_at_nonneg;

/// Decoded Bencode data: one of exactly four shapes.
///
/// A dictionary is kept as key/value pairs with pairwise-distinct keys and no
/// meaningful order; its view is an unordered map.
#[derive(Debug, PartialEq)]
pub enum Bencoding {
    String(Vec<u8>),
    Integer(i64),
    List(Vec<Bencoding>),
    Dictionary(Vec<(Vec<u8>, Bencoding)>),
}

/// The views of a sequence of decoded values, element by element.
pub open spec fn views_of(es: Seq<Bencoding>) -> Seq<BValue>
    decreases es,
{
    if es.len() == 0 {
        Seq::empty()
    } else {
        views_of(es.drop_last()).push(es.last()@)
    }
}

/// The views of a sequence of key/value pairs, pair by pair.
pub open spec fn entry_views(ps: Seq<(Vec<u8>, Bencoding)>) -> Seq<(Seq<u8>, BValue)>
    decreases ps,
{
    if ps.len() == 0 {
        Seq::empty()
    } else {
        entry_views(ps.drop_last()).push((ps.last().0@, ps.last().1@))
    }
}

impl View for Bencoding {
    type V = BValue;

    open spec fn view(&self) -> BValue
        decreases self,
    {
        match self {
            Bencoding::String(v) => BValue::Str(v@),
            Bencoding::Integer(i) => BValue::Int(*i as int),
            Bencoding::List(es) => BValue::List(views_of(es@)),
            Bencoding::Dictionary(ps) => BValue::Dict(entries_map(entry_views(ps@))),
        }
    }
}

impl Bencoding {
    /// Well-formedness: every dictionary in the tree has pairwise-distinct
    /// keys, so the stored pairs carry no entry hidden by the map view.
    pub open spec fn wf(self) -> bool
        decreases self,
    {
        match self {
            Bencoding::String(_) => true,
            Bencoding::Integer(_) => true,
            Bencoding::List(es) => forall|i: int|
                0 <= i < es@.len() ==> (#[trigger] es@[i]).wf(),
            Bencoding::Dictionary(ps) => {
                &&& forall|i: int| 0 <= i < ps@.len() ==> (#[trigger] ps@[i]).1.wf()
                &&& forall|i: int, j: int|
                    0 <= i < j < ps@.len() ==> ps@[i].0@ != ps@[j].0@
            },
        }
    }

    /// Import one Bencoded value from the cursor: the single public decode
    /// operation.  It returns exactly the value, or exactly the failure, that
    /// the grammar assigns to the bytes at the cursor's position; a bare end
    /// marker at the top level is an unknown symbol.  Bytes after the decoded
    /// value are left unread.
    pub fn import(cursor: &mut ByteCursor) -> (r: Result<Bencoding, DecodeError>)
        ensures
            final(cursor).data() == old(cursor).data(),
            (match parse_at(old(cursor).data(), old(cursor).at()) {
                ParseStep::Val(v, n) => {
                    &&& r matches Ok(b) && b@ == v && b.wf()
                    &&& final(cursor).at() == n
                },
                ParseStep::End(_) => r matches Err(e) && e@ == ErrKind::UnknownSymbol('e'),
                ParseStep::Fail(er) => r matches Err(e) && e@ == er,
            }),
            r matches Ok(b) ==> crate::grammar::decoded_from(
                old(cursor).data(),
                old(cursor).at(),
            ) == Ok::<BValue, ErrKind>(b@),
            r matches Err(e) ==> crate::grammar::decoded_from(
                old(cursor).data(),
                old(cursor).at(),
            ) == Err::<BValue, ErrKind>(e@),
    {
        match decode(cursor) {
            Ok(DecodeTypes::Bencoding(b)) => Ok(b),
            Ok(DecodeTypes::EndMarker) => Err(DecodeError::UnknownSymbol('e')),
            Err(e) => Err(e),
        }
    }
}

/// The internal two-way result of decoding one unit: a value, or the end
/// marker that terminates an enclosing list or dictionary.  Never public:
/// `import` turns a top-level end marker into a failure.
enum DecodeTypes {
    Bencoding(Bencoding),
    EndMarker,
}

/// What one call of `decode` guarantees, relative to the grammar.
spec fn step_post(
    s: Seq<u8>,
    p: int,
    r: Result<DecodeTypes, DecodeError>,
    c2: ByteCursor,
) -> bool {
    &&& c2.data() == s
    &&& match parse_at(s, p) {
        ParseStep::Val(v, n) => {
            &&& r matches Ok(DecodeTypes::Bencoding(b)) && b@ == v && b.wf()
            &&& c2.at() == n
            &&& p < n <= s.len()
        },
        ParseStep::End(n) => {
            &&& r matches Ok(DecodeTypes::EndMarker)
            &&& c2.at() == n
            &&& p < n <= s.len()
        },
        ParseStep::Fail(e) => r matches Err(err) && err@ == e,
    }
}

/// Decode one unit: read the marker byte and dispatch.
fn decode(cursor: &mut ByteCursor) -> (r: Result<DecodeTypes, DecodeError>)
    ensures
        step_post(old(cursor).data(), old(cursor).at(), r, *final(cursor)),
    decreases old(cursor).remaining(), 0int,
{
    let ghost s = old(cursor).data();
    let ghost p0 = old(cursor).at();
    let b = match cursor.read_one_byte() {
        Some(b) => b,
        None => {
            return Err(DecodeError::IO);
        },
    };
    if DIGIT_ZERO <= b && b <= DIGIT_NINE {
        match decode_string(b, cursor) {
            Ok(bytes) => Ok(DecodeTypes::Bencoding(Bencoding::String(bytes))),
            Err(e) => Err(e),
        }
    } else if b == MARK_INT {
        match decode_integer(cursor) {
            Ok(i) => Ok(DecodeTypes::Bencoding(Bencoding::Integer(i))),
            Err(e) => Err(e),
        }
    } else if b == MARK_LIST {
        match decode_list(cursor) {
            Ok(es) => Ok(DecodeTypes::Bencoding(Bencoding::List(es))),
            Err(e) => Err(e),
        }
    } else if b == MARK_DICT {
        match decode_dict(cursor) {
            Ok(ps) => Ok(DecodeTypes::Bencoding(Bencoding::Dictionary(ps))),
            Err(e) => Err(e),
        }
    } else if b == MARK_END {
        Ok(DecodeTypes::EndMarker)
    } else {
        Err(DecodeError::UnknownSymbol(b as char))
    }
}

/// Decode a string after its first length digit: scan the remaining length
/// digits up to the `:`, then read exactly that many payload bytes.
#[verifier::loop_isolation(false)]
fn decode_string(first: u8, cursor: &mut ByteCursor) -> (r: Result<Vec<u8>, DecodeError>)
    requires
        is_digit(first),
        old(cursor).at() <= old(cursor).data().len(),
    ensures
        final(cursor).data() == old(cursor).data(),
        (match parse_str_len(old(cursor).data(), old(cursor).at(), digit_val(first)) {
            ParseStep::Val(v, n) => {
                &&& r matches Ok(bytes) && v == BValue::Str(bytes@)
                &&& final(cursor).at() == n
                &&& old(cursor).at() < n <= old(cursor).data().len()
            },
            ParseStep::End(_) => false,
            ParseStep::Fail(e) => r matches Err(err) && err@ == e,
        }),
{
    let ghost s = old(cursor).data();
    let ghost p0 = old(cursor).at();
    let mut acc: usize = (first - DIGIT_ZERO) as usize;
    let ghost mut accv: nat = digit_val(first);
    let mut overflowed: bool = false;
    loop
        invariant
            cursor.data() == s,
            p0 <= cursor.at() <= s.len(),
            parse_str_len(s, p0, digit_val(first)) == parse_str_len(s, cursor.at(), accv),
            !overflowed ==> accv == acc,
            overflowed ==> accv > usize::MAX,
        decreases s.len() - cursor.at(),
    {
        let b = match cursor.read_one_byte() {
            Some(b) => b,
            None => {
                return Err(DecodeError::IO);
            },
        };
        if DIGIT_ZERO <= b && b <= DIGIT_NINE {
            let d = (b - DIGIT_ZERO) as usize;
            proof {
                if overflowed {
                    lemma_mul10_add_overflows(accv, digit_val(b), usize::MAX as nat);
                } else if acc > (usize::MAX - d) / 10 {
                    lemma_mul10_add_exceeds(accv, digit_val(b), usize::MAX as nat);
                } else {
                    lemma_mul10_add_bound(accv, digit_val(b), usize::MAX as nat);
                }
                accv = accv * 10 + digit_val(b);
            }
            if !overflowed {
                if acc > (usize::MAX - d) / 10 {
                    overflowed = true;
                } else {
                    acc = acc * 10 + d;
                }
            }
        } else if b == COLON {
            if overflowed {
                return Err(DecodeError::Overflow);
            }
            match cursor.read_exact(acc) {
                Some(bytes) => {
                    return Ok(bytes);
                },
                None => {
                    return Err(DecodeError::IO);
                },
            }
        } else {
            return Err(DecodeError::InvalidNumberInteger(b as char));
        }
    }
}

/// Decode an integer body after the `i` marker: two bytes settle the special
/// shapes (`i0e`, `-0`, a single digit), then the digit scan finishes.
fn decode_integer(cursor: &mut ByteCursor) -> (r: Result<i64, DecodeError>)
    ensures
        final(cursor).data() == old(cursor).data(),
        (match parse_int_start(old(cursor).data(), old(cursor).at()) {
            ParseStep::Val(v, n) => {
                &&& r matches Ok(i) && v == BValue::Int(i as int)
                &&& final(cursor).at() == n
                &&& old(cursor).at() < n <= old(cursor).data().len()
            },
            ParseStep::End(_) => false,
            ParseStep::Fail(e) => r matches Err(err) && err@ == e,
        }),
{
    let c1 = match cursor.read_one_byte() {
        Some(b) => b,
        None => {
            return Err(DecodeError::IO);
        },
    };
    let c2 = match cursor.read_one_byte() {
        Some(b) => b,
        None => {
            return Err(DecodeError::IO);
        },
    };
    if c1 == DIGIT_ZERO {
        if c2 == MARK_END {
            Ok(0)
        } else {
            Err(DecodeError::LeadingZeroInteger)
        }
    } else if c1 == MINUS {
        if c2 == DIGIT_ZERO {
            Err(DecodeError::NegativeZeroInteger)
        } else if DIGIT_ZERO <= c2 && c2 <= DIGIT_NINE {
            scan_integer_digits(cursor, (c2 - DIGIT_ZERO) as u64, true)
        } else {
            Err(DecodeError::InvalidNumberInteger(c2 as char))
        }
    } else if DIGIT_ZERO <= c1 && c1 <= DIGIT_NINE {
        if c2 == MARK_END {
            Ok((c1 - DIGIT_ZERO) as i64)
        } else if DIGIT_ZERO <= c2 && c2 <= DIGIT_NINE {
            scan_integer_digits(
                cursor,
                ((c1 - DIGIT_ZERO) as u64) * 10 + ((c2 - DIGIT_ZERO) as u64),
                false,
            )
        } else {
            Err(DecodeError::InvalidNumberInteger(c2 as char))
        }
    } else {
        Err(DecodeError::InvalidNumberInteger(c1 as char))
    }
}

/// Scan an integer's remaining digits up to the `e` terminator and require
/// the signed value to fit `i64`; too many digits is a deterministic
/// overflow failure, never a panic.
#[verifier::loop_isolation(false)]
fn scan_integer_digits(cursor: &mut ByteCursor, first: u64, neg: bool) -> (r: Result<
    i64,
    DecodeError,
>)
    requires
        first <= 99,
        old(cursor).at() <= old(cursor).data().len(),
    ensures
        final(cursor).data() == old(cursor).data(),
        (match parse_int_digits(old(cursor).data(), old(cursor).at(), first as nat, neg) {
            ParseStep::Val(v, n) => {
                &&& r matches Ok(i) && v == BValue::Int(i as int)
                &&& final(cursor).at() == n
                &&& old(cursor).at() < n <= old(cursor).data().len()
            },
            ParseStep::End(_) => false,
            ParseStep::Fail(e) => r matches Err(err) && err@ == e,
        }),
{
    let ghost s = old(cursor).data();
    let ghost p0 = old(cursor).at();
    let mut acc: u64 = first;
    let ghost mut accv: nat = first as nat;
    let mut overflowed: bool = false;
    loop
        invariant
            cursor.data() == s,
            p0 <= cursor.at() <= s.len(),
            parse_int_digits(s, p0, first as nat, neg) == parse_int_digits(
                s,
                cursor.at(),
                accv,
                neg,
            ),
            !overflowed ==> accv == acc,
            overflowed ==> accv > u64::MAX,
        decreases s.len() - cursor.at(),
    {
        let b = match cursor.read_one_byte() {
            Some(b) => b,
            None => {
                return Err(DecodeError::IO);
            },
        };
        if DIGIT_ZERO <= b && b <= DIGIT_NINE {
            let d = (b - DIGIT_ZERO) as u64;
            proof {
                if overflowed {
                    lemma_mul10_add_overflows(accv, digit_val(b), u64::MAX as nat);
                } else if acc > (u64::MAX - d) / 10 {
                    lemma_mul10_add_exceeds(accv, digit_val(b), u64::MAX as nat);
                } else {
                    lemma_mul10_add_bound(accv, digit_val(b), u64::MAX as nat);
                }
                accv = accv * 10 + digit_val(b);
            }
            if !overflowed {
                if acc > (u64::MAX - d) / 10 {
                    overflowed = true;
                } else {
                    acc = acc * 10 + d;
                }
            }
        } else if b == MARK_END {
            if overflowed {
                return Err(DecodeError::Overflow);
            }
            if neg {
                if acc <= 9223372036854775807u64 {
                    return Ok(-(acc as i64));
                } else if acc == 9223372036854775808u64 {
                    return Ok(i64::MIN);
                } else {
                    return Err(DecodeError::Overflow);
                }
            } else {
                if acc <= 9223372036854775807u64 {
                    return Ok(acc as i64);
                } else {
                    return Err(DecodeError::Overflow);
                }
            }
        } else {
            return Err(DecodeError::InvalidNumberInteger(b as char));
        }
    }
}

/// Decode list elements by calling `decode` until it reports the end
/// marker; element order is preserved.
#[verifier::loop_isolation(false)]
fn decode_list(cursor: &mut ByteCursor) -> (r: Result<Vec<Bencoding>, DecodeError>)
    requires
        old(cursor).at() <= old(cursor).data().len(),
    ensures
        final(cursor).data() == old(cursor).data(),
        (match parse_list_items(old(cursor).data(), old(cursor).at(), Seq::empty()) {
            ParseStep::Val(v, n) => {
                &&& r matches Ok(es) && v == BValue::List(views_of(es@)) && Bencoding::List(
                    es,
                ).wf()
                &&& final(cursor).at() == n
                &&& old(cursor).at() < n <= old(cursor).data().len()
            },
            ParseStep::End(_) => false,
            ParseStep::Fail(e) => r matches Err(err) && err@ == e,
        }),
    decreases old(cursor).remaining(), 1int,
{
    let ghost s = old(cursor).data();
    let ghost p0 = old(cursor).at();
    let mut list: Vec<Bencoding> = Vec::new();
    loop
        invariant
            cursor.data() == s,
            p0 <= cursor.at() <= s.len(),
            parse_list_items(s, p0, Seq::empty()) == parse_list_items(
                s,
                cursor.at(),
                views_of(list@),
            ),
            forall|i: int| 0 <= i < list@.len() ==> (#[trigger] list@[i]).wf(),
        decreases s.len() - cursor.at(),
    {
        let step = match decode(cursor) {
            Ok(st) => st,
            Err(e) => {
                return Err(e);
            },
        };
        match step {
            DecodeTypes::EndMarker => {
                proof {
                    assert(Bencoding::List(list).wf());
                }
                return Ok(list);
            },
            DecodeTypes::Bencoding(b) => {
                proof {
                    lemma_views_of_push(list@, b);
                }
                let ghost lpre = list@;
                list.push(b);
                proof {
                    assert forall|i: int| 0 <= i < list@.len() implies (
                    #[trigger] list@[i]).wf() by {
                        if i < lpre.len() {
                            assert(list@[i] == lpre[i]);
                            assert(lpre[i].wf());
                        } else {
                            assert(list@[i] == b);
                        }
                    }
                }
            },
        }
    }
}

/// Decode dictionary entries by calling `decode` for a key and a value in
/// turn, until a key position reports the end marker.  A non-string key is
/// a failure carrying the decoded value; a repeated key overwrites the
/// earlier entry.
#[verifier::loop_isolation(false)]
fn decode_dict(cursor: &mut ByteCursor) -> (r: Result<
    Vec<(Vec<u8>, Bencoding)>,
    DecodeError,
>)
    requires
        old(cursor).at() <= old(cursor).data().len(),
    ensures
        final(cursor).data() == old(cursor).data(),
        (match parse_dict_items(old(cursor).data(), old(cursor).at(), Map::empty()) {
            ParseStep::Val(v, n) => {
                &&& r matches Ok(ps) && v == BValue::Dict(entries_map(entry_views(ps@)))
                    && Bencoding::Dictionary(ps).wf()
                &&& final(cursor).at() == n
                &&& old(cursor).at() < n <= old(cursor).data().len()
            },
            ParseStep::End(_) => false,
            ParseStep::Fail(e) => r matches Err(err) && err@ == e,
        }),
    decreases old(cursor).remaining(), 1int,
{
    let ghost s = old(cursor).data();
    let ghost p0 = old(cursor).at();
    let mut pairs: Vec<(Vec<u8>, Bencoding)> = Vec::new();
    loop
        invariant
            cursor.data() == s,
            p0 <= cursor.at() <= s.len(),
            parse_dict_items(s, p0, Map::empty()) == parse_dict_items(
                s,
                cursor.at(),
                entries_map(entry_views(pairs@)),
            ),
            forall|i: int| 0 <= i < pairs@.len() ==> (#[trigger] pairs@[i]).1.wf(),
            forall|i: int, j: int| 0 <= i < j < pairs@.len() ==> pairs@[i].0@ != pairs@[j].0@,
        decreases s.len() - cursor.at(),
    {
        let step = match decode(cursor) {
            Ok(st) => st,
            Err(e) => {
                return Err(e);
            },
        };
        let key = match step {
            DecodeTypes::EndMarker => {
                proof {
                    assert(Bencoding::Dictionary(pairs).wf());
                }
                return Ok(pairs);
            },
            DecodeTypes::Bencoding(b) => match b {
                Bencoding::String(kbytes) => kbytes,
                other => {
                    return Err(DecodeError::KeyNotStringDictionary(other));
                },
            },
        };
        let vstep = match decode(cursor) {
            Ok(st) => st,
            Err(e) => {
                return Err(e);
            },
        };
        let value = match vstep {
            DecodeTypes::EndMarker => {
                return Err(DecodeError::UnknownSymbol('e'));
            },
            DecodeTypes::Bencoding(b) => b,
        };
        dict_insert(&mut pairs, key, value);
    }
}

/// Insert a key/value pair, overwriting the pair with the same key bytes if
/// one is present (last write wins), so that the stored keys stay
/// pairwise distinct.
#[verifier::loop_isolation(false)]
fn dict_insert(pairs: &mut Vec<(Vec<u8>, Bencoding)>, key: Vec<u8>, value: Bencoding)
    requires
        forall|i: int| 0 <= i < old(pairs)@.len() ==> (#[trigger] old(pairs)@[i]).1.wf(),
        forall|i: int, j: int|
            0 <= i < j < old(pairs)@.len() ==> old(pairs)@[i].0@ != old(pairs)@[j].0@,
        value.wf(),
    ensures
        forall|i: int| 0 <= i < final(pairs)@.len() ==> (#[trigger] final(pairs)@[i]).1.wf(),
        forall|i: int, j: int|
            0 <= i < j < final(pairs)@.len() ==> final(pairs)@[i].0@ != final(pairs)@[j].0@,
        entries_map(entry_views(final(pairs)@)) == entries_map(entry_views(old(pairs)@)).insert(
            key@,
            value@,
        ),
{
    let n = pairs.len();
    let mut i: usize = 0;
    while i < n
        invariant
            n == pairs.len(),
            0 <= i <= n,
            *pairs == *old(pairs),
            forall|j: int| 0 <= j < i ==> pairs@[j].0@ != key@,
        decreases n - i,
    {
        if pairs[i].0 == key {
            proof {
                lemma_entry_views_props(pairs@);
                assert(pairs@[i as int].0@ =~= key@);
            }
            let ghost before = pairs@;
            pairs[i] = (key, value);
            proof {
                assert(pairs@ =~= before.update(i as int, (key, value)));
                lemma_entry_views_props(before);
                lemma_entry_views_props(pairs@);
                assert(entry_views(pairs@) =~= entry_views(before).update(
                    i as int,
                    (entry_views(before)[i as int].0, value@),
                ));
                assert forall|a: int, b: int|
                    0 <= a < b < entry_views(before).len() implies entry_views(before)[a].0
                    != entry_views(before)[b].0 by {
                    assert(entry_views(before)[a] == (before[a].0@, before[a].1@));
                    assert(entry_views(before)[b] == (before[b].0@, before[b].1@));
                }
                crate::grammar::lemma_entries_map_update(entry_views(before), i as int, value@);
                assert forall|a: int, b: int|
                    0 <= a < b < pairs@.len() implies pairs@[a].0@ != pairs@[b].0@ by {
                    assert(pairs@[a].0@ == before[a].0@);
                    assert(pairs@[b].0@ == before[b].0@);
                }
                assert forall|a: int| 0 <= a < pairs@.len() implies (
                #[trigger] pairs@[a]).1.wf() by {
                    if a != i as int {
                        assert(pairs@[a] == before[a]);
                    }
                }
            }
            return;
        }
        i = i + 1;
    }
    let ghost before = pairs@;
    pairs.push((key, value));
    proof {
        assert(pairs@.drop_last() =~= before);
        assert(pairs@.last() == (key, value));
        assert(entry_views(pairs@) == entry_views(before).push((key@, value@)));
        assert(entry_views(pairs@).drop_last() =~= entry_views(before));
        assert(entries_map(entry_views(pairs@)) == entries_map(entry_views(before)).insert(
            key@,
            value@,
        ));
        assert forall|i: int, j: int|
            0 <= i < j < pairs@.len() implies pairs@[i].0@ != pairs@[j].0@ by {
            if j < before.len() {
                assert(pairs@[i] == before[i]);
                assert(pairs@[j] == before[j]);
            } else {
                assert(pairs@[j] == (key, value));
                if i < before.len() {
                    assert(pairs@[i] == before[i]);
                }
            }
        }
        assert forall|i: int| 0 <= i < pairs@.len() implies (
        #[trigger] pairs@[i]).1.wf() by {
            if i < before.len() {
                assert(pairs@[i] == before[i]);
            } else {
                assert(pairs@[i] == (key, value));
            }
        }
    }
}

/// Pushing a value appends its view.
proof fn lemma_views_of_push(es: Seq<Bencoding>, b: Bencoding)
    ensures
        views_of(es.push(b)) == views_of(es).push(b@),
{
    assert(es.push(b).drop_last() =~= es);
    assert(es.push(b).last() == b);
}

/// `entry_views` is pointwise: same length, the views of each pair.
proof fn lemma_entry_views_props(ps: Seq<(Vec<u8>, Bencoding)>)
    ensures
        entry_views(ps).len() == ps.len(),
        forall|i: int|
            0 <= i < ps.len() ==> entry_views(ps)[i] == (ps[i].0@, ps[i].1@),
    decreases ps.len(),
{
    if ps.len() > 0 {
        lemma_entry_views_props(ps.drop_last());
        let lastv = (ps.last().0@, ps.last().1@);
        assert(entry_views(ps) == entry_views(ps.drop_last()).push(lastv));
        assert forall|i: int| 0 <= i < ps.len() implies entry_views(ps)[i] == (
            ps[i].0@,
            ps[i].1@,
        ) by {
            if i < ps.len() - 1 {
                assert(ps.drop_last()[i] == ps[i]);
                assert(entry_views(ps.drop_last()).push(lastv)[i] == entry_views(
                    ps.drop_last(),
                )[i]);
            } else {
                assert(ps.last() == ps[i]);
                assert(entry_views(ps.drop_last()).push(lastv)[i] == lastv);
            }
        }
    }
}

/// Ten times a too-large accumulator, plus a digit, stays too large.
proof fn lemma_mul10_add_overflows(a: nat, d: nat, m: nat)
    requires
        a > m,
    ensures
        a * 10 + d > m,
{
    assert(a * 10 >= a) by (nonlinear_arith);
}

/// The decimal-accumulation guard is safe: under the threshold, no overflow.
proof fn lemma_mul10_add_bound(a: nat, d: nat, m: nat)
    requires
        d <= m,
        a <= (m - d) / 10,
    ensures
        a * 10 + d <= m,
{
    assert(a * 10 <= ((m - d) / 10) * 10) by (nonlinear_arith)
        requires
            a <= (m - d) / 10,
    ;
    assert(((m - d) / 10) * 10 <= m - d) by (nonlinear_arith);
}

/// The decimal-accumulation guard is exact: over the threshold, overflow.
proof fn lemma_mul10_add_exceeds(a: nat, d: nat, m: nat)
    requires
        d <= m,
        a > (m - d) / 10,
    ensures
        a * 10 + d > m,
{
    assert(a * 10 >= ((m - d) / 10) * 10 + 10) by (nonlinear_arith)
        requires
            a > (m - d) / 10,
    ;
    assert(((m - d) / 10) * 10 + 10 > m - d) by (nonlinear_arith);
}

} // verus!
