//! The human-readable tree renderer: a consumer of decoded values.
//!
//! `print_list` walks an already-decoded value and emits an indented text
//! tree; its exact output is specified character by character by
//! [`rendered`].  Byte strings that are not valid UTF-8 are shown as
//! `[redacted]` with their length; a dictionary key, however, must be valid
//! UTF-8 text, so [`render_document`] checks the keys first and refuses the
//! value otherwise.  Dictionary entries are shown in the decoder's storage
//! order; no key order is enforced or restored.

use vstd::prelude::*;
use vstd::utf8::{decode_utf8, valid_utf8};

use crate::Bencoding;

verus! {

/// An indent step: two more spaces, held at the `u32` ceiling, which no
/// reachable nesting depth ever approaches.
pub open spec fn bump(ind: nat) -> nat {
    if ind + 2 > u32::MAX {
        u32::MAX as nat
    } else {
        ind + 2
    }
}

/// `n` spaces.
pub open spec fn spaces(n: nat) -> Seq<char>
    decreases n,
{
    if n == 0 {
        Seq::empty()
    } else {
        spaces((n - 1) as nat).push(' ')
    }
}

/// The character for one decimal digit.
pub open spec fn digit_char(d: nat) -> char {
    ((48 + d) as u8) as char
}

/// The decimal digits of a natural number, most significant first.
pub open spec fn dec_digits(n: nat) -> Seq<char>
    decreases n,
{
    if n < 10 {
        seq![digit_char(n)]
    } else {
        dec_digits(n / 10).push(digit_char(n % 10))
    }
}

/// The decimal text of an integer, with a sign for negative values.
pub open spec fn int_text(i: int) -> Seq<char> {
    if i < 0 {
        seq!['-'] + dec_digits((-i) as nat)
    } else {
        dec_digits(i as nat)
    }
}

/// The rendered text of one value at the given indent.
pub open spec fn rendered(b: Bencoding, ind: nat) -> Seq<char>
    decreases b,
{
    match b {
        Bencoding::String(v) => if valid_utf8(v@) {
            "String ("@ + dec_digits(v@.len()) + "): '"@ + decode_utf8(v@) + "'"@
        } else {
            "String ("@ + dec_digits(v@.len()) + "): [redacted]"@
        },
        Bencoding::Integer(i) => "Integer "@ + int_text(i as int),
        Bencoding::List(es) => "List ("@ + dec_digits(es@.len()) + "):"@ + rendered_items(
            es@,
            bump(ind),
        ),
        Bencoding::Dictionary(ps) => "Dictionary ("@ + dec_digits(ps@.len()) + "):"@
            + rendered_entries(ps@, bump(ind)),
    }
}

/// The rendered elements of a list: each on its own indented line.
pub open spec fn rendered_items(es: Seq<Bencoding>, ind: nat) -> Seq<char>
    decreases es,
{
    if es.len() == 0 {
        Seq::empty()
    } else {
        rendered_items(es.drop_last(), ind) + seq!['\n'] + spaces(ind) + rendered(es.last(), ind)
    }
}

/// The rendered entries of a dictionary: each key and value on its own
/// indented line.
pub open spec fn rendered_entries(ps: Seq<(Vec<u8>, Bencoding)>, ind: nat) -> Seq<char>
    decreases ps,
{
    if ps.len() == 0 {
        Seq::empty()
    } else {
        rendered_entries(ps.drop_last(), ind) + seq!['\n'] + spaces(ind) + "Key '"@ + decode_utf8(
            ps.last().0@,
        ) + "': "@ + rendered(ps.last().1, ind)
    }
}

/// Every dictionary key in the tree is valid UTF-8 text, which the renderer
/// needs in order to show keys as text.
pub open spec fn keys_utf8(b: Bencoding) -> bool
    decreases b,
{
    match b {
        Bencoding::String(_) => true,
        Bencoding::Integer(_) => true,
        Bencoding::List(es) => forall|i: int|
            0 <= i < es@.len() ==> keys_utf8(#[trigger] es@[i]),
        Bencoding::Dictionary(ps) => {
            &&& forall|i: int| 0 <= i < ps@.len() ==> valid_utf8((#[trigger] ps@[i]).0@)
            &&& forall|i: int| 0 <= i < ps@.len() ==> keys_utf8((#[trigger] ps@[i]).1)
        },
    }
}

/// Relies on `String::from_utf8`: it returns the decoded string exactly
/// when the bytes are valid UTF-8, with the characters that vstd's UTF-8
/// model assigns to them, and refuses the bytes otherwise.
#[verifier::external_body]
fn bytes_to_utf8(v: &Vec<u8>) -> (r: Option<String>)
    ensures
        r is Some <==> valid_utf8(v@),
        (r matches Some(t) ==> t@ == decode_utf8(v@)),
{
    match String::from_utf8(v.clone()) {
        Ok(s) => Some(s),
        Err(_) => None,
    }
}

/// A string of `nb_spaces` spaces.
#[verifier::loop_isolation(false)]
pub fn get_spaces(nb_spaces: u32) -> (r: String)
    ensures
        r@ == spaces(nb_spaces as nat),
{
    let mut out = String::new();
    let mut i: u32 = 0;
    while i < nb_spaces
        invariant
            0 <= i <= nb_spaces,
            out@ == spaces(i as nat),
        decreases nb_spaces - i,
    {
        out.append(" ");
        i = i + 1;
        proof {
            reveal_strlit(" ");
            assert(out@ =~= spaces(i as nat));
        }
    }
    out
}

/// The literal for one decimal digit.
fn digit_str(d: u64) -> (r: &'static str)
    requires
        d < 10,
    ensures
        r@ == seq![digit_char(d as nat)],
{
    proof {
        reveal_strlit("0");
        reveal_strlit("1");
        reveal_strlit("2");
        reveal_strlit("3");
        reveal_strlit("4");
        reveal_strlit("5");
        reveal_strlit("6");
        reveal_strlit("7");
        reveal_strlit("8");
        reveal_strlit("9");
    }
    let r = match d {
        0 => "0",
        1 => "1",
        2 => "2",
        3 => "3",
        4 => "4",
        5 => "5",
        6 => "6",
        7 => "7",
        8 => "8",
        _ => "9",
    };
    proof {
        assert(r@ =~= seq![digit_char(d as nat)]);
    }
    r
}

/// Append the decimal digits of `n`.
fn push_u64_digits(out: &mut String, n: u64)
    ensures
        final(out)@ == old(out)@ + dec_digits(n as nat),
    decreases n,
{
    if n < 10 {
        out.append(digit_str(n));
        proof {
            assert(final(out)@ =~= old(out)@ + dec_digits(n as nat));
        }
    } else {
        push_u64_digits(out, n / 10);
        out.append(digit_str(n % 10));
        proof {
            assert((n / 10) as nat == (n as nat) / 10);
            assert((n % 10) as nat == (n as nat) % 10);
            assert(final(out)@ =~= old(out)@ + dec_digits(n as nat));
        }
    }
}

/// Append the decimal text of `i`, sign included.
fn push_i64_text(out: &mut String, i: i64)
    ensures
        final(out)@ == old(out)@ + int_text(i as int),
{
    if i < 0 {
        out.append("-");
        let mag: u64 = if i == i64::MIN {
            9223372036854775808u64
        } else {
            (-i) as u64
        };
        push_u64_digits(out, mag);
        proof {
            reveal_strlit("-");
            assert(mag as nat == (-(i as int)) as nat);
            assert(final(out)@ =~= old(out)@ + int_text(i as int));
        }
    } else {
        push_u64_digits(out, i as u64);
        proof {
            assert((i as u64) as nat == (i as int) as nat);
        }
    }
}

/// One indent step, held at the ceiling as `bump` says.
fn bump_indent(ind: u32) -> (r: u32)
    ensures
        r as nat == bump(ind as nat),
{
    if ind > u32::MAX - 2 {
        u32::MAX
    } else {
        ind + 2
    }
}

/// Render one decoded value as an indented text tree, exactly as
/// `rendered` spells out.  Dictionary keys must be valid UTF-8.
#[verifier::loop_isolation(false)]
pub fn print_list(nb_spaces: u32, bencoded: &Bencoding) -> (r: String)
    requires
        keys_utf8(*bencoded),
    ensures
        r@ == rendered(*bencoded, nb_spaces as nat),
    decreases *bencoded,
{
    let mut text = String::new();
    match bencoded {
        Bencoding::String(v) => {
            text.append("String (");
            push_u64_digits(&mut text, v.len() as u64);
            match bytes_to_utf8(v) {
                Some(decoded) => {
                    text.append("): '");
                    text.append(decoded.as_str());
                    text.append("'");
                    proof {
                        assert(text@ =~= rendered(*bencoded, nb_spaces as nat));
                    }
                },
                None => {
                    text.append("): [redacted]");
                    proof {
                        assert(text@ =~= rendered(*bencoded, nb_spaces as nat));
                    }
                },
            }
        },
        Bencoding::Integer(i) => {
            text.append("Integer ");
            push_i64_text(&mut text, *i);
        },
        Bencoding::List(es) => {
            text.append("List (");
            push_u64_digits(&mut text, es.len() as u64);
            text.append("):");
            let ghost prefix = text@;
            let deeper = bump_indent(nb_spaces);
            let n = es.len();
            let mut j: usize = 0;
            proof {
                assert(es@.take(0) =~= Seq::<Bencoding>::empty());
            }
            while j < n
                invariant
                    n == es.len(),
                    0 <= j <= n,
                    deeper as nat == bump(nb_spaces as nat),
                    text@ == prefix + rendered_items(es@.take(j as int), deeper as nat),
                decreases n - j,
            {
                text.append("\n");
                let sp = get_spaces(deeper);
                text.append(sp.as_str());
                let sub = print_list(deeper, &es[j]);
                text.append(sub.as_str());
                proof {
                    reveal_strlit("\n");
                    let taken = es@.take(j + 1);
                    assert(taken.drop_last() =~= es@.take(j as int));
                    assert(taken.last() == es@[j as int]);
                    assert(text@ =~= prefix + rendered_items(taken, deeper as nat));
                }
                j = j + 1;
            }
            proof {
                assert(es@.take(n as int) =~= es@);
            }
        },
        Bencoding::Dictionary(ps) => {
            text.append("Dictionary (");
            push_u64_digits(&mut text, ps.len() as u64);
            text.append("):");
            let ghost prefix = text@;
            let deeper = bump_indent(nb_spaces);
            let n = ps.len();
            let mut j: usize = 0;
            proof {
                assert(ps@.take(0) =~= Seq::<(Vec<u8>, Bencoding)>::empty());
            }
            while j < n
                invariant
                    n == ps.len(),
                    0 <= j <= n,
                    deeper as nat == bump(nb_spaces as nat),
                    text@ == prefix + rendered_entries(ps@.take(j as int), deeper as nat),
                decreases n - j,
            {
                text.append("\n");
                let sp = get_spaces(deeper);
                text.append(sp.as_str());
                text.append("Key '");
                let key_text = match bytes_to_utf8(&ps[j].0) {
                    Some(t) => t,
                    None => {
                        proof {
                            assert(false);
                        }
                        String::new()
                    },
                };
                text.append(key_text.as_str());
                text.append("': ");
                let sub = print_list(deeper, &ps[j].1);
                text.append(sub.as_str());
                proof {
                    reveal_strlit("\n");
                    let taken = ps@.take(j + 1);
                    assert(taken.drop_last() =~= ps@.take(j as int));
                    assert(taken.last() == ps@[j as int]);
                    assert(text@ =~= prefix + rendered_entries(taken, deeper as nat));
                }
                j = j + 1;
            }
            proof {
                assert(ps@.take(n as int) =~= ps@);
            }
        },
    }
    text
}

/// Check a value's dictionary keys for UTF-8 validity.
#[verifier::loop_isolation(false)]
fn keys_ok(b: &Bencoding) -> (r: bool)
    ensures
        r == keys_utf8(*b),
    decreases *b,
{
    match b {
        Bencoding::String(_) => true,
        Bencoding::Integer(_) => true,
        Bencoding::List(es) => {
            let n = es.len();
            let mut j: usize = 0;
            while j < n
                invariant
                    n == es.len(),
                    0 <= j <= n,
                    forall|i: int| 0 <= i < j ==> keys_utf8(#[trigger] es@[i]),
                decreases n - j,
            {
                if !keys_ok(&es[j]) {
                    return false;
                }
                j = j + 1;
            }
            true
        },
        Bencoding::Dictionary(ps) => {
            let n = ps.len();
            let mut j: usize = 0;
            while j < n
                invariant
                    n == ps.len(),
                    0 <= j <= n,
                    forall|i: int| 0 <= i < j ==> valid_utf8((#[trigger] ps@[i]).0@),
                    forall|i: int| 0 <= i < j ==> keys_utf8((#[trigger] ps@[i]).1),
                decreases n - j,
            {
                if bytes_to_utf8(&ps[j].0).is_none() {
                    return false;
                }
                if !keys_ok(&ps[j].1) {
                    return false;
                }
                j = j + 1;
            }
            true
        },
    }
}

/// Render a decoded value if every dictionary key in it is valid UTF-8
/// text, and refuse it otherwise.
pub fn render_document(bencoded: &Bencoding) -> (r: Option<String>)
    ensures
        r is Some <==> keys_utf8(*bencoded),
        (r matches Some(t) ==> t@ == rendered(*bencoded, 0)),
{
    if keys_ok(bencoded) {
        Some(print_list(0, bencoded))
    } else {
        None
    }
}

} // verus!
