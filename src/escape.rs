use std::borrow::Cow;
use vstd::prelude::*;
use vstd::string::*;

use crate::mountinfo::MountsParserError;

verus! {

/// The byte `\` that opens an escape sequence.
pub const BACKSLASH: u8 = 92;

pub open spec fn is_octal_digit(b: u8) -> bool {
    48 <= b <= 55
}

/// The number written by three octal digits.
pub open spec fn octal_value(a: u8, b: u8, c: u8) -> int {
    (a - 48) * 64 + (b - 48) * 8 + (c - 48)
}

/// `s` opens with a backslash and three octal digits whose value fits in a byte.
pub open spec fn valid_escape_at(s: Seq<u8>) -> bool {
    &&& s.len() >= 4
    &&& s[0] == BACKSLASH
    &&& is_octal_digit(s[1])
    &&& is_octal_digit(s[2])
    &&& is_octal_digit(s[3])
    &&& octal_value(s[1], s[2], s[3]) <= 255
}

/// The decoded form of a field: each `\NNN` becomes the byte of octal value
/// `NNN`, other bytes stay as they are; `None` when a backslash opens no
/// well-formed escape.
pub open spec fn unescape(s: Seq<u8>) -> Option<Seq<u8>>
    decreases s.len(),
{
    if s.len() == 0 {
        Some(Seq::empty())
    } else if s[0] == BACKSLASH {
        if valid_escape_at(s) {
            match unescape(s.skip(4)) {
                Some(rest) => Some(seq![octal_value(s[1], s[2], s[3]) as u8] + rest),
                None => None,
            }
        } else {
            None
        }
    } else {
        match unescape(s.skip(1)) {
            Some(rest) => Some(seq![s[0]] + rest),
            None => None,
        }
    }
}

pub open spec fn has_backslash(s: Seq<u8>) -> bool {
    exists|i: int| 0 <= i < s.len() && s[i] == BACKSLASH
}

/// How the kernel writes one byte of a field: space, tab, newline and
/// backslash as a three-digit octal escape, any other byte as itself.
pub open spec fn escape_byte(b: u8) -> Seq<u8> {
    if b == 32 {
        seq![BACKSLASH, 48u8, 52u8, 48u8]
    } else if b == 9 {
        seq![BACKSLASH, 48u8, 49u8, 49u8]
    } else if b == 10 {
        seq![BACKSLASH, 48u8, 49u8, 50u8]
    } else if b == BACKSLASH {
        seq![BACKSLASH, 49u8, 51u8, 52u8]
    } else {
        seq![b]
    }
}

/// The escaped form of a whole field.
pub open spec fn escape(s: Seq<u8>) -> Seq<u8>
    decreases s.len(),
{
    if s.len() == 0 {
        Seq::empty()
    } else {
        escape_byte(s[0]) + escape(s.skip(1))
    }
}

/// Decodes the kernel's octal escapes in one field. A field without a
/// backslash is handed back borrowed, without a copy.
pub fn unescape_octals<'a>(v: &'a [u8]) -> (r: Result<Cow<'a, [u8]>, MountsParserError>)
    ensures
        match r {
            Ok(d) => unescape(v@) == Some(d@) && (!has_backslash(v@) ==> d is Borrowed),
            Err(e) => unescape(v@) is None && e is InvalidValue,
        },
{
    let mut found = false;
    let mut k: usize = 0;
    while k < v.len()
        invariant
            k <= v@.len(),
            !found ==> forall|j: int| 0 <= j < k ==> v@[j] != BACKSLASH,
            found ==> has_backslash(v@),
        decreases v@.len() - k,
    {
        if v[k] == BACKSLASH {
            found = true;
        }
        k += 1;
    }
    if !found {
        proof {
            lemma_plain_field_unchanged(v@);
        }
        return Ok(Cow::Borrowed(v));
    }
    let mut out: Vec<u8> = Vec::with_capacity(v.len());
    let mut i: usize = 0;
    proof {
        assert(v@.skip(0) =~= v@);
        if let Some(rest) = unescape(v@) {
            assert(out@ + rest =~= rest);
        }
    }
    while i < v.len()
        invariant
            i <= v@.len(),
            unescape(v@) == match unescape(v@.skip(i as int)) {
                Some(rest) => Some(out@ + rest),
                None => None,
            },
        decreases v@.len() - i,
    {
        let ghost tail = v@.skip(i as int);
        if v[i] == BACKSLASH {
            if v.len() - i < 4 {
                return Err(MountsParserError::InvalidValue(String::from_str("Invalid escaping")));
            }
            let a = v[i + 1];
            let b = v[i + 2];
            let c = v[i + 3];
            if a < 48 || a > 55 || b < 48 || b > 55 || c < 48 || c > 55 {
                return Err(MountsParserError::InvalidValue(String::from_str("Expected octal number")));
            }
            let value: u32 = (a - 48) as u32 * 64 + (b - 48) as u32 * 8 + (c - 48) as u32;
            if value > 255 {
                return Err(MountsParserError::InvalidValue(String::from_str("Expected octal number")));
            }
            proof {
                assert(tail.skip(4) =~= v@.skip(i + 4));
                assert(valid_escape_at(tail));
                assert(octal_value(a, b, c) == value);
                match unescape(tail.skip(4)) {
                    Some(rest) => {
                        assert(out@.push(value as u8) + rest =~= out@ + (seq![value as u8] + rest));
                    },
                    None => {},
                }
            }
            out.push(value as u8);
            i += 4;
        } else {
            proof {
                assert(tail.skip(1) =~= v@.skip(i + 1));
                match unescape(tail.skip(1)) {
                    Some(rest) => {
                        assert(out@.push(v@[i as int]) + rest =~= out@ + (seq![v@[i as int]] + rest));
                    },
                    None => {},
                }
            }
            out.push(v[i]);
            i += 1;
        }
    }
    proof {
        assert(v@.skip(i as int) =~= Seq::<u8>::empty());
        assert(out@ + Seq::<u8>::empty() =~= out@);
    }
    Ok(Cow::Owned(out))
}

/// Writes a field the way the kernel does: space, tab, newline and
/// backslash become three-digit octal escapes.
pub fn escape_octals(v: &[u8]) -> (r: Vec<u8>)
    ensures
        r@ == escape(v@),
{
    let mut out: Vec<u8> = Vec::with_capacity(v.len());
    let mut i: usize = 0;
    proof {
        assert(v@.skip(0) =~= v@);
        assert(out@ + escape(v@) =~= escape(v@));
    }
    while i < v.len()
        invariant
            i <= v@.len(),
            escape(v@) == out@ + escape(v@.skip(i as int)),
        decreases v@.len() - i,
    {
        let b = v[i];
        let ghost tail = v@.skip(i as int);
        let ghost before = out@;
        if b == 32 {
            out.push(BACKSLASH);
            out.push(48);
            out.push(52);
            out.push(48);
        } else if b == 9 {
            out.push(BACKSLASH);
            out.push(48);
            out.push(49);
            out.push(49);
        } else if b == 10 {
            out.push(BACKSLASH);
            out.push(48);
            out.push(49);
            out.push(50);
        } else if b == BACKSLASH {
            out.push(BACKSLASH);
            out.push(49);
            out.push(51);
            out.push(52);
        } else {
            out.push(b);
        }
        proof {
            assert(out@ =~= before + escape_byte(b));
            assert(tail.skip(1) =~= v@.skip(i + 1));
            assert(escape(tail) == escape_byte(b) + escape(tail.skip(1)));
            assert(before + (escape_byte(b) + escape(tail.skip(1))) =~= out@ + escape(tail.skip(1)));
        }
        i += 1;
    }
    proof {
        assert(v@.skip(i as int) =~= Seq::<u8>::empty());
        assert(out@ + Seq::<u8>::empty() =~= out@);
    }
    out
}

/// Escaping a field and decoding it again gives the field back, and the
/// escaped form holds no space, tab or newline, so it stays one column of
/// a row.
pub proof fn lemma_escape_round_trip(s: Seq<u8>)
    ensures
        unescape(escape(s)) == Some(s),
        forall|i: int| 0 <= i < escape(s).len() ==> escape(s)[i] != 32 && escape(s)[i] != 9
            && escape(s)[i] != 10,
    decreases s.len(),
{
    if s.len() > 0 {
        let b = s[0];
        let e = escape(s);
        let head = escape_byte(b);
        lemma_escape_round_trip(s.skip(1));
        assert(e == head + escape(s.skip(1)));
        assert(e.skip(head.len() as int) =~= escape(s.skip(1)));
        assert(seq![b] + s.skip(1) =~= s);
        if head.len() == 4 {
            assert(e[0] == BACKSLASH);
            assert(valid_escape_at(e));
        } else {
            assert(e[0] == b);
        }
        assert forall|i: int| 0 <= i < e.len() implies e[i] != 32 && e[i] != 9 && e[i] != 10 by {
            if i >= head.len() {
                assert(e[i] == escape(s.skip(1))[i - head.len()]);
            }
        }
    }
}

/// Parsing, writing back with escapes and parsing again is stable: a field
/// that decodes to `d` has an escaped form that decodes to `d` again.
pub proof fn lemma_reencoded_field_decodes_the_same(field: Seq<u8>)
    requires
        unescape(field) is Some,
    ensures
        unescape(escape(unescape(field)->Some_0)) == unescape(field),
{
    lemma_escape_round_trip(unescape(field)->Some_0);
}

/// An escape `\NNN` decodes to exactly the one byte of octal value `NNN`,
/// and two escapes that decode to the same byte are the same four bytes.
pub proof fn lemma_octal_escape_decodes_to_its_byte(x: Seq<u8>, y: Seq<u8>)
    requires
        x.len() == 4,
        y.len() == 4,
        valid_escape_at(x),
        valid_escape_at(y),
    ensures
        unescape(x) == Some(seq![octal_value(x[1], x[2], x[3]) as u8]),
        unescape(x) == unescape(y) ==> x == y,
{
    assert(x.skip(4) =~= Seq::<u8>::empty());
    assert(y.skip(4) =~= Seq::<u8>::empty());
    assert(unescape(Seq::<u8>::empty()) == Some(Seq::<u8>::empty()));
    assert(seq![octal_value(x[1], x[2], x[3]) as u8] + Seq::<u8>::empty()
        =~= seq![octal_value(x[1], x[2], x[3]) as u8]);
    assert(seq![octal_value(y[1], y[2], y[3]) as u8] + Seq::<u8>::empty()
        =~= seq![octal_value(y[1], y[2], y[3]) as u8]);
    if unescape(x) == unescape(y) {
        assert(seq![octal_value(x[1], x[2], x[3]) as u8][0] == seq![octal_value(y[1], y[2], y[3]) as u8][0]);
        assert(x =~= y);
    }
}

/// A backslash that does not open a well-formed escape makes the field
/// undecodable: a literal backslash has to be written `\134`.
pub proof fn lemma_bare_backslash_rejected(s: Seq<u8>)
    requires
        s.len() > 0,
        s[0] == BACKSLASH,
        !valid_escape_at(s),
    ensures
        unescape(s) is None,
{
}

/// In a field that decodes, every backslash opens a well-formed escape:
/// the digits of an escape are never backslashes.
pub proof fn lemma_every_backslash_opens_an_escape(s: Seq<u8>)
    requires
        unescape(s) is Some,
    ensures
        forall|i: int| 0 <= i < s.len() && s[i] == BACKSLASH ==> valid_escape_at(#[trigger] s.skip(i)),
    decreases s.len(),
{
    if s.len() > 0 {
        let step: int = if s[0] == BACKSLASH { 4 } else { 1 };
        lemma_every_backslash_opens_an_escape(s.skip(step));
        assert forall|i: int| 0 <= i < s.len() && s[i] == BACKSLASH implies valid_escape_at(
            #[trigger] s.skip(i),
        ) by {
            if i == 0 {
                assert(s.skip(0) =~= s);
            } else {
                assert(i >= step);
                assert(s.skip(step).skip(i - step) =~= s.skip(i));
                assert(s.skip(step)[i - step] == s[i]);
            }
        }
    }
}

/// A backslash followed by fewer than three bytes makes the field
/// undecodable.
pub proof fn lemma_truncated_escape_rejected(s: Seq<u8>, i: int)
    requires
        0 <= i < s.len(),
        s[i] == BACKSLASH,
        s.len() < i + 4,
    ensures
        unescape(s) is None,
{
    if unescape(s) is Some {
        lemma_every_backslash_opens_an_escape(s);
        assert(valid_escape_at(s.skip(i)));
    }
}

/// A field that holds no backslash decodes to itself, byte for byte, whatever
/// those bytes are (valid text or not).
pub proof fn lemma_plain_field_unchanged(s: Seq<u8>)
    requires
        forall|i: int| 0 <= i < s.len() ==> s[i] != BACKSLASH,
    ensures
        unescape(s) == Some(s),
    decreases s.len(),
{
    if s.len() > 0 {
        lemma_plain_field_unchanged(s.skip(1));
        assert(seq![s[0]] + s.skip(1) =~= s);
    }
}

} // verus!
