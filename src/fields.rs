use vstd::prelude::*;

verus! {

/// The pieces of `s` between occurrences of `sep`, in order. There is
/// always at least one piece; two adjacent separators give an empty one.
pub open spec fn split_on(s: Seq<u8>, sep: u8) -> Seq<Seq<u8>>
    decreases s.len(),
{
    if s.len() == 0 {
        seq![Seq::empty()]
    } else {
        let init = split_on(s.drop_last(), sep);
        if s.last() == sep {
            init.push(Seq::empty())
        } else {
            init.update(init.len() - 1, init.last().push(s.last()))
        }
    }
}

/// The bytes of `s` that each range delimits.
pub open spec fn pieces(s: Seq<u8>, r: Seq<(usize, usize)>) -> Seq<Seq<u8>> {
    r.map_values(|p: (usize, usize)| s.subrange(p.0 as int, p.1 as int))
}

pub open spec fn ranges_within(r: Seq<(usize, usize)>, len: int) -> bool {
    forall|k: int| 0 <= k < r.len() ==> (#[trigger] r[k]).0 <= r[k].1 <= len
}

/// Splits `s` at each `sep`, as the ranges of the pieces; nothing is copied.
pub fn split_ranges(s: &[u8], sep: u8) -> (r: Vec<(usize, usize)>)
    ensures
        ranges_within(r@, s@.len() as int),
        pieces(s@, r@) == split_on(s@, sep),
{
    let mut r: Vec<(usize, usize)> = Vec::new();
    let mut start: usize = 0;
    let mut i: usize = 0;
    proof {
        assert(s@.take(0) =~= Seq::<u8>::empty());
        assert(pieces(s@, r@).push(s@.subrange(0, 0)) =~= seq![Seq::<u8>::empty()]);
    }
    while i < s.len()
        invariant
            start <= i <= s@.len(),
            ranges_within(r@, i as int),
            split_on(s@.take(i as int), sep) == pieces(s@, r@).push(s@.subrange(start as int, i as int)),
        decreases s@.len() - i,
    {
        let ghost before = pieces(s@, r@);
        proof {
            assert(s@.take(i + 1).drop_last() =~= s@.take(i as int));
            assert(s@.take(i + 1).last() == s@[i as int]);
        }
        if s[i] == sep {
            r.push((start, i));
            proof {
                assert(pieces(s@, r@) =~= before.push(s@.subrange(start as int, i as int)));
                assert(s@.subrange(i + 1, i + 1) =~= Seq::<u8>::empty());
            }
            start = i + 1;
        } else {
            proof {
                assert(s@.subrange(start as int, i as int).push(s@[i as int])
                    =~= s@.subrange(start as int, i + 1));
                assert(before.push(s@.subrange(start as int, i as int)).update(
                    before.len() as int,
                    s@.subrange(start as int, i + 1),
                ) =~= before.push(s@.subrange(start as int, i + 1)));
            }
        }
        i += 1;
    }
    let ghost before = pieces(s@, r@);
    r.push((start, i));
    proof {
        assert(s@.take(i as int) =~= s@);
        assert(pieces(s@, r@) =~= before.push(s@.subrange(start as int, i as int)));
    }
    r
}

pub open spec fn is_digit(b: u8) -> bool {
    48 <= b <= 57
}

/// The number that a string of decimal digits writes.
pub open spec fn digits_value(s: Seq<u8>) -> nat
    decreases s.len(),
{
    if s.len() == 0 {
        0
    } else {
        digits_value(s.drop_last()) * 10 + (s.last() - 48) as nat
    }
}

/// The value of a column holding a decimal integer: one or more digits,
/// nothing else, and a value that fits in 64 bits.
pub open spec fn decimal(s: Seq<u8>) -> Option<u64> {
    if s.len() > 0 && (forall|i: int| 0 <= i < s.len() ==> is_digit(#[trigger] s[i]))
        && digits_value(s) <= u64::MAX {
        Some(digits_value(s) as u64)
    } else {
        None
    }
}

proof fn lemma_digits_value_grows(s: Seq<u8>, j: int)
    requires
        0 <= j <= s.len(),
    ensures
        digits_value(s.take(j)) <= digits_value(s),
    decreases s.len() - j,
{
    if j == s.len() {
        assert(s.take(j) =~= s);
    } else {
        lemma_digits_value_grows(s.drop_last(), j);
        assert(s.drop_last().take(j) =~= s.take(j));
        let x = digits_value(s.drop_last());
        assert(x <= x * 10) by (nonlinear_arith);
    }
}

/// Reads a decimal integer column; `None` for anything `decimal` rejects.
pub fn parse_decimal(s: &[u8]) -> (r: Option<u64>)
    ensures
        r == decimal(s@),
{
    if s.len() == 0 {
        return None;
    }
    let mut acc: u64 = 0;
    let mut i: usize = 0;
    proof {
        assert(s@.take(0) =~= Seq::<u8>::empty());
    }
    while i < s.len()
        invariant
            i <= s@.len(),
            acc == digits_value(s@.take(i as int)),
            forall|j: int| 0 <= j < i ==> is_digit(#[trigger] s@[j]),
        decreases s@.len() - i,
    {
        let b = s[i];
        if b < 48 || b > 57 {
            assert(!is_digit(s@[i as int]));
            return None;
        }
        let d = (b - 48) as u64;
        proof {
            assert(s@.take(i + 1).drop_last() =~= s@.take(i as int));
        }
        if acc > 1844674407370955161 || (acc == 1844674407370955161 && d > 5) {
            proof {
                assert(digits_value(s@.take(i + 1)) > u64::MAX);
                lemma_digits_value_grows(s@, i + 1);
            }
            return None;
        }
        acc = acc * 10 + d;
        i += 1;
    }
    proof {
        assert(s@.take(i as int) =~= s@);
    }
    Some(acc)
}

} // verus!
