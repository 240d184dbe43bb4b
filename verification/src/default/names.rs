//! The names of layer files: the number of the layer in decimal digits.

use vstd::prelude::*;

verus! {

/// The byte is one of the digits `0` to `9`.
pub open spec fn is_digit(b: u8) -> bool {
    48 <= b <= 57
}

/// The number that a run of decimal digits spells; `None` if a byte of the
/// run is not a digit. The empty run spells zero.
pub open spec fn digits_value(b: Seq<u8>) -> Option<int>
    decreases b.len(),
{
    if b.len() == 0 {
        Some(0)
    } else {
        match digits_value(b.drop_last()) {
            Some(v) => if is_digit(b.last()) {
                Some(v * 10 + (b.last() - 48))
            } else {
                None
            },
            None => None,
        }
    }
}

/// The number that a name stands for: the name is at least one decimal
/// digit, with or without a `+` in front, and spells a number that fits in 32
/// bits. Any other name stands for no number.
pub open spec fn number_of(name: Seq<u8>) -> Option<u32> {
    let body = if name.len() > 0 && name[0] == 43 {
        name.skip(1)
    } else {
        name
    };
    if body.len() == 0 {
        None
    } else {
        match digits_value(body) {
            Some(v) => if v <= u32::MAX {
                Some(v as u32)
            } else {
                None
            },
            None => None,
        }
    }
}

/// The name for a number: its decimal digits, without leading zeros.
pub open spec fn name_of(n: nat) -> Seq<u8>
    decreases n,
{
    if n < 10 {
        seq![(48 + n) as u8]
    } else {
        name_of(n / 10).push((48 + n % 10) as u8)
    }
}

/// What a run of digits spells does not get smaller when more digits follow.
pub proof fn lemma_digits_grow(b: Seq<u8>, k: int)
    requires
        0 <= k <= b.len(),
        digits_value(b) is Some,
    ensures
        digits_value(b.take(k)) is Some,
        0 <= digits_value(b.take(k)).unwrap() <= digits_value(b).unwrap(),
    decreases b.len() - k,
{
    if k == b.len() {
        assert(b.take(k) == b);
        lemma_digits_nonnegative(b);
    } else {
        let front = b.drop_last();
        assert(front.take(k) == b.take(k));
        lemma_digits_grow(front, k);
    }
}

/// What a run of digits spells is not negative.
pub proof fn lemma_digits_nonnegative(b: Seq<u8>)
    requires
        digits_value(b) is Some,
    ensures
        digits_value(b).unwrap() >= 0,
    decreases b.len(),
{
    if b.len() > 0 {
        lemma_digits_nonnegative(b.drop_last());
    }
}

/// The name for a number is made of digits and spells the number.
pub proof fn lemma_name_spells(n: nat)
    ensures
        name_of(n).len() > 0,
        name_of(n)[0] != 43,
        digits_value(name_of(n)) == Some(n as int),
    decreases n,
{
    if n < 10 {
        let s = seq![(48 + n) as u8];
        assert(s.drop_last() == Seq::<u8>::empty());
        assert(digits_value(Seq::<u8>::empty()) == Some(0int));
        assert(s.last() == (48 + n) as u8);
    } else {
        lemma_name_spells(n / 10);
        let s = name_of(n);
        assert(s.drop_last() == name_of(n / 10));
        assert(s.last() == (48 + n % 10) as u8);
        assert(s[0] == name_of(n / 10)[0]);
    }
}

/// The name for a number that fits in 32 bits stands for that number.
pub proof fn lemma_name_round_trip(n: u32)
    ensures
        number_of(name_of(n as nat)) == Some(n),
{
    lemma_name_spells(n as nat);
}

/// The number that a name stands for, if it stands for one.
pub fn parse_name(name: &[u8]) -> (r: Option<u32>)
    ensures
        r == number_of(name@),
{
    let first: usize = if name.len() > 0 && name[0] == 43 {
        1
    } else {
        0
    };
    if first == name.len() {
        return None;
    }
    let ghost body = name@.skip(first as int);
    let mut value: u64 = 0;
    let mut i: usize = first;
    proof {
        assert(body.take(0) == Seq::<u8>::empty());
        assert(name@.skip(0) == name@);
    }
    while i < name.len()
        invariant
            first <= i <= name.len(),
            first < name.len(),
            first == if name@.len() > 0 && name@[0] == 43 {
                1int
            } else {
                0int
            },
            body == name@.skip(first as int),
            digits_value(body.take(i - first)) == Some(value as int),
            value <= u32::MAX,
        decreases name.len() - i,
    {
        let b: u8 = name[i];
        proof {
            assert(body.take(i - first + 1).drop_last() == body.take(i - first));
            assert(body.take(i - first + 1).last() == b);
        }
        if b < 48 || b > 57 {
            proof {
                assert(name@.skip(0) == name@);
                if digits_value(body) is Some {
                    lemma_digits_grow(body, i - first + 1);
                }
            }
            return None;
        }
        let next: u64 = value * 10 + (b - 48) as u64;
        if next > 0xffff_ffff {
            proof {
                assert(name@.skip(0) == name@);
                if digits_value(body) is Some {
                    lemma_digits_grow(body, i - first + 1);
                }
            }
            return None;
        }
        value = next;
        i += 1;
    }
    proof {
        assert(body.take(body.len() as int) == body);
        assert(name@.skip(0) == name@);
    }
    Some(value as u32)
}

/// The name for a number.
pub fn format_name(n: u64) -> (r: Vec<u8>)
    ensures
        r@ == name_of(n as nat),
    decreases n,
{
    if n < 10 {
        let mut r: Vec<u8> = Vec::new();
        r.push((48 + n) as u8);
        assert(r@ == name_of(n as nat));
        r
    } else {
        let mut r = format_name(n / 10);
        r.push((48 + n % 10) as u8);
        r
    }
}

} // verus!
