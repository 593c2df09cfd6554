//! Reading the textual commands of the serial tools: splitting on separator
//! bytes and reading unsigned numbers the way `str::parse` does.
use vstd::prelude::*;
use crate::buffers::copy_range;

verus! {

/// `i` is the position of the first byte `b` in `s`.
pub open spec fn is_first(s: Seq<u8>, b: u8, i: int) -> bool {
    &&& 0 <= i < s.len()
    &&& s[i] == b
    &&& forall|j: int| 0 <= j < i ==> s[j] != b
}

/// Position of the first byte `b` in `s`, if there is one.
pub open spec fn first_index(s: Seq<u8>, b: u8) -> Option<int> {
    if exists|i: int| is_first(s, b, i) {
        Some(choose|i: int| is_first(s, b, i))
    } else {
        None
    }
}

/// The bytes of `s` before the first byte `b` (all of `s` when there is none),
/// as the first item of `split` gives them.
pub open spec fn up_to(s: Seq<u8>, b: u8) -> Seq<u8> {
    match first_index(s, b) {
        Some(i) => s.take(i),
        None => s,
    }
}

/// The bytes of `s` after the first byte `b`, if there is one.
pub open spec fn after(s: Seq<u8>, b: u8) -> Option<Seq<u8>> {
    match first_index(s, b) {
        Some(i) => Some(s.skip(i + 1)),
        None => None,
    }
}

proof fn lemma_first_unique(s: Seq<u8>, b: u8, i: int, j: int)
    requires
        is_first(s, b, i),
        is_first(s, b, j),
    ensures
        i == j,
{
}

/// Where `i` is the first position of `b` in `s`, [`first_index`] finds it.
pub(crate) proof fn lemma_first_index_at(s: Seq<u8>, b: u8, i: int)
    requires
        is_first(s, b, i),
    ensures
        first_index(s, b) == Some(i),
{
    let k = choose|k: int| is_first(s, b, k);
    lemma_first_unique(s, b, i, k);
}

/// Where `b` is nowhere in `s`, [`first_index`] finds nothing.
pub(crate) proof fn lemma_first_index_absent(s: Seq<u8>, b: u8)
    requires
        forall|j: int| 0 <= j < s.len() ==> s[j] != b,
    ensures
        first_index(s, b) is None,
{
}

/// The decimal digits of `n` (`0` to `9`), most significant first, with no
/// leading zero.
pub open spec fn decimal_text(n: nat) -> Seq<u8>
    decreases n,
{
    if n < 10 {
        seq![(48 + n) as u8]
    } else {
        decimal_text(n / 10).push((48 + n % 10) as u8)
    }
}

/// The decimal digits of `n` are digits, and spell `n`.
pub(crate) proof fn lemma_decimal_text(n: nat)
    ensures
        decimal_text(n).len() >= 1,
        forall|i: int| 0 <= i < decimal_text(n).len() ==> 48 <= #[trigger] decimal_text(n)[i] <= 57,
        all_digits(decimal_text(n), 10),
        digits_value(decimal_text(n), 10) == n,
    decreases n,
{
    let t = decimal_text(n);
    if n < 10 {
        assert(t.drop_last() =~= Seq::<u8>::empty());
        assert(digits_value(t.drop_last(), 10) == 0);
        assert(t.last() == (48 + n) as u8);
        assert(digit_value(t.last(), 10) == Some(n));
    } else {
        lemma_decimal_text(n / 10);
        let p = decimal_text(n / 10);
        assert(t.drop_last() == p);
        assert(t.last() == (48 + n % 10) as u8);
        assert forall|i: int| 0 <= i < t.len() implies 48 <= #[trigger] t[i] <= 57 by {
            if i < p.len() {
                assert(t[i] == p[i]);
            }
        }
        assert(digits_value(t, 10) == digits_value(p, 10) * 10 + n % 10);
        assert((n / 10) * 10 + n % 10 == n) by (nonlinear_arith);
    }
}

/// Reading the decimal digits of `n` gives `n`, when it is at most `max`.
pub(crate) proof fn lemma_parse_decimal_text(n: nat, max: nat)
    requires
        n <= max,
    ensures
        parse_unsigned(decimal_text(n), 10, max) == Some(n),
{
    lemma_decimal_text(n);
    assert(decimal_text(n)[0] != 43);
}

/// Position of the first byte `b` in `s` ([`first_index`]).
pub fn find_byte(s: &[u8], b: u8) -> (r: Option<usize>)
    ensures
        r is None <==> first_index(s@, b) is None,
        r matches Some(i) ==> first_index(s@, b) == Some(i as int),
        r matches Some(i) ==> is_first(s@, b, i as int),
{
    let mut i: usize = 0;
    while i < s.len()
        invariant
            i <= s@.len(),
            forall|j: int| 0 <= j < i ==> s@[j] != b,
        decreases s@.len() - i,
    {
        if s[i] == b {
            proof {
                assert(is_first(s@, b, i as int));
                let k = choose|k: int| is_first(s@, b, k);
                lemma_first_unique(s@, b, i as int, k);
            }
            return Some(i);
        }
        i = i + 1;
    }
    None
}

/// Whether `s` holds exactly the bytes `w`.
pub fn bytes_equal(s: &[u8], w: &[u8]) -> (r: bool)
    ensures
        r == (s@ == w@),
{
    if s.len() != w.len() {
        return false;
    }
    let mut i: usize = 0;
    while i < s.len()
        invariant
            i <= s@.len(),
            s@.len() == w@.len(),
            forall|j: int| 0 <= j < i ==> s@[j] == w@[j],
        decreases s@.len() - i,
    {
        if s[i] != w[i] {
            return false;
        }
        i = i + 1;
    }
    assert(s@ =~= w@);
    true
}

/// Value of the digit `c` in base `radix` (10 or 16), if it is one.
pub open spec fn digit_value(c: u8, radix: nat) -> Option<nat> {
    if 48 <= c <= 57 {
        Some((c - 48) as nat)
    } else if radix == 16 && 97 <= c <= 102 {
        Some((c - 87) as nat)
    } else if radix == 16 && 65 <= c <= 70 {
        Some((c - 55) as nat)
    } else {
        None
    }
}

pub open spec fn all_digits(d: Seq<u8>, radix: nat) -> bool {
    forall|i: int| 0 <= i < d.len() ==> #[trigger] digit_value(d[i], radix) is Some
}

/// Value of the digits `d` in base `radix`, most significant first.
pub open spec fn digits_value(d: Seq<u8>, radix: nat) -> nat
    decreases d.len(),
{
    if d.len() == 0 {
        0
    } else {
        digits_value(d.drop_last(), radix) * radix + digit_value(d.last(), radix).unwrap()
    }
}

/// Reading an unsigned number from text as `str::parse` and
/// `from_str_radix` do: an optional `+`, then at least one digit of base
/// `radix`, the value not above `max`.
pub open spec fn parse_unsigned(s: Seq<u8>, radix: nat, max: nat) -> Option<nat> {
    let d = if s.len() > 0 && s[0] == 43 {
        s.skip(1)
    } else {
        s
    };
    if d.len() == 0 || !all_digits(d, radix) || digits_value(d, radix) > max {
        None
    } else {
        Some(digits_value(d, radix))
    }
}

/// The value of all digits is at least the value of any leading part of them.
proof fn lemma_digits_value_grows(d: Seq<u8>, radix: nat, i: int)
    requires
        0 <= i <= d.len(),
        radix >= 1,
        all_digits(d, radix),
    ensures
        digits_value(d.take(i), radix) <= digits_value(d, radix),
    decreases d.len() - i,
{
    if i < d.len() {
        lemma_digits_value_grows(d, radix, i + 1);
        let t = d.take(i + 1);
        assert(t.drop_last() == d.take(i));
        let v = digits_value(d.take(i), radix);
        assert(v <= v * radix) by (nonlinear_arith)
            requires
                radix >= 1,
        ;
    } else {
        assert(d.take(i) == d);
    }
}

/// The bytes after position `i + 1` of `s`, up to the next byte `b`.
pub fn piece_after(s: &[u8], i: usize, b: u8) -> (r: Vec<u8>)
    requires
        i < s.len(),
    ensures
        r@ == up_to(s@.skip(i + 1), b),
{
    let rest = copy_range(s, i + 1, s.len());
    assert(rest@ == s@.skip(i + 1));
    match find_byte(rest.as_slice(), b) {
        Some(j) => {
            let r = copy_range(rest.as_slice(), 0, j);
            assert(r@ == rest@.take(j as int));
            r
        },
        None => rest,
    }
}

/// Reads an unsigned number in base `radix` (10 or 16) of value at most
/// `max` ([`parse_unsigned`]).
pub fn parse_number(s: &[u8], radix: u8, max: u64) -> (r: Option<u64>)
    requires
        radix == 10 || radix == 16,
    ensures
        match parse_unsigned(s@, radix as nat, max as nat) {
            Some(v) => r == Some(v as u64),
            None => r is None,
        },
{
    let start: usize = if s.len() > 0 && s[0] == 43u8 {
        1
    } else {
        0
    };
    let ghost d = s@.skip(start as int);
    assert(s@.skip(0) =~= s@);
    assert(d == (if s@.len() > 0 && s@[0] == 43 {
        s@.skip(1)
    } else {
        s@
    }));
    if start == s.len() {
        return None;
    }
    let mut acc: u128 = 0;
    let mut i: usize = start;
    while i < s.len()
        invariant
            start <= i <= s@.len(),
            start < s@.len(),
            d == s@.skip(start as int),
            d == (if s@.len() > 0 && s@[0] == 43 {
                s@.skip(1)
            } else {
                s@
            }),
            radix == 10 || radix == 16,
            all_digits(d.take(i - start), radix as nat),
            acc == digits_value(d.take(i - start), radix as nat),
            acc <= max,
        decreases s@.len() - i,
    {
        let c = s[i];
        let digit: u128 = if 48u8 <= c && c <= 57u8 {
            (c - 48u8) as u128
        } else if radix == 16 && 97u8 <= c && c <= 102u8 {
            (c - 87u8) as u128
        } else if radix == 16 && 65u8 <= c && c <= 70u8 {
            (c - 55u8) as u128
        } else {
            assert(d[i - start] == c);
            assert(digit_value(d[i - start], radix as nat) is None);
            assert(!all_digits(d, radix as nat));
            return None;
        };
        assert(digit_value(c, radix as nat) == Some(digit as nat));
        proof {
            let t = d.take(i - start + 1);
            assert(t.drop_last() == d.take(i - start));
            assert(t.last() == c);
            assert(all_digits(t, radix as nat)) by {
                assert forall|j: int| 0 <= j < t.len() implies #[trigger] digit_value(
                    t[j],
                    radix as nat,
                ) is Some by {
                    if j < t.len() - 1 {
                        assert(t[j] == d.take(i - start)[j]);
                    }
                }
            }
        }
        assert(acc * (radix as u128) <= (max as u128) * 16) by (nonlinear_arith)
            requires
                acc <= max,
                radix <= 16,
        ;
        acc = acc * (radix as u128) + digit;
        assert(acc == digits_value(d.take(i - start + 1), radix as nat)) by {
            let t = d.take(i - start + 1);
            assert(t.drop_last() == d.take(i - start));
        }
        if acc > max as u128 {
            proof {
                let t = d.take(i - start + 1);
                if all_digits(d, radix as nat) {
                    lemma_digits_value_grows(d, radix as nat, i - start + 1);
                }
            }
            return None;
        }
        i = i + 1;
    }
    assert(d.take(i - start) == d);
    Some(acc as u64)
}

} // verus!
