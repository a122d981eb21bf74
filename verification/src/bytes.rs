//! Byte-level helpers shared by the binary parsers: big-endian integer
//! decoding and decimal number parsing.

use vstd::prelude::*;

verus! {

/// The unsigned value of a big-endian byte string.
pub open spec fn be_value(b: Seq<u8>) -> nat
    decreases b.len(),
{
    if b.len() == 0 {
        0
    } else {
        be_value(b.drop_last()) * 256 + b.last() as nat
    }
}

/// A big-endian byte string of at most 8 bytes always fits in `u64`.
pub proof fn lemma_be_value_bound(b: Seq<u8>)
    requires
        b.len() <= 8,
    ensures
        be_value(b) < pow256(b.len() as nat),
        be_value(b) <= u64::MAX,
    decreases b.len(),
{
    if b.len() == 0 {
    } else {
        lemma_be_value_bound(b.drop_last());
        assert(be_value(b.drop_last()) <= pow256((b.len() - 1) as nat) - 1);
        assert(pow256(b.len() as nat) == pow256((b.len() - 1) as nat) * 256);
        assert(be_value(b) <= (pow256((b.len() - 1) as nat) - 1) * 256 + 255) by (nonlinear_arith)
            requires
                be_value(b.drop_last()) <= pow256((b.len() - 1) as nat) - 1,
                be_value(b) == be_value(b.drop_last()) * 256 + b.last(),
                b.last() <= 255,
        ;
        assert(pow256(8) == 0x1_0000_0000_0000_0000) by {
            reveal_with_fuel(pow256, 9);
        }
        assert(pow256(b.len() as nat) <= pow256(8)) by {
            lemma_pow256_increases(b.len() as nat, 8);
        }
    }
}

/// 256 raised to the power `n`.
pub open spec fn pow256(n: nat) -> nat
    decreases n,
{
    if n == 0 {
        1
    } else {
        pow256((n - 1) as nat) * 256
    }
}

proof fn lemma_pow256_increases(m: nat, n: nat)
    requires
        m <= n,
    ensures
        pow256(m) <= pow256(n),
    decreases n,
{
    if m < n {
        lemma_pow256_increases(m, (n - 1) as nat);
        assert(pow256((n - 1) as nat) * 256 >= pow256((n - 1) as nat) * 1) by (nonlinear_arith);
    }
}

/// Reads the `w` bytes starting at `start` as a big-endian unsigned integer.
pub fn be_read(b: &[u8], start: usize, w: usize) -> (r: u64)
    requires
        start + w <= b@.len(),
        w <= 8,
    ensures
        r == be_value(b@.subrange(start as int, start + w)),
{
    let n: usize = b.len();
    let mut acc: u64 = 0;
    let mut i: usize = 0;
    proof {
        assert(b@.subrange(start as int, start as int).len() == 0);
    }
    while i < w
        invariant
            i <= w,
            w <= 8,
            n == b@.len(),
            start + w <= n,
            acc == be_value(b@.subrange(start as int, start + i)),
        decreases w - i,
    {
        proof {
            lemma_be_value_bound(b@.subrange(start as int, start + i));
            assert(pow256(i as nat) <= pow256(7)) by {
                lemma_pow256_increases(i as nat, 7);
            }
            assert(pow256(7) == 0x100_0000_0000_0000) by {
                reveal_with_fuel(pow256, 8);
            }
        }
        let byte = b[start + i];
        acc = acc * 256 + (byte as u64);
        proof {
            let prefix = b@.subrange(start as int, start + i);
            let next = b@.subrange(start as int, start + i + 1);
            assert(next.drop_last() =~= prefix);
            assert(next.last() == byte);
        }
        i = i + 1;
    }
    proof {
        assert(b@.subrange(start as int, start + w) =~= b@.subrange(start as int, start + i));
    }
    acc
}

/// The position of the first occurrence of `x` in `b`, if any.
pub open spec fn find_byte(b: Seq<u8>, x: u8) -> Option<int>
    decreases b.len(),
{
    if b.len() == 0 {
        None
    } else if b[0] == x {
        Some(0int)
    } else {
        match find_byte(b.drop_first(), x) {
            None => None,
            Some(i) => Some(i + 1),
        }
    }
}

/// A position that holds `x` behind none that does is what `find_byte` finds.
pub proof fn lemma_find_byte_is(b: Seq<u8>, x: u8, i: int)
    requires
        0 <= i < b.len(),
        b[i] == x,
        forall|j: int| 0 <= j < i ==> b[j] != x,
    ensures
        find_byte(b, x) == Some(i),
    decreases b.len(),
{
    if i > 0 {
        lemma_find_byte_is(b.drop_first(), x, i - 1);
    }
}

/// A sequence without `x` is one where `find_byte` finds nothing.
pub proof fn lemma_find_byte_none(b: Seq<u8>, x: u8)
    requires
        forall|j: int| 0 <= j < b.len() ==> b[j] != x,
    ensures
        find_byte(b, x) is None,
    decreases b.len(),
{
    if b.len() > 0 {
        lemma_find_byte_none(b.drop_first(), x);
    }
}

/// Scans `b` from `start` for the first occurrence of `x`.
pub fn scan_byte(b: &[u8], start: usize, x: u8) -> (r: Option<usize>)
    requires
        start <= b@.len(),
    ensures
        ({
            let tail = b@.subrange(start as int, b@.len() as int);
            match r {
                Some(i) => start <= i < b@.len() && find_byte(tail, x) == Some(i - start),
                None => find_byte(tail, x) is None,
            }
        }),
{
    let ghost tail = b@.subrange(start as int, b@.len() as int);
    let n: usize = b.len();
    let mut i: usize = start;
    while i < n
        invariant
            start <= i <= n,
            n == b@.len(),
            tail == b@.subrange(start as int, n as int),
            forall|j: int| start <= j < i ==> b@[j] != x,
        decreases n - i,
    {
        if b[i] == x {
            proof {
                assert(tail[i - start] == x);
                assert forall|j: int| 0 <= j < i - start implies tail[j] != x by {
                    assert(tail[j] == b@[start + j]);
                }
                lemma_find_byte_is(tail, x, i - start);
            }
            return Some(i);
        }
        i = i + 1;
    }
    proof {
        assert forall|j: int| 0 <= j < tail.len() implies tail[j] != x by {
            assert(tail[j] == b@[start + j]);
        }
        lemma_find_byte_none(tail, x);
    }
    None
}

/// Whether `b` is an ASCII whitespace byte other than the line feed.
pub open spec fn is_ws(b: u8) -> bool {
    b == 0x20 || b == 0x09 || b == 0x0b || b == 0x0c || b == 0x0d
}

/// `s` with its trailing whitespace bytes removed.
pub open spec fn trim_end_spec(s: Seq<u8>) -> Seq<u8>
    decreases s.len(),
{
    if s.len() > 0 && is_ws(s.last()) {
        trim_end_spec(s.drop_last())
    } else {
        s
    }
}

/// Removes trailing ASCII whitespace from a byte string.
pub fn trim_end(s: &[u8]) -> (r: &[u8])
    ensures
        r@ == trim_end_spec(s@),
{
    let mut e: usize = s.len();
    proof {
        assert(s@.take(e as int) =~= s@);
    }
    loop
        invariant
            e <= s@.len(),
            trim_end_spec(s@) == trim_end_spec(s@.take(e as int)),
        decreases e,
    {
        if e == 0 {
            proof {
                assert(s@.take(0).len() == 0);
            }
            return vstd::slice::slice_subrange(s, 0, 0);
        }
        let b = s[e - 1];
        if !(b == 0x20 || b == 0x09 || b == 0x0b || b == 0x0c || b == 0x0d) {
            proof {
                assert(s@.take(e as int).last() == s@[e - 1]);
                assert(trim_end_spec(s@.take(e as int)) == s@.take(e as int));
            }
            return vstd::slice::slice_subrange(s, 0, e);
        }
        proof {
            assert(s@.take(e as int).drop_last() =~= s@.take(e - 1));
        }
        e = e - 1;
    }
}

/// Compares two byte strings for equality.
pub fn bytes_eq(a: &[u8], b: &[u8]) -> (r: bool)
    ensures
        r == (a@ == b@),
{
    let n: usize = a.len();
    if n != b.len() {
        proof {
            assert(a@ != b@) by {
                assert(a@.len() != b@.len());
            }
        }
        return false;
    }
    let mut i: usize = 0;
    while i < n
        invariant
            i <= n,
            n == a@.len() == b@.len(),
            forall|j: int| 0 <= j < i ==> a@[j] == b@[j],
        decreases n - i,
    {
        if a[i] != b[i] {
            return false;
        }
        i = i + 1;
    }
    proof {
        assert(a@ =~= b@);
    }
    true
}

/// Whether `b` is an ASCII decimal digit.
pub open spec fn is_dec_digit(b: u8) -> bool {
    0x30 <= b <= 0x39
}

/// Whether every byte of `s` is an ASCII decimal digit.
pub open spec fn all_dec_digits(s: Seq<u8>) -> bool {
    forall|i: int| 0 <= i < s.len() ==> is_dec_digit(s[i])
}

/// The number written by a string of ASCII decimal digits.
pub open spec fn dec_value(s: Seq<u8>) -> nat
    decreases s.len(),
{
    if s.len() == 0 {
        0
    } else {
        dec_value(s.drop_last()) * 10 + (s.last() - 0x30) as nat
    }
}

/// The digits of a decimal string, one optional leading `+` sign removed.
pub open spec fn dec_digits_part(s: Seq<u8>) -> Seq<u8> {
    if s.len() > 0 && s[0] == 0x2b {
        s.drop_first()
    } else {
        s
    }
}

/// Whether `s` is a well-formed unsigned decimal string: an optional leading
/// `+` sign followed by one or more ASCII decimal digits.
pub open spec fn is_dec_string(s: Seq<u8>) -> bool {
    dec_digits_part(s).len() > 0 && all_dec_digits(dec_digits_part(s))
}

/// Extending a digit string on the right never decreases its value.
proof fn lemma_dec_value_take_monotone(s: Seq<u8>, k: int)
    requires
        0 <= k <= s.len(),
    ensures
        dec_value(s.take(k)) <= dec_value(s),
    decreases s.len(),
{
    if k < s.len() {
        assert(s.take(k) =~= s.drop_last().take(k));
        lemma_dec_value_take_monotone(s.drop_last(), k);
        assert(dec_value(s.drop_last()) * 10 >= dec_value(s.drop_last()) * 1) by (nonlinear_arith);
    } else {
        assert(s.take(k) =~= s);
    }
}

/// Parses an unsigned decimal string: an optional leading `+` sign followed
/// by one or more ASCII decimal digits, as the descriptor's integer fields
/// are written. Returns `None` on an empty or malformed string, or when the
/// value does not fit in `usize`.
pub fn parse_usize(s: &[u8]) -> (r: Option<usize>)
    ensures
        r is Some <==> is_dec_string(s@) && dec_value(dec_digits_part(s@)) <= usize::MAX,
        r is Some ==> r->0 == dec_value(dec_digits_part(s@)),
{
    let n: usize = s.len();
    let start: usize = if n > 0 && s[0] == 0x2b {
        1
    } else {
        0
    };
    proof {
        if start == 1 {
            assert(dec_digits_part(s@) =~= s@.subrange(1, n as int));
        } else {
            assert(dec_digits_part(s@) =~= s@.subrange(0, n as int));
        }
    }
    let ghost d = dec_digits_part(s@);
    if start >= n {
        return None;
    }
    let mut acc: usize = 0;
    let mut i: usize = start;
    while i < n
        invariant
            start <= i <= n,
            n == s@.len(),
            start <= 1,
            d == dec_digits_part(s@),
            d =~= s@.subrange(start as int, n as int),
            all_dec_digits(d.take(i - start)),
            acc == dec_value(d.take(i - start)),
        decreases n - i,
    {
        let b = s[i];
        if b < 0x30 || b > 0x39 {
            assert(!is_dec_digit(d[i - start]));
            return None;
        }
        let digit = (b - 0x30) as usize;
        let scaled = match acc.checked_mul(10) {
            Some(v) => v,
            None => {
                proof {
                    assert(d.take(i - start + 1).drop_last() =~= d.take(i - start));
                    assert(dec_value(d.take(i - start + 1)) > usize::MAX);
                    lemma_dec_value_take_monotone(d, i - start + 1);
                }
                return None;
            },
        };
        acc = match scaled.checked_add(digit) {
            Some(v) => v,
            None => {
                proof {
                    assert(d.take(i - start + 1).drop_last() =~= d.take(i - start));
                    assert(dec_value(d.take(i - start + 1)) > usize::MAX);
                    lemma_dec_value_take_monotone(d, i - start + 1);
                }
                return None;
            },
        };
        proof {
            assert(d.take(i - start + 1).drop_last() =~= d.take(i - start));
            assert(d.take(i - start + 1).last() == b);
        }
        i = i + 1;
    }
    proof {
        assert(d.take(n - start) =~= d);
    }
    Some(acc)
}

} // verus!
