//! Parsing the commit-epoch field: a signed decimal integer, with 0 as
//! the default for anything unparsable (including out-of-range values).

use vstd::prelude::*;

verus! {

/// `c` is an ASCII decimal digit.
pub open spec fn is_digit(c: char) -> bool {
    48 <= c as int && c as int <= 57
}

/// Every character of `s` is an ASCII decimal digit.
pub open spec fn is_digit_seq(s: Seq<char>) -> bool {
    forall|i: int| 0 <= i < s.len() ==> is_digit(#[trigger] s[i])
}

/// The value of a sequence of decimal digits, most significant first.
pub open spec fn digits_val(s: Seq<char>) -> int
    decreases s.len(),
{
    if s.len() == 0 {
        0
    } else {
        digits_val(s.drop_last()) * 10 + (s.last() as int - 48)
    }
}

/// Ten to the power `n`.
pub open spec fn pow10(n: nat) -> int
    decreases n,
{
    if n == 0 {
        1
    } else {
        10 * pow10((n - 1) as nat)
    }
}

/// What `str::parse::<i64>` accepts: an optional single `+` or `-` sign,
/// then at least one ASCII digit and nothing else, with the value in
/// range for a 64-bit signed integer.
pub open spec fn parse_i64(s: Seq<char>) -> Option<i64> {
    let signed = s.len() > 0 && (s[0] == '-' || s[0] == '+');
    let neg = s.len() > 0 && s[0] == '-';
    let ds = if signed {
        s.drop_first()
    } else {
        s
    };
    if ds.len() > 0 && is_digit_seq(ds) {
        let v = if neg {
            -digits_val(ds)
        } else {
            digits_val(ds)
        };
        if i64::MIN <= v && v <= i64::MAX {
            Some(v as i64)
        } else {
            None
        }
    } else {
        None
    }
}

/// The epoch encoded by a ref-line field: the parsed value, or 0 when
/// the field does not parse as an in-range signed integer.
pub open spec fn epoch_of(s: Seq<char>) -> i64 {
    match parse_i64(s) {
        Some(v) => v,
        None => 0,
    }
}

proof fn lemma_pow10_pos(n: nat)
    ensures
        pow10(n) >= 1,
    decreases n,
{
    if n > 0 {
        lemma_pow10_pos((n - 1) as nat);
    }
}

proof fn lemma_pow10_mono(a: nat, b: nat)
    requires
        a <= b,
    ensures
        pow10(a) <= pow10(b),
    decreases b,
{
    if a < b {
        lemma_pow10_mono(a, (b - 1) as nat);
        lemma_pow10_pos((b - 1) as nat);
    }
}

/// The value of a digit string is bounded by ten to its length.
proof fn lemma_digits_val_bounds(s: Seq<char>)
    requires
        is_digit_seq(s),
    ensures
        0 <= digits_val(s) < pow10(s.len()),
    decreases s.len(),
{
    if s.len() > 0 {
        assert(is_digit_seq(s.drop_last()));
        lemma_digits_val_bounds(s.drop_last());
    }
}

/// A digit string without a leading zero is at least ten to the power
/// of one less than its length.
proof fn lemma_digits_val_lower(s: Seq<char>)
    requires
        is_digit_seq(s),
        s.len() > 0,
        s[0] as int != 48,
    ensures
        digits_val(s) >= pow10((s.len() - 1) as nat),
    decreases s.len(),
{
    if s.len() == 1 {
        reveal_with_fuel(digits_val, 2);
        assert(s.drop_last().len() == 0);
        assert(is_digit(s[0]));
        assert(s.last() == s[0]);
    } else {
        assert(is_digit_seq(s.drop_last()));
        assert(s.drop_last()[0] == s[0]);
        lemma_digits_val_lower(s.drop_last());
        assert(is_digit(s[s.len() - 1]));
        assert(s.last() as int - 48 >= 0);
    }
}

/// Leading zeros do not change the value of a digit string.
proof fn lemma_skip_zeros(s: Seq<char>, k: int)
    requires
        0 <= k <= s.len(),
        forall|i: int| 0 <= i < k ==> #[trigger] s[i] as int == 48,
    ensures
        digits_val(s) == digits_val(s.skip(k)),
    decreases s.len(),
{
    if s.len() == 0 {
        assert(s.skip(k) =~= s);
    } else if k == s.len() {
        lemma_skip_zeros(s.drop_last(), k - 1);
        assert(s.drop_last().skip(k - 1) =~= Seq::<char>::empty());
        assert(s.skip(k) =~= Seq::<char>::empty());
        assert(s.last() as int == 48);
    } else {
        lemma_skip_zeros(s.drop_last(), k);
        assert(s.skip(k).drop_last() =~= s.drop_last().skip(k));
        assert(s.skip(k).last() == s.last());
        assert(digits_val(s.skip(k)) == digits_val(s.skip(k).drop_last()) * 10 + (s.skip(
            k,
        ).last() as int - 48));
    }
}

proof fn lemma_pow10_concrete()
    ensures
        pow10(19) == 10_000_000_000_000_000_000,
        pow10(20) == 100_000_000_000_000_000_000,
{
    reveal_with_fuel(pow10, 21);
}

/// Parse a ref-line epoch field, defaulting to 0 on any failure.
#[verifier::rlimit(50)]
#[verifier::loop_isolation(false)]
pub fn parse_epoch(s: &str) -> (r: i64)
    ensures
        r == epoch_of(s@),
{
    let n: usize = s.unicode_len();
    let mut i: usize = 0;
    let mut neg = false;
    if n > 0 {
        let c0: u32 = s.get_char(0) as u32;
        if c0 == 43 || c0 == 45 {
            neg = c0 == 45;
            i = 1;
        }
    }
    let ghost ds = if i == 1 {
        s@.drop_first()
    } else {
        s@
    };
    proof {
        assert(ds =~= s@.skip(i as int));
        assert((i == 1) <==> (s@.len() > 0 && (s@[0] == '-' || s@[0] == '+')));
        assert(neg <==> (s@.len() > 0 && s@[0] == '-'));
    }
    if i >= n {
        return 0;
    }
    let mut j: usize = i;
    while j < n
        invariant
            n == s@.len(),
            i <= j <= n,
            forall|m: int| i <= m < j ==> is_digit(#[trigger] s@[m]),
        decreases n - j,
    {
        let c: u32 = s.get_char(j) as u32;
        if c < 48 || c > 57 {
            assert(!is_digit(s@[j as int]));
            assert(!is_digit_seq(s@.skip(i as int))) by {
                assert(s@.skip(i as int)[j - i] == s@[j as int]);
            }
            return 0;
        }
        j = j + 1;
    }
    proof {
        assert(is_digit_seq(s@.skip(i as int))) by {
            assert(forall|m: int|
                0 <= m < s@.skip(i as int).len() ==> #[trigger] s@.skip(i as int)[m] == s@[
                    m + i
                ]);
        }
    }
    let mut z: usize = i;
    while z < n && s.get_char(z) as u32 == 48
        invariant
            n == s@.len(),
            i <= z <= n,
            forall|m: int| i <= m < z ==> #[trigger] s@[m] as int == 48,
        decreases n - z,
    {
        z = z + 1;
    }
    proof {
        lemma_skip_zeros(s@.skip(i as int), z - i);
        assert(s@.skip(i as int).skip(z - i) =~= s@.skip(z as int));
        assert(digits_val(ds) == digits_val(s@.skip(z as int)));
    }
    let sig: usize = n - z;
    if sig >= 20 {
        proof {
            assert(s@.skip(z as int)[0] == s@[z as int]);
            assert(is_digit_seq(s@.skip(z as int)));
            lemma_digits_val_lower(s@.skip(z as int));
            lemma_pow10_mono(19, (sig - 1) as nat);
            lemma_pow10_concrete();
            assert(digits_val(ds) > i64::MAX);
            assert(parse_i64(s@) is None);
        }
        return 0;
    }
    let mut acc: i128 = 0;
    let mut k: usize = z;
    proof {
        assert(s@.subrange(z as int, z as int) =~= Seq::<char>::empty());
        lemma_pow10_concrete();
        lemma_pow10_mono((n - z) as nat, 19);
    }
    while k < n
        invariant
            n == s@.len(),
            z <= k <= n,
            n - z <= 19,
            is_digit_seq(s@.skip(z as int)),
            acc == digits_val(s@.subrange(z as int, k as int)),
            0 <= acc < pow10((k - z) as nat),
            pow10((n - z) as nat) <= pow10(19),
            pow10(19) == 10_000_000_000_000_000_000,
        decreases n - k,
    {
        let c: u32 = s.get_char(k) as u32;
        proof {
            assert(s@.skip(z as int)[k - z] == s@[k as int]);
            assert(is_digit(s@[k as int]));
            lemma_pow10_mono(((k + 1) - z) as nat, (n - z) as nat);
        }
        acc = acc * 10 + (c - 48) as i128;
        proof {
            assert(s@.subrange(z as int, k + 1).drop_last() =~= s@.subrange(
                z as int,
                k as int,
            ));
            assert(s@.subrange(z as int, k + 1).last() == s@[k as int]);
        }
        k = k + 1;
    }
    proof {
        assert(s@.subrange(z as int, n as int) =~= s@.skip(z as int));
        assert(acc == digits_val(ds));
        lemma_digits_val_bounds(s@.skip(z as int));
    }
    let v: i128 = if neg {
        -acc
    } else {
        acc
    };
    if v > i64::MAX as i128 || v < i64::MIN as i128 {
        0
    } else {
        v as i64
    }
}

} // verus!
