//! The textual wire codec for the client-facing messages.
//!
//! Frames are compact JSON-shaped byte strings; numbers are canonical
//! decimals (no leading zeros, `-` only on negative values). Encoding is
//! specified exactly, and decoding accepts precisely the canonical encodings,
//! which gives the round trip for every message.

use vstd::arithmetic::div_mod::{lemma_fundamental_div_mod, lemma_fundamental_div_mod_converse};
use vstd::prelude::*;

use crate::messages::{GameInputMessage, GameOutputMessage, OutputView};

verus! {

/// ASCII `0`.
pub const DIGIT_0: u8 = 48;

/// ASCII `9`.
pub const DIGIT_9: u8 = 57;

/// ASCII `-`.
pub const MINUS: u8 = 45;

/// ASCII `"`.
pub const QUOTE: u8 = 34;

/// ASCII `:`.
pub const COLON: u8 = 58;

/// ASCII `,`.
pub const COMMA: u8 = 44;

/// ASCII `{`.
pub const LBRACE: u8 = 123;

/// ASCII `}`.
pub const RBRACE: u8 = 125;

/// ASCII `[`.
pub const LBRACK: u8 = 91;

/// ASCII `]`.
pub const RBRACK: u8 = 93;

/// An ASCII decimal digit.
pub open spec fn is_digit(c: u8) -> bool {
    DIGIT_0 <= c <= DIGIT_9
}

/// Canonical decimal digits of `n`: most significant first, no leading zeros.
pub open spec fn dec_u64(n: nat) -> Seq<u8>
    decreases n,
{
    if n < 10 {
        seq![(DIGIT_0 + n) as u8]
    } else {
        dec_u64(n / 10) + seq![(DIGIT_0 + n % 10) as u8]
    }
}

/// Canonical decimal digits of a signed value: a `-` sign exactly when
/// negative, then the digits of the magnitude.
pub open spec fn dec_i64(n: int) -> Seq<u8> {
    if n >= 0 {
        dec_u64(n as nat)
    } else {
        seq![MINUS] + dec_u64((-n) as nat)
    }
}

/// Every byte is a digit.
pub open spec fn all_digits(d: Seq<u8>) -> bool {
    forall|k: int| 0 <= k < d.len() ==> is_digit(#[trigger] d[k])
}

/// Numeric value of a digit string (most significant first).
pub open spec fn dec_val(d: Seq<u8>) -> int
    decreases d.len(),
{
    if d.len() == 0 {
        0
    } else {
        dec_val(d.drop_last()) * 10 + (d.last() - DIGIT_0)
    }
}

/// Shape of canonical digits: nonempty, all digits, and a leading zero only
/// for the value zero itself.
pub proof fn lemma_dec_u64_shape(n: nat)
    ensures
        dec_u64(n).len() >= 1,
        all_digits(dec_u64(n)),
        dec_u64(n)[0] == DIGIT_0 ==> n == 0,
        n < 10 ==> dec_u64(n) == seq![(DIGIT_0 + n) as u8],
    decreases n,
{
    if n < 10 {
    } else {
        lemma_dec_u64_shape(n / 10);
        let d = dec_u64(n);
        let a = dec_u64(n / 10);
        assert(d == a + seq![(DIGIT_0 + n % 10) as u8]);
        assert(d[0] == a[0]);
        assert forall|k: int| 0 <= k < d.len() implies is_digit(#[trigger] d[k]) by {
            if k < a.len() {
                assert(is_digit(a[k]));
            }
        }
    }
}

/// Reading back the canonical digits of `n` yields `n`.
pub proof fn lemma_val_of_dec(n: nat)
    ensures
        dec_val(dec_u64(n)) == n,
    decreases n,
{
    if n < 10 {
        let d = dec_u64(n);
        assert(d.drop_last() =~= Seq::<u8>::empty());
        assert(dec_val(Seq::<u8>::empty()) == 0);
    } else {
        lemma_val_of_dec(n / 10);
        let d = dec_u64(n);
        let a = dec_u64(n / 10);
        assert(d.drop_last() =~= a);
        assert(d.last() == (DIGIT_0 + n % 10) as u8);
        lemma_fundamental_div_mod(n as int, 10);
    }
}

/// A digit string's value is nonnegative.
pub proof fn lemma_val_nonneg(d: Seq<u8>)
    requires
        all_digits(d),
    ensures
        dec_val(d) >= 0,
    decreases d.len(),
{
    if d.len() > 0 {
        assert(all_digits(d.drop_last())) by {
            assert(forall|k: int| 0 <= k < d.len() - 1 ==> d.drop_last()[k] == d[k]);
        }
        lemma_val_nonneg(d.drop_last());
    }
}

/// A digit string not starting with zero has a positive value.
pub proof fn lemma_val_positive(d: Seq<u8>)
    requires
        all_digits(d),
        d.len() >= 1,
        d[0] != DIGIT_0,
    ensures
        dec_val(d) >= 1,
    decreases d.len(),
{
    if d.len() == 1 {
        assert(d.drop_last() =~= Seq::<u8>::empty());
        assert(dec_val(Seq::<u8>::empty()) == 0);
        assert(d.last() == d[0]);
    } else {
        let a = d.drop_last();
        assert(all_digits(a)) by {
            assert(forall|k: int| 0 <= k < a.len() ==> a[k] == d[k]);
        }
        lemma_val_positive(a);
        assert(d.last() - DIGIT_0 >= 0);
    }
}

/// A nonempty digit string with no leading zero (or the single digit `0`) is
/// the canonical encoding of its own value.
pub proof fn lemma_dec_of_val(d: Seq<u8>)
    requires
        all_digits(d),
        d.len() >= 1,
        d.len() > 1 ==> d[0] != DIGIT_0,
    ensures
        dec_val(d) >= 0,
        dec_u64(dec_val(d) as nat) == d,
    decreases d.len(),
{
    lemma_val_nonneg(d);
    if d.len() == 1 {
        let v = dec_val(d);
        assert(d.drop_last() =~= Seq::<u8>::empty());
        assert(dec_val(Seq::<u8>::empty()) == 0);
        assert(v == d[0] - DIGIT_0);
        assert(v < 10);
        assert(dec_u64(v as nat) == seq![(DIGIT_0 + v) as u8]);
        assert(dec_u64(v as nat) =~= d);
    } else {
        let a = d.drop_last();
        let c = d.last();
        assert(all_digits(a)) by {
            assert(forall|k: int| 0 <= k < a.len() ==> a[k] == d[k]);
        }
        assert(a[0] == d[0]);
        lemma_dec_of_val(a);
        lemma_val_positive(a);
        let va = dec_val(a);
        let v = dec_val(d);
        assert(v == va * 10 + (c - DIGIT_0));
        assert(v >= 10);
        lemma_fundamental_div_mod_converse(v, 10, va, c - DIGIT_0);
        assert(v / 10 == va && v % 10 == c - DIGIT_0);
        assert(dec_u64(v as nat) == dec_u64(va as nat) + seq![(DIGIT_0 + (v as nat) % 10) as u8]);
        assert((DIGIT_0 + (v as nat) % 10) as u8 == c);
        assert(dec_u64(v as nat) =~= d);
    }
}

/// Extending a digit run on the right never decreases its value.
pub proof fn lemma_val_prefix_le(d: Seq<u8>, k: int)
    requires
        all_digits(d),
        0 <= k <= d.len(),
    ensures
        dec_val(d.subrange(0, k)) <= dec_val(d),
    decreases d.len() - k,
{
    lemma_val_nonneg(d);
    if k == d.len() {
        assert(d.subrange(0, k) =~= d);
    } else {
        let e = d.subrange(0, k + 1);
        assert(all_digits(e)) by {
            assert(forall|t: int| 0 <= t < e.len() ==> e[t] == d[t]);
        }
        assert(e.drop_last() =~= d.subrange(0, k));
        lemma_val_nonneg(e.drop_last());
        assert(e.last() - DIGIT_0 >= 0);
        assert(dec_val(e) == dec_val(d.subrange(0, k)) * 10 + (e.last() - DIGIT_0));
        lemma_val_prefix_le(d, k + 1);
    }
}

/// Appends the canonical decimal digits of `n`.
pub fn push_dec_u64(out: &mut Vec<u8>, n: u64)
    ensures
        final(out)@ == old(out)@ + dec_u64(n as nat),
    decreases n,
{
    if n < 10 {
        out.push(DIGIT_0 + (n as u8));
        proof {
            assert(out@ =~= old(out)@ + dec_u64(n as nat));
        }
    } else {
        push_dec_u64(out, n / 10);
        out.push(DIGIT_0 + ((n % 10) as u8));
        proof {
            assert(out@ =~= old(out)@ + dec_u64(n as nat));
        }
    }
}

/// Appends the canonical decimal digits of a signed value.
pub fn push_dec_i64(out: &mut Vec<u8>, n: i64)
    ensures
        final(out)@ == old(out)@ + dec_i64(n as int),
{
    if n >= 0 {
        push_dec_u64(out, n as u64);
    } else {
        out.push(MINUS);
        let m: u64 = if n == i64::MIN {
            9223372036854775808u64
        } else {
            (-n) as u64
        };
        push_dec_u64(out, m);
        proof {
            assert(m as nat == (-(n as int)) as nat);
            assert(out@ =~= old(out)@ + dec_i64(n as int));
        }
    }
}

/// Parses a canonical unsigned decimal starting at `i`.
///
/// Returns `Some((n, j))` exactly when the bytes from `i` up to some `j` are
/// the canonical digits of `n`, with `j` at the end of the input or followed
/// by a non-digit; returns `None` on any other input.
pub fn parse_u64(s: &Vec<u8>, i: usize) -> (r: Option<(u64, usize)>)
    requires
        i <= s@.len(),
    ensures
        (r matches Some(p) ==> i < p.1 <= s@.len() && s@.subrange(i as int, p.1 as int) == dec_u64(
            p.0 as nat,
        ) && (p.1 == s@.len() || !is_digit(s@[p.1 as int]))),
        forall|n: nat, j: int| #![trigger dec_u64(n), s@.subrange(i as int, j)]
            (i <= j <= s@.len() && n <= u64::MAX && s@.subrange(i as int, j)
                == dec_u64(n) && (j == s@.len() || !is_digit(s@[j]))) ==> (r matches Some(p) && p.0
                == n && p.1 == j),
{
    let len = s.len();
    if i == len || !(DIGIT_0 <= s[i] && s[i] <= DIGIT_9) {
        proof {
            assert forall|n: nat, j: int| #![trigger dec_u64(n), s@.subrange(i as int, j)]
                (i <= j <= s@.len() && n <= u64::MAX && s@.subrange(i as int, j)
                    == dec_u64(n) && (j == s@.len() || !is_digit(s@[j]))) implies false by {
                lemma_dec_u64_shape(n);
                assert(s@.subrange(i as int, j).len() >= 1);
                assert(s@[i as int] == s@.subrange(i as int, j)[0]);
                assert(is_digit(s@[i as int]));
            }
        }
        return None;
    }
    if s[i] == DIGIT_0 {
        if i + 1 < len && DIGIT_0 <= s[i + 1] && s[i + 1] <= DIGIT_9 {
            // a multi-digit run with a leading zero is not canonical
            proof {
                assert forall|n: nat, j: int| #![trigger dec_u64(n), s@.subrange(i as int, j)]
                    (i <= j <= s@.len() && n <= u64::MAX && s@.subrange(i as int, j)
                        == dec_u64(n) && (j == s@.len() || !is_digit(s@[j]))) implies false by {
                    lemma_dec_u64_shape(n);
                    let d = s@.subrange(i as int, j);
                    assert(d[0] == s@[i as int]);
                    assert(n == 0);
                    assert(d.len() == 1);
                    assert(j == i + 1);
                    assert(is_digit(s@[j]));
                }
            }
            return None;
        }
        proof {
            assert(s@.subrange(i as int, i + 1) =~= seq![DIGIT_0]);
            assert(dec_u64(0) == seq![DIGIT_0]);
            assert forall|n: nat, j: int| #![trigger dec_u64(n), s@.subrange(i as int, j)]
                (i <= j <= s@.len() && n <= u64::MAX && s@.subrange(i as int, j)
                    == dec_u64(n) && (j == s@.len() || !is_digit(s@[j]))) implies n == 0 && j == i
                + 1 by {
                lemma_dec_u64_shape(n);
                let d = s@.subrange(i as int, j);
                assert(d[0] == s@[i as int]);
                assert(n == 0);
                assert(d.len() == 1);
            }
        }
        return Some((0u64, i + 1));
    }
    // nonzero leading digit: accumulate the maximal digit run
    let mut j: usize = i + 1;
    let mut acc: u64 = (s[i] - DIGIT_0) as u64;
    proof {
        assert(s@.subrange(i as int, i + 1) =~= seq![s@[i as int]]);
        assert(s@.subrange(i as int, i + 1).drop_last() =~= Seq::<u8>::empty());
        assert(dec_val(Seq::<u8>::empty()) == 0);
        assert(acc as int == dec_val(s@.subrange(i as int, i + 1)));
    }
    while j < len && DIGIT_0 <= s[j] && s[j] <= DIGIT_9
        invariant
            i < j <= len,
            len == s@.len(),
            forall|t: int| i <= t < j ==> is_digit(#[trigger] s@[t]),
            s@[i as int] != DIGIT_0,
            is_digit(s@[i as int]),
            acc as int == dec_val(s@.subrange(i as int, j as int)),
        decreases len - j,
    {
        let d = s[j] - DIGIT_0;
        if acc > (u64::MAX - (d as u64)) / 10 {
            // the run's value exceeds u64: no canonical parse exists
            proof {
                let run = s@.subrange(i as int, j + 1);
                assert(all_digits(run)) by {
                    assert(forall|t: int| 0 <= t < run.len() ==> run[t] == s@[i + t]);
                }
                assert(run.drop_last() =~= s@.subrange(i as int, j as int));
                assert(run.last() == s@[j as int]);
                assert(dec_val(run) == acc * 10 + d);
                assert(acc * 10 + d > u64::MAX) by {
                    let m = (u64::MAX - (d as u64)) as int;
                    lemma_fundamental_div_mod(m, 10);
                    assert(acc >= m / 10 + 1);
                };
                assert forall|n: nat, j2: int| #![trigger dec_u64(n), s@.subrange(i as int, j2)]
                    (i <= j2 <= s@.len() && n <= u64::MAX && s@.subrange(i as int, j2)
                        == dec_u64(n) && (j2 == s@.len() || !is_digit(s@[j2]))) implies false by {
                    lemma_dec_u64_shape(n);
                    let cand = s@.subrange(i as int, j2);
                    if j2 <= j {
                        assert(is_digit(s@[j2]));
                    } else {
                        assert(all_digits(cand)) by {
                            assert(forall|t: int| 0 <= t < cand.len() ==> cand[t] == s@[i + t]);
                        }
                        assert(cand.subrange(0, j + 1 - i) =~= run);
                        lemma_val_prefix_le(cand, j + 1 - i);
                        lemma_val_of_dec(n);
                        assert(dec_val(cand) == n);
                        assert(n > u64::MAX);
                    }
                }
            }
            return None;
        }
        proof {
            let run = s@.subrange(i as int, j + 1);
            assert(run.drop_last() =~= s@.subrange(i as int, j as int));
            assert(run.last() == s@[j as int]);
            assert(acc * 10 + d <= u64::MAX) by {
                let m = (u64::MAX - (d as u64)) as int;
                lemma_fundamental_div_mod(m, 10);
            };
        }
        acc = acc * 10 + (d as u64);
        j += 1;
    }
    proof {
        let run = s@.subrange(i as int, j as int);
        assert(all_digits(run)) by {
            assert(forall|t: int| 0 <= t < run.len() ==> run[t] == s@[i + t]);
        }
        assert(run[0] == s@[i as int]);
        lemma_dec_of_val(run);
        assert(dec_u64(acc as nat) == run);
        assert forall|n: nat, j2: int| #![trigger dec_u64(n), s@.subrange(i as int, j2)]
            (i <= j2 <= s@.len() && n <= u64::MAX && s@.subrange(i as int, j2)
                == dec_u64(n) && (j2 == s@.len() || !is_digit(s@[j2]))) implies n == acc as nat
            && j2 == j as int by {
            lemma_dec_u64_shape(n);
            let cand = s@.subrange(i as int, j2);
            assert(all_digits(cand));
            if j2 < j {
                assert(is_digit(s@[j2]));
                assert(false);
            }
            if j2 > j {
                assert(cand[j - i] == s@[j as int]);
                assert(is_digit(s@[j as int]));
                assert(j < len);
                assert(false);
            }
            assert(cand == run);
            lemma_val_of_dec(n);
            assert(dec_val(run) == n);
        }
    }
    Some((acc, j))
}


/// Parses a canonical signed decimal starting at `i`: an optional `-` on a
/// nonzero magnitude, then canonical digits, within the signed 64-bit range.
pub fn parse_i64(s: &Vec<u8>, i: usize) -> (r: Option<(i64, usize)>)
    requires
        i <= s@.len(),
    ensures
        (r matches Some(p) ==> i < p.1 <= s@.len() && s@.subrange(i as int, p.1 as int) == dec_i64(
            p.0 as int,
        ) && (p.1 == s@.len() || !is_digit(s@[p.1 as int]))),
        forall|n: int, j: int| #![trigger dec_i64(n), s@.subrange(i as int, j)]
            (i <= j <= s@.len() && i64::MIN <= n <= i64::MAX && s@.subrange(i as int, j) == dec_i64(
                n,
            ) && (j == s@.len() || !is_digit(s@[j]))) ==> (r matches Some(p) && p.0 == n && p.1
                == j),
{
    let len = s.len();
    if i < len && s[i] == MINUS {
        let r0 = parse_u64(s, i + 1);
        proof {
            assert forall|n: int, j: int| #![trigger dec_i64(n), s@.subrange(i as int, j)]
                (i <= j <= s@.len() && i64::MIN <= n <= i64::MAX && s@.subrange(i as int, j)
                    == dec_i64(n) && (j == s@.len() || !is_digit(s@[j]))) implies (n < 0 && j >= i
                + 2 && s@.subrange(i + 1, j) == dec_u64((-n) as nat) && (-n) as nat
                <= u64::MAX) by {
                lemma_dec_u64_shape((if n >= 0 { n } else { -n }) as nat);
                if n >= 0 {
                    assert(s@.subrange(i as int, j).len() >= 1);
                    assert(s@.subrange(i as int, j)[0] == s@[i as int]);
                    assert(is_digit(s@[i as int]));
                    assert(false);
                }
                assert(dec_i64(n).len() == 1 + dec_u64((-n) as nat).len());
                assert(j - i >= 2);
                assert(s@.subrange(i + 1, j) =~= dec_u64((-n) as nat)) by {
                    assert(forall|t: int|
                        0 <= t < j - i - 1 ==> #[trigger] s@.subrange(i + 1, j)[t] == s@.subrange(
                            i as int,
                            j,
                        )[t + 1]);
                }
            }
        }
        match r0 {
            None => None,
            Some(p0) => {
                let (m, j) = p0;
                if m == 0 {
                    // a minus sign on zero is not canonical
                    proof {
                        assert forall|n: int, j2: int|
                            #![trigger dec_i64(n), s@.subrange(i as int, j2)]
                            (i <= j2 <= s@.len() && i64::MIN <= n <= i64::MAX && s@.subrange(
                                i as int,
                                j2,
                            ) == dec_i64(n) && (j2 == s@.len() || !is_digit(
                                s@[j2],
                            ))) implies false by {
                            assert(n < 0 && j2 >= i + 2 && s@.subrange(i + 1, j2) == dec_u64(
                                (-n) as nat,
                            ) && (-n) as nat <= u64::MAX);
                            assert(r0 matches Some(p) && p.0 == (-n) as nat && p.1 == j2);
                            assert((-n) as nat >= 1);
                        }
                    }
                    None
                } else if m > 9223372036854775808u64 {
                    // magnitude exceeds the signed range
                    proof {
                        assert forall|n: int, j2: int|
                            #![trigger dec_i64(n), s@.subrange(i as int, j2)]
                            (i <= j2 <= s@.len() && i64::MIN <= n <= i64::MAX && s@.subrange(
                                i as int,
                                j2,
                            ) == dec_i64(n) && (j2 == s@.len() || !is_digit(
                                s@[j2],
                            ))) implies false by {
                            assert(n < 0 && j2 >= i + 2 && s@.subrange(i + 1, j2) == dec_u64(
                                (-n) as nat,
                            ) && (-n) as nat <= u64::MAX);
                            assert(r0 matches Some(p) && p.0 == (-n) as nat && p.1 == j2);
                            assert((-n) as nat <= 9223372036854775808);
                        }
                    }
                    None
                } else {
                    let v: i64 = if m == 9223372036854775808u64 {
                        i64::MIN
                    } else {
                        -(m as i64)
                    };
                    proof {
                        assert(v < 0 && (-(v as int)) == m as int);
                        assert(s@.subrange(i as int, j as int) =~= seq![MINUS] + s@.subrange(
                            i + 1,
                            j as int,
                        ));
                        assert(s@.subrange(i as int, j as int) == dec_i64(v as int));
                    }
                    Some((v, j))
                }
            },
        }
    } else {
        let r0 = parse_u64(s, i);
        proof {
            assert forall|n: int, j: int| #![trigger dec_i64(n), s@.subrange(i as int, j)]
                (i <= j <= s@.len() && i64::MIN <= n <= i64::MAX && s@.subrange(i as int, j)
                    == dec_i64(n) && (j == s@.len() || !is_digit(s@[j]))) implies (n >= 0
                && s@.subrange(i as int, j) == dec_u64(n as nat)) by {
                if n < 0 {
                    lemma_dec_u64_shape((-n) as nat);
                    assert(dec_i64(n).len() == 1 + dec_u64((-n) as nat).len());
                    assert(j - i >= 2);
                    assert(s@.subrange(i as int, j)[0] == s@[i as int]);
                    assert(s@[i as int] == MINUS);
                    assert(i < s@.len());
                    assert(false);
                }
            }
        }
        match r0 {
            None => None,
            Some(p0) => {
                let (m, j) = p0;
                if m > 9223372036854775807u64 {
                    proof {
                        assert forall|n: int, j2: int|
                            #![trigger dec_i64(n), s@.subrange(i as int, j2)]
                            (i <= j2 <= s@.len() && i64::MIN <= n <= i64::MAX && s@.subrange(
                                i as int,
                                j2,
                            ) == dec_i64(n) && (j2 == s@.len() || !is_digit(
                                s@[j2],
                            ))) implies false by {
                            assert(n as nat <= 9223372036854775807);
                        }
                    }
                    None
                } else {
                    Some((m as i64, j))
                }
            },
        }
    }
}

/// The bytes at `i` equal `pat` exactly.
pub fn match_at(s: &Vec<u8>, i: usize, pat: &Vec<u8>) -> (r: bool)
    requires
        i <= s@.len(),
    ensures
        r == (i + pat@.len() <= s@.len() && s@.subrange(i as int, i + pat@.len()) == pat@),
{
    let slen = s.len();
    let n = pat.len();
    if n > slen - i {
        return false;
    }
    let mut k: usize = 0;
    while k < n
        invariant
            n == pat@.len(),
            slen == s@.len(),
            i + n <= slen,
            k <= n,
            forall|t: int| 0 <= t < k ==> s@[i + t] == pat@[t],
        decreases n - k,
    {
        if s[i + k] != pat[k] {
            proof {
                assert(s@.subrange(i as int, i + pat@.len())[k as int] == s@[i + k]);
            }
            return false;
        }
        k += 1;
    }
    proof {
        assert(s@.subrange(i as int, i + pat@.len()) =~= pat@);
    }
    true
}


/// The frame prefix `{"Move":{"mx":`.
pub open spec fn mv_prefix() -> Seq<u8> {
    seq![LBRACE, QUOTE, 77u8, 111u8, 118u8, 101u8, QUOTE, COLON, LBRACE, QUOTE, 109u8, 120u8, QUOTE, COLON]
}

/// The frame infix `,"my":`.
pub open spec fn my_mid() -> Seq<u8> {
    seq![COMMA, QUOTE, 109u8, 121u8, QUOTE, COLON]
}

/// The frame prefix `{"YouAre":{"id":`.
pub open spec fn ya_prefix() -> Seq<u8> {
    seq![LBRACE, QUOTE, 89u8, 111u8, 117u8, 65u8, 114u8, 101u8, QUOTE, COLON, LBRACE, QUOTE, 105u8, 100u8, QUOTE, COLON]
}

/// The frame prefix `{"PlayerPositions":{"positions":{`.
pub open spec fn pp_prefix() -> Seq<u8> {
    seq![LBRACE, QUOTE, 80u8, 108u8, 97u8, 121u8, 101u8, 114u8, 80u8, 111u8, 115u8, 105u8, 116u8, 105u8, 111u8, 110u8, 115u8, QUOTE, COLON, LBRACE, QUOTE, 112u8, 111u8, 115u8, 105u8, 116u8, 105u8, 111u8, 110u8, 115u8, QUOTE, COLON, LBRACE]
}

/// Builds `{"Move":{"mx":` as bytes.
fn lit_mv_prefix() -> (v: Vec<u8>)
    ensures
        v@ == mv_prefix(),
{
    let mut v: Vec<u8> = Vec::new();
    v.push(LBRACE);
    v.push(QUOTE);
    v.push(77u8);
    v.push(111u8);
    v.push(118u8);
    v.push(101u8);
    v.push(QUOTE);
    v.push(COLON);
    v.push(LBRACE);
    v.push(QUOTE);
    v.push(109u8);
    v.push(120u8);
    v.push(QUOTE);
    v.push(COLON);
    proof {
        assert(v@ =~= mv_prefix());
    }
    v
}

/// Builds `,"my":` as bytes.
fn lit_my_mid() -> (v: Vec<u8>)
    ensures
        v@ == my_mid(),
{
    let mut v: Vec<u8> = Vec::new();
    v.push(COMMA);
    v.push(QUOTE);
    v.push(109u8);
    v.push(121u8);
    v.push(QUOTE);
    v.push(COLON);
    proof {
        assert(v@ =~= my_mid());
    }
    v
}

/// Builds `{"YouAre":{"id":` as bytes.
fn lit_ya_prefix() -> (v: Vec<u8>)
    ensures
        v@ == ya_prefix(),
{
    let mut v: Vec<u8> = Vec::new();
    v.push(LBRACE);
    v.push(QUOTE);
    v.push(89u8);
    v.push(111u8);
    v.push(117u8);
    v.push(65u8);
    v.push(114u8);
    v.push(101u8);
    v.push(QUOTE);
    v.push(COLON);
    v.push(LBRACE);
    v.push(QUOTE);
    v.push(105u8);
    v.push(100u8);
    v.push(QUOTE);
    v.push(COLON);
    proof {
        assert(v@ =~= ya_prefix());
    }
    v
}

/// Builds `{"PlayerPositions":{"positions":{` as bytes.
fn lit_pp_prefix() -> (v: Vec<u8>)
    ensures
        v@ == pp_prefix(),
{
    let mut v: Vec<u8> = Vec::new();
    v.push(LBRACE);
    v.push(QUOTE);
    v.push(80u8);
    v.push(108u8);
    v.push(97u8);
    v.push(121u8);
    v.push(101u8);
    v.push(114u8);
    v.push(80u8);
    v.push(111u8);
    v.push(115u8);
    v.push(105u8);
    v.push(116u8);
    v.push(105u8);
    v.push(111u8);
    v.push(110u8);
    v.push(115u8);
    v.push(QUOTE);
    v.push(COLON);
    v.push(LBRACE);
    v.push(QUOTE);
    v.push(112u8);
    v.push(111u8);
    v.push(115u8);
    v.push(105u8);
    v.push(116u8);
    v.push(105u8);
    v.push(111u8);
    v.push(110u8);
    v.push(115u8);
    v.push(QUOTE);
    v.push(COLON);
    v.push(LBRACE);
    proof {
        assert(v@ =~= pp_prefix());
    }
    v
}

/// Appends a copy of `pat`.
fn push_bytes(out: &mut Vec<u8>, pat: &Vec<u8>)
    ensures
        final(out)@ == old(out)@ + pat@,
{
    let n = pat.len();
    let mut k: usize = 0;
    while k < n
        invariant
            n == pat@.len(),
            k <= n,
            out@ == old(out)@ + pat@.subrange(0, k as int),
        decreases n - k,
    {
        out.push(pat[k]);
        proof {
            assert(old(out)@ + pat@.subrange(0, k + 1) =~= (old(out)@ + pat@.subrange(0, k as int)).push(pat@[k as int]));
        }
        k += 1;
    }
    proof {
        assert(pat@.subrange(0, n as int) =~= pat@);
    }
}


/// Canonical wire frame of an inbound message: `{"Move":{"mx":M,"my":N}}`.
pub open spec fn enc_input(m: GameInputMessage) -> Seq<u8> {
    match m {
        GameInputMessage::Move { mx, my } => mv_prefix() + dec_i64(mx as int) + my_mid() + dec_i64(
            my as int,
        ) + seq![RBRACE, RBRACE],
    }
}

/// Where each part of an encoded inbound frame stands.
pub proof fn lemma_input_parts(s: Seq<u8>, mx: i64, my: i64)
    requires
        s == enc_input(GameInputMessage::Move { mx, my }),
    ensures
        ({
            let d1 = dec_i64(mx as int);
            let d2 = dec_i64(my as int);
            &&& s.len() == 22 + d1.len() as int + d2.len() as int
            &&& s.subrange(0, 14) == mv_prefix()
            &&& s.subrange(14, 14 + d1.len() as int) == d1
            &&& s[14 + d1.len() as int] == COMMA
            &&& s.subrange(14 + d1.len() as int, 20 + d1.len() as int) == my_mid()
            &&& s.subrange(20 + d1.len() as int, 20 + d1.len() as int + d2.len() as int) == d2
            &&& s[20 + d1.len() as int + d2.len() as int] == RBRACE
            &&& s[21 + d1.len() as int + d2.len() as int] == RBRACE
        }),
{
    let d1 = dec_i64(mx as int);
    let d2 = dec_i64(my as int);
    assert(s.subrange(0, 14) =~= mv_prefix());
    assert(s.subrange(14, 14 + d1.len() as int) =~= d1);
    assert(s.subrange(14 + d1.len() as int, 20 + d1.len() as int) =~= my_mid());
    assert(s.subrange(20 + d1.len() as int, 20 + d1.len() as int + d2.len() as int) =~= d2);
    assert(s[14 + d1.len() as int] == my_mid()[0]);
}

impl GameInputMessage {
    /// Encodes this message as its canonical wire frame.
    pub fn serialize_json(&self) -> (r: Vec<u8>)
        ensures
            r@ == enc_input(*self),
    {
        match self {
            GameInputMessage::Move { mx, my } => {
                let mut v = lit_mv_prefix();
                push_dec_i64(&mut v, *mx);
                let mid = lit_my_mid();
                push_bytes(&mut v, &mid);
                push_dec_i64(&mut v, *my);
                v.push(RBRACE);
                v.push(RBRACE);
                proof {
                    assert(v@ =~= enc_input(*self));
                }
                v
            },
        }
    }

    /// Decodes a wire frame, accepting exactly the canonical encodings: the
    /// result is `Some(m)` precisely when the input is `m` encoded, so
    /// encoding then decoding always returns the original message.
    pub fn deserialize_json(s: &Vec<u8>) -> (r: Option<GameInputMessage>)
        ensures
            (r matches Some(m) ==> s@ == enc_input(m)),
            forall|m: GameInputMessage| s@ == #[trigger] enc_input(m) ==> r == Some(m),
    {
        let pre = lit_mv_prefix();
        if !match_at(s, 0, &pre) {
            proof {
                assert forall|m: GameInputMessage| s@ == #[trigger] enc_input(m) implies false by {
                    match m {
                        GameInputMessage::Move { mx, my } => {
                            lemma_input_parts(s@, mx, my);
                        },
                    }
                }
            }
            return None;
        }
        let i1 = pre.len();
        let r1 = parse_i64(s, i1);
        proof {
            assert forall|m: GameInputMessage| s@ == #[trigger] enc_input(m) implies (
            r1 matches Some(p) && (
            match m {
                GameInputMessage::Move { mx, my } => p.0 == mx && p.1 == 14 + dec_i64(
                    mx as int,
                ).len(),
            })) by {
                match m {
                    GameInputMessage::Move { mx, my } => {
                        lemma_input_parts(s@, mx, my);
                        let d1 = dec_i64(mx as int);
                        assert(!is_digit(COMMA));
                        assert(s@.subrange(14, 14 + d1.len() as int) == dec_i64(mx as int));
                    },
                }
            }
        }
        match r1 {
            None => None,
            Some(p1) => {
                let (mx, j) = p1;
                let mid = lit_my_mid();
                if !match_at(s, j, &mid) {
                    proof {
                        assert forall|m: GameInputMessage| s@ == #[trigger] enc_input(
                            m,
                        ) implies false by {
                            match m {
                                GameInputMessage::Move { mx: mxc, my: myc } => {
                                    lemma_input_parts(s@, mxc, myc);
                                },
                            }
                        }
                    }
                    return None;
                }
                let slen = s.len();
                proof {
                    assert(j + mid@.len() <= slen);
                }
                let j2 = j + mid.len();
                let r2 = parse_i64(s, j2);
                proof {
                    assert forall|m: GameInputMessage| s@ == #[trigger] enc_input(m) implies (
                    r2 matches Some(p) && (match m {
                        GameInputMessage::Move { mx: mxc, my: myc } => p.0 == myc && p.1 as int == 20
                            + dec_i64(mxc as int).len() + dec_i64(myc as int).len(),
                    })) by {
                        match m {
                            GameInputMessage::Move { mx: mxc, my: myc } => {
                                lemma_input_parts(s@, mxc, myc);
                                let d1 = dec_i64(mxc as int);
                                let d2 = dec_i64(myc as int);
                                assert(!is_digit(RBRACE));
                                assert(s@.subrange(14 + d1.len() as int, 20 + d1.len() as int) == my_mid());
                                assert(j == 14 + d1.len() as int);
                                assert(s@.subrange(j2 as int, 20 + d1.len() as int + d2.len() as int) == dec_i64(
                                    myc as int,
                                ));
                            },
                        }
                    }
                }
                match r2 {
                    None => None,
                    Some(p2) => {
                        let (my, j3) = p2;
                        if s.len() - j3 == 2 && s[j3] == RBRACE && s[j3 + 1] == RBRACE {
                            proof {
                                assert(s@ =~= mv_prefix() + dec_i64(mx as int) + my_mid()
                                    + dec_i64(my as int) + seq![RBRACE, RBRACE]);
                                assert(s@ == enc_input(GameInputMessage::Move { mx, my }));
                            }
                            Some(GameInputMessage::Move { mx, my })
                        } else {
                            proof {
                                assert forall|m: GameInputMessage| s@ == #[trigger] enc_input(
                                    m,
                                ) implies false by {
                                    match m {
                                        GameInputMessage::Move { mx: mxc, my: myc } => {
                                            lemma_input_parts(s@, mxc, myc);
                                            let d1 = dec_i64(mxc as int);
                                            let d2 = dec_i64(myc as int);
                                            assert(j3 as int == 20 + d1.len() as int + d2.len() as int);
                                            assert(s@.len() - j3 == 2);
                                            assert(s@[j3 as int] == RBRACE);
                                            assert(s@[j3 + 1] == RBRACE);
                                        },
                                    }
                                }
                            }
                            None
                        }
                    },
                }
            },
        }
    }
}


/// Canonical wire form of one snapshot entry: `"ID":[X,Y]`.
pub open spec fn enc_entry(e: (u64, (i64, i64))) -> Seq<u8> {
    seq![QUOTE] + dec_u64(e.0 as nat) + seq![QUOTE, COLON, LBRACK] + dec_i64(e.1.0 as int)
        + seq![COMMA] + dec_i64(e.1.1 as int) + seq![RBRACK]
}

/// Wire form of every entry after the first, each preceded by a comma.
pub open spec fn enc_rest(p: Seq<(u64, (i64, i64))>) -> Seq<u8>
    decreases p.len(),
{
    if p.len() == 0 {
        Seq::empty()
    } else {
        seq![COMMA] + enc_entry(p[0]) + enc_rest(p.drop_first())
    }
}

/// Wire form of a whole entry list, comma separated.
pub open spec fn enc_entries(p: Seq<(u64, (i64, i64))>) -> Seq<u8>
    decreases p.len(),
{
    if p.len() == 0 {
        Seq::empty()
    } else {
        enc_entry(p[0]) + enc_rest(p.drop_first())
    }
}

/// Canonical wire frame of an outbound message.
pub open spec fn enc_output(v: OutputView) -> Seq<u8> {
    match v {
        OutputView::YouAre { id } => ya_prefix() + dec_u64(id as nat) + seq![RBRACE, RBRACE],
        OutputView::PlayerPositions { positions } => pp_prefix() + enc_entries(positions)
            + seq![RBRACE, RBRACE, RBRACE],
    }
}

/// Appending an entry extends the comma-separated tail by one `,entry` part.
pub proof fn lemma_enc_rest_push(p: Seq<(u64, (i64, i64))>, e: (u64, (i64, i64)))
    ensures
        enc_rest(p.push(e)) == enc_rest(p) + seq![COMMA] + enc_entry(e),
    decreases p.len(),
{
    let q = p.push(e);
    if p.len() == 0 {
        assert(q.drop_first() =~= Seq::<(u64, (i64, i64))>::empty());
        assert(enc_rest(Seq::<(u64, (i64, i64))>::empty()) == Seq::<u8>::empty());
        assert(enc_rest(q) == seq![COMMA] + enc_entry(q[0]) + enc_rest(q.drop_first()));
        assert(q[0] == e);
        assert(enc_rest(q) =~= enc_rest(p) + seq![COMMA] + enc_entry(e));
    } else {
        assert(q[0] == p[0]);
        assert(q.drop_first() =~= p.drop_first().push(e));
        lemma_enc_rest_push(p.drop_first(), e);
        assert(enc_rest(q) == seq![COMMA] + enc_entry(q[0]) + enc_rest(q.drop_first()));
        assert(enc_rest(q.drop_first()) == enc_rest(p.drop_first()) + seq![COMMA] + enc_entry(e));
        assert(enc_rest(p) == seq![COMMA] + enc_entry(p[0]) + enc_rest(p.drop_first()));
        assert(enc_rest(q) =~= enc_rest(p) + seq![COMMA] + enc_entry(e));
    }
}

/// Appending an entry extends the encoded list, with a comma exactly when the
/// list was nonempty.
pub proof fn lemma_enc_entries_push(p: Seq<(u64, (i64, i64))>, e: (u64, (i64, i64)))
    ensures
        enc_entries(p.push(e)) == if p.len() == 0 {
            enc_entry(e)
        } else {
            enc_entries(p) + seq![COMMA] + enc_entry(e)
        },
{
    let q = p.push(e);
    if p.len() == 0 {
        assert(q.drop_first() =~= Seq::<(u64, (i64, i64))>::empty());
        assert(enc_entries(q) =~= enc_entry(e));
    } else {
        assert(q[0] == p[0]);
        assert(q.drop_first() =~= p.drop_first().push(e));
        lemma_enc_rest_push(p.drop_first(), e);
        assert(enc_entries(q) =~= enc_entries(p) + seq![COMMA] + enc_entry(e));
    }
}

impl GameOutputMessage {
    /// Encodes this message as its canonical wire frame.
    pub fn serialize_json(&self) -> (r: Vec<u8>)
        ensures
            r@ == enc_output(self@),
    {
        match self {
            GameOutputMessage::YouAre { id } => {
                let mut v = lit_ya_prefix();
                push_dec_u64(&mut v, *id);
                v.push(RBRACE);
                v.push(RBRACE);
                proof {
                    assert(v@ =~= enc_output(self@));
                }
                v
            },
            GameOutputMessage::PlayerPositions { positions } => {
                let mut v = lit_pp_prefix();
                let n = positions.len();
                let mut k: usize = 0;
                proof {
                    assert(positions@.subrange(0, 0) =~= Seq::<(u64, (i64, i64))>::empty());
                }
                while k < n
                    invariant
                        n == positions@.len(),
                        k <= n,
                        v@ == pp_prefix() + enc_entries(positions@.subrange(0, k as int)),
                    decreases n - k,
                {
                    let e = positions[k];
                    if k > 0 {
                        v.push(COMMA);
                    }
                    v.push(QUOTE);
                    push_dec_u64(&mut v, e.0);
                    v.push(QUOTE);
                    v.push(COLON);
                    v.push(LBRACK);
                    push_dec_i64(&mut v, e.1.0);
                    v.push(COMMA);
                    push_dec_i64(&mut v, e.1.1);
                    v.push(RBRACK);
                    proof {
                        let pre = positions@.subrange(0, k as int);
                        assert(positions@.subrange(0, k + 1) =~= pre.push(e));
                        lemma_enc_entries_push(pre, e);
                        assert(v@ =~= pp_prefix() + enc_entries(positions@.subrange(0, k + 1)));
                    }
                    k += 1;
                }
                proof {
                    assert(positions@.subrange(0, n as int) =~= positions@);
                }
                v.push(RBRACE);
                v.push(RBRACE);
                v.push(RBRACE);
                proof {
                    assert(v@ =~= enc_output(self@));
                }
                v
            },
        }
    }
}


/// Turns a subrange equality into pointwise facts about the enclosing bytes.
pub proof fn lemma_subrange_eq_pointwise(s: Seq<u8>, i: int, j: int, x: Seq<u8>)
    requires
        0 <= i <= j <= s.len(),
        s.subrange(i, j) == x,
    ensures
        forall|t: int| i <= t < j ==> #[trigger] s[t] == x[t - i],
{
    assert forall|t: int| i <= t < j implies #[trigger] s[t] == x[t - i] by {
        assert(s.subrange(i, j)[t - i] == s[t]);
    }
}

/// Where each part of one encoded snapshot entry stands.
pub proof fn lemma_entry_parts(s: Seq<u8>, i: int, j: int, e: (u64, (i64, i64)))
    requires
        0 <= i <= j <= s.len(),
        s.subrange(i, j) == enc_entry(e),
    ensures
        ({
            let du = dec_u64(e.0 as nat);
            let d1 = dec_i64(e.1.0 as int);
            let d2 = dec_i64(e.1.1 as int);
            let a = i + 1 + du.len() as int;
            let b = a + 3 + d1.len() as int;
            let c = b + 1 + d2.len() as int;
            &&& j - i == 6 + du.len() + d1.len() + d2.len()
            &&& s[i] == QUOTE
            &&& s.subrange(i + 1, a) == du
            &&& s[a] == QUOTE
            &&& s[a + 1] == COLON
            &&& s[a + 2] == LBRACK
            &&& s.subrange(a + 3, b) == d1
            &&& s[b] == COMMA
            &&& s.subrange(b + 1, c) == d2
            &&& s[c] == RBRACK
            &&& j == c + 1
        }),
{
    let du = dec_u64(e.0 as nat);
    let d1 = dec_i64(e.1.0 as int);
    let d2 = dec_i64(e.1.1 as int);
    let a = i + 1 + du.len() as int;
    let b = a + 3 + d1.len() as int;
    let c = b + 1 + d2.len() as int;
    lemma_subrange_eq_pointwise(s, i, j, enc_entry(e));
    assert(enc_entry(e).len() == 6 + du.len() + d1.len() + d2.len());
    assert(j - i == 6 + du.len() + d1.len() + d2.len());
    assert(enc_entry(e)[0] == QUOTE);
    assert(s[i] == enc_entry(e)[0]);
    assert forall|t: int| 0 <= t < du.len() implies s.subrange(i + 1, a)[t] == du[t] by {
        assert(s[i + 1 + t] == enc_entry(e)[1 + t]);
        assert(enc_entry(e)[1 + t] == du[t]);
    }
    assert(s.subrange(i + 1, a) =~= du);
    assert(s.subrange(a + 3, b) =~= d1);
    assert(s.subrange(b + 1, c) =~= d2);
}

/// Parses one snapshot entry `"ID":[X,Y]` starting at `i`.
pub fn parse_entry(s: &Vec<u8>, i: usize) -> (r: Option<((u64, (i64, i64)), usize)>)
    requires
        i <= s@.len(),
    ensures
        (r matches Some(p) ==> i < p.1 <= s@.len() && s@.subrange(i as int, p.1 as int)
            == enc_entry(p.0)),
        forall|e: (u64, (i64, i64)), j: int| #![trigger enc_entry(e), s@.subrange(i as int, j)]
            (i <= j <= s@.len() && s@.subrange(i as int, j) == enc_entry(e)) ==> (
            r matches Some(p) && p.0 == e && p.1 == j),
{
    let slen = s.len();
    if i == slen || s[i] != QUOTE {
        proof {
            assert forall|e: (u64, (i64, i64)), j: int|
                #![trigger enc_entry(e), s@.subrange(i as int, j)]
                (i <= j <= s@.len() && s@.subrange(i as int, j) == enc_entry(e)) implies false by {
                lemma_entry_parts(s@, i as int, j, e);
            }
        }
        return None;
    }
    let ru = parse_u64(s, i + 1);
    proof {
        assert forall|e: (u64, (i64, i64)), j: int|
            #![trigger enc_entry(e), s@.subrange(i as int, j)]
            (i <= j <= s@.len() && s@.subrange(i as int, j) == enc_entry(e)) implies (
        ru matches Some(p) && p.0 == e.0 && p.1 as int == i + 1 + dec_u64(e.0 as nat).len()) by {
            lemma_entry_parts(s@, i as int, j, e);
            assert(!is_digit(QUOTE));
        }
    }
    match ru {
        None => None,
        Some(pu) => {
            let (id, ja) = pu;
            if !(slen - ja >= 3 && s[ja] == QUOTE && s[ja + 1] == COLON && s[ja + 2] == LBRACK) {
                proof {
                    assert forall|e: (u64, (i64, i64)), j: int|
                        #![trigger enc_entry(e), s@.subrange(i as int, j)]
                        (i <= j <= s@.len() && s@.subrange(i as int, j) == enc_entry(
                            e,
                        )) implies false by {
                        lemma_entry_parts(s@, i as int, j, e);
                    }
                }
                return None;
            }
            let r1 = parse_i64(s, ja + 3);
            proof {
                assert forall|e: (u64, (i64, i64)), j: int|
                    #![trigger enc_entry(e), s@.subrange(i as int, j)]
                    (i <= j <= s@.len() && s@.subrange(i as int, j) == enc_entry(e)) implies (
                r1 matches Some(p) && p.0 == e.1.0 && p.1 as int == ja + 3 + dec_i64(
                    e.1.0 as int,
                ).len()) by {
                    lemma_entry_parts(s@, i as int, j, e);
                    let du = dec_u64(e.0 as nat);
                    let d1 = dec_i64(e.1.0 as int);
                    assert(ja as int == i + 1 + du.len());
                    assert(s@.subrange(ja + 3, ja + 3 + d1.len() as int) == d1);
                    assert(!is_digit(COMMA));
                }
            }
            match r1 {
                None => None,
                Some(p1) => {
                    let (x, jb) = p1;
                    if !(jb < slen && s[jb] == COMMA) {
                        proof {
                            assert forall|e: (u64, (i64, i64)), j: int|
                                #![trigger enc_entry(e), s@.subrange(i as int, j)]
                                (i <= j <= s@.len() && s@.subrange(i as int, j) == enc_entry(
                                    e,
                                )) implies false by {
                                lemma_entry_parts(s@, i as int, j, e);
                            }
                        }
                        return None;
                    }
                    let r2 = parse_i64(s, jb + 1);
                    proof {
                        assert forall|e: (u64, (i64, i64)), j: int|
                            #![trigger enc_entry(e), s@.subrange(i as int, j)]
                            (i <= j <= s@.len() && s@.subrange(i as int, j) == enc_entry(
                                e,
                            )) implies (r2 matches Some(p) && p.0 == e.1.1 && p.1 as int == jb + 1
                            + dec_i64(e.1.1 as int).len()) by {
                            lemma_entry_parts(s@, i as int, j, e);
                            let du = dec_u64(e.0 as nat);
                            let d1 = dec_i64(e.1.0 as int);
                            let d2 = dec_i64(e.1.1 as int);
                            assert(jb as int == i + 4 + du.len() + d1.len());
                            assert(s@.subrange(jb + 1, jb + 1 + d2.len() as int) == d2);
                            assert(!is_digit(RBRACK));
                        }
                    }
                    match r2 {
                        None => None,
                        Some(p2) => {
                            let (y, jc) = p2;
                            if jc < slen && s[jc] == RBRACK {
                                proof {
                                    assert(s@.subrange(i as int, jc + 1) =~= seq![QUOTE] + dec_u64(
                                        id as nat,
                                    ) + seq![QUOTE, COLON, LBRACK] + dec_i64(x as int)
                                        + seq![COMMA] + dec_i64(y as int) + seq![RBRACK]);
                                }
                                Some(((id, (x, y)), jc + 1))
                            } else {
                                proof {
                                    assert forall|e: (u64, (i64, i64)), j: int|
                                        #![trigger enc_entry(e), s@.subrange(i as int, j)]
                                        (i <= j <= s@.len() && s@.subrange(i as int, j)
                                            == enc_entry(e)) implies false by {
                                        lemma_entry_parts(s@, i as int, j, e);
                                    }
                                }
                                None
                            }
                        },
                    }
                },
            }
        },
    }
}

/// Parses the comma-preceded entries after the first one, stopping at the
/// closing brace of the positions map.
pub fn parse_rest(s: &Vec<u8>, i: usize) -> (r: Option<(Vec<(u64, (i64, i64))>, usize)>)
    requires
        i <= s@.len(),
    ensures
        (r matches Some(p) ==> i <= p.1 < s@.len() && s@.subrange(i as int, p.1 as int)
            == enc_rest(p.0@) && s@[p.1 as int] == RBRACE),
        forall|q: Seq<(u64, (i64, i64))>, j: int|
            #![trigger enc_rest(q), s@.subrange(i as int, j)]
            (i <= j < s@.len() && s@.subrange(i as int, j) == enc_rest(q) && s@[j] == RBRACE) ==> (
            r matches Some(p) && p.0@ == q && p.1 == j),
    decreases s@.len() - i,
{
    let slen = s.len();
    if i == slen {
        return None;
    }
    if s[i] == RBRACE {
        proof {
            assert(s@.subrange(i as int, i as int) =~= Seq::<u8>::empty());
            assert(enc_rest(Seq::<(u64, (i64, i64))>::empty()) == Seq::<u8>::empty());
            assert forall|q: Seq<(u64, (i64, i64))>, j: int|
                #![trigger enc_rest(q), s@.subrange(i as int, j)]
                (i <= j < s@.len() && s@.subrange(i as int, j) == enc_rest(q) && s@[j]
                    == RBRACE) implies (q.len() == 0 && j == i) by {
                if q.len() > 0 {
                    assert(enc_rest(q)[0] == COMMA);
                    assert(s@.subrange(i as int, j)[0] == s@[i as int]);
                    assert(false);
                }
                assert(s@.subrange(i as int, j).len() == 0);
            }
        }
        let empty: Vec<(u64, (i64, i64))> = Vec::new();
        return Some((empty, i));
    }
    if s[i] != COMMA {
        proof {
            assert forall|q: Seq<(u64, (i64, i64))>, j: int|
                #![trigger enc_rest(q), s@.subrange(i as int, j)]
                (i <= j < s@.len() && s@.subrange(i as int, j) == enc_rest(q) && s@[j]
                    == RBRACE) implies false by {
                if q.len() > 0 {
                    assert(enc_rest(q)[0] == COMMA);
                    assert(s@.subrange(i as int, j)[0] == s@[i as int]);
                } else {
                    assert(s@.subrange(i as int, j).len() == 0);
                    assert(j == i);
                }
            }
        }
        return None;
    }
    let re = parse_entry(s, i + 1);
    proof {
        assert forall|q: Seq<(u64, (i64, i64))>, j: int|
            #![trigger enc_rest(q), s@.subrange(i as int, j)]
            (i <= j < s@.len() && s@.subrange(i as int, j) == enc_rest(q) && s@[j]
                == RBRACE) implies (q.len() > 0 && (re matches Some(p) && p.0 == q[0] && p.1 as int
            == i + 1 + enc_entry(q[0]).len())) by {
            if q.len() == 0 {
                assert(s@.subrange(i as int, j).len() == 0);
                assert(j == i);
                assert(false);
            }
            assert(s@.subrange(i as int, j) == seq![COMMA] + enc_entry(q[0]) + enc_rest(
                q.drop_first(),
            ));
            lemma_subrange_eq_pointwise(
                s@,
                i as int,
                j,
                seq![COMMA] + enc_entry(q[0]) + enc_rest(q.drop_first()),
            );
            assert(s@.subrange(i + 1, i + 1 + enc_entry(q[0]).len() as int) =~= enc_entry(q[0]));
        }
    }
    match re {
        None => None,
        Some(pe) => {
            let (e0, j1) = pe;
            let rr = parse_rest(s, j1);
            proof {
                assert forall|q: Seq<(u64, (i64, i64))>, j: int|
                    #![trigger enc_rest(q), s@.subrange(i as int, j)]
                    (i <= j < s@.len() && s@.subrange(i as int, j) == enc_rest(q) && s@[j]
                        == RBRACE) implies (rr matches Some(p) && p.0@ == q.drop_first() && p.1
                    == j) by {
                    assert(q.len() > 0);
                    assert(s@.subrange(i as int, j) == seq![COMMA] + enc_entry(q[0]) + enc_rest(
                        q.drop_first(),
                    ));
                    assert(j1 as int == i + 1 + enc_entry(q[0]).len());
                    lemma_subrange_eq_pointwise(
                        s@,
                        i as int,
                        j,
                        seq![COMMA] + enc_entry(q[0]) + enc_rest(q.drop_first()),
                    );
                    assert(s@.subrange(j1 as int, j) =~= enc_rest(q.drop_first()));
                }
            }
            match rr {
                None => None,
                Some(pr) => {
                    let (mut v, j2) = pr;
                    let ghost v0 = v@;
                    v.insert(0, e0);
                    proof {
                        assert(v@ == v0.insert(0, e0));
                        assert(v@[0] == e0);
                        assert(v@.drop_first() =~= v0);
                        assert(v@.len() > 0);
                        assert(enc_rest(v@) == seq![COMMA] + enc_entry(v@[0]) + enc_rest(
                            v@.drop_first(),
                        ));
                        assert(s@.subrange(i as int, j2 as int) =~= seq![COMMA] + enc_entry(e0)
                            + enc_rest(v0));
                        assert forall|q: Seq<(u64, (i64, i64))>, j: int|
                            #![trigger enc_rest(q), s@.subrange(i as int, j)]
                            (i <= j < s@.len() && s@.subrange(i as int, j) == enc_rest(q) && s@[j]
                                == RBRACE) implies (q =~= v@ && j == j2) by {
                            assert(q.len() > 0);
                            assert(q[0] == e0);
                            assert(q.drop_first() == v0);
                        }
                    }
                    Some((v, j2))
                },
            }
        },
    }
}


/// Where each part of an encoded `YouAre` frame stands.
pub proof fn lemma_ya_parts(s: Seq<u8>, id: u64)
    requires
        s == enc_output(OutputView::YouAre { id }),
    ensures
        ({
            let du = dec_u64(id as nat);
            &&& s.len() == 18 + du.len()
            &&& s.subrange(0, 16) == ya_prefix()
            &&& s.subrange(16, 16 + du.len() as int) == du
            &&& s[16 + du.len() as int] == RBRACE
            &&& s[17 + du.len() as int] == RBRACE
            &&& s[2] == 89u8
        }),
{
    let du = dec_u64(id as nat);
    let v = OutputView::YouAre { id };
    assert forall|t: int| 0 <= t < 16 implies s.subrange(0, 16)[t] == ya_prefix()[t] by {
        assert(s[t] == enc_output(v)[t]);
    }
    assert(s.subrange(0, 16) =~= ya_prefix());
    assert forall|t: int| 0 <= t < du.len() implies s.subrange(16, 16 + du.len() as int)[t]
        == du[t] by {
        assert(s[16 + t] == enc_output(v)[16 + t]);
        assert(enc_output(v)[16 + t] == du[t]);
    }
    assert(s.subrange(16, 16 + du.len() as int) =~= du);
    assert(s[16 + du.len() as int] == enc_output(v)[16 + du.len() as int]);
    assert(s[17 + du.len() as int] == enc_output(v)[17 + du.len() as int]);
    assert(s[2] == enc_output(v)[2]);
}

/// Where each part of an encoded `PlayerPositions` frame stands.
pub proof fn lemma_pp_parts(s: Seq<u8>, q: Seq<(u64, (i64, i64))>)
    requires
        s == enc_output(OutputView::PlayerPositions { positions: q }),
    ensures
        ({
            let ee = enc_entries(q);
            &&& s.len() == 36 + ee.len()
            &&& s.subrange(0, 33) == pp_prefix()
            &&& s.subrange(33, 33 + ee.len() as int) == ee
            &&& s[33 + ee.len() as int] == RBRACE
            &&& s[34 + ee.len() as int] == RBRACE
            &&& s[35 + ee.len() as int] == RBRACE
            &&& s[2] == 80u8
        }),
{
    let ee = enc_entries(q);
    let v = OutputView::PlayerPositions { positions: q };
    assert forall|t: int| 0 <= t < 33 implies s.subrange(0, 33)[t] == pp_prefix()[t] by {
        assert(s[t] == enc_output(v)[t]);
    }
    assert(s.subrange(0, 33) =~= pp_prefix());
    assert forall|t: int| 0 <= t < ee.len() implies s.subrange(33, 33 + ee.len() as int)[t]
        == ee[t] by {
        assert(s[33 + t] == enc_output(v)[33 + t]);
        assert(enc_output(v)[33 + t] == ee[t]);
    }
    assert(s.subrange(33, 33 + ee.len() as int) =~= ee);
    assert(s[33 + ee.len() as int] == enc_output(v)[33 + ee.len() as int]);
    assert(s[34 + ee.len() as int] == enc_output(v)[34 + ee.len() as int]);
    assert(s[35 + ee.len() as int] == enc_output(v)[35 + ee.len() as int]);
    assert(s[2] == enc_output(v)[2]);
}

impl GameOutputMessage {
    /// Decodes a wire frame, accepting exactly the canonical encodings: the
    /// result is `Some(m)` precisely when the input is `m` encoded, so
    /// encoding then decoding always returns an equal message.
    #[verifier::rlimit(80)]
    #[verifier::spinoff_prover]
    pub fn deserialize_json(s: &Vec<u8>) -> (r: Option<GameOutputMessage>)
        ensures
            (r matches Some(m) ==> s@ == enc_output(m@)),
            forall|v: OutputView| s@ == #[trigger] enc_output(v) ==> (r matches Some(m) && m@
                == v),
    {
        let ya = lit_ya_prefix();
        if match_at(s, 0, &ya) {
            let ru = parse_u64(s, 16);
            proof {
                assert forall|v: OutputView| s@ == #[trigger] enc_output(v) implies (
                v matches OutputView::YouAre { id } && (ru matches Some(p) && p.0 == id
                    && p.1 as int == 16 + dec_u64(id as nat).len())) by {
                    match v {
                        OutputView::YouAre { id } => {
                            lemma_ya_parts(s@, id);
                            assert(!is_digit(RBRACE));
                        },
                        OutputView::PlayerPositions { positions } => {
                            lemma_pp_parts(s@, positions);
                            assert(s@.subrange(0, 16)[2] == s@[2]);
                            assert(ya_prefix()[2] == 89u8);
                            assert(false);
                        },
                    }
                }
            }
            match ru {
                None => None,
                Some(pu) => {
                    let (id, j) = pu;
                    if s.len() - j == 2 && s[j] == RBRACE && s[j + 1] == RBRACE {
                        proof {
                            assert(s@ =~= ya_prefix() + dec_u64(id as nat) + seq![RBRACE, RBRACE]);
                        }
                        Some(GameOutputMessage::YouAre { id })
                    } else {
                        proof {
                            assert forall|v: OutputView| s@ == #[trigger] enc_output(
                                v,
                            ) implies false by {
                                match v {
                                    OutputView::YouAre { id: idc } => {
                                        lemma_ya_parts(s@, idc);
                                    },
                                    OutputView::PlayerPositions { positions } => {
                                        lemma_pp_parts(s@, positions);
                                        assert(s@.subrange(0, 16)[2] == s@[2]);
                                        assert(false);
                                    },
                                }
                            }
                        }
                        None
                    }
                },
            }
        } else {
            let pp = lit_pp_prefix();
            if !match_at(s, 0, &pp) {
                proof {
                    assert forall|v: OutputView| s@ == #[trigger] enc_output(v) implies false by {
                        match v {
                            OutputView::YouAre { id } => {
                                lemma_ya_parts(s@, id);
                            },
                            OutputView::PlayerPositions { positions } => {
                                lemma_pp_parts(s@, positions);
                            },
                        }
                    }
                }
                return None;
            }
            let slen = s.len();
            if slen == 33 {
                proof {
                    assert forall|v: OutputView| s@ == #[trigger] enc_output(v) implies false by {
                        match v {
                            OutputView::YouAre { id } => {
                                lemma_ya_parts(s@, id);
                            },
                            OutputView::PlayerPositions { positions } => {
                                lemma_pp_parts(s@, positions);
                            },
                        }
                    }
                }
                return None;
            }
            if s[33] == RBRACE {
                if slen - 33 == 3 && s[34] == RBRACE && s[35] == RBRACE {
                    proof {
                        assert(enc_entries(Seq::<(u64, (i64, i64))>::empty())
                            == Seq::<u8>::empty());
                        assert(s@ =~= pp_prefix() + enc_entries(Seq::<(u64, (i64, i64))>::empty())
                            + seq![RBRACE, RBRACE, RBRACE]);
                        assert forall|v: OutputView| s@ == #[trigger] enc_output(v) implies (
                        v matches OutputView::PlayerPositions { positions } && positions
                            =~= Seq::<(u64, (i64, i64))>::empty()) by {
                            match v {
                                OutputView::YouAre { id } => {
                                    lemma_ya_parts(s@, id);
                                    assert(s@.subrange(0, 33)[2] == s@[2]);
                                    assert(false);
                                },
                                OutputView::PlayerPositions { positions } => {
                                    lemma_pp_parts(s@, positions);
                                    if positions.len() > 0 {
                                        assert(enc_entries(positions)[0] == enc_entry(
                                            positions[0],
                                        )[0]);
                                        assert(enc_entry(positions[0])[0] == QUOTE);
                                        assert(s@.subrange(33, 33 + enc_entries(
                                            positions,
                                        ).len() as int)[0] == s@[33]);
                                        assert(false);
                                    }
                                },
                            }
                        }
                    }
                    let empty: Vec<(u64, (i64, i64))> = Vec::new();
                    return Some(GameOutputMessage::PlayerPositions { positions: empty });
                } else {
                    proof {
                        assert forall|v: OutputView| s@ == #[trigger] enc_output(
                            v,
                        ) implies false by {
                            match v {
                                OutputView::YouAre { id } => {
                                    lemma_ya_parts(s@, id);
                                    assert(s@.subrange(0, 33)[2] == s@[2]);
                                    assert(false);
                                },
                                OutputView::PlayerPositions { positions } => {
                                    lemma_pp_parts(s@, positions);
                                    if positions.len() > 0 {
                                        assert(enc_entries(positions)[0] == enc_entry(
                                            positions[0],
                                        )[0]);
                                        assert(enc_entry(positions[0])[0] == QUOTE);
                                        assert(s@.subrange(33, 33 + enc_entries(
                                            positions,
                                        ).len() as int)[0] == s@[33]);
                                        assert(false);
                                    }
                                    assert(enc_entries(positions) == Seq::<u8>::empty());
                                },
                            }
                        }
                    }
                    return None;
                }
            }
            let re = parse_entry(s, 33);
            proof {
                assert forall|v: OutputView| s@ == #[trigger] enc_output(v) implies (
                v matches OutputView::PlayerPositions { positions } && positions.len() > 0 && (
                re matches Some(p) && p.0 == positions[0] && p.1 as int == 33 + enc_entry(
                    positions[0],
                ).len())) by {
                    match v {
                        OutputView::YouAre { id } => {
                            lemma_ya_parts(s@, id);
                            assert(s@.subrange(0, 33)[2] == s@[2]);
                            assert(false);
                        },
                        OutputView::PlayerPositions { positions } => {
                            lemma_pp_parts(s@, positions);
                            let ee = enc_entries(positions);
                            if positions.len() == 0 {
                                assert(ee == Seq::<u8>::empty());
                                assert(s@[33 + ee.len() as int] == RBRACE);
                                assert(false);
                            }
                            assert(ee == enc_entry(positions[0]) + enc_rest(
                                positions.drop_first(),
                            ));
                            lemma_subrange_eq_pointwise(s@, 33, 33 + ee.len() as int, ee);
                            assert forall|t: int|
                                0 <= t < enc_entry(positions[0]).len() implies s@.subrange(
                                33,
                                33 + enc_entry(positions[0]).len() as int,
                            )[t] == enc_entry(positions[0])[t] by {
                                assert(s@[33 + t] == ee[t]);
                            }
                            assert(s@.subrange(33, 33 + enc_entry(positions[0]).len() as int)
                                =~= enc_entry(positions[0]));
                        },
                    }
                }
            }
            match re {
                None => None,
                Some(pe) => {
                    let (e0, p1) = pe;
                    let rr = parse_rest(s, p1);
                    proof {
                        assert forall|v: OutputView| s@ == #[trigger] enc_output(v) implies (
                        v matches OutputView::PlayerPositions { positions } && (rr matches Some(p)
                            && p.0@ == positions.drop_first() && p.1 as int == 33 + enc_entries(
                            positions,
                        ).len())) by {
                            match v {
                                OutputView::YouAre { id } => {
                                    lemma_ya_parts(s@, id);
                                    assert(s@.subrange(0, 33)[2] == s@[2]);
                                    assert(false);
                                },
                                OutputView::PlayerPositions { positions } => {
                                    lemma_pp_parts(s@, positions);
                                    let ee = enc_entries(positions);
                                    assert(positions.len() > 0);
                                    assert(ee == enc_entry(positions[0]) + enc_rest(
                                        positions.drop_first(),
                                    ));
                                    assert(p1 as int == 33 + enc_entry(positions[0]).len());
                                    lemma_subrange_eq_pointwise(s@, 33, 33 + ee.len() as int, ee);
                                    assert forall|t: int|
                                        0 <= t < enc_rest(positions.drop_first()).len() implies s@
                                        .subrange(p1 as int, 33 + ee.len() as int)[t] == enc_rest(
                                        positions.drop_first(),
                                    )[t] by {
                                        assert(s@[p1 + t] == ee[enc_entry(positions[0]).len() + t]);
                                    }
                                    assert(s@.subrange(p1 as int, 33 + ee.len() as int)
                                        =~= enc_rest(positions.drop_first()));
                                    assert(s@[33 + ee.len() as int] == RBRACE);
                                },
                            }
                        }
                    }
                    match rr {
                        None => None,
                        Some(pr) => {
                            let (mut v, p2) = pr;
                            let ghost v0 = v@;
                            v.insert(0, e0);
                            proof {
                                assert(v@ == v0.insert(0, e0));
                                assert(v@[0] == e0);
                                assert(v@.drop_first() =~= v0);
                            }
                            if slen - p2 == 3 && s[p2] == RBRACE && s[p2 + 1] == RBRACE && s[p2
                                + 2] == RBRACE {
                                proof {
                                    assert(enc_entries(v@) == enc_entry(v@[0]) + enc_rest(
                                        v@.drop_first(),
                                    ));
                                    assert(enc_entries(v@) == enc_entry(e0) + enc_rest(v0));
                                    assert(s@ =~= pp_prefix() + enc_entries(v@)
                                        + seq![RBRACE, RBRACE, RBRACE]);
                                    assert forall|w: OutputView| s@ == #[trigger] enc_output(
                                        w,
                                    ) implies (w matches OutputView::PlayerPositions { positions }
                                        && positions =~= v@) by {
                                        match w {
                                            OutputView::YouAre { id } => {
                                                lemma_ya_parts(s@, id);
                                                assert(s@.subrange(0, 33)[2] == s@[2]);
                                                assert(false);
                                            },
                                            OutputView::PlayerPositions { positions } => {
                                                assert(positions.len() > 0);
                                                assert(positions[0] == e0);
                                                assert(positions.drop_first() == v0);
                                            },
                                        }
                                    }
                                }
                                Some(GameOutputMessage::PlayerPositions { positions: v })
                            } else {
                                proof {
                                    assert forall|w: OutputView| s@ == #[trigger] enc_output(
                                        w,
                                    ) implies false by {
                                        match w {
                                            OutputView::YouAre { id } => {
                                                lemma_ya_parts(s@, id);
                                                assert(s@.subrange(0, 33)[2] == s@[2]);
                                                assert(false);
                                            },
                                            OutputView::PlayerPositions { positions } => {
                                                lemma_pp_parts(s@, positions);
                                            },
                                        }
                                    }
                                }
                                None
                            }
                        },
                    }
                },
            }
        }
    }
}

} // verus!
