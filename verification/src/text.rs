//! Character-sequence utilities shared by the other modules: lexicographic
//! ordering on character sequences and an executable comparison on `&str`.

use vstd::prelude::*;

verus! {

/// Strict lexicographic order on character sequences, compared by unicode
/// code point, with a proper prefix ordered before its extensions.
pub open spec fn lex_lt(a: Seq<char>, b: Seq<char>) -> bool
    decreases a.len(),
{
    if b.len() == 0 {
        false
    } else if a.len() == 0 {
        true
    } else if (a[0] as u32) != (b[0] as u32) {
        (a[0] as u32) < (b[0] as u32)
    } else {
        lex_lt(a.skip(1), b.skip(1))
    }
}

/// Skipping a common prefix does not change how two sequences compare.
pub proof fn lemma_lex_skip(a: Seq<char>, b: Seq<char>, i: int)
    requires
        0 <= i <= a.len(),
        i <= b.len(),
        forall|j: int| 0 <= j < i ==> a[j] == b[j],
    ensures
        lex_lt(a, b) == lex_lt(a.skip(i), b.skip(i)),
    decreases i,
{
    if i > 0 {
        assert(forall|j: int| 0 <= j < i - 1 ==> a.skip(1)[j] == b.skip(1)[j]);
        lemma_lex_skip(a.skip(1), b.skip(1), i - 1);
        assert(a.skip(1).skip(i - 1) =~= a.skip(i));
        assert(b.skip(1).skip(i - 1) =~= b.skip(i));
    } else {
        assert(a.skip(0) =~= a);
        assert(b.skip(0) =~= b);
    }
}

/// The order is asymmetric: two sequences never precede each other.
pub proof fn lemma_lex_asym(a: Seq<char>, b: Seq<char>)
    ensures
        !(lex_lt(a, b) && lex_lt(b, a)),
    decreases a.len(),
{
    if a.len() > 0 && b.len() > 0 && (a[0] as u32) == (b[0] as u32) {
        lemma_lex_asym(a.skip(1), b.skip(1));
    }
}

/// The order is connex: distinct sequences compare one way or the other.
pub proof fn lemma_lex_connex(a: Seq<char>, b: Seq<char>)
    ensures
        lex_lt(a, b) || lex_lt(b, a) || a =~= b,
    decreases a.len(),
{
    if a.len() > 0 && b.len() > 0 && (a[0] as u32) == (b[0] as u32) {
        lemma_lex_connex(a.skip(1), b.skip(1));
        if !lex_lt(a, b) && !lex_lt(b, a) {
            assert(a.skip(1) =~= b.skip(1));
            vstd::utf8::char_u32_cast(a[0], a[0] as u32);
            vstd::utf8::char_u32_cast(b[0], b[0] as u32);
            assert(a[0] == b[0]);
            assert forall|j: int| 1 <= j < a.len() implies #[trigger] a[j] == b[j] by {
                assert(a[j] == a.skip(1)[j - 1]);
                assert(b[j] == b.skip(1)[j - 1]);
            };
            assert(a =~= b);
        }
    }
}

/// The order is transitive.
pub proof fn lemma_lex_trans(a: Seq<char>, b: Seq<char>, c: Seq<char>)
    requires
        lex_lt(a, b),
        lex_lt(b, c),
    ensures
        lex_lt(a, c),
    decreases a.len(),
{
    if a.len() > 0 && b.len() > 0 && c.len() > 0 {
        if (a[0] as u32) == (b[0] as u32) && (b[0] as u32) == (c[0] as u32) {
            lemma_lex_trans(a.skip(1), b.skip(1), c.skip(1));
        }
    }
}

/// Executable equality test on the character sequences of two string slices.
pub fn str_eq(a: &str, b: &str) -> (r: bool)
    ensures
        r == (a@ == b@),
{
    let alen = a.unicode_len();
    let blen = b.unicode_len();
    if alen != blen {
        return false;
    }
    let mut i: usize = 0;
    while i < alen
        invariant
            i <= alen,
            alen == a@.len(),
            alen == b@.len(),
            forall|j: int| 0 <= j < i ==> a@[j] == b@[j],
        decreases alen - i,
    {
        let ca = a.get_char(i);
        let cb = b.get_char(i);
        if (ca as u32) != (cb as u32) {
            return false;
        }
        assert(ca == cb);
        i = i + 1;
    }
    proof {
        assert(a@ =~= b@);
    }
    true
}

/// Executable lexicographic comparison of two string slices.
pub fn str_lt(a: &str, b: &str) -> (r: bool)
    ensures
        r == lex_lt(a@, b@),
{
    let alen = a.unicode_len();
    let blen = b.unicode_len();
    let mut i: usize = 0;
    while i < alen && i < blen
        invariant
            i <= alen,
            i <= blen,
            alen == a@.len(),
            blen == b@.len(),
            forall|j: int| 0 <= j < i ==> a@[j] == b@[j],
        decreases alen - i,
    {
        let ca = a.get_char(i);
        let cb = b.get_char(i);
        if (ca as u32) < (cb as u32) {
            proof {
                lemma_lex_skip(a@, b@, i as int);
            }
            return true;
        }
        if (ca as u32) > (cb as u32) {
            proof {
                lemma_lex_skip(a@, b@, i as int);
            }
            return false;
        }
        assert(ca == cb);
        i = i + 1;
    }
    proof {
        lemma_lex_skip(a@, b@, i as int);
    }
    alen < blen
}

/// Whether `c` is a decimal digit.
pub open spec fn is_digit(c: char) -> bool {
    ('0' as u32) <= (c as u32) && (c as u32) <= ('9' as u32)
}

/// The first position at or after `i` holding no digit.
pub open spec fn digit_run_end(s: Seq<char>, i: int) -> int
    decreases s.len() - i,
{
    if 0 <= i < s.len() && is_digit(s[i]) {
        digit_run_end(s, i + 1)
    } else {
        i
    }
}

/// The run of digits spans exactly from `i` to its end.
pub proof fn lemma_digit_run(s: Seq<char>, i: int)
    requires
        0 <= i <= s.len(),
    ensures
        i <= digit_run_end(s, i) <= s.len(),
        forall|j: int| i <= j < digit_run_end(s, i) ==> is_digit(#[trigger] s[j]),
        digit_run_end(s, i) < s.len() ==> !is_digit(s[digit_run_end(s, i)]),
    decreases s.len() - i,
{
    if 0 <= i < s.len() && is_digit(s[i]) {
        lemma_digit_run(s, i + 1);
    }
}

/// Any position whose preceding characters are all digits and which holds
/// no digit (or is the end) is the run's end.
pub proof fn lemma_digit_run_is(s: Seq<char>, i: int, e: int)
    requires
        0 <= i <= e <= s.len(),
        forall|j: int| i <= j < e ==> is_digit(#[trigger] s[j]),
        e == s.len() || !is_digit(s[e]),
    ensures
        digit_run_end(s, i) == e,
    decreases e - i,
{
    if i < e {
        lemma_digit_run_is(s, i + 1, e);
    }
}

/// The value of the digits of `s` from `i` to `j` exclusive.
pub open spec fn digits_val(s: Seq<char>, i: int, j: int) -> int
    decreases j - i,
{
    if j <= i {
        0
    } else {
        digits_val(s, i, j - 1) * 10 + ((s[j - 1] as u32) - ('0' as u32))
    }
}

/// Digit values are nonnegative and grow as digits are appended.
pub proof fn lemma_digits_val_bounds(s: Seq<char>, i: int, j: int)
    requires
        i <= j,
        forall|q: int| i <= q < j ==> is_digit(#[trigger] s[q]),
    ensures
        0 <= digits_val(s, i, j),
        forall|k: int| i <= k <= j ==> #[trigger] digits_val(s, i, k) <= digits_val(s, i, j),
    decreases j - i,
{
    if i < j {
        lemma_digits_val_bounds(s, i, j - 1);
        let prev = digits_val(s, i, j - 1);
        let d = (s[j - 1] as u32) - ('0' as u32);
        assert(prev <= prev * 10 + d && 0 <= prev * 10 + d) by (nonlinear_arith)
            requires
                0 <= prev,
                0 <= d,
        ;
        assert forall|k: int| i <= k <= j implies #[trigger] digits_val(s, i, k) <= digits_val(
            s,
            i,
            j,
        ) by {
            if k < j {
                assert(digits_val(s, i, k) <= digits_val(s, i, j - 1));
            }
        }
    }
}

/// A signed 64-bit integer read from position `i`: an optional minus sign,
/// then one or more digits whose value fits the type, together with the
/// position after the digits.
pub open spec fn scan_i64_at(s: Seq<char>, i: int) -> Option<(int, int)> {
    let neg = 0 <= i < s.len() && s[i] == '-';
    let st = if neg {
        i + 1
    } else {
        i
    };
    let e = digit_run_end(s, st);
    if e == st {
        Option::None
    } else {
        let v = digits_val(s, st, e);
        if neg {
            if v <= i64::MAX as int + 1 {
                Option::Some((-v, e))
            } else {
                Option::None
            }
        } else {
            if v <= i64::MAX as int {
                Option::Some((v, e))
            } else {
                Option::None
            }
        }
    }
}

/// The literal `lit` occurs in `s` at position `i`.
pub open spec fn lit_at(s: Seq<char>, i: int, lit: Seq<char>) -> bool {
    0 <= i && i + lit.len() <= s.len() && s.subrange(i, i + lit.len()) == lit
}

/// Tests whether the characters of `lit` occur in `s` at `from`, and if so
/// returns the position just after them.
pub fn expect_lit(s: &str, from: usize, lit: &str) -> (r: Option<usize>)
    requires
        from <= s@.len(),
    ensures
        (r is Some) <==> lit_at(s@, from as int, lit@),
        r matches Some(p) ==> p == from + lit@.len() && p <= s@.len(),
{
    let slen = s.unicode_len();
    let llen = lit.unicode_len();
    if slen - from < llen {
        proof {
            if lit_at(s@, from as int, lit@) {
                assert(false);
            }
        }
        return None;
    }
    let mut k: usize = 0;
    while k < llen
        invariant
            k <= llen,
            llen == lit@.len(),
            slen == s@.len(),
            from + llen <= slen,
            forall|j: int| 0 <= j < k ==> s@[from + j] == lit@[j],
        decreases llen - k,
    {
        let cs = s.get_char(from + k);
        let cl = lit.get_char(k);
        if (cs as u32) != (cl as u32) {
            proof {
                if lit_at(s@, from as int, lit@) {
                    assert(s@.subrange(from as int, from + lit@.len())[k as int] == lit@[k as int]);
                    assert(s@[from + k] == lit@[k as int]);
                }
            }
            return None;
        }
        proof {
            vstd::utf8::char_u32_cast(s@[from + k], s@[from + k] as u32);
            vstd::utf8::char_u32_cast(lit@[k as int], lit@[k as int] as u32);
        }
        k = k + 1;
    }
    proof {
        assert(s@.subrange(from as int, from + lit@.len()) =~= lit@);
    }
    Some(from + llen)
}

/// Reads a signed 64-bit integer at `from`, returning its value and the
/// position after its digits.
pub fn scan_i64(s: &str, from: usize) -> (r: Option<(i64, usize)>)
    requires
        from <= s@.len(),
    ensures
        (r is Some) <==> (scan_i64_at(s@, from as int) is Some),
        r matches Some(p) ==> scan_i64_at(s@, from as int) == Option::Some(
            (p.0 as int, p.1 as int),
        ) && from <= p.1 <= s@.len(),
{
    let len = s.unicode_len();
    let mut i = from;
    let mut neg = false;
    if i < len {
        let c0 = s.get_char(i);
        if (c0 as u32) == ('-' as u32) {
            proof {
                vstd::utf8::char_u32_cast(s@[i as int], s@[i as int] as u32);
                vstd::utf8::char_u32_cast('-', '-' as u32);
            }
            neg = true;
            i = i + 1;
        } else {
            proof {
                assert(s@[i as int] != '-');
            }
        }
    }
    let st = i;
    let ghost limit: int = if neg {
        i64::MAX as int + 1
    } else {
        i64::MAX as int
    };
    let mut acc: u128 = 0;
    let mut overflowed = false;
    proof {
        lemma_digit_run(s@, st as int);
    }
    let mut done = false;
    while i < len && !done
        invariant
            st <= i <= len,
            len == s@.len(),
            from <= st <= s@.len(),
            limit == if neg {
                i64::MAX as int + 1
            } else {
                i64::MAX as int
            },
            forall|j: int| st <= j < i ==> is_digit(#[trigger] s@[j]),
            i <= digit_run_end(s@, st as int),
            done ==> i < len && !is_digit(s@[i as int]),
            !overflowed ==> acc as int == digits_val(s@, st as int, i as int) && acc as int
                <= limit,
            overflowed ==> digits_val(s@, st as int, i as int) > limit,
        decreases len - i, if done { 0int } else { 1int },
    {
        let c = s.get_char(i);
        if !(('0' as u32) <= (c as u32) && (c as u32) <= ('9' as u32)) {
            done = true;
        } else {
        let d = (c as u32) - ('0' as u32);
        proof {
            assert(is_digit(s@[i as int]));
            assert(i < digit_run_end(s@, st as int)) by {
                lemma_digit_run_is_extend(s@, st as int, i as int);
            }
            lemma_digits_val_bounds(s@, st as int, i + 1);
        }
        if !overflowed {
            let next = acc * 10 + (d as u128);
            proof {
                assert(acc * 10 + (d as u128) as int <= limit * 10 + 9) by (nonlinear_arith)
                    requires
                        0 <= acc as int <= limit,
                        0 <= d < 10,
                        0 <= limit,
                ;
            }
            if next > if neg {
                9223372036854775808u128
            } else {
                9223372036854775807u128
            } {
                overflowed = true;
            } else {
                acc = next;
            }
        } else {
            proof {
                let prev = digits_val(s@, st as int, i as int);
                let dd = (s@[i as int] as u32) - ('0' as u32);
                assert(digits_val(s@, st as int, i + 1) == prev * 10 + dd);
                assert(prev * 10 + dd > limit) by (nonlinear_arith)
                    requires
                        prev > limit,
                        0 <= dd,
                        0 <= limit,
                ;
            }
        }
        i = i + 1;
        }
    }
    proof {
        assert(digit_run_end(s@, st as int) == i) by {
            lemma_digit_run_is(s@, st as int, i as int);
        }
    }
    if i == st {
        return None;
    }
    if overflowed {
        return None;
    }
    let value: i64 = if neg {
        (-(acc as i128)) as i64
    } else {
        acc as i64
    };
    Some((value, i))
}

/// Positions strictly inside a digit run are before its end.
proof fn lemma_digit_run_is_extend(s: Seq<char>, st: int, i: int)
    requires
        0 <= st <= i < s.len(),
        forall|j: int| st <= j < i ==> is_digit(#[trigger] s[j]),
        is_digit(s[i]),
    ensures
        digit_run_end(s, st) > i,
    decreases i - st,
{
    if st < i {
        lemma_digit_run_is_extend(s, st + 1, i);
    } else {
        lemma_digit_run(s, i + 1);
    }
}

} // verus!
