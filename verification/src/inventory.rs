//! Box-id analysis: counting ids with exactly-twice and exactly-thrice
//! repeated characters, and finding the two ids that differ in one place.

use vstd::prelude::*;

verus! {

/// How many times the character `c` occurs in `s`.
pub open spec fn count_char(s: Seq<char>, c: char) -> int
    decreases s.len(),
{
    if s.len() == 0 {
        0
    } else {
        count_char(s.drop_last(), c) + if s.last() == c {
            1int
        } else {
            0int
        }
    }
}

/// Some character occurs exactly `n` times in `s`.
pub open spec fn has_repeat(s: Seq<char>, n: int) -> bool {
    exists|c: char| count_char(s, c) == n
}

/// The count never exceeds the length, and a positive count means the
/// character occurs somewhere.
proof fn lemma_count_char(s: Seq<char>, c: char)
    ensures
        0 <= count_char(s, c) <= s.len(),
        count_char(s, c) > 0 ==> exists|j: int| 0 <= j < s.len() && s[j] == c,
    decreases s.len(),
{
    if s.len() > 0 {
        lemma_count_char(s.drop_last(), c);
        if count_char(s, c) > 0 {
            if s.last() == c {
                assert(s[s.len() - 1] == c);
            } else {
                let j = choose|j: int| 0 <= j < s.drop_last().len() && s.drop_last()[j] == c;
                assert(s[j] == c);
            }
        }
    }
}

/// Counts the occurrences of `c` in `s`.
fn char_count(s: &str, c: char) -> (n: usize)
    ensures
        n == count_char(s@, c),
{
    let len = s.unicode_len();
    let mut n: usize = 0;
    let mut i: usize = 0;
    while i < len
        invariant
            i <= len,
            len == s@.len(),
            n == count_char(s@.take(i as int), c),
            n <= i,
        decreases len - i,
    {
        proof {
            assert(s@.take(i + 1).drop_last() =~= s@.take(i as int));
            assert(s@.take(i + 1).last() == s@[i as int]);
        }
        if (s.get_char(i) as u32) == (c as u32) {
            proof {
                vstd::utf8::char_u32_cast(s@[i as int], s@[i as int] as u32);
                vstd::utf8::char_u32_cast(c, c as u32);
            }
            n = n + 1;
        }
        i = i + 1;
    }
    proof {
        assert(s@.take(s@.len() as int) =~= s@);
    }
    n
}

/// Whether any character of the id occurs exactly twice, and whether any
/// occurs exactly three times.
pub fn analyze_id(id: &str) -> (r: (bool, bool))
    ensures
        r.0 == has_repeat(id@, 2),
        r.1 == has_repeat(id@, 3),
{
    let len = id.unicode_len();
    let mut two = false;
    let mut three = false;
    let mut i: usize = 0;
    while i < len
        invariant
            i <= len,
            len == id@.len(),
            two == exists|j: int| 0 <= j < i && count_char(id@, #[trigger] id@[j]) == 2,
            three == exists|j: int| 0 <= j < i && count_char(id@, #[trigger] id@[j]) == 3,
        decreases len - i,
    {
        let c = id.get_char(i);
        let n = char_count(id, c);
        if n == 2 {
            proof {
                assert(count_char(id@, id@[i as int]) == 2);
            }
            two = true;
        }
        if n == 3 {
            proof {
                assert(count_char(id@, id@[i as int]) == 3);
            }
            three = true;
        }
        i = i + 1;
    }
    proof {
        if has_repeat(id@, 2) {
            let c = choose|c: char| count_char(id@, c) == 2;
            lemma_count_char(id@, c);
            let j = choose|j: int| 0 <= j < id@.len() && id@[j] == c;
            assert(count_char(id@, id@[j]) == 2);
        }
        if has_repeat(id@, 3) {
            let c = choose|c: char| count_char(id@, c) == 3;
            lemma_count_char(id@, c);
            let j = choose|j: int| 0 <= j < id@.len() && id@[j] == c;
            assert(count_char(id@, id@[j]) == 3);
        }
        if two {
            let j = choose|j: int| 0 <= j < id@.len() && count_char(id@, #[trigger] id@[j]) == 2;
            assert(has_repeat(id@, 2)) by {
                assert(count_char(id@, id@[j]) == 2);
            }
        }
        if three {
            let j = choose|j: int| 0 <= j < id@.len() && count_char(id@, #[trigger] id@[j]) == 3;
            assert(has_repeat(id@, 3)) by {
                assert(count_char(id@, id@[j]) == 3);
            }
        }
    }
    (two, three)
}

/// How many of the ids have a character repeated exactly `n` times.
pub open spec fn repeat_count(ids: Seq<String>, n: int) -> int
    decreases ids.len(),
{
    if ids.len() == 0 {
        0
    } else {
        repeat_count(ids.drop_last(), n) + if has_repeat(ids.last()@, n) {
            1int
        } else {
            0int
        }
    }
}

/// The checksum of a list of ids: the number of ids with an
/// exactly-twice-repeated character times the number with an
/// exactly-thrice-repeated character.
pub fn checksum(ids: &Vec<String>) -> (r: i64)
    requires
        ids@.len() <= 3_000_000_000,
    ensures
        r == repeat_count(ids@, 2) * repeat_count(ids@, 3),
{
    let mut twos: i64 = 0;
    let mut threes: i64 = 0;
    let mut i: usize = 0;
    while i < ids.len()
        invariant
            i <= ids@.len(),
            ids@.len() <= 3_000_000_000,
            twos == repeat_count(ids@.take(i as int), 2),
            threes == repeat_count(ids@.take(i as int), 3),
            0 <= twos <= i,
            0 <= threes <= i,
        decreases ids@.len() - i,
    {
        proof {
            assert(ids@.take(i + 1).drop_last() =~= ids@.take(i as int));
            assert(ids@.take(i + 1).last() == ids@[i as int]);
        }
        let res = analyze_id(ids[i].as_str());
        if res.0 {
            twos = twos + 1;
        }
        if res.1 {
            threes = threes + 1;
        }
        i = i + 1;
    }
    proof {
        assert(ids@.take(ids@.len() as int) =~= ids@);
        assert(twos * threes <= 3_000_000_000 * 3_000_000_000 && 0 <= twos * threes)
            by (nonlinear_arith)
            requires
                0 <= twos <= 3_000_000_000,
                0 <= threes <= 3_000_000_000,
        ;
    }
    twos * threes
}

/// The number of positions before `i` where the equal-length sequences
/// differ.
pub open spec fn diff_pre(a: Seq<char>, b: Seq<char>, i: int) -> int
    decreases i,
{
    if i <= 0 {
        0
    } else {
        diff_pre(a, b, i - 1) + if a[i - 1] == b[i - 1] {
            0int
        } else {
            1int
        }
    }
}

/// The characters shared position-by-position before `i`.
pub open spec fn common_pre(a: Seq<char>, b: Seq<char>, i: int) -> Seq<char>
    decreases i,
{
    if i <= 0 {
        Seq::empty()
    } else {
        common_pre(a, b, i - 1) + if a[i - 1] == b[i - 1] {
            seq![a[i - 1]]
        } else {
            Seq::empty()
        }
    }
}

/// The number of differing positions between two equal-length ids.
pub open spec fn diff_count(a: Seq<char>, b: Seq<char>) -> int {
    diff_pre(a, b, a.len() as int)
}

/// The common characters of two equal-length ids, in order.
pub open spec fn common_of(a: Seq<char>, b: Seq<char>) -> Seq<char> {
    common_pre(a, b, a.len() as int)
}

/// Counting differing positions grows with the prefix length.
proof fn lemma_diff_pre_monotone(a: Seq<char>, b: Seq<char>, i: int, j: int)
    requires
        0 <= i <= j,
    ensures
        diff_pre(a, b, i) <= diff_pre(a, b, j),
    decreases j - i,
{
    if i < j {
        lemma_diff_pre_monotone(a, b, i, j - 1);
    }
}

/// If the two ids have the same length and differ in exactly one
/// position, returns the characters they share, in order; otherwise
/// nothing.
pub fn find_common(a: &str, b: &str) -> (r: Option<String>)
    ensures
        a@.len() != b@.len() ==> r is None,
        a@.len() == b@.len() ==> ((r is Some) <==> diff_count(a@, b@) == 1),
        r matches Some(s) ==> s@ == common_of(a@, b@),
{
    let alen = a.unicode_len();
    let blen = b.unicode_len();
    if alen != blen {
        return None;
    }
    let mut deviations: usize = 0;
    let mut common = String::new();
    let mut i: usize = 0;
    while i < alen
        invariant
            i <= alen,
            alen == a@.len(),
            alen == b@.len(),
            deviations == diff_pre(a@, b@, i as int),
            deviations <= 1,
            common@ == common_pre(a@, b@, i as int),
        decreases alen - i,
    {
        let ca = a.get_char(i);
        let cb = b.get_char(i);
        proof {
            vstd::utf8::char_u32_cast(a@[i as int], a@[i as int] as u32);
            vstd::utf8::char_u32_cast(b@[i as int], b@[i as int] as u32);
        }
        if (ca as u32) == (cb as u32) {
            let piece = a.substring_char(i, i + 1);
            proof {
                assert(piece@ =~= seq![a@[i as int]]);
            }
            common.append(piece);
        } else {
            if deviations >= 1 {
                proof {
                    lemma_diff_pre_monotone(a@, b@, i + 1, a@.len() as int);
                }
                return None;
            }
            deviations = deviations + 1;
        }
        i = i + 1;
    }
    if deviations == 1 {
        Some(common)
    } else {
        None
    }
}

/// Two list entries with equal length differing in exactly one position.
pub open spec fn ids_match(ids: Seq<String>, i: int, j: int) -> bool {
    ids[i]@.len() == ids[j]@.len() && diff_count(ids[i]@, ids[j]@) == 1
}

/// Searches all pairs in order and returns the common characters of the
/// first matching pair: the first index order is by the earlier entry,
/// then by the later one.
pub fn find_common_in_list(ids: &Vec<String>) -> (r: Option<String>)
    requires
        ids@.len() >= 1,
    ensures
        (r is Some) <==> exists|i: int, j: int|
            0 <= i < j < ids@.len() && #[trigger] ids_match(ids@, i, j),
        r matches Some(s) ==> exists|i: int, j: int|
            0 <= i < j < ids@.len() && #[trigger] ids_match(ids@, i, j) && s@ == common_of(
                ids@[i]@,
                ids@[j]@,
            ) && (forall|i2: int, j2: int|
                0 <= i2 < j2 < ids@.len() && (i2 < i || (i2 == i && j2 < j)) ==> !(
                #[trigger] ids_match(ids@, i2, j2))),
{
    let mut i: usize = 0;
    while i < ids.len() - 1
        invariant
            ids@.len() >= 1,
            i <= ids@.len(),
            forall|i2: int, j2: int|
                0 <= i2 < j2 < ids@.len() && i2 < i ==> !(#[trigger] ids_match(ids@, i2, j2)),
        decreases ids@.len() - i,
    {
        let mut j: usize = i + 1;
        while j < ids.len()
            invariant
                i < j <= ids@.len(),
                i < ids@.len(),
                forall|i2: int, j2: int|
                    0 <= i2 < j2 < ids@.len() && i2 < i ==> !(#[trigger] ids_match(ids@, i2, j2)),
                forall|j2: int| i < j2 < j ==> !(#[trigger] ids_match(ids@, i as int, j2)),
            decreases ids@.len() - j,
        {
            let res = find_common(ids[i].as_str(), ids[j].as_str());
            match res {
                Some(s) => {
                    proof {
                        assert(ids_match(ids@, i as int, j as int));
                        assert forall|i2: int, j2: int|
                            0 <= i2 < j2 < ids@.len() && (i2 < i as int || (i2 == i as int && j2
                                < j as int)) implies !(#[trigger] ids_match(ids@, i2, j2)) by {}
                    }
                    return Some(s);
                },
                None => {
                    proof {
                        assert(!ids_match(ids@, i as int, j as int));
                    }
                },
            }
            j = j + 1;
        }
        i = i + 1;
    }
    proof {
        assert forall|i2: int, j2: int|
            0 <= i2 < j2 < ids@.len() implies !(#[trigger] ids_match(ids@, i2, j2)) by {
            assert(i2 < i);
        }
    }
    None
}

} // verus!
