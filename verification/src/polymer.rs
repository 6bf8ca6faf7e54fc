//! Polymer reduction: adjacent units of the same letter and opposite case
//! destroy each other; the remainder is the fully reacted polymer.

use vstd::prelude::*;

use std::collections::VecDeque;

verus! {

/// An ASCII lowercase letter.
pub open spec fn is_lower(c: char) -> bool {
    ('a' as u32) <= (c as u32) && (c as u32) <= ('z' as u32)
}

/// An ASCII uppercase letter.
pub open spec fn is_upper(c: char) -> bool {
    ('A' as u32) <= (c as u32) && (c as u32) <= ('Z' as u32)
}

/// The lowercase form of an ASCII letter; other characters are unchanged.
pub open spec fn to_lower(c: char) -> char {
    if is_upper(c) {
        ((c as u32) + 32) as char
    } else {
        c
    }
}

/// The uppercase form of an ASCII letter; other characters are unchanged.
pub open spec fn to_upper(c: char) -> char {
    if is_lower(c) {
        ((c as u32) - 32) as char
    } else {
        c
    }
}

/// Two units react: the same letter in opposite cases.
pub open spec fn reacts(a: char, b: char) -> bool {
    (is_lower(a) && is_upper(b) && (a as u32) == (b as u32) + 32) || (is_upper(a) && is_lower(b)
        && (b as u32) == (a as u32) + 32)
}

/// The fully reacted polymer: each unit in turn is laid on a stack, and a
/// unit reacting with the top of the stack removes it instead.
pub open spec fn reduce_onto(stack: Seq<char>, s: Seq<char>, i: int) -> Seq<char>
    decreases s.len() - i,
{
    if i < 0 || i >= s.len() {
        stack
    } else if stack.len() > 0 && reacts(stack.last(), s[i]) {
        reduce_onto(stack.drop_last(), s, i + 1)
    } else {
        reduce_onto(stack.push(s[i]), s, i + 1)
    }
}

/// The fully reacted form of the polymer.
pub open spec fn reduce(s: Seq<char>) -> Seq<char> {
    reduce_onto(Seq::empty(), s, 0)
}

/// Reduction never grows the polymer.
pub proof fn lemma_reduce_len(stack: Seq<char>, s: Seq<char>, i: int)
    requires
        0 <= i <= s.len(),
    ensures
        reduce_onto(stack, s, i).len() <= stack.len() + (s.len() - i),
    decreases s.len() - i,
{
    if i < s.len() {
        if stack.len() > 0 && reacts(stack.last(), s[i]) {
            lemma_reduce_len(stack.drop_last(), s, i + 1);
        } else {
            lemma_reduce_len(stack.push(s[i]), s, i + 1);
        }
    }
}

/// Reads the polymer's units from a string.
pub fn parse_poly(s: &str) -> (r: VecDeque<char>)
    ensures
        r@ == s@,
{
    let len = s.unicode_len();
    let mut poly: VecDeque<char> = VecDeque::new();
    let mut i: usize = 0;
    while i < len
        invariant
            i <= len,
            len == s@.len(),
            poly@ == s@.take(i as int),
        decreases len - i,
    {
        poly.push_back(s.get_char(i));
        proof {
            assert(poly@ =~= s@.take(i + 1));
        }
        i = i + 1;
    }
    proof {
        assert(s@.take(len as int) =~= s@);
    }
    poly
}

/// Whether the two units destroy each other.
fn reacts_exec(a: char, b: char) -> (r: bool)
    ensures
        r == reacts(a, b),
{
    let au = a as u32;
    let bu = b as u32;
    let a_lower = ('a' as u32) <= au && au <= ('z' as u32);
    let a_upper = ('A' as u32) <= au && au <= ('Z' as u32);
    let b_lower = ('a' as u32) <= bu && bu <= ('z' as u32);
    let b_upper = ('A' as u32) <= bu && bu <= ('Z' as u32);
    (a_lower && b_upper && au == bu + 32) || (a_upper && b_lower && bu == au + 32)
}

/// Reacts the polymer fully, in place, and returns its final length.
pub fn process_poly(poly: &mut VecDeque<char>) -> (r: usize)
    ensures
        final(poly)@ == reduce(old(poly)@),
        r == final(poly)@.len(),
{
    let ghost s = poly@;
    let len = poly.len();
    let mut stack: Vec<char> = Vec::new();
    let mut i: usize = 0;
    while i < len
        invariant
            s == poly@,
            i <= len,
            len == s.len(),
            stack@.len() <= i,
            reduce(s) == reduce_onto(stack@, s, i as int),
        decreases len - i,
    {
        let c = poly[i];
        if stack.len() > 0 && reacts_exec(stack[stack.len() - 1], c) {
            proof {
                assert(stack@.last() == stack@[stack@.len() - 1]);
            }
            let _ = stack.pop();
        } else {
            stack.push(c);
        }
        i = i + 1;
    }
    let result_len = stack.len();
    poly.clear();
    let mut k: usize = 0;
    while k < result_len
        invariant
            k <= result_len,
            result_len == stack@.len(),
            poly@ == stack@.take(k as int),
        decreases result_len - k,
    {
        poly.push_back(stack[k]);
        proof {
            assert(poly@ =~= stack@.take(k + 1));
        }
        k = k + 1;
    }
    proof {
        assert(stack@.take(result_len as int) =~= stack@);
        assert(reduce_onto(stack@, s, len as int) == stack@);
    }
    result_len
}

/// The distinct unit letters of the polymer, lowercased, in order of first
/// appearance.
pub open spec fn units_of(s: Seq<char>) -> Seq<char>
    decreases s.len(),
{
    if s.len() == 0 {
        Seq::empty()
    } else {
        let rest = units_of(s.drop_last());
        if rest.contains(to_lower(s.last())) {
            rest
        } else {
            rest.push(to_lower(s.last()))
        }
    }
}

/// Whether the vector holds the character.
fn vec_contains_char(v: &Vec<char>, c: char) -> (r: bool)
    ensures
        r == v@.contains(c),
{
    let mut k: usize = 0;
    while k < v.len()
        invariant
            k <= v@.len(),
            forall|j: int| 0 <= j < k ==> v@[j] != c,
        decreases v@.len() - k,
    {
        if (v[k] as u32) == (c as u32) {
            proof {
                vstd::utf8::char_u32_cast(v@[k as int], v@[k as int] as u32);
                vstd::utf8::char_u32_cast(c, c as u32);
            }
            return true;
        }
        proof {
            if v@[k as int] == c {
                assert(false);
            }
        }
        k = k + 1;
    }
    false
}

/// Lowercases a unit.
fn to_lower_exec(c: char) -> (r: char)
    ensures
        r == to_lower(c),
{
    let cu = c as u32;
    if ('A' as u32) <= cu && cu <= ('Z' as u32) {
        let b = (cu + 32) as u8;
        let r = b as char;
        proof {
            vstd::utf8::char_u32_cast(r, r as u32);
            vstd::utf8::char_u32_cast(((c as u32) + 32) as char, ((c as u32) + 32) as u32);
        }
        r
    } else {
        c
    }
}

/// Uppercases a unit.
fn to_upper_exec(c: char) -> (r: char)
    ensures
        r == to_upper(c),
{
    let cu = c as u32;
    if ('a' as u32) <= cu && cu <= ('z' as u32) {
        let b = (cu - 32) as u8;
        let r = b as char;
        proof {
            vstd::utf8::char_u32_cast(r, r as u32);
            vstd::utf8::char_u32_cast(((c as u32) - 32) as char, ((c as u32) - 32) as u32);
        }
        r
    } else {
        c
    }
}

/// The distinct unit letters of the polymer, lowercased, in order of first
/// appearance.
pub fn get_unique_units(poly: &VecDeque<char>) -> (r: Vec<char>)
    ensures
        r@ == units_of(poly@),
{
    let mut units: Vec<char> = Vec::new();
    let mut i: usize = 0;
    while i < poly.len()
        invariant
            i <= poly@.len(),
            units@ == units_of(poly@.take(i as int)),
        decreases poly@.len() - i,
    {
        proof {
            assert(poly@.take(i + 1).drop_last() =~= poly@.take(i as int));
            assert(poly@.take(i + 1).last() == poly@[i as int]);
        }
        let lower = to_lower_exec(poly[i]);
        if !vec_contains_char(&units, lower) {
            units.push(lower);
        }
        i = i + 1;
    }
    proof {
        assert(poly@.take(poly@.len() as int) =~= poly@);
    }
    units
}

/// The polymer with every unit of the letter `c` removed, in both cases.
pub open spec fn strip_unit(s: Seq<char>, c: char) -> Seq<char>
    decreases s.len(),
{
    if s.len() == 0 {
        Seq::empty()
    } else {
        let rest = strip_unit(s.drop_last(), c);
        if s.last() == to_lower(c) || s.last() == to_upper(c) {
            rest
        } else {
            rest.push(s.last())
        }
    }
}

/// Removes every unit of the letter `c`, in both cases.
pub fn remove_unit(poly: &VecDeque<char>, c: char) -> (r: VecDeque<char>)
    ensures
        r@ == strip_unit(poly@, c),
{
    let lower = to_lower_exec(c);
    let upper = to_upper_exec(c);
    let mut out: VecDeque<char> = VecDeque::new();
    let mut i: usize = 0;
    while i < poly.len()
        invariant
            i <= poly@.len(),
            lower == to_lower(c),
            upper == to_upper(c),
            out@ == strip_unit(poly@.take(i as int), c),
        decreases poly@.len() - i,
    {
        proof {
            assert(poly@.take(i + 1).drop_last() =~= poly@.take(i as int));
            assert(poly@.take(i + 1).last() == poly@[i as int]);
        }
        let u = poly[i];
        let keep = !((u as u32) == (lower as u32) || (u as u32) == (upper as u32));
        proof {
            vstd::utf8::char_u32_cast(poly@[i as int], poly@[i as int] as u32);
            vstd::utf8::char_u32_cast(lower, lower as u32);
            vstd::utf8::char_u32_cast(upper, upper as u32);
        }
        if keep {
            out.push_back(u);
        }
        i = i + 1;
    }
    proof {
        assert(poly@.take(poly@.len() as int) =~= poly@);
    }
    out
}

/// The reacted length of the polymer once the letter `c` is removed.
pub open spec fn stripped_len(s: Seq<char>, c: char) -> int {
    reduce(strip_unit(s, c)).len() as int
}

/// Stripping can only shorten, and stripping a unit that occurs shortens.
proof fn lemma_strip_len(s: Seq<char>, c: char)
    ensures
        strip_unit(s, c).len() <= s.len(),
        (exists|j: int| 0 <= j < s.len() && to_lower(#[trigger] s[j]) == to_lower(c))
            ==> strip_unit(s, c).len() < s.len(),
    decreases s.len(),
{
    if s.len() > 0 {
        lemma_strip_len(s.drop_last(), c);
        if exists|j: int| 0 <= j < s.len() && to_lower(#[trigger] s[j]) == to_lower(c) {
            let j = choose|j: int| 0 <= j < s.len() && to_lower(#[trigger] s[j]) == to_lower(c);
            if j < s.len() - 1 {
                assert(to_lower(s.drop_last()[j]) == to_lower(c));
            } else {
                assert(s.last() == to_lower(c) || s.last() == to_upper(c)) by {
                    lemma_case_fold(s.last(), c);
                }
            }
        }
    }
}

/// Two characters fold to the same lowercase letter only when one is the
/// lowercase and the other the uppercase form.
proof fn lemma_case_fold(a: char, c: char)
    requires
        to_lower(a) == to_lower(c),
    ensures
        a == to_lower(c) || a == to_upper(c),
{
    vstd::utf8::char_u32_cast(a, a as u32);
    vstd::utf8::char_u32_cast(c, c as u32);
    if is_upper(a) {
        assert(to_lower(a) == ((a as u32) + 32) as char);
        assert((((a as u32) + 32) as char) as u32 == (a as u32) + 32) by {
            vstd::utf8::char_u32_cast(((a as u32) + 32) as char, ((a as u32) + 32) as u32);
        }
        if is_upper(c) {
            assert((((c as u32) + 32) as char) as u32 == (c as u32) + 32) by {
                vstd::utf8::char_u32_cast(((c as u32) + 32) as char, ((c as u32) + 32) as u32);
            }
            assert(a as u32 == c as u32);
            assert(a == c);
            assert(to_upper(c) == c) by {
                assert(!is_lower(c));
            }
        } else {
            assert((c as u32) == (a as u32) + 32);
            assert(is_lower(c));
            assert(to_upper(c) == ((c as u32) - 32) as char);
            assert((((c as u32) - 32) as char) as u32 == (c as u32) - 32) by {
                vstd::utf8::char_u32_cast(((c as u32) - 32) as char, ((c as u32) - 32) as u32);
            }
            assert(a == to_upper(c));
        }
    } else {
        assert(to_lower(a) == a);
        if is_upper(c) {
            assert(a as u32 == (c as u32) + 32);
            assert(a == to_lower(c));
        } else {
            assert(a == c);
            assert(a == to_lower(c));
        }
    }
}

/// A unit listed by `units_of` occurs in the polymer.
proof fn lemma_units_occur(s: Seq<char>, c: char)
    requires
        units_of(s).contains(c),
    ensures
        exists|j: int| 0 <= j < s.len() && to_lower(#[trigger] s[j]) == to_lower(c),
    decreases s.len(),
{
    if s.len() > 0 {
        let rest = units_of(s.drop_last());
        if rest.contains(c) {
            lemma_units_occur(s.drop_last(), c);
            let j = choose|j: int|
                0 <= j < s.drop_last().len() && to_lower(#[trigger] s.drop_last()[j]) == to_lower(
                    c,
                );
            assert(to_lower(s[j]) == to_lower(c));
        } else {
            assert(c == to_lower(s.last()));
            assert(to_lower(s[s.len() - 1]) == to_lower(c)) by {
                lemma_lower_idempotent(s.last());
            }
        }
    }
}

/// Lowercasing twice is the same as lowercasing once.
proof fn lemma_lower_idempotent(a: char)
    ensures
        to_lower(to_lower(a)) == to_lower(a),
{
    vstd::utf8::char_u32_cast(a, a as u32);
    if is_upper(a) {
        vstd::utf8::char_u32_cast(((a as u32) + 32) as char, ((a as u32) + 32) as u32);
    }
}

/// A nonempty polymer lists at least one unit.
proof fn lemma_units_nonempty(s: Seq<char>)
    requires
        s.len() >= 1,
    ensures
        units_of(s).len() >= 1,
    decreases s.len(),
{
    if s.len() > 1 {
        lemma_units_nonempty(s.drop_last());
    }
}

/// Tries removing each unit in turn and reports the unit whose removal
/// reacts down to the shortest polymer, with that length; the first unit
/// attaining the minimum wins.
pub fn find_best_removal(poly: &VecDeque<char>) -> (r: (char, usize))
    requires
        poly@.len() >= 1,
    ensures
        exists|i: int|
            {
                &&& 0 <= i < units_of(poly@).len()
                &&& r.0 == (#[trigger] units_of(poly@)[i])
                &&& r.1 == stripped_len(poly@, units_of(poly@)[i])
                &&& forall|j: int|
                    0 <= j < units_of(poly@).len() ==> r.1 <= stripped_len(
                        poly@,
                        #[trigger] units_of(poly@)[j],
                    )
                &&& forall|j: int|
                    0 <= j < i ==> stripped_len(poly@, #[trigger] units_of(poly@)[j]) > r.1
            },
{
    let units = get_unique_units(poly);
    let ghost us = units_of(poly@);
    let mut best_unit: char = ' ';
    let mut best_len: usize = poly.len();
    let mut found = false;
    let ghost mut best_idx: int = 0;
    let mut k: usize = 0;
    while k < units.len()
        invariant
            poly@.len() >= 1,
            units@ == us,
            k <= us.len(),
            best_len <= poly@.len(),
            !found ==> best_len == poly@.len() && (forall|j: int|
                0 <= j < k ==> stripped_len(poly@, #[trigger] us[j]) >= poly@.len()),
            found ==> {
                &&& 0 <= best_idx < k
                &&& best_unit == us[best_idx]
                &&& best_len == stripped_len(poly@, us[best_idx])
                &&& forall|j: int| 0 <= j < k ==> best_len <= stripped_len(poly@, #[trigger] us[j])
                &&& forall|j: int|
                    0 <= j < best_idx ==> stripped_len(poly@, #[trigger] us[j]) > best_len
            },
        decreases us.len() - k,
    {
        let mut candidate = remove_unit(poly, units[k]);
        let new_len = process_poly(&mut candidate);
        proof {
            assert(new_len == stripped_len(poly@, us[k as int]));
        }
        if new_len < best_len {
            best_unit = units[k];
            best_len = new_len;
            found = true;
            proof {
                best_idx = k as int;
            }
        }
        k = k + 1;
    }
    proof {
        assert(found) by {
            if !found {
                lemma_units_nonempty(poly@);
                assert(us.contains(us[0])) by {
                    assert(us[0] == us[0]);
                }
                lemma_units_occur(poly@, us[0]);
                lemma_strip_len(poly@, us[0]);
                lemma_reduce_len(Seq::empty(), strip_unit(poly@, us[0]), 0);
                assert(stripped_len(poly@, us[0]) < poly@.len());
            }
        }
    }
    (best_unit, best_len)
}

} // verus!
