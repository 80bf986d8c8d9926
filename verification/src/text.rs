//! Character-level utilities: whitespace classification, whitespace trimming,
//! and first-occurrence substring search, each with its mathematical
//! definition and the lemmas the parser's proofs lean on.

use vstd::prelude::*;
use vstd::string::StrSliceExecFns;

verus! {

/// The characters with the Unicode `White_Space` property, the set the
/// standard library's `trim` and `is_whitespace` go by.
pub open spec fn is_space(c: char) -> bool {
    let u = c as u32;
    u == 0x20 || (0x09 <= u && u <= 0x0D) || u == 0x85 || u == 0xA0 || u == 0x1680 || (0x2000
        <= u && u <= 0x200A) || u == 0x2028 || u == 0x2029 || u == 0x202F || u == 0x205F || u
        == 0x3000
}

/// Whitespace test on one character.
pub fn is_space_char(c: char) -> (r: bool)
    ensures
        r == is_space(c),
{
    let u = c as u32;
    u == 0x20 || (0x09 <= u && u <= 0x0D) || u == 0x85 || u == 0xA0 || u == 0x1680 || (0x2000
        <= u && u <= 0x200A) || u == 0x2028 || u == 0x2029 || u == 0x202F || u == 0x205F || u
        == 0x3000
}

/// The end of the whitespace run that starts at `i`: the first index at or
/// after `i` holding a non-whitespace character, or `s.len()` if there is
/// none.
pub open spec fn ws_run_from(s: Seq<char>, i: nat) -> nat
    decreases s.len() - i,
{
    if i >= s.len() || !is_space(s[i as int]) {
        i
    } else {
        ws_run_from(s, i + 1)
    }
}

/// The start of the whitespace run that ends at `i`: the least index `a`
/// such that everything in `a..i` is whitespace and `a` is either `0` or
/// preceded by a non-whitespace character.
pub open spec fn ws_run_back(s: Seq<char>, i: nat) -> nat
    decreases i,
{
    if i == 0 || i > s.len() || !is_space(s[i - 1]) {
        i
    } else {
        ws_run_back(s, (i - 1) as nat)
    }
}

pub proof fn lemma_ws_run_from(s: Seq<char>, i: nat)
    requires
        i <= s.len(),
    ensures
        i <= ws_run_from(s, i) <= s.len(),
        forall|j: int| i <= j < ws_run_from(s, i) ==> is_space(s[j]),
        ws_run_from(s, i) < s.len() ==> !is_space(s[ws_run_from(s, i) as int]),
    decreases s.len() - i,
{
    if i < s.len() && is_space(s[i as int]) {
        lemma_ws_run_from(s, i + 1);
    }
}

/// The run end is the unique index bounding an all-whitespace stretch from
/// `i` and stopped by the end of the string or a non-whitespace character.
pub proof fn lemma_ws_run_from_is(s: Seq<char>, i: nat, k: nat)
    requires
        i <= k <= s.len(),
        forall|j: int| i <= j < k ==> is_space(s[j]),
        k < s.len() ==> !is_space(s[k as int]),
    ensures
        ws_run_from(s, i) == k,
    decreases s.len() - i,
{
    if i < s.len() && is_space(s[i as int]) {
        lemma_ws_run_from_is(s, i + 1, k);
    }
}

pub proof fn lemma_ws_run_back(s: Seq<char>, i: nat)
    requires
        i <= s.len(),
    ensures
        ws_run_back(s, i) <= i,
        forall|j: int| ws_run_back(s, i) <= j < i ==> is_space(s[j]),
        ws_run_back(s, i) > 0 ==> !is_space(s[ws_run_back(s, i) - 1]),
    decreases i,
{
    if i > 0 && is_space(s[i - 1]) {
        lemma_ws_run_back(s, (i - 1) as nat);
    }
}

/// The run start is the unique index bounding an all-whitespace stretch up
/// to `i` and stopped by the start of the string or a non-whitespace
/// character.
pub proof fn lemma_ws_run_back_is(s: Seq<char>, i: nat, k: nat)
    requires
        k <= i <= s.len(),
        forall|j: int| k <= j < i ==> is_space(s[j]),
        k > 0 ==> !is_space(s[k - 1]),
    ensures
        ws_run_back(s, i) == k,
    decreases i,
{
    if i > 0 && is_space(s[i - 1]) {
        lemma_ws_run_back_is(s, (i - 1) as nat, k);
    }
}

/// `s` with leading and trailing whitespace removed.
pub open spec fn ws_trim(s: Seq<char>) -> Seq<char> {
    let a = ws_run_from(s, 0);
    let b = ws_run_back(s, s.len());
    if a >= b {
        Seq::empty()
    } else {
        s.subrange(a as int, b as int)
    }
}

/// A whitespace-trimmed sequence neither starts nor ends with whitespace.
pub open spec fn ws_trimmed(s: Seq<char>) -> bool {
    s.len() > 0 ==> !is_space(s[0]) && !is_space(s[s.len() - 1])
}

pub proof fn lemma_ws_trim_trimmed(s: Seq<char>)
    ensures
        ws_trimmed(ws_trim(s)),
{
    lemma_ws_run_from(s, 0);
    lemma_ws_run_back(s, s.len());
}

/// `s` with leading and trailing whitespace removed, as the standard
/// library's `trim` does.
pub fn trim_ws<'a>(s: &'a str) -> (r: &'a str)
    ensures
        r@ == ws_trim(s@),
{
    let n: usize = s.unicode_len();
    let mut a: usize = 0;
    while a < n && is_space_char(s.get_char(a))
        invariant
            0 <= a <= n == s@.len(),
            forall|j: int| 0 <= j < a ==> is_space(s@[j]),
        decreases n - a,
    {
        a += 1;
    }
    proof {
        lemma_ws_run_from_is(s@, 0, a as nat);
    }
    let mut b: usize = n;
    while b > a && is_space_char(s.get_char(b - 1))
        invariant
            a <= b <= n == s@.len(),
            forall|j: int| b <= j < n ==> is_space(s@[j]),
        decreases b,
    {
        b -= 1;
    }
    if a >= b {
        proof {
            lemma_ws_run_back(s@, s@.len());
            if ws_run_back(s@, s@.len()) > b as nat {
                assert(is_space(s@[ws_run_back(s@, s@.len()) - 1]));
            }
            assert(ws_trim(s@) =~= Seq::<char>::empty());
        }
        let r = s.substring_char(0, 0);
        proof {
            assert(r@ =~= ws_trim(s@));
        }
        r
    } else {
        proof {
            lemma_ws_run_back_is(s@, s@.len(), b as nat);
        }
        s.substring_char(a, b)
    }
}

/// The end of the run of copies of `c` that starts at `i`.
pub open spec fn char_run_from(s: Seq<char>, c: char, i: nat) -> nat
    decreases s.len() - i,
{
    if i >= s.len() || s[i as int] != c {
        i
    } else {
        char_run_from(s, c, i + 1)
    }
}

/// The run end is the unique index bounding a stretch of copies of `c` from
/// `i`, stopped by the end of the string or a different character.
pub proof fn lemma_char_run_from_is(s: Seq<char>, c: char, i: nat, k: nat)
    requires
        i <= k <= s.len(),
        forall|j: int| i <= j < k ==> s[j] == c,
        k < s.len() ==> s[k as int] != c,
    ensures
        char_run_from(s, c, i) == k,
    decreases s.len() - i,
{
    if i < s.len() && s[i as int] == c {
        lemma_char_run_from_is(s, c, i + 1, k);
    }
}

/// Whether `pat` occurs in `s` starting at index `i`.
pub open spec fn match_at(s: Seq<char>, pat: Seq<char>, i: nat) -> bool {
    i + pat.len() <= s.len() && forall|k: int| 0 <= k < pat.len() ==> s[i + k] == pat[k]
}

/// The first index at or after `i` where `pat` occurs in `s`, if any.
pub open spec fn find_pat_from(s: Seq<char>, pat: Seq<char>, i: nat) -> Option<nat>
    decreases s.len() + 1 - i,
{
    if i + pat.len() > s.len() {
        None
    } else if match_at(s, pat, i) {
        Some(i)
    } else {
        find_pat_from(s, pat, i + 1)
    }
}

pub proof fn lemma_find_pat_from(s: Seq<char>, pat: Seq<char>, i: nat)
    ensures
        match find_pat_from(s, pat, i) {
            Some(j) => i <= j && match_at(s, pat, j) && forall|k: nat|
                i <= k < j ==> !match_at(s, pat, k),
            None => forall|k: nat| k >= i ==> !match_at(s, pat, k),
        },
    decreases s.len() + 1 - i,
{
    if i + pat.len() > s.len() {
        assert forall|k: nat| k >= i implies !match_at(s, pat, k) by {}
    } else if match_at(s, pat, i) {
    } else {
        lemma_find_pat_from(s, pat, i + 1);
    }
}

/// The first occurrence of `pat` in `s` at or after index `from`, by
/// character count.
pub fn find_pat(s: &str, pat: &str, from: usize) -> (r: Option<usize>)
    requires
        from <= s@.len(),
    ensures
        match r {
            Some(j) => from <= j && j + pat@.len() <= s@.len() && find_pat_from(
                s@,
                pat@,
                from as nat,
            ) == Some(j as nat),
            None => find_pat_from(s@, pat@, from as nat) is None,
        },
{
    let n: usize = s.unicode_len();
    let m: usize = pat.unicode_len();
    if m > n {
        proof {
            lemma_find_pat_is_none(s@, pat@, from as nat, from as nat);
        }
        return None;
    }
    let mut i: usize = from;
    while i <= n - m
        invariant
            from <= i,
            i <= n + 1,
            m <= n,
            n == s@.len(),
            m == pat@.len(),
            forall|k: nat| from <= k < i ==> !match_at(s@, pat@, k),
        decreases n + 1 - i,
    {
        let mut k: usize = 0;
        let mut hit: bool = true;
        while hit && k < m
            invariant
                0 <= k <= m,
                i + m <= n,
                n == s@.len(),
                m == pat@.len(),
                hit ==> forall|q: int| 0 <= q < k ==> s@[i + q] == pat@[q],
                !hit ==> !match_at(s@, pat@, i as nat),
            decreases m - k + (if hit {
                1int
            } else {
                0int
            }),
        {
            if s.get_char(i + k) != pat.get_char(k) {
                proof {
                    if match_at(s@, pat@, i as nat) {
                        assert(s@[i + k] == pat@[k as int]);
                    }
                }
                hit = false;
            } else {
                k += 1;
            }
        }
        if hit {
            proof {
                assert(match_at(s@, pat@, i as nat));
                lemma_find_pat_is(s@, pat@, from as nat, i as nat);
            }
            return Some(i);
        }
        i += 1;
    }
    proof {
        lemma_find_pat_is_none(s@, pat@, from as nat, i as nat);
    }
    None
}

/// If nothing matches before `j` and `pat` matches at `j`, then `j` is the
/// first occurrence.
pub proof fn lemma_find_pat_is(s: Seq<char>, pat: Seq<char>, i: nat, j: nat)
    requires
        i <= j,
        match_at(s, pat, j),
        forall|k: nat| i <= k < j ==> !match_at(s, pat, k),
    ensures
        find_pat_from(s, pat, i) == Some(j),
{
    lemma_find_pat_from(s, pat, i);
    match find_pat_from(s, pat, i) {
        Some(j0) => {
            if j0 < j {
                assert(!match_at(s, pat, j0));
            }
            if j < j0 {
                assert(!match_at(s, pat, j));
            }
        },
        None => {
            assert(!match_at(s, pat, j));
        },
    }
}

/// If nothing matches from `i` up to where a match could still fit, there is
/// no occurrence at or after `i`.
pub proof fn lemma_find_pat_is_none(s: Seq<char>, pat: Seq<char>, i: nat, stop: nat)
    requires
        stop + pat.len() > s.len(),
        forall|k: nat| i <= k < stop ==> !match_at(s, pat, k),
    ensures
        find_pat_from(s, pat, i) is None,
{
    lemma_find_pat_from(s, pat, i);
    match find_pat_from(s, pat, i) {
        Some(j0) => {
            if j0 < stop {
                assert(!match_at(s, pat, j0));
            } else {
                assert(j0 + pat.len() > s.len());
            }
        },
        None => {},
    }
}

} // verus!
