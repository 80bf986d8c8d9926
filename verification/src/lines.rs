//! Line handling: splitting text into lines the way the standard library's
//! `lines` does, splitting into plain newline-separated segments, joining
//! segments back, and trimming blank lines off both ends of a block.

use vstd::prelude::*;
use vstd::string::StrSliceExecFns;
use vstd::string::StringExecFns;
use crate::text::is_space;
use crate::text::is_space_char;

verus! {

/// The first newline at or after `i`, if any.
pub open spec fn find_nl_from(s: Seq<char>, i: nat) -> Option<nat>
    decreases s.len() - i,
{
    if i >= s.len() {
        None
    } else if s[i as int] == '\n' {
        Some(i)
    } else {
        find_nl_from(s, i + 1)
    }
}

pub proof fn lemma_find_nl_from(s: Seq<char>, i: nat)
    ensures
        match find_nl_from(s, i) {
            Some(j) => i <= j < s.len() && s[j as int] == '\n' && forall|k: int|
                i <= k < j ==> s[k] != '\n',
            None => forall|k: int| i <= k < s.len() ==> s[k] != '\n',
        },
    decreases s.len() - i,
{
    if i < s.len() && s[i as int] != '\n' {
        lemma_find_nl_from(s, i + 1);
    }
}

/// If nothing before `j` is a newline and `s[j]` is one, `j` is the first.
pub proof fn lemma_find_nl_is(s: Seq<char>, i: nat, j: nat)
    requires
        i <= j < s.len(),
        s[j as int] == '\n',
        forall|k: int| i <= k < j ==> s[k] != '\n',
    ensures
        find_nl_from(s, i) == Some(j),
    decreases s.len() - i,
{
    if i < j {
        lemma_find_nl_is(s, i + 1, j);
    }
}

/// If nothing at or after `i` is a newline, there is none to find.
pub proof fn lemma_find_nl_none(s: Seq<char>, i: nat)
    requires
        forall|k: int| i <= k < s.len() ==> s[k] != '\n',
    ensures
        find_nl_from(s, i) is None,
    decreases s.len() - i,
{
    if i < s.len() {
        lemma_find_nl_none(s, i + 1);
    }
}

/// A line with one trailing carriage return removed, as happens to a line
/// ended by a carriage return and newline pair.
pub open spec fn strip_cr(l: Seq<char>) -> Seq<char> {
    if l.len() > 0 && l[l.len() - 1] == '\r' {
        l.subrange(0, l.len() - 1)
    } else {
        l
    }
}

/// The lines of `s`, split as the standard library's `lines` splits them: at
/// every newline, a carriage return directly before the newline dropped, and
/// no final empty line when the text ends with a newline.
pub open spec fn lines_of(s: Seq<char>) -> Seq<Seq<char>>
    decreases s.len(),
    via lines_of_decreases
{
    if s.len() == 0 {
        Seq::empty()
    } else {
        match find_nl_from(s, 0) {
            Some(i) => seq![strip_cr(s.subrange(0, i as int))] + lines_of(
                s.subrange(i + 1 as int, s.len() as int),
            ),
            None => seq![s],
        }
    }
}

/// The newline-separated segments of `s`: one more segment than there are
/// newlines, empties and carriage returns kept.
pub open spec fn segments_of(s: Seq<char>) -> Seq<Seq<char>>
    decreases s.len(),
    via segments_of_decreases
{
    match find_nl_from(s, 0) {
        Some(i) => seq![s.subrange(0, i as int)] + segments_of(s.subrange(i + 1 as int, s.len() as int)),
        None => seq![s],
    }
}

#[via_fn]
proof fn lines_of_decreases(s: Seq<char>) {
    lemma_find_nl_from(s, 0);
}

#[via_fn]
proof fn segments_of_decreases(s: Seq<char>) {
    lemma_find_nl_from(s, 0);
}

/// The segments joined back with single newlines.
pub open spec fn join_nl(ls: Seq<Seq<char>>) -> Seq<char>
    decreases ls.len(),
{
    if ls.len() == 0 {
        Seq::empty()
    } else if ls.len() == 1 {
        ls[0]
    } else {
        ls[0] + seq!['\n'] + join_nl(ls.drop_first())
    }
}

/// A line consisting of whitespace only, the empty line included.
pub open spec fn is_blank(l: Seq<char>) -> bool {
    forall|i: int| 0 <= i < l.len() ==> is_space(l[i])
}

/// The end of the blank-segment run that starts at `i`.
pub open spec fn blank_run_from(ls: Seq<Seq<char>>, i: nat) -> nat
    decreases ls.len() - i,
{
    if i >= ls.len() || !is_blank(ls[i as int]) {
        i
    } else {
        blank_run_from(ls, i + 1)
    }
}

/// The start of the blank-segment run that ends at `i`.
pub open spec fn blank_run_back(ls: Seq<Seq<char>>, i: nat) -> nat
    decreases i,
{
    if i == 0 || i > ls.len() || !is_blank(ls[i - 1]) {
        i
    } else {
        blank_run_back(ls, (i - 1) as nat)
    }
}

pub proof fn lemma_blank_run_from(ls: Seq<Seq<char>>, i: nat)
    requires
        i <= ls.len(),
    ensures
        i <= blank_run_from(ls, i) <= ls.len(),
        forall|j: int| i <= j < blank_run_from(ls, i) ==> is_blank(ls[j]),
        blank_run_from(ls, i) < ls.len() ==> !is_blank(ls[blank_run_from(ls, i) as int]),
    decreases ls.len() - i,
{
    if i < ls.len() && is_blank(ls[i as int]) {
        lemma_blank_run_from(ls, i + 1);
    }
}

pub proof fn lemma_blank_run_from_is(ls: Seq<Seq<char>>, i: nat, k: nat)
    requires
        i <= k <= ls.len(),
        forall|j: int| i <= j < k ==> is_blank(ls[j]),
        k < ls.len() ==> !is_blank(ls[k as int]),
    ensures
        blank_run_from(ls, i) == k,
    decreases ls.len() - i,
{
    if i < ls.len() && is_blank(ls[i as int]) {
        lemma_blank_run_from_is(ls, i + 1, k);
    }
}

pub proof fn lemma_blank_run_back(ls: Seq<Seq<char>>, i: nat)
    requires
        i <= ls.len(),
    ensures
        blank_run_back(ls, i) <= i,
        forall|j: int| blank_run_back(ls, i) <= j < i ==> is_blank(ls[j]),
        blank_run_back(ls, i) > 0 ==> !is_blank(ls[blank_run_back(ls, i) - 1]),
    decreases i,
{
    if i > 0 && is_blank(ls[i - 1]) {
        lemma_blank_run_back(ls, (i - 1) as nat);
    }
}

pub proof fn lemma_blank_run_back_is(ls: Seq<Seq<char>>, i: nat, k: nat)
    requires
        k <= i <= ls.len(),
        forall|j: int| k <= j < i ==> is_blank(ls[j]),
        k > 0 ==> !is_blank(ls[k - 1]),
    ensures
        blank_run_back(ls, i) == k,
    decreases i,
{
    if i > 0 && is_blank(ls[i - 1]) {
        lemma_blank_run_back_is(ls, (i - 1) as nat, k);
    }
}

/// `s` with whole blank lines removed from its start and end: the segments
/// between the first and the last non-blank one, joined back with newlines.
pub open spec fn blank_trim(s: Seq<char>) -> Seq<char> {
    let ls = segments_of(s);
    let a = blank_run_from(ls, 0);
    let b = blank_run_back(ls, ls.len());
    if a >= b {
        Seq::empty()
    } else {
        join_nl(ls.subrange(a as int, b as int))
    }
}

/// The views of a vector of borrowed strings.
pub open spec fn strs_view(ls: Seq<&str>) -> Seq<Seq<char>> {
    ls.map_values(|l: &str| l@)
}

/// Splits `s` into lines, as the standard library's `lines` does.
pub fn split_lines<'a>(s: &'a str) -> (r: Vec<&'a str>)
    ensures
        strs_view(r@) == lines_of(s@),
{
    let n: usize = s.unicode_len();
    let mut r: Vec<&'a str> = Vec::new();
    let mut start: usize = 0;
    let mut i: usize = 0;
    proof {
        assert(s@.subrange(0, n as int) =~= s@);
        assert(strs_view(r@) + lines_of(s@) =~= lines_of(s@));
    }
    while i < n
        invariant
            0 <= start <= i <= n,
            n == s@.len(),
            lines_of(s@) == strs_view(r@) + lines_of(s@.subrange(start as int, n as int)),
            forall|j: int| start <= j < i ==> s@[j] != '\n',
        decreases n - i,
    {
        if s.get_char(i) == '\n' {
            let line: &'a str = if i > start && s.get_char(i - 1) == '\r' {
                s.substring_char(start, i - 1)
            } else {
                s.substring_char(start, i)
            };
            proof {
                let suf = s@.subrange(start as int, n as int);
                assert(suf[i - start] == s@[i as int]);
                assert forall|k: int| 0 <= k < i - start implies suf[k] != '\n' by {
                    assert(suf[k] == s@[start + k]);
                }
                lemma_find_nl_is(suf, 0, (i - start) as nat);
                assert(suf.subrange(0, i - start) =~= s@.subrange(start as int, i as int));
                assert(suf.subrange(i - start + 1, suf.len() as int) =~= s@.subrange(
                    i + 1,
                    n as int,
                ));
                if i > start && s@[i - 1] == '\r' {
                    assert(line@ =~= strip_cr(s@.subrange(start as int, i as int)));
                } else {
                    assert(line@ =~= strip_cr(s@.subrange(start as int, i as int)));
                }
                assert(lines_of(suf) == seq![line@] + lines_of(s@.subrange(i + 1, n as int)));
                assert(strs_view(r@.push(line)) =~= strs_view(r@).push(line@));
                assert(strs_view(r@) + lines_of(suf) =~= strs_view(r@.push(line)) + lines_of(
                    s@.subrange(i + 1, n as int),
                ));
            }
            r.push(line);
            start = i + 1;
        }
        i += 1;
    }
    if start < n {
        let line: &'a str = s.substring_char(start, n);
        proof {
            let suf = s@.subrange(start as int, n as int);
            assert forall|k: int| 0 <= k < suf.len() implies suf[k] != '\n' by {
                assert(suf[k] == s@[start + k]);
            }
            lemma_find_nl_none(suf, 0);
            assert(lines_of(suf) == seq![suf]);
            assert(strs_view(r@.push(line)) =~= strs_view(r@).push(line@));
            assert(strs_view(r@).push(suf) =~= strs_view(r@) + lines_of(suf));
        }
        r.push(line);
    } else {
        proof {
            let suf = s@.subrange(start as int, n as int);
            assert(suf.len() == 0);
            assert(lines_of(suf) =~= Seq::<Seq<char>>::empty());
            assert(strs_view(r@) + lines_of(suf) =~= strs_view(r@));
        }
    }
    r
}

/// Splits `s` at every newline into its plain segments, empties kept.
pub fn split_segments<'a>(s: &'a str) -> (r: Vec<&'a str>)
    ensures
        strs_view(r@) == segments_of(s@),
        r@.len() > 0,
{
    let n: usize = s.unicode_len();
    let mut r: Vec<&'a str> = Vec::new();
    let mut start: usize = 0;
    let mut i: usize = 0;
    proof {
        assert(s@.subrange(0, n as int) =~= s@);
        assert(strs_view(r@) + segments_of(s@) =~= segments_of(s@));
    }
    while i < n
        invariant
            0 <= start <= i <= n,
            n == s@.len(),
            segments_of(s@) == strs_view(r@) + segments_of(s@.subrange(start as int, n as int)),
            forall|j: int| start <= j < i ==> s@[j] != '\n',
        decreases n - i,
    {
        if s.get_char(i) == '\n' {
            let line: &'a str = s.substring_char(start, i);
            proof {
                let suf = s@.subrange(start as int, n as int);
                assert(suf[i - start] == s@[i as int]);
                assert forall|k: int| 0 <= k < i - start implies suf[k] != '\n' by {
                    assert(suf[k] == s@[start + k]);
                }
                lemma_find_nl_is(suf, 0, (i - start) as nat);
                assert(suf.subrange(0, i - start) =~= line@);
                assert(suf.subrange(i - start + 1, suf.len() as int) =~= s@.subrange(
                    i + 1,
                    n as int,
                ));
                assert(segments_of(suf) == seq![line@] + segments_of(s@.subrange(i + 1, n as int)));
                assert(strs_view(r@.push(line)) =~= strs_view(r@).push(line@));
                assert(strs_view(r@) + segments_of(suf) =~= strs_view(r@.push(line))
                    + segments_of(s@.subrange(i + 1, n as int)));
            }
            r.push(line);
            start = i + 1;
        }
        i += 1;
    }
    let line: &'a str = s.substring_char(start, n);
    proof {
        let suf = s@.subrange(start as int, n as int);
        assert forall|k: int| 0 <= k < suf.len() implies suf[k] != '\n' by {
            assert(suf[k] == s@[start + k]);
        }
        lemma_find_nl_none(suf, 0);
        assert(segments_of(suf) == seq![suf]);
        assert(line@ =~= suf);
        assert(strs_view(r@.push(line)) =~= strs_view(r@).push(line@));
        assert(strs_view(r@).push(suf) =~= strs_view(r@) + segments_of(suf));
    }
    r.push(line);
    r
}

/// Whether every character of `l` is whitespace.
pub fn is_blank_str(l: &str) -> (r: bool)
    ensures
        r == is_blank(l@),
{
    let n: usize = l.unicode_len();
    let mut i: usize = 0;
    while i < n
        invariant
            0 <= i <= n,
            n == l@.len(),
            forall|j: int| 0 <= j < i ==> is_space(l@[j]),
        decreases n - i,
    {
        if !is_space_char(l.get_char(i)) {
            return false;
        }
        i += 1;
    }
    true
}

/// Joining after a push appends a newline and the new segment, except onto
/// nothing.
pub proof fn lemma_join_nl_push(ls: Seq<Seq<char>>, x: Seq<char>)
    ensures
        join_nl(ls.push(x)) == if ls.len() == 0 {
            x
        } else {
            join_nl(ls) + seq!['\n'] + x
        },
    decreases ls.len(),
{
    let p = ls.push(x);
    if ls.len() == 0 {
        assert(p.len() == 1);
        assert(join_nl(p) == p[0]);
        assert(p[0] == x);
    } else if ls.len() == 1 {
        assert(p.len() == 2);
        assert(p[0] == ls[0]);
        assert(p.drop_first() =~= seq![x]);
        assert(join_nl(p) == p[0] + seq!['\n'] + join_nl(p.drop_first()));
        assert(join_nl(seq![x]) == x);
        assert(join_nl(ls) == ls[0]);
    } else {
        assert(p.drop_first() =~= ls.drop_first().push(x));
        lemma_join_nl_push(ls.drop_first(), x);
        assert(join_nl(p) == p[0] + seq!['\n'] + join_nl(ls.drop_first().push(x)));
        assert(p[0] == ls[0]);
        assert(join_nl(ls) == ls[0] + seq!['\n'] + join_nl(ls.drop_first()));
        assert(ls[0] + seq!['\n'] + (join_nl(ls.drop_first()) + seq!['\n'] + x) =~= (ls[0]
            + seq!['\n'] + join_nl(ls.drop_first())) + seq!['\n'] + x);
    }
}

/// `s` with leading and trailing blank lines removed.
pub fn trim_blank_lines(s: &str) -> (r: String)
    ensures
        r@ == blank_trim(s@),
{
    let segs: Vec<&str> = split_segments(s);
    let len: usize = segs.len();
    let ghost ls = segments_of(s@);
    proof {
        assert(ls.len() == len);
    }
    let mut a: usize = 0;
    while a < len && is_blank_str(segs[a])
        invariant
            0 <= a <= len,
            len == segs@.len(),
            strs_view(segs@) == ls,
            forall|j: int| 0 <= j < a ==> is_blank(ls[j]),
        decreases len - a,
    {
        proof {
            assert(ls[a as int] == segs@[a as int]@);
        }
        a += 1;
    }
    proof {
        assert(a < len ==> ls[a as int] == segs@[a as int]@);
        lemma_blank_run_from_is(ls, 0, a as nat);
    }
    let mut b: usize = len;
    while b > a && is_blank_str(segs[b - 1])
        invariant
            a <= b <= len,
            len == segs@.len(),
            strs_view(segs@) == ls,
            forall|j: int| b <= j < len ==> is_blank(ls[j]),
        decreases b,
    {
        proof {
            assert(ls[b - 1] == segs@[b - 1]@);
        }
        b -= 1;
    }
    if a >= b {
        proof {
            lemma_blank_run_back(ls, ls.len());
            if blank_run_back(ls, ls.len()) > b as nat {
                assert(is_blank(ls[blank_run_back(ls, ls.len()) - 1]));
            }
            assert(blank_trim(s@) =~= Seq::<char>::empty());
        }
        return String::new();
    }
    proof {
        assert(b > a ==> ls[b - 1] == segs@[b - 1]@);
        lemma_blank_run_back_is(ls, ls.len(), b as nat);
    }
    let ghost mid = ls.subrange(a as int, b as int);
    let mut out = String::new();
    let mut idx: usize = a;
    proof {
        assert(ls.subrange(a as int, a as int) =~= Seq::<Seq<char>>::empty());
        assert(join_nl(ls.subrange(a as int, a as int)) =~= Seq::<char>::empty());
    }
    while idx < b
        invariant
            a <= idx <= b <= len,
            len == segs@.len(),
            strs_view(segs@) == ls,
            out@ == join_nl(ls.subrange(a as int, idx as int)),
        decreases b - idx,
    {
        if idx > a {
            out.append("\n");
            proof {
                reveal_strlit("\n");
                assert("\n"@ =~= seq!['\n']);
            }
        }
        out.append(segs[idx]);
        proof {
            let before = ls.subrange(a as int, idx as int);
            let after = ls.subrange(a as int, idx + 1);
            assert(after =~= before.push(ls[idx as int]));
            lemma_join_nl_push(before, ls[idx as int]);
            assert(ls[idx as int] == segs@[idx as int]@);
            if idx > a {
                assert(out@ =~= join_nl(before) + seq!['\n'] + ls[idx as int]);
            } else {
                assert(before.len() == 0);
                assert(out@ =~= ls[idx as int]);
            }
        }
        idx += 1;
    }
    proof {
        assert(ls.subrange(a as int, b as int) == mid);
        assert(out@ == join_nl(mid));
    }
    out
}


/// A stretch of text without a newline in it.
pub open spec fn nl_free(l: Seq<char>) -> bool {
    forall|j: int| 0 <= j < l.len() ==> l[j] != '\n'
}

/// Every segment produced by splitting at newlines is newline-free.
pub proof fn lemma_segments_nl_free(s: Seq<char>)
    ensures
        forall|i: int| 0 <= i < segments_of(s).len() ==> nl_free(#[trigger] segments_of(s)[i]),
    decreases s.len(),
{
    lemma_find_nl_from(s, 0);
    match find_nl_from(s, 0) {
        Some(i) => {
            let head = s.subrange(0, i as int);
            let tail = s.subrange(i as int + 1, s.len() as int);
            assert(nl_free(head));
            lemma_segments_nl_free(tail);
            assert forall|k: int| 0 <= k < segments_of(s).len() implies nl_free(
                #[trigger] segments_of(s)[k],
            ) by {
                if k == 0 {
                    assert(segments_of(s)[0] == head);
                } else {
                    assert(segments_of(s)[k] == segments_of(tail)[k - 1]);
                }
            }
        },
        None => {
            assert(nl_free(s));
        },
    }
}

/// Splitting at newlines undoes joining with newlines, for newline-free
/// segments.
pub proof fn lemma_segments_of_join(ls: Seq<Seq<char>>)
    requires
        ls.len() > 0,
        forall|i: int| 0 <= i < ls.len() ==> nl_free(#[trigger] ls[i]),
    ensures
        segments_of(join_nl(ls)) == ls,
    decreases ls.len(),
{
    let j = join_nl(ls);
    if ls.len() == 1 {
        assert(j == ls[0]);
        lemma_find_nl_none(j, 0);
        assert(segments_of(j) == seq![j]);
        assert(seq![j] =~= ls);
    } else {
        let rest = ls.drop_first();
        assert(j == ls[0] + seq!['\n'] + join_nl(rest));
        let h = ls[0].len();
        assert(j[h as int] == '\n');
        assert forall|k: int| 0 <= k < h implies j[k] != '\n' by {
            assert(j[k] == ls[0][k]);
        }
        lemma_find_nl_is(j, 0, h as nat);
        assert(j.subrange(0, h as int) =~= ls[0]);
        assert(j.subrange(h as int + 1, j.len() as int) =~= join_nl(rest));
        assert(forall|i: int| 0 <= i < rest.len() ==> nl_free(#[trigger] rest[i]));
        lemma_segments_of_join(rest);
        assert(segments_of(j) == seq![ls[0]] + rest);
        assert(seq![ls[0]] + rest =~= ls);
    }
}

/// Neither the first nor the last line of `c` is a blank line, unless `c` is
/// empty.
pub open spec fn no_blank_edges(c: Seq<char>) -> bool {
    c.len() > 0 ==> !is_blank(segments_of(c).first()) && !is_blank(segments_of(c).last())
}

/// Trimming blank lines leaves no blank line at either end.
pub proof fn lemma_blank_trim_no_blank_edges(s: Seq<char>)
    ensures
        no_blank_edges(blank_trim(s)),
{
    let ls = segments_of(s);
    let a = blank_run_from(ls, 0);
    let b = blank_run_back(ls, ls.len());
    lemma_blank_run_from(ls, 0);
    lemma_blank_run_back(ls, ls.len());
    if a < b {
        let mid = ls.subrange(a as int, b as int);
        lemma_segments_nl_free(s);
        assert forall|i: int| 0 <= i < mid.len() implies nl_free(#[trigger] mid[i]) by {
            assert(mid[i] == ls[a + i]);
        }
        lemma_segments_of_join(mid);
        assert(blank_trim(s) == join_nl(mid));
        assert(segments_of(blank_trim(s)) == mid);
        assert(mid.first() == ls[a as int]);
        assert(mid.last() == ls[b - 1]);
        assert(!is_blank(ls[a as int]));
        assert(!is_blank(ls[b - 1]));
    }
}


/// Every line of an all-whitespace text is blank.
pub proof fn lemma_lines_of_blank(s: Seq<char>)
    requires
        forall|i: int| 0 <= i < s.len() ==> is_space(s[i]),
    ensures
        forall|i: int| 0 <= i < lines_of(s).len() ==> is_blank(#[trigger] lines_of(s)[i]),
    decreases s.len(),
{
    if s.len() > 0 {
        lemma_find_nl_from(s, 0);
        match find_nl_from(s, 0) {
            Some(i) => {
                let head = strip_cr(s.subrange(0, i as int));
                let tail = s.subrange(i as int + 1, s.len() as int);
                assert(is_blank(head));
                assert(forall|k: int| 0 <= k < tail.len() ==> is_space(#[trigger] tail[k]));
                lemma_lines_of_blank(tail);
                assert forall|k: int| 0 <= k < lines_of(s).len() implies is_blank(
                    #[trigger] lines_of(s)[k],
                ) by {
                    if k == 0 {
                        assert(lines_of(s)[0] == head);
                    } else {
                        assert(lines_of(s)[k] == lines_of(tail)[k - 1]);
                    }
                }
            },
            None => {
                assert(is_blank(s));
            },
        }
    }
}

} // verus!
