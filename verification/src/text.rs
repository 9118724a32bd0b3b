//! The text model: splitting a text into lines, substring containment, and
//! ASCII case folding, each with a specification and a verified executable
//! counterpart.
//!
//! Line splitting follows the usual rule for text files: lines are separated
//! by `'\n'`, a carriage return directly before a separator is not part of
//! the line, and a trailing separator does not open an empty final line.

use vstd::prelude::*;
use vstd::string::StrSliceExecFns;

verus! {

/// Index of the first `'\n'` in `s`, or `s.len()` if there is none.
pub open spec fn line_break(s: Seq<char>) -> int
    decreases s.len(),
{
    if s.len() == 0 {
        0
    } else if s[0] == '\n' {
        0
    } else {
        1 + line_break(s.drop_first())
    }
}

/// The content of one line: everything before the separator, without a
/// carriage return directly in front of it.
pub open spec fn chop_cr(l: Seq<char>) -> Seq<char> {
    if l.len() > 0 && l[l.len() - 1] == '\r' {
        l.drop_last()
    } else {
        l
    }
}

/// The lines of a text, in order. A trailing `'\n'` does not produce an
/// empty final line; a final fragment without a separator is a line.
pub open spec fn lines_of(s: Seq<char>) -> Seq<Seq<char>>
    decreases s.len(),
    via lines_of_decreases
{
    if s.len() == 0 {
        Seq::empty()
    } else {
        let k = line_break(s);
        if k == s.len() {
            seq![s]
        } else {
            seq![chop_cr(s.subrange(0, k))] + lines_of(s.subrange(k + 1, s.len() as int))
        }
    }
}

#[via_fn]
proof fn lines_of_decreases(s: Seq<char>) {
    lemma_line_break(s);
}

/// `needle` occurs in `hay` starting at position `i`.
pub open spec fn contains_at(hay: Seq<char>, needle: Seq<char>, i: int) -> bool {
    &&& 0 <= i
    &&& i + needle.len() <= hay.len()
    &&& hay.subrange(i, i + needle.len()) == needle
}

/// `needle` occurs somewhere in `hay`. The empty needle occurs in every hay.
pub open spec fn has_substring(hay: Seq<char>, needle: Seq<char>) -> bool {
    exists|i: int| contains_at(hay, needle, i)
}

/// ASCII case folding of one character: `'A'..='Z'` map to `'a'..='z'`,
/// every other character is unchanged.
pub open spec fn lower_char(c: char) -> char {
    if 'A' as u32 <= c as u32 && c as u32 <= 'Z' as u32 {
        ((c as u32) + 32) as char
    } else {
        c
    }
}

/// ASCII case folding of a whole sequence, character by character.
pub open spec fn lower_seq(s: Seq<char>) -> Seq<char> {
    s.map_values(|c: char| lower_char(c))
}

/// `line_break` is a position in `s`, everything before it is ordinary, and
/// it carries a separator unless it is the end.
pub proof fn lemma_line_break(s: Seq<char>)
    ensures
        0 <= line_break(s) <= s.len(),
        line_break(s) < s.len() ==> s[line_break(s)] == '\n',
        forall|m: int| 0 <= m < line_break(s) ==> s[m] != '\n',
    decreases s.len(),
{
    if s.len() == 0 {
    } else if s[0] == '\n' {
    } else {
        lemma_line_break(s.drop_first());
        assert forall|m: int| 0 <= m < line_break(s) implies s[m] != '\n' by {
            if m >= 1 {
                assert(s.drop_first()[m - 1] != '\n');
            }
        }
    }
}

/// A position with no separator before it and a separator (or the end) at it
/// is exactly `line_break`.
pub proof fn lemma_line_break_at(s: Seq<char>, k: int)
    requires
        0 <= k <= s.len(),
        forall|m: int| 0 <= m < k ==> s[m] != '\n',
        k < s.len() ==> s[k] == '\n',
    ensures
        line_break(s) == k,
    decreases s.len(),
{
    if s.len() == 0 {
    } else if k == 0 {
    } else {
        assert(s[0] != '\n');
        assert forall|m: int| 0 <= m < k - 1 implies s.drop_first()[m] != '\n' by {
            assert(s[m + 1] != '\n');
        }
        lemma_line_break_at(s.drop_first(), k - 1);
    }
}

/// Whether `needle` occurs in `hay` at position `i`, by comparing the
/// characters one by one.
fn match_at(hay: &str, needle: &str, i: usize, m: usize) -> (b: bool)
    requires
        m == needle@.len(),
        i + m <= hay@.len(),
        hay@.len() <= usize::MAX,
    ensures
        b == contains_at(hay@, needle@, i as int),
{
    let mut j: usize = 0;
    while j < m
        invariant
            m == needle@.len(),
            i + m <= hay@.len(),
            hay@.len() <= usize::MAX,
            j <= m,
            forall|t: int| 0 <= t < j ==> hay@[i + t] == needle@[t],
        decreases m - j,
    {
        let hc = hay.get_char(i + j);
        let nc = needle.get_char(j);
        if hc != nc {
            proof {
                assert(hay@.subrange(i as int, i + m) != needle@) by {
                    assert(hay@.subrange(i as int, i + m)[j as int] == hay@[i + j]);
                }
            }
            return false;
        }
        j = j + 1;
    }
    proof {
        assert(hay@.subrange(i as int, i + m) =~= needle@);
    }
    true
}

/// Whether `needle` occurs anywhere in `hay`, by trying every position.
pub fn contains_str(hay: &str, needle: &str) -> (b: bool)
    ensures
        b == has_substring(hay@, needle@),
{
    let h = hay.unicode_len();
    let m = needle.unicode_len();
    if m == 0 {
        proof {
            assert(hay@.subrange(0, 0) =~= needle@);
            assert(contains_at(hay@, needle@, 0));
        }
        return true;
    }
    if m > h {
        proof {
            assert forall|i: int| !contains_at(hay@, needle@, i) by {}
        }
        return false;
    }
    let mut i: usize = 0;
    while i <= h - m
        invariant
            h == hay@.len(),
            m == needle@.len(),
            1 <= m <= h,
            i <= h - m + 1,
            forall|t: int| 0 <= t < i ==> !contains_at(hay@, needle@, t),
        decreases h - m - i + 1,
    {
        if match_at(hay, needle, i, m) {
            proof {
                assert(contains_at(hay@, needle@, i as int));
            }
            return true;
        }
        i = i + 1;
    }
    proof {
        assert forall|t: int| !contains_at(hay@, needle@, t) by {
            if 0 <= t < i {
                assert(!contains_at(hay@, needle@, t));
            }
        }
    }
    false
}

/// Position of the first `'\n'` at or after `start`, or `n` if there is none.
fn find_newline(s: &str, start: usize, n: usize) -> (k: usize)
    requires
        n == s@.len(),
        start <= n,
    ensures
        start <= k <= n,
        k < n ==> s@[k as int] == '\n',
        k - start == line_break(s@.subrange(start as int, n as int)),
{
    let mut j: usize = start;
    while j < n
        invariant
            n == s@.len(),
            start <= j <= n,
            forall|m: int| start <= m < j ==> s@[m] != '\n',
        decreases n - j,
    {
        let c = s.get_char(j);
        if c == '\n' {
            proof {
                let sub = s@.subrange(start as int, n as int);
                assert forall|m: int| 0 <= m < j - start implies sub[m] != '\n' by {
                    assert(s@[start + m] != '\n');
                }
                lemma_line_break_at(sub, j - start);
            }
            return j;
        }
        j = j + 1;
    }
    proof {
        let sub = s@.subrange(start as int, n as int);
        assert forall|m: int| 0 <= m < n - start implies sub[m] != '\n' by {
            assert(s@[start + m] != '\n');
        }
        lemma_line_break_at(sub, n - start);
    }
    n
}

/// The lines of `s`, in order, as slices of `s`.
pub fn split_lines<'a>(s: &'a str) -> (res: Vec<&'a str>)
    ensures
        res.deep_view() == lines_of(s@),
{
    let n = s.unicode_len();
    let mut res: Vec<&'a str> = Vec::new();
    let mut start: usize = 0;
    proof {
        assert(res.deep_view() =~= Seq::<Seq<char>>::empty());
        assert(s@.subrange(0, n as int) =~= s@);
        assert(res.deep_view() + lines_of(s@) =~= lines_of(s@));
    }
    while start < n
        invariant
            n == s@.len(),
            start <= n,
            res.deep_view() + lines_of(s@.subrange(start as int, n as int)) == lines_of(s@),
        decreases n - start,
    {
        let ghost old_res = res.deep_view();
        let ghost sub = s@.subrange(start as int, n as int);
        let k = find_newline(s, start, n);
        let end = if k < n && k > start && s.get_char(k - 1) == '\r' {
            k - 1
        } else {
            k
        };
        let line = s.substring_char(start, end);
        res.push(line);
        proof {
            lemma_line_break(sub);
            assert(res.deep_view() =~= old_res.push(line@));
            if k == n {
                assert(line@ =~= sub);
                assert(lines_of(sub) == seq![sub]);
                assert(old_res.push(sub) =~= old_res + seq![sub]);
                assert(res.deep_view() + lines_of(s@.subrange(n as int, n as int)) =~= res.deep_view());
            } else {
                let kk = k - start;
                let raw = sub.subrange(0, kk);
                assert(lines_of(sub) == seq![chop_cr(raw)] + lines_of(sub.subrange(kk + 1, sub.len() as int)));
                assert(sub.subrange(kk + 1, sub.len() as int) =~= s@.subrange(k + 1, n as int));
                assert(raw =~= s@.subrange(start as int, k as int));
                if end < k {
                    assert(raw.len() > 0 && raw[raw.len() - 1] == '\r');
                    assert(line@ =~= raw.drop_last());
                } else {
                    assert(k > start ==> s@[k - 1] != '\r');
                    assert(raw.len() > 0 ==> raw[raw.len() - 1] == s@[k - 1]);
                    assert(line@ =~= raw);
                }
                assert(line@ == chop_cr(raw));
                assert(old_res.push(line@) + lines_of(s@.subrange(k + 1, n as int))
                    =~= old_res + lines_of(sub));
            }
        }
        if k < n {
            start = k + 1;
        } else {
            start = n;
        }
    }
    proof {
        assert(s@.subrange(n as int, n as int).len() == 0);
        assert(res.deep_view() + lines_of(s@.subrange(n as int, n as int)) =~= res.deep_view());
    }
    res
}

/// Relies on `char::to_ascii_lowercase`: letters `'A'..='Z'` map to
/// `'a'..='z'`; every other character is returned unchanged.
#[verifier::external_body]
fn to_ascii_lower(c: char) -> (r: char)
    ensures
        r == lower_char(c),
{
    c.to_ascii_lowercase()
}

/// Relies on `String::push`: appends one character at the end.
#[verifier::external_body]
fn push_char(s: &mut String, c: char)
    ensures
        final(s)@ == old(s)@.push(c),
{
    s.push(c);
}

/// ASCII case folding of a whole string, character by character.
pub fn lowercase(s: &str) -> (r: String)
    ensures
        r@ == lower_seq(s@),
{
    let n = s.unicode_len();
    let mut r = String::new();
    let mut i: usize = 0;
    while i < n
        invariant
            n == s@.len(),
            i <= n,
            r@ == lower_seq(s@.subrange(0, i as int)),
        decreases n - i,
    {
        let ghost old_r = r@;
        let c = s.get_char(i);
        let lc = to_ascii_lower(c);
        push_char(&mut r, lc);
        i = i + 1;
        proof {
            assert(r@ =~= lower_seq(s@.subrange(0, i as int)));
        }
    }
    proof {
        assert(s@.subrange(0, n as int) =~= s@);
    }
    r
}

} // verus!
