//! Character-level text handling: splitting a text into lines, finding the
//! first occurrence of a character, and trimming whitespace.
//!
//! Every contract is stated over `Seq<char>`, the view of `str` and `String`.

use vstd::prelude::*;
use vstd::std_specs::iter::IteratorSpec;

verus! {

/// Whether `c` carries the Unicode `White_Space` property, as decided by
/// `char::is_whitespace`.
pub uninterp spec fn white_space(c: char) -> bool;

/// `s` without its leading whitespace characters.
pub open spec fn trim_start(s: Seq<char>) -> Seq<char>
    decreases s.len(),
{
    if s.len() > 0 && white_space(s[0]) {
        trim_start(s.drop_first())
    } else {
        s
    }
}

/// `s` without its trailing whitespace characters.
pub open spec fn trim_end(s: Seq<char>) -> Seq<char>
    decreases s.len(),
{
    if s.len() > 0 && white_space(s.last()) {
        trim_end(s.drop_last())
    } else {
        s
    }
}

/// `s` without leading and trailing whitespace.
pub open spec fn trim(s: Seq<char>) -> Seq<char> {
    trim_end(trim_start(s))
}

/// The position of the first occurrence of `c` in `s`, if there is one.
pub open spec fn first_index(s: Seq<char>, c: char) -> Option<int>
    decreases s.len(),
{
    if s.len() == 0 {
        None
    } else if s[0] == c {
        Some(0)
    } else {
        match first_index(s.drop_first(), c) {
            Some(i) => Some(i + 1),
            None => None,
        }
    }
}

/// `s` without one trailing carriage return, if it ends in one.
pub open spec fn strip_cr(s: Seq<char>) -> Seq<char> {
    if s.len() > 0 && s.last() == '\r' {
        s.drop_last()
    } else {
        s
    }
}

/// The lines of `t`. A line ends at a line feed, or at a carriage return
/// directly followed by a line feed; the terminator is not part of the line.
/// What follows the last line feed is a line of its own unless it is empty,
/// and keeps a carriage return at its end.
pub open spec fn lines(t: Seq<char>) -> Seq<Seq<char>>
    decreases t.len(),
{
    if t.len() == 0 {
        Seq::empty()
    } else {
        match first_index(t, '\n') {
            None => seq![t],
            Some(i) => if 0 <= i < t.len() {
                seq![strip_cr(t.subrange(0, i))] + lines(t.subrange(i + 1, t.len() as int))
            } else {
                Seq::empty()
            },
        }
    }
}

/// The key and the value that one line holds: what stands before and after
/// the first `delim`, both trimmed. `None` where the line holds no `delim`.
pub open spec fn split_line(line: Seq<char>, delim: char) -> Option<(Seq<char>, Seq<char>)> {
    match first_index(line, delim) {
        None => None,
        Some(i) => Some(
            (trim(line.subrange(0, i)), trim(line.subrange(i + 1, line.len() as int))),
        ),
    }
}

/// The views of a sequence of strings.
pub open spec fn texts(v: Seq<String>) -> Seq<Seq<char>> {
    v.map_values(|s: String| s@)
}

/// `first_index` finds a position that holds `c` and has no `c` before it.
pub proof fn lemma_first_index_found(s: Seq<char>, c: char, i: int)
    requires
        0 <= i < s.len(),
        s[i] == c,
        forall|j: int| 0 <= j < i ==> s[j] != c,
    ensures
        first_index(s, c) == Some(i),
    decreases i,
{
    if i > 0 {
        let rest = s.drop_first();
        assert forall|j: int| 0 <= j < i - 1 implies rest[j] != c by {
            assert(rest[j] == s[j + 1]);
        }
        lemma_first_index_found(rest, c, i - 1);
    }
}

/// `first_index` finds nothing exactly where `c` does not occur.
pub proof fn lemma_first_index_none(s: Seq<char>, c: char)
    requires
        forall|j: int| 0 <= j < s.len() ==> s[j] != c,
    ensures
        first_index(s, c) is None,
    decreases s.len(),
{
    if s.len() > 0 {
        let rest = s.drop_first();
        assert forall|j: int| 0 <= j < rest.len() implies rest[j] != c by {
            assert(rest[j] == s[j + 1]);
        }
        lemma_first_index_none(rest, c);
    }
}

/// What `first_index` returns is in range, holds `c`, and nothing before it
/// does.
pub proof fn lemma_first_index_is_first(s: Seq<char>, c: char)
    ensures
        match first_index(s, c) {
            Some(i) => 0 <= i < s.len() && s[i] == c && forall|j: int| 0 <= j < i ==> s[j] != c,
            None => forall|j: int| 0 <= j < s.len() ==> s[j] != c,
        },
    decreases s.len(),
{
    if s.len() > 0 && s[0] != c {
        let rest = s.drop_first();
        lemma_first_index_is_first(rest, c);
        match first_index(rest, c) {
            Some(i) => {
                assert forall|j: int| 0 <= j < i + 1 implies s[j] != c by {
                    if j > 0 {
                        assert(rest[j - 1] == s[j]);
                    }
                }
            },
            None => {
                assert forall|j: int| 0 <= j < s.len() implies s[j] != c by {
                    if j > 0 {
                        assert(rest[j - 1] == s[j]);
                    }
                }
            },
        }
    }
}

/// What `trim_start` leaves is empty or begins with no whitespace.
pub proof fn lemma_trim_start_is_bare(s: Seq<char>)
    ensures
        trim_start(s).len() == 0 || !white_space(trim_start(s).first()),
    decreases s.len(),
{
    if s.len() > 0 && white_space(s[0]) {
        lemma_trim_start_is_bare(s.drop_first());
    }
}

/// What `trim_end` leaves is a prefix of the text, and is empty or ends with
/// no whitespace.
pub proof fn lemma_trim_end_is_bare(s: Seq<char>)
    ensures
        trim_end(s).len() <= s.len(),
        trim_end(s) == s.take(trim_end(s).len() as int),
        trim_end(s).len() == 0 || !white_space(trim_end(s).last()),
    decreases s.len(),
{
    if s.len() > 0 && white_space(s.last()) {
        let head = s.drop_last();
        lemma_trim_end_is_bare(head);
        assert(head.take(trim_end(head).len() as int) =~= s.take(trim_end(head).len() as int));
    } else {
        assert(s.take(s.len() as int) =~= s);
    }
}

/// A trimmed text is empty or has whitespace at neither end.
pub proof fn lemma_trim_is_bare(s: Seq<char>)
    ensures
        trim(s).len() == 0 || (!white_space(trim(s).first()) && !white_space(trim(s).last())),
{
    lemma_trim_start_is_bare(s);
    lemma_trim_end_is_bare(trim_start(s));
}

/// Calls `char::is_whitespace`. The result is exactly what the name
/// `white_space` stands for; nothing else is claimed about it.
#[verifier::external_body]
pub(crate) fn is_space(c: char) -> (b: bool)
    ensures
        b == white_space(c),
{
    c.is_whitespace()
}

/// Calls `String::push`, which appends one character to the end of the string.
#[verifier::external_body]
pub(crate) fn push_char(s: &mut String, c: char)
    ensures
        final(s)@ == old(s)@.push(c),
{
    s.push(c)
}

/// The characters of `s`, in order.
pub fn chars_of(s: &str) -> (out: Vec<char>)
    ensures
        out@ == s@,
{
    broadcast use vstd::string::group_string_axioms;

    let mut out: Vec<char> = Vec::new();
    let mut rest = s.chars();
    loop
        invariant
            out@ + rest.remaining() == s@,
        ensures
            out@ == s@,
        decreases s@.len() - out@.len(),
    {
        let ghost before = rest.remaining();
        match rest.next() {
            Some(c) => {
                out.push(c);
                assert(out@ + rest.remaining() =~= s@) by {
                    assert(before =~= seq![c] + before.drop_first());
                }
            },
            None => {
                assert(out@ + rest.remaining() =~= out@);
                break ;
            },
        }
    }
    out
}

/// The string made of the characters `v[lo..hi]`.
pub fn text_of(v: &Vec<char>, lo: usize, hi: usize) -> (out: String)
    requires
        lo <= hi <= v@.len(),
    ensures
        out@ == v@.subrange(lo as int, hi as int),
{
    let mut out = String::new();
    let mut i: usize = lo;
    while i < hi
        invariant
            lo <= i <= hi <= v@.len(),
            out@ == v@.subrange(lo as int, i as int),
        decreases hi - i,
    {
        push_char(&mut out, v[i]);
        assert(out@ =~= v@.subrange(lo as int, i + 1));
        i += 1;
    }
    out
}

/// The position in `v` of the first `c` within `v[lo..hi]`.
pub fn find_char(v: &Vec<char>, lo: usize, hi: usize, c: char) -> (found: Option<usize>)
    requires
        lo <= hi <= v@.len(),
    ensures
        match first_index(v@.subrange(lo as int, hi as int), c) {
            Some(i) => found == Some((lo + i) as usize) && lo <= lo + i < hi,
            None => found is None,
        },
{
    let ghost part = v@.subrange(lo as int, hi as int);
    let mut i: usize = lo;
    while i < hi
        invariant
            lo <= i <= hi <= v@.len(),
            part == v@.subrange(lo as int, hi as int),
            forall|j: int| 0 <= j < i - lo ==> part[j] != c,
        decreases hi - i,
    {
        if v[i] == c {
            proof {
                lemma_first_index_found(part, c, i - lo);
            }
            return Some(i);
        }
        i += 1;
    }
    proof {
        lemma_first_index_none(part, c);
    }
    None
}

/// The bounds of `v[lo..hi]` once leading and trailing whitespace is left off.
pub fn trim_range(v: &Vec<char>, lo: usize, hi: usize) -> (bounds: (usize, usize))
    requires
        lo <= hi <= v@.len(),
    ensures
        lo <= bounds.0 <= bounds.1 <= hi,
        v@.subrange(bounds.0 as int, bounds.1 as int) == trim(v@.subrange(lo as int, hi as int)),
{
    let mut a: usize = lo;
    while a < hi && is_space(v[a])
        invariant
            lo <= a <= hi <= v@.len(),
            trim_start(v@.subrange(lo as int, hi as int)) == trim_start(
                v@.subrange(a as int, hi as int),
            ),
        decreases hi - a,
    {
        assert(v@.subrange(a as int, hi as int).drop_first() =~= v@.subrange(a + 1, hi as int));
        a += 1;
    }
    assert(trim_start(v@.subrange(a as int, hi as int)) == v@.subrange(a as int, hi as int));
    let mut b: usize = hi;
    while b > a && is_space(v[b - 1])
        invariant
            a <= b <= hi <= v@.len(),
            trim_end(v@.subrange(a as int, hi as int)) == trim_end(v@.subrange(a as int, b as int)),
        decreases b - a,
    {
        assert(v@.subrange(a as int, b as int).drop_last() =~= v@.subrange(a as int, b - 1));
        b -= 1;
    }
    assert(trim_end(v@.subrange(a as int, b as int)) == v@.subrange(a as int, b as int));
    (a, b)
}

/// Splits `contents` into its lines.
pub fn read_lines(contents: &str) -> (out: Vec<String>)
    ensures
        texts(out@) == lines(contents@),
{
    let t = chars_of(contents);
    let n = t.len();
    let mut out: Vec<String> = Vec::new();
    let mut start: usize = 0;
    assert(t@.subrange(0, n as int) =~= t@);
    assert(texts(out@) =~= Seq::<Seq<char>>::empty());
    while start < n
        invariant
            start <= n == t@.len(),
            texts(out@) + lines(t@.subrange(start as int, n as int)) == lines(t@),
        decreases n - start,
    {
        let ghost rest = t@.subrange(start as int, n as int);
        let ghost before = texts(out@);
        match find_char(&t, start, n, '\n') {
            None => {
                let line = text_of(&t, start, n);
                out.push(line);
                assert(texts(out@) =~= before.push(rest));
                assert(lines(t@.subrange(n as int, n as int)) =~= Seq::<Seq<char>>::empty());
                assert(before.push(rest) =~= before + seq![rest]);
                start = n;
            },
            Some(i) => {
                let mut end = i;
                if end > start && t[end - 1] == '\r' {
                    end -= 1;
                }
                let line = text_of(&t, start, end);
                let ghost head = rest.subrange(0, i - start);
                assert(head =~= t@.subrange(start as int, i as int));
                assert(line@ =~= strip_cr(head));
                assert(rest.subrange(i - start + 1, rest.len() as int) =~= t@.subrange(
                    i + 1,
                    n as int,
                ));
                out.push(line);
                assert(texts(out@) =~= before.push(strip_cr(head)));
                assert(before.push(strip_cr(head)) + lines(t@.subrange(i + 1, n as int))
                    =~= before + (seq![strip_cr(head)] + lines(t@.subrange(i + 1, n as int))));
                start = i + 1;
            },
        }
    }
    assert(lines(t@.subrange(n as int, n as int)) =~= Seq::<Seq<char>>::empty());
    assert(texts(out@) + Seq::<Seq<char>>::empty() =~= texts(out@));
    out
}

/// Splits one line at the first `delim` into its trimmed key and value.
pub fn parse_line(line: &str, delim: char) -> (out: Option<(String, String)>)
    ensures
        match split_line(line@, delim) {
            Some(kv) => out matches Some(p) && p.0@ == kv.0 && p.1@ == kv.1,
            None => out is None,
        },
{
    let v = chars_of(line);
    let n = v.len();
    assert(v@.subrange(0, n as int) =~= v@);
    match find_char(&v, 0, n, delim) {
        None => None,
        Some(i) => {
            let (ka, kb) = trim_range(&v, 0, i);
            let (va, vb) = trim_range(&v, i + 1, n);
            Some((text_of(&v, ka, kb), text_of(&v, va, vb)))
        },
    }
}

} // verus!
