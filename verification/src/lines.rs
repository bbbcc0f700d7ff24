//! Lines of a text and the white space around them.
//!
//! A text is a sequence of lines that line feeds separate. An entry is a
//! line without the white space at its ends, if anything is left of it.

use vstd::prelude::*;

verus! {

/// White space, as Unicode defines it (the property `White_Space`).
pub open spec fn is_space(c: char) -> bool {
    let n = c as u32;
    ||| 0x09 <= n <= 0x0d
    ||| n == 0x20
    ||| n == 0x85
    ||| n == 0xa0
    ||| n == 0x1680
    ||| 0x2000 <= n <= 0x200a
    ||| n == 0x2028
    ||| n == 0x2029
    ||| n == 0x202f
    ||| n == 0x205f
    ||| n == 0x3000
}

/// Number of characters before the first line feed of `s`, or the length
/// of `s` where it has none.
pub open spec fn line_len(s: Seq<char>) -> int
    decreases s.len(),
{
    if s.len() == 0 || s[0] == '\n' {
        0
    } else {
        1 + line_len(s.drop_first())
    }
}

/// `s` without the white space at its start.
pub open spec fn trim_start(s: Seq<char>) -> Seq<char>
    decreases s.len(),
{
    if s.len() > 0 && is_space(s[0]) {
        trim_start(s.drop_first())
    } else {
        s
    }
}

/// `s` without the white space at its end.
pub open spec fn trim_end(s: Seq<char>) -> Seq<char>
    decreases s.len(),
{
    if s.len() > 0 && is_space(s[s.len() - 1]) {
        trim_end(s.drop_last())
    } else {
        s
    }
}

/// `s` without the white space at its ends.
pub open spec fn trim(s: Seq<char>) -> Seq<char> {
    trim_end(trim_start(s))
}

/// The entries of a text: its lines, each without the white space at its
/// ends, in order and without those of which nothing is left.
pub open spec fn entries(s: Seq<char>) -> Seq<Seq<char>>
    decreases s.len(),
{
    let n = line_len(s);
    let head = trim(s.take(n));
    let rest = if 0 <= n < s.len() {
        entries(s.skip(n + 1))
    } else {
        Seq::empty()
    };
    if head.len() > 0 {
        seq![head] + rest
    } else {
        rest
    }
}

/// The first line ends where the first line feed stands.
pub proof fn lemma_line_len(s: Seq<char>, k: int)
    requires
        0 <= k <= s.len(),
        forall|i: int| 0 <= i < k ==> s[i] != '\n',
        k == s.len() || s[k] == '\n',
    ensures
        line_len(s) == k,
    decreases k,
{
    if k > 0 {
        lemma_line_len(s.drop_first(), k - 1);
    }
}

/// White space at the start goes up to the first other character.
pub proof fn lemma_trim_start(s: Seq<char>, k: int)
    requires
        0 <= k <= s.len(),
        forall|i: int| 0 <= i < k ==> is_space(s[i]),
        k == s.len() || !is_space(s[k]),
    ensures
        trim_start(s) == s.skip(k),
    decreases k,
{
    if k > 0 {
        lemma_trim_start(s.drop_first(), k - 1);
        assert(s.drop_first().skip(k - 1) =~= s.skip(k));
    } else {
        assert(s.skip(0) =~= s);
    }
}

/// White space at the end starts behind the last other character.
pub proof fn lemma_trim_end(s: Seq<char>, k: int)
    requires
        0 <= k <= s.len(),
        forall|i: int| k <= i < s.len() ==> is_space(s[i]),
        k == 0 || !is_space(s[k - 1]),
    ensures
        trim_end(s) == s.take(k),
    decreases s.len() - k,
{
    if k < s.len() {
        lemma_trim_end(s.drop_last(), k);
        assert(s.drop_last().take(k) =~= s.take(k));
    } else {
        assert(s.take(k) =~= s);
    }
}

/// Decides `is_space`.
pub fn is_space_char(c: char) -> (r: bool)
    ensures
        r == is_space(c),
{
    let n: u32 = c as u32;
    (0x09 <= n && n <= 0x0d) || n == 0x20 || n == 0x85 || n == 0xa0 || n == 0x1680 || (0x2000 <= n
        && n <= 0x200a) || n == 0x2028 || n == 0x2029 || n == 0x202f || n == 0x205f || n == 0x3000
}

/// Where the line that starts at `pos` ends: the position of the next line
/// feed, or the end of the text.
pub(crate) fn line_end(chars: &Vec<char>, pos: usize) -> (eol: usize)
    requires
        pos <= chars@.len(),
    ensures
        pos <= eol <= chars@.len(),
        eol - pos == line_len(chars@.skip(pos as int)),
        eol < chars@.len() ==> chars@[eol as int] == '\n',
{
    let mut eol = pos;
    while eol < chars.len() && chars[eol] != '\n'
        invariant
            pos <= eol <= chars@.len(),
            forall|i: int| pos <= i < eol ==> chars@[i] != '\n',
        decreases chars@.len() - eol,
    {
        eol = eol + 1;
    }
    proof {
        lemma_line_len(chars@.skip(pos as int), eol - pos);
    }
    eol
}

/// The part of `pos .. end` that is left when the white space at its ends
/// is taken away.
pub(crate) fn trim_bounds(chars: &Vec<char>, pos: usize, end: usize) -> (r: (usize, usize))
    requires
        pos <= end <= chars@.len(),
    ensures
        pos <= r.0 <= r.1 <= end,
        chars@.subrange(r.0 as int, r.1 as int) == trim(chars@.subrange(pos as int, end as int)),
{
    let mut lo = pos;
    while lo < end && is_space_char(chars[lo])
        invariant
            pos <= lo <= end <= chars@.len(),
            forall|i: int| pos <= i < lo ==> is_space(chars@[i]),
        decreases end - lo,
    {
        lo = lo + 1;
    }
    let mut hi = end;
    while hi > lo && is_space_char(chars[hi - 1])
        invariant
            lo <= hi <= end <= chars@.len(),
            forall|i: int| hi <= i < end ==> is_space(chars@[i]),
        decreases hi - lo,
    {
        hi = hi - 1;
    }
    proof {
        let line = chars@.subrange(pos as int, end as int);
        lemma_trim_start(line, lo - pos);
        let tail = line.skip(lo - pos);
        assert(tail =~= chars@.subrange(lo as int, end as int));
        lemma_trim_end(tail, hi - lo);
        assert(tail.take(hi - lo) =~= chars@.subrange(lo as int, hi as int));
    }
    (lo, hi)
}

/// The entries of `s`, given where its first line ends and what is left of
/// that line.
pub proof fn lemma_entries_unfold(s: Seq<char>)
    ensures
        0 <= line_len(s) <= s.len(),
        entries(s) == (if trim(s.take(line_len(s))).len() > 0 {
            seq![trim(s.take(line_len(s)))]
        } else {
            Seq::<Seq<char>>::empty()
        }) + (if line_len(s) < s.len() {
            entries(s.skip(line_len(s) + 1))
        } else {
            Seq::<Seq<char>>::empty()
        }),
{
    lemma_line_len_bounds(s);
    let n = line_len(s);
    let head = trim(s.take(n));
    let rest = if 0 <= n < s.len() {
        entries(s.skip(n + 1))
    } else {
        Seq::<Seq<char>>::empty()
    };
    if head.len() > 0 {
        assert(entries(s) == seq![head] + rest);
    } else {
        assert(entries(s) == rest);
        assert(Seq::<Seq<char>>::empty() + rest =~= rest);
    }
}

/// The first line is part of the text.
pub proof fn lemma_line_len_bounds(s: Seq<char>)
    ensures
        0 <= line_len(s) <= s.len(),
    decreases s.len(),
{
    if !(s.len() == 0 || s[0] == '\n') {
        lemma_line_len_bounds(s.drop_first());
    }
}

/// The first entry of what follows `pos`, if its first line has one, and
/// where that line ends. Returns the bounds of the entry (empty where the
/// line is blank) and the end of the line.
pub(crate) fn next_line(chars: &Vec<char>, pos: usize) -> (r: (usize, usize, usize))
    requires
        pos <= chars@.len(),
    ensures
        pos <= r.0 <= r.1 <= r.2 <= chars@.len(),
        entries(chars@.skip(pos as int)) == (if r.0 < r.1 {
            seq![chars@.subrange(r.0 as int, r.1 as int)]
        } else {
            Seq::<Seq<char>>::empty()
        }) + (if r.2 < chars@.len() {
            entries(chars@.skip(r.2 + 1))
        } else {
            Seq::<Seq<char>>::empty()
        }),
{
    let eol = line_end(chars, pos);
    let (lo, hi) = trim_bounds(chars, pos, eol);
    proof {
        let rest = chars@.skip(pos as int);
        lemma_entries_unfold(rest);
        assert(rest.take(eol - pos) =~= chars@.subrange(pos as int, eol as int));
        if eol < chars@.len() {
            assert(rest.skip(eol - pos + 1) =~= chars@.skip(eol + 1));
        }
    }
    (lo, hi, eol)
}

} // verus!
