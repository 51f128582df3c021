//! Characters of the input line: white space, trimming, and the split of
//! the trimmed line into space-separated tokens.
use vstd::prelude::*;
use vstd::string::StrSliceExecFns;
use vstd::string::StringExecFns;

verus! {

/// The Unicode `White_Space` property, the set that `char::is_whitespace`
/// and `str::trim` go by.
pub open spec fn is_white_space(c: char) -> bool {
    let n = c as u32;
    (0x9 <= n && n <= 0xd) || n == 0x20 || n == 0x85 || n == 0xa0 || n == 0x1680 || (0x2000 <= n
        && n <= 0x200a) || n == 0x2028 || n == 0x2029 || n == 0x202f || n == 0x205f || n == 0x3000
}

/// `s` without its leading white space.
pub open spec fn trim_start(s: Seq<char>) -> Seq<char>
    decreases s.len(),
{
    if s.len() > 0 && is_white_space(s[0]) {
        trim_start(s.drop_first())
    } else {
        s
    }
}

/// `s` without its trailing white space.
pub open spec fn trim_end(s: Seq<char>) -> Seq<char>
    decreases s.len(),
{
    if s.len() > 0 && is_white_space(s.last()) {
        trim_end(s.drop_last())
    } else {
        s
    }
}

/// `s` without white space at either end.
pub open spec fn trim(s: Seq<char>) -> Seq<char> {
    trim_end(trim_start(s))
}

/// The pieces of `s` between single spaces, empty pieces included: a string
/// with `n` spaces has `n + 1` pieces.
pub open spec fn split_spaces(s: Seq<char>) -> Seq<Seq<char>>
    decreases s.len(),
{
    if s.len() == 0 {
        seq![Seq::empty()]
    } else {
        let p = split_spaces(s.drop_last());
        if s.last() == ' ' {
            p.push(Seq::empty())
        } else {
            p.update(p.len() - 1, p.last().push(s.last()))
        }
    }
}

/// The tokens of an input line: the pieces of the trimmed line between
/// single spaces. A line that is empty once trimmed has no tokens at all.
pub open spec fn tokens_of(s: Seq<char>) -> Seq<Seq<char>> {
    let t = trim(s);
    if t.len() == 0 {
        Seq::empty()
    } else {
        split_spaces(t)
    }
}

pub proof fn lemma_split_spaces_nonempty(s: Seq<char>)
    ensures
        split_spaces(s).len() >= 1,
    decreases s.len(),
{
    if s.len() > 0 {
        lemma_split_spaces_nonempty(s.drop_last());
    }
}

/// Whether `c` is white space.
pub fn is_white_space_char(c: char) -> (r: bool)
    ensures
        r == is_white_space(c),
{
    let n = c as u32;
    (0x9 <= n && n <= 0xd) || n == 0x20 || n == 0x85 || n == 0xa0 || n == 0x1680 || (0x2000 <= n
        && n <= 0x200a) || n == 0x2028 || n == 0x2029 || n == 0x202f || n == 0x205f || n == 0x3000
}

/// The characters of `s`, one by one.
pub fn chars_of(s: &str) -> (r: Vec<char>)
    ensures
        r@ == s@,
{
    let mut r: Vec<char> = Vec::new();
    for c in it: s.chars()
        invariant
            r@ == it.seq().take(it.index() as int),
    {
        r.push(c);
    }
    r
}

/// The tokens of `expression`: trimmed of white space at both ends, then
/// split at every single space.
pub fn tokenize(expression: &str) -> (r: Vec<String>)
    ensures
        r@.map_values(|t: String| t@) == tokens_of(expression@),
{
    let cs = chars_of(expression);
    let ghost s = expression@;
    let n = cs.len();
    let mut lo: usize = 0;
    assert(s.subrange(0, n as int) =~= s);
    while lo < n && is_white_space_char(cs[lo])
        invariant
            cs@ == s,
            n == s.len(),
            lo <= n,
            trim_start(s) == trim_start(s.subrange(lo as int, n as int)),
        decreases n - lo,
    {
        assert(s.subrange(lo as int, n as int).drop_first() =~= s.subrange(lo + 1, n as int));
        lo = lo + 1;
    }
    assert(trim_start(s) == s.subrange(lo as int, n as int));
    let mut hi: usize = n;
    while hi > lo && is_white_space_char(cs[hi - 1])
        invariant
            cs@ == s,
            n == s.len(),
            lo <= hi <= n,
            trim(s) == trim_end(s.subrange(lo as int, hi as int)),
        decreases hi,
    {
        assert(s.subrange(lo as int, hi as int).drop_last() =~= s.subrange(lo as int, hi - 1));
        hi = hi - 1;
    }
    let ghost t = s.subrange(lo as int, hi as int);
    assert(trim(s) == t);
    let mut r: Vec<String> = Vec::new();
    if lo == hi {
        assert(r@.map_values(|t: String| t@) =~= tokens_of(s));
        return r;
    }
    let mut start: usize = lo;
    let mut i: usize = lo;
    assert(t.take(0) =~= Seq::<char>::empty());
    assert(r@.map_values(|t: String| t@) =~= Seq::<Seq<char>>::empty());
    assert(s.subrange(lo as int, lo as int) =~= Seq::<char>::empty());
    assert(r@.map_values(|t: String| t@).push(s.subrange(lo as int, lo as int)) =~= seq![
        Seq::<char>::empty(),
    ]);
    while i < hi
        invariant
            cs@ == s,
            s == expression@,
            n == s.len(),
            lo <= start <= i <= hi <= n,
            t == s.subrange(lo as int, hi as int),
            split_spaces(t.take(i - lo)) == r@.map_values(|t: String| t@).push(
                s.subrange(start as int, i as int),
            ),
        decreases hi - i,
    {
        assert(t.take(i + 1 - lo).drop_last() =~= t.take(i - lo));
        assert(t.take(i + 1 - lo).last() == cs@[i as int]);
        if cs[i] == ' ' {
            let piece = String::from_str(expression.substring_char(start, i));
            r.push(piece);
            start = i + 1;
            assert(s.subrange(start as int, i + 1) =~= Seq::<char>::empty());
            assert(r@.map_values(|t: String| t@).push(s.subrange(start as int, i + 1)) =~= split_spaces(t.take(i + 1 - lo)));
        } else {
            proof { lemma_split_spaces_nonempty(t.take(i - lo)); }
            assert(s.subrange(start as int, i + 1) =~= s.subrange(start as int, i as int).push(
                cs@[i as int],
            ));
            assert(r@.map_values(|t: String| t@).push(s.subrange(start as int, i + 1)) =~= split_spaces(t.take(i + 1 - lo)));
        }
        i = i + 1;
    }
    let piece = String::from_str(expression.substring_char(start, hi));
    r.push(piece);
    assert(t.take(hi - lo) =~= t);
    assert(r@.map_values(|t: String| t@) =~= tokens_of(s));
    r
}

} // verus!
