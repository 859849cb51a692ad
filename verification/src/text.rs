use vstd::prelude::*;
use vstd::string::StrSliceExecFns;
use vstd::string::StringExecFns;

verus! {

/// Whether `c` has the Unicode `White_Space` property, which is what `char::is_whitespace`
/// answers: tab, line feed, vertical tab, form feed, carriage return, space, next line,
/// no-break space, ogham space mark, the spaces U+2000 to U+200A, line separator,
/// paragraph separator, narrow no-break space, medium mathematical space and ideographic
/// space.
pub open spec fn is_white_space(c: char) -> bool {
    let u = c as u32;
    ||| 0x09 <= u <= 0x0D
    ||| u == 0x20
    ||| u == 0x85
    ||| u == 0xA0
    ||| u == 0x1680
    ||| 0x2000 <= u <= 0x200A
    ||| u == 0x2028
    ||| u == 0x2029
    ||| u == 0x202F
    ||| u == 0x205F
    ||| u == 0x3000
}

/// Whether `c` is white space (see [`is_white_space`]).
pub fn char_is_whitespace(c: char) -> (res: bool)
    ensures
        res == is_white_space(c),
{
    let u = c as u32;
    (0x09 <= u && u <= 0x0D) || u == 0x20 || u == 0x85 || u == 0xA0 || u == 0x1680 || (0x2000
        <= u && u <= 0x200A) || u == 0x2028 || u == 0x2029 || u == 0x202F || u == 0x205F || u
        == 0x3000
}

/// The index of the first character at or after `i` that is not white space
/// (or `s.len()` when there is none).
pub open spec fn skip_white_space(s: Seq<char>, i: int) -> int
    decreases s.len() - i,
{
    if 0 <= i < s.len() && is_white_space(s[i]) {
        skip_white_space(s, i + 1)
    } else {
        i
    }
}

/// The end of `s.subrange(lo, j)` once trailing white space is removed.
pub open spec fn drop_trailing_white_space(s: Seq<char>, lo: int, j: int) -> int
    decreases j - lo,
{
    if lo < j <= s.len() && is_white_space(s[j - 1]) {
        drop_trailing_white_space(s, lo, j - 1)
    } else {
        j
    }
}

/// `s` without its leading and trailing white space, as `str::trim` gives it.
pub open spec fn trimmed(s: Seq<char>) -> Seq<char> {
    let lo = skip_white_space(s, 0);
    s.subrange(lo, drop_trailing_white_space(s, lo, s.len() as int))
}

/// Skipping white space from `i` stops at the first character that is not white space.
pub proof fn lemma_skip_white_space(s: Seq<char>, i: int)
    requires
        0 <= i <= s.len(),
    ensures
        i <= skip_white_space(s, i) <= s.len(),
        forall|k: int| i <= k < skip_white_space(s, i) ==> is_white_space(#[trigger] s[k]),
        skip_white_space(s, i) < s.len() ==> !is_white_space(s[skip_white_space(s, i)]),
    decreases s.len() - i,
{
    if i < s.len() && is_white_space(s[i]) {
        lemma_skip_white_space(s, i + 1);
    }
}

/// Dropping trailing white space stops after the last character that is not white space.
pub proof fn lemma_drop_trailing_white_space(s: Seq<char>, lo: int, j: int)
    requires
        0 <= lo <= j <= s.len(),
    ensures
        lo <= drop_trailing_white_space(s, lo, j) <= j,
        forall|k: int| drop_trailing_white_space(s, lo, j) <= k < j ==> is_white_space(#[trigger] s[k]),
        drop_trailing_white_space(s, lo, j) > lo ==> !is_white_space(
            s[drop_trailing_white_space(s, lo, j) - 1],
        ),
    decreases j - lo,
{
    if lo < j && is_white_space(s[j - 1]) {
        lemma_drop_trailing_white_space(s, lo, j - 1);
    }
}

/// Trimming takes off exactly the white space at both ends: the trimmed text is a
/// stretch of `s` with only white space around it, and it neither starts nor ends with
/// white space. Trimming it again changes nothing.
pub proof fn lemma_trimmed(s: Seq<char>)
    ensures
        exists|lo: int, hi: int|
            #![trigger s.subrange(lo, hi)]
            0 <= lo <= hi <= s.len() && trimmed(s) == s.subrange(lo, hi) && (forall|k: int|
                0 <= k < lo ==> is_white_space(#[trigger] s[k])) && (forall|k: int|
                hi <= k < s.len() ==> is_white_space(#[trigger] s[k])),
        trimmed(s).len() > 0 ==> !is_white_space(trimmed(s)[0]) && !is_white_space(
            trimmed(s).last(),
        ),
        trimmed(trimmed(s)) == trimmed(s),
{
    let lo = skip_white_space(s, 0);
    lemma_skip_white_space(s, 0);
    let hi = drop_trailing_white_space(s, lo, s.len() as int);
    lemma_drop_trailing_white_space(s, lo, s.len() as int);
    let t = trimmed(s);
    assert(t == s.subrange(lo, hi));
    if t.len() > 0 {
        assert(t[0] == s[lo]);
        assert(t.last() == s[hi - 1]);
    }
    assert(skip_white_space(t, 0) == 0);
    assert(drop_trailing_white_space(t, 0, t.len() as int) == t.len());
    assert(t.subrange(0, t.len() as int) =~= t);
}

/// The characters of `s`, in order.
pub fn chars_of(s: &str) -> (v: Vec<char>)
    ensures
        v@ == s@,
{
    let n = s.unicode_len();
    let mut v: Vec<char> = Vec::new();
    let mut i: usize = 0;
    while i < n
        invariant
            n == s@.len(),
            i <= n,
            v@ == s@.take(i as int),
        decreases n - i,
    {
        let c = s.get_char(i);
        v.push(c);
        i = i + 1;
        assert(v@ =~= s@.take(i as int));
    }
    assert(v@ =~= s@);
    v
}

/// `s` without leading and trailing white space.
pub fn trim(s: &str) -> (res: &str)
    ensures
        res@ == trimmed(s@),
{
    let v = chars_of(s);
    let n = v.len();
    let mut lo: usize = 0;
    while lo < n && char_is_whitespace(v[lo])
        invariant
            n == s@.len(),
            v@ == s@,
            lo <= n,
            skip_white_space(s@, lo as int) == skip_white_space(s@, 0),
        decreases n - lo,
    {
        lo = lo + 1;
    }
    let mut hi: usize = n;
    while hi > lo && char_is_whitespace(v[hi - 1])
        invariant
            n == s@.len(),
            v@ == s@,
            lo <= hi <= n,
            lo as int == skip_white_space(s@, 0),
            drop_trailing_white_space(s@, lo as int, hi as int) == drop_trailing_white_space(
                s@,
                lo as int,
                n as int,
            ),
        decreases hi - lo,
    {
        hi = hi - 1;
    }
    s.substring_char(lo, hi)
}

/// Whether `a` and `b` hold the same characters.
pub fn same_text(a: &str, b: &str) -> (res: bool)
    ensures
        res == (a@ == b@),
{
    let a_owned = a.to_owned();
    let b_owned = b.to_owned();
    a_owned == b_owned
}

/// The concatenation of `a`, `b` and `c`.
pub fn concat3(a: &str, b: &str, c: &str) -> (res: String)
    ensures
        res@ == a@ + b@ + c@,
{
    let mut out = String::from_str(a);
    out.append(b);
    out.append(c);
    out
}

} // verus!
