//! Text as a sequence of characters: whitespace, trimming, searching, and the
//! conversions between strings and character vectors.
//!
//! All lengths and positions in this crate count characters, never bytes.

use vstd::prelude::*;
use vstd::slice::slice_subrange;

verus! {

/// `String::push` appends the given character to the end of the string.
pub assume_specification[ String::push ](s: &mut String, c: char)
    ensures
        final(s)@ == old(s)@.push(c),
;

/// Whether `c` is white space: the characters U+0009 to U+000D, U+0020,
/// U+0085, U+00A0, U+1680, U+2000 to U+200A, U+2028, U+2029, U+202F, U+205F
/// and U+3000.
pub open spec fn is_whitespace(c: char) -> bool {
    let n = c as u32;
    ||| 0x09 <= n <= 0x0D
    ||| n == 0x20
    ||| n == 0x85
    ||| n == 0xA0
    ||| n == 0x1680
    ||| 0x2000 <= n <= 0x200A
    ||| n == 0x2028
    ||| n == 0x2029
    ||| n == 0x202F
    ||| n == 0x205F
    ||| n == 0x3000
}

/// The number of white-space characters that `s` starts with.
pub open spec fn leading_whitespace(s: Seq<char>) -> nat
    decreases s.len(),
{
    if s.len() > 0 && is_whitespace(s[0]) {
        1 + leading_whitespace(s.skip(1))
    } else {
        0
    }
}

/// The number of white-space characters that `s` ends with.
pub open spec fn trailing_whitespace(s: Seq<char>) -> nat
    decreases s.len(),
{
    if s.len() > 0 && is_whitespace(s.last()) {
        1 + trailing_whitespace(s.drop_last())
    } else {
        0
    }
}

/// `s` without its leading white space.
pub open spec fn trimmed_start(s: Seq<char>) -> Seq<char> {
    s.skip(leading_whitespace(s) as int)
}

/// `s` without its trailing white space.
pub open spec fn trimmed_end(s: Seq<char>) -> Seq<char> {
    s.take(s.len() - trailing_whitespace(s))
}

/// `s` without its leading and trailing white space.
pub open spec fn trimmed(s: Seq<char>) -> Seq<char> {
    trimmed_end(trimmed_start(s))
}

/// Whether every character of `s` is white space.
pub open spec fn is_blank(s: Seq<char>) -> bool {
    forall|i: int| 0 <= i < s.len() ==> is_whitespace(#[trigger] s[i])
}

/// The characters of `s` that are not white space, in order.
pub open spec fn non_whitespace(s: Seq<char>) -> Seq<char>
    decreases s.len(),
{
    if s.len() == 0 {
        Seq::empty()
    } else if is_whitespace(s[0]) {
        non_whitespace(s.skip(1))
    } else {
        seq![s[0]] + non_whitespace(s.skip(1))
    }
}

/// The position of the last `c` in `s`, or -1 where `s` holds none.
pub open spec fn last_index_of(s: Seq<char>, c: char) -> int
    decreases s.len(),
{
    if s.len() == 0 {
        -1
    } else if s.last() == c {
        s.len() - 1
    } else {
        last_index_of(s.drop_last(), c)
    }
}

/// `leading_whitespace(s)` is the length of the longest prefix of `s` made of
/// white space only.
pub proof fn lemma_leading_whitespace(s: Seq<char>)
    ensures
        leading_whitespace(s) <= s.len(),
        forall|i: int| 0 <= i < leading_whitespace(s) ==> is_whitespace(#[trigger] s[i]),
        leading_whitespace(s) < s.len() ==> !is_whitespace(s[leading_whitespace(s) as int]),
    decreases s.len(),
{
    if s.len() > 0 && is_whitespace(s[0]) {
        let rest = s.skip(1);
        lemma_leading_whitespace(rest);
        assert forall|i: int| 0 <= i < leading_whitespace(s) implies is_whitespace(
            #[trigger] s[i],
        ) by {
            if i > 0 {
                assert(s[i] == rest[i - 1]);
            }
        }
        if leading_whitespace(s) < s.len() {
            assert(s[leading_whitespace(s) as int] == rest[leading_whitespace(rest) as int]);
        }
    }
}

/// `trailing_whitespace(s)` is the length of the longest suffix of `s` made of
/// white space only.
pub proof fn lemma_trailing_whitespace(s: Seq<char>)
    ensures
        trailing_whitespace(s) <= s.len(),
        forall|i: int|
            s.len() - trailing_whitespace(s) <= i < s.len() ==> is_whitespace(#[trigger] s[i]),
        trailing_whitespace(s) < s.len() ==> !is_whitespace(
            s[s.len() - trailing_whitespace(s) - 1],
        ),
    decreases s.len(),
{
    if s.len() > 0 && is_whitespace(s.last()) {
        let rest = s.drop_last();
        lemma_trailing_whitespace(rest);
        assert forall|i: int|
            s.len() - trailing_whitespace(s) <= i < s.len() implies is_whitespace(
            #[trigger] s[i],
        ) by {
            if i < s.len() - 1 {
                assert(s[i] == rest[i]);
            }
        }
        if trailing_whitespace(s) < s.len() {
            assert(s[s.len() - trailing_whitespace(s) - 1] == rest[rest.len()
                - trailing_whitespace(rest) - 1]);
        }
    }
}

/// A prefix of white space followed by a character that is none is all the
/// leading white space there is.
pub proof fn lemma_leading_whitespace_is(s: Seq<char>, n: int)
    requires
        0 <= n <= s.len(),
        forall|i: int| 0 <= i < n ==> is_whitespace(#[trigger] s[i]),
        n < s.len() ==> !is_whitespace(s[n]),
    ensures
        leading_whitespace(s) == n,
{
    lemma_leading_whitespace(s);
    let m = leading_whitespace(s) as int;
    if m < n {
        assert(is_whitespace(s[m]));
    } else if n < m {
        assert(is_whitespace(s[n]));
    }
}

/// A suffix of white space preceded by a character that is none is all the
/// trailing white space there is.
pub proof fn lemma_trailing_whitespace_is(s: Seq<char>, n: int)
    requires
        0 <= n <= s.len(),
        forall|i: int| s.len() - n <= i < s.len() ==> is_whitespace(#[trigger] s[i]),
        n < s.len() ==> !is_whitespace(s[s.len() - n - 1]),
    ensures
        trailing_whitespace(s) == n,
{
    lemma_trailing_whitespace(s);
    let m = trailing_whitespace(s) as int;
    if m < n {
        assert(is_whitespace(s[s.len() - m - 1]));
    } else if n < m {
        assert(is_whitespace(s[s.len() - n - 1]));
    }
}

/// What trimming leaves: nothing of a blank text; otherwise a text that
/// begins and ends with a character that is not white space.
pub proof fn lemma_trimmed_ends(s: Seq<char>)
    ensures
        trimmed(s).len() <= s.len(),
        is_blank(s) <==> trimmed(s).len() == 0,
        trimmed(s).len() > 0 ==> !is_whitespace(trimmed(s)[0]) && !is_whitespace(
            trimmed(s).last(),
        ),
        trimmed(s) == s.subrange(
            leading_whitespace(s) as int,
            (leading_whitespace(s) + trimmed(s).len()) as int,
        ),
{
    lemma_leading_whitespace(s);
    let t = trimmed_start(s);
    lemma_trailing_whitespace(t);
    let lead = leading_whitespace(s) as int;
    if t.len() > 0 {
        assert(t[0] == s[lead]);
        assert(trailing_whitespace(t) < t.len()) by {
            if trailing_whitespace(t) == t.len() {
                assert(is_whitespace(t[0]));
            }
        }
        assert(trimmed(s)[0] == t[0]);
        assert(!is_blank(s));
    } else {
        assert(is_blank(s));
    }
    assert(trimmed(s) =~= s.subrange(lead, lead + trimmed(s).len()));
}

/// Trimming the start leaves a text that does not begin with white space.
pub proof fn lemma_trimmed_start_ends(s: Seq<char>)
    ensures
        trimmed_start(s).len() <= s.len(),
        trimmed_start(s).len() > 0 ==> !is_whitespace(trimmed_start(s)[0]),
{
    lemma_leading_whitespace(s);
}

/// A text that neither begins nor ends with white space is its own trimming.
pub proof fn lemma_trimmed_fixed(s: Seq<char>)
    requires
        s.len() > 0 ==> !is_whitespace(s[0]) && !is_whitespace(s.last()),
    ensures
        trimmed(s) == s,
{
    assert(trimmed_start(s) =~= s);
    assert(trimmed_end(s) =~= s);
}

/// Trimming twice is trimming once.
pub proof fn lemma_trimmed_idempotent(s: Seq<char>)
    ensures
        trimmed(trimmed(s)) == trimmed(s),
{
    lemma_trimmed_ends(s);
    lemma_trimmed_fixed(trimmed(s));
}

/// What is not white space in `a + b` is what is not in `a`, then what is
/// not in `b`.
pub proof fn lemma_non_whitespace_concat(a: Seq<char>, b: Seq<char>)
    ensures
        non_whitespace(a + b) == non_whitespace(a) + non_whitespace(b),
    decreases a.len(),
{
    if a.len() == 0 {
        assert(a + b =~= b);
        assert(non_whitespace(a) + non_whitespace(b) =~= non_whitespace(b));
    } else {
        assert((a + b).skip(1) =~= a.skip(1) + b);
        lemma_non_whitespace_concat(a.skip(1), b);
        assert(non_whitespace(a + b) =~= non_whitespace(a) + non_whitespace(b));
    }
}

/// A blank text holds nothing but white space.
pub proof fn lemma_non_whitespace_blank(s: Seq<char>)
    requires
        is_blank(s),
    ensures
        non_whitespace(s) == Seq::<char>::empty(),
    decreases s.len(),
{
    if s.len() > 0 {
        assert(is_whitespace(s[0]));
        assert forall|i: int| 0 <= i < s.skip(1).len() implies is_whitespace(
            #[trigger] s.skip(1)[i],
        ) by {
            assert(s.skip(1)[i] == s[i + 1]);
        }
        lemma_non_whitespace_blank(s.skip(1));
    }
}

/// Trimming removes white space only.
pub proof fn lemma_non_whitespace_trimmed(s: Seq<char>)
    ensures
        non_whitespace(trimmed_start(s)) == non_whitespace(s),
        non_whitespace(trimmed_end(s)) == non_whitespace(s),
        non_whitespace(trimmed(s)) == non_whitespace(s),
{
    lemma_leading_whitespace(s);
    lemma_trailing_whitespace(s);
    let lead = leading_whitespace(s) as int;
    let keep = s.len() - trailing_whitespace(s);
    assert(s =~= s.take(lead) + s.skip(lead));
    lemma_non_whitespace_blank(s.take(lead));
    lemma_non_whitespace_concat(s.take(lead), s.skip(lead));
    assert(non_whitespace(s.take(lead)) + non_whitespace(s.skip(lead)) =~= non_whitespace(
        s.skip(lead),
    ));
    assert(s =~= s.take(keep) + s.skip(keep));
    lemma_non_whitespace_blank(s.skip(keep));
    lemma_non_whitespace_concat(s.take(keep), s.skip(keep));
    assert(non_whitespace(s.take(keep)) + non_whitespace(s.skip(keep)) =~= non_whitespace(
        s.take(keep),
    ));
    let t = trimmed_start(s);
    lemma_trailing_whitespace(t);
    let keep_t = t.len() - trailing_whitespace(t);
    assert(t =~= t.take(keep_t) + t.skip(keep_t));
    lemma_non_whitespace_blank(t.skip(keep_t));
    lemma_non_whitespace_concat(t.take(keep_t), t.skip(keep_t));
    assert(non_whitespace(t.take(keep_t)) + non_whitespace(t.skip(keep_t)) =~= non_whitespace(
        t.take(keep_t),
    ));
}

/// Cutting a text at a white-space character, and dropping that character,
/// loses nothing that is not white space.
pub proof fn lemma_non_whitespace_cut(s: Seq<char>, at: int)
    requires
        0 <= at < s.len(),
        is_whitespace(s[at]),
    ensures
        non_whitespace(s) == non_whitespace(s.take(at)) + non_whitespace(s.skip(at + 1)),
{
    let gap = seq![s[at]];
    assert(s =~= s.take(at) + (gap + s.skip(at + 1)));
    lemma_non_whitespace_concat(s.take(at), gap + s.skip(at + 1));
    lemma_non_whitespace_concat(gap, s.skip(at + 1));
    assert(is_blank(gap));
    lemma_non_whitespace_blank(gap);
    assert(non_whitespace(gap) + non_whitespace(s.skip(at + 1)) =~= non_whitespace(
        s.skip(at + 1),
    ));
}

/// `last_index_of(s, c)` is a position of `c` behind which `s` holds no `c`,
/// or -1 exactly when `s` holds no `c` at all.
pub proof fn lemma_last_index_of(s: Seq<char>, c: char)
    ensures
        -1 <= last_index_of(s, c) < s.len(),
        last_index_of(s, c) >= 0 ==> s[last_index_of(s, c)] == c,
        forall|j: int| last_index_of(s, c) < j < s.len() ==> #[trigger] s[j] != c,
    decreases s.len(),
{
    if s.len() > 0 && s.last() != c {
        let rest = s.drop_last();
        lemma_last_index_of(rest, c);
        assert forall|j: int| last_index_of(s, c) < j < s.len() implies #[trigger] s[j] != c by {
            if j < s.len() - 1 {
                assert(s[j] == rest[j]);
            }
        }
    }
}

/// Tests a character for white space.
pub fn char_is_whitespace(c: char) -> (b: bool)
    ensures
        b == is_whitespace(c),
{
    let n: u32 = c as u32;
    (0x09 <= n && n <= 0x0D) || n == 0x20 || n == 0x85 || n == 0xA0 || n == 0x1680 || (0x2000 <= n
        && n <= 0x200A) || n == 0x2028 || n == 0x2029 || n == 0x202F || n == 0x205F || n == 0x3000
}

/// Finds the last `c` in `s`.
pub fn rfind(s: &[char], c: char) -> (found: Option<usize>)
    ensures
        match found {
            Some(i) => i == last_index_of(s@, c),
            None => last_index_of(s@, c) == -1,
        },
{
    let mut end: usize = s.len();
    assert(s@.take(end as int) =~= s@);
    while end > 0
        invariant
            end <= s.len(),
            last_index_of(s@, c) == last_index_of(s@.take(end as int), c),
        decreases end,
    {
        assert(s@.take(end as int).drop_last() =~= s@.take(end - 1));
        if s[end - 1] == c {
            return Some(end - 1);
        }
        end -= 1;
    }
    None
}

/// The characters of a string, in order.
pub fn to_chars(s: &str) -> (chars: Vec<char>)
    ensures
        chars@ == s@,
{
    let mut chars: Vec<char> = Vec::new();
    for c in it: s.chars()
        invariant
            it.seq() == s@,
            chars@ == it.seq().take(it.index() as int),
    {
        chars.push(c);
    }
    chars
}

/// The string made of the given characters, in order.
pub fn from_chars(chars: &[char]) -> (s: String)
    ensures
        s@ == chars@,
{
    let mut s = String::new();
    let mut i: usize = 0;
    while i < chars.len()
        invariant
            i <= chars.len(),
            s@ == chars@.take(i as int),
        decreases chars.len() - i,
    {
        s.push(chars[i]);
        i += 1;
    }
    s
}

/// Removes leading white space.
pub fn trim_start<'a>(s: &'a [char]) -> (t: &'a [char])
    ensures
        t@ == trimmed_start(s@),
{
    let mut i: usize = 0;
    while i < s.len() && char_is_whitespace(s[i])
        invariant
            i <= s.len(),
            forall|j: int| 0 <= j < i ==> is_whitespace(#[trigger] s@[j]),
        decreases s.len() - i,
    {
        i += 1;
    }
    proof {
        lemma_leading_whitespace_is(s@, i as int);
    }
    slice_subrange(s, i, s.len())
}

/// Removes trailing white space.
pub fn trim_end<'a>(s: &'a [char]) -> (t: &'a [char])
    ensures
        t@ == trimmed_end(s@),
{
    let mut end: usize = s.len();
    while end > 0 && char_is_whitespace(s[end - 1])
        invariant
            end <= s.len(),
            forall|j: int| end <= j < s.len() ==> is_whitespace(#[trigger] s@[j]),
        decreases end,
    {
        end -= 1;
    }
    proof {
        lemma_trailing_whitespace_is(s@, s.len() - end);
    }
    slice_subrange(s, 0, end)
}

/// Removes leading and trailing white space.
pub fn trim<'a>(s: &'a [char]) -> (t: &'a [char])
    ensures
        t@ == trimmed(s@),
{
    trim_end(trim_start(s))
}

} // verus!
