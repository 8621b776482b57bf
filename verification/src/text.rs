//! Character-level helpers shared by the lexer and the renderer: searching,
//! trimming, slicing and HTML escaping, each with its mathematical
//! counterpart on `Seq<char>`.

use vstd::prelude::*;
use vstd::string::*;

verus! {

/// `String::push` appends the given character to the end of the string.
pub assume_specification[ String::push ](s: &mut String, ch: char)
    ensures
        final(s)@ == old(s)@.push(ch),
;

/// The characters that count as whitespace around a tag's name.
pub open spec fn is_space(c: char) -> bool {
    c == ' ' || c == '\t' || c == '\n' || c == '\r'
}

/// `pat` occurs in `s` at index `at`.
pub open spec fn matches_at(s: Seq<char>, pat: Seq<char>, at: int) -> bool {
    0 <= at && at + pat.len() <= s.len() && s.subrange(at, at + pat.len()) == pat
}

/// The index of the first occurrence of `pat` in `s` at or after `from`. An
/// empty pattern is never found.
pub open spec fn find(s: Seq<char>, pat: Seq<char>, from: int) -> Option<int>
    decreases s.len() - from,
{
    if pat.len() == 0 || from < 0 || from + pat.len() > s.len() {
        None
    } else if matches_at(s, pat, from) {
        Some(from)
    } else {
        find(s, pat, from + 1)
    }
}

/// `s` without its leading whitespace.
pub open spec fn trim_start(s: Seq<char>) -> Seq<char>
    decreases s.len(),
{
    if s.len() > 0 && is_space(s[0]) {
        trim_start(s.drop_first())
    } else {
        s
    }
}

/// `s` without its trailing whitespace.
pub open spec fn trim_end(s: Seq<char>) -> Seq<char>
    decreases s.len(),
{
    if s.len() > 0 && is_space(s.last()) {
        trim_end(s.drop_last())
    } else {
        s
    }
}

/// `s` without the whitespace at either end.
pub open spec fn trim(s: Seq<char>) -> Seq<char> {
    trim_end(trim_start(s))
}

/// The number of characters before the first whitespace of `s`.
pub open spec fn word_len(s: Seq<char>) -> nat
    decreases s.len(),
{
    if s.len() > 0 && !is_space(s[0]) {
        1 + word_len(s.drop_first())
    } else {
        0
    }
}

/// What one character becomes in escaped output.
pub open spec fn escape_char(c: char) -> Seq<char> {
    if c == '&' {
        seq!['&', 'a', 'm', 'p', ';']
    } else if c == '<' {
        seq!['&', 'l', 't', ';']
    } else if c == '>' {
        seq!['&', 'g', 't', ';']
    } else if c == '"' {
        seq!['&', 'q', 'u', 'o', 't', ';']
    } else if c == '\'' {
        seq!['&', '#', '3', '9', ';']
    } else {
        seq![c]
    }
}

/// `s` with each of `&`, `<`, `>`, `"` and `'` replaced by its HTML entity.
pub open spec fn escape(s: Seq<char>) -> Seq<char>
    decreases s.len(),
{
    if s.len() == 0 {
        Seq::empty()
    } else {
        escape(s.drop_last()) + escape_char(s.last())
    }
}

/// An occurrence found by `find` is the first one at or after `from`.
pub proof fn lemma_find_some(s: Seq<char>, pat: Seq<char>, from: int)
    requires
        find(s, pat, from) is Some,
    ensures
        from <= find(s, pat, from).unwrap(),
        matches_at(s, pat, find(s, pat, from).unwrap()),
        forall|k: int| from <= k < find(s, pat, from).unwrap() ==> !matches_at(s, pat, k),
    decreases s.len() - from,
{
    if !matches_at(s, pat, from) {
        lemma_find_some(s, pat, from + 1);
    }
}

/// Where `find` finds nothing, `pat` does not occur at or after `from`.
pub proof fn lemma_find_none(s: Seq<char>, pat: Seq<char>, from: int)
    requires
        0 <= from,
        pat.len() > 0,
        find(s, pat, from) is None,
    ensures
        forall|k: int| from <= k ==> !matches_at(s, pat, k),
    decreases s.len() - from,
{
    if pat.len() > 0 && from + pat.len() <= s.len() {
        lemma_find_none(s, pat, from + 1);
    }
}

pub(crate) fn is_whitespace(c: char) -> (r: bool)
    ensures
        r == is_space(c),
{
    c == ' ' || c == '\t' || c == '\n' || c == '\r'
}

/// The characters of `s`, in order.
pub(crate) fn chars_of(s: &str) -> (out: Vec<char>)
    ensures
        out@ == s@,
{
    let mut out: Vec<char> = Vec::new();
    for c in it: s.chars()
        invariant
            out@ == it.seq().take(it.index() as int),
            it.seq() == s@,
    {
        out.push(c);
    }
    out
}

/// The characters `chars[from..to]` as a string.
pub(crate) fn string_of(chars: &Vec<char>, from: usize, to: usize) -> (out: String)
    requires
        from <= to <= chars.len(),
    ensures
        out@ == chars@.subrange(from as int, to as int),
{
    let mut out = String::new();
    let mut i: usize = from;
    while i < to
        invariant
            from <= i <= to <= chars.len(),
            out@ == chars@.subrange(from as int, i as int),
        decreases to - i,
    {
        out.push(chars[i]);
        i += 1;
    }
    out
}

/// Whether `pat` occurs in `s` at index `at`.
pub(crate) fn occurs_at(s: &Vec<char>, pat: &Vec<char>, at: usize) -> (r: bool)
    requires
        at + pat.len() <= s.len(),
    ensures
        r == matches_at(s@, pat@, at as int),
{
    let mut k: usize = 0;
    while k < pat.len()
        invariant
            k <= pat.len(),
            at + pat.len() <= s.len(),
            s@.subrange(at as int, at + k) == pat@.subrange(0, k as int),
        decreases pat.len() - k,
    {
        if s[at + k] != pat[k] {
            proof {
                let sub = s@.subrange(at as int, at + pat.len());
                assert(sub[k as int] != pat@[k as int]);
            }
            return false;
        }
        k += 1;
    }
    proof {
        assert(pat@.subrange(0, pat.len() as int) == pat@);
    }
    true
}

/// The first index at or after `from` at which `pat` occurs in `s`.
pub(crate) fn find_from(s: &Vec<char>, pat: &Vec<char>, from: usize) -> (r: Option<usize>)
    ensures
        match r {
            Some(j) => find(s@, pat@, from as int) == Some(j as int),
            None => find(s@, pat@, from as int) is None,
        },
{
    if pat.len() == 0 || pat.len() > s.len() {
        return None;
    }
    let last: usize = s.len() - pat.len();
    let mut i: usize = from;
    while i <= last
        invariant
            from <= i,
            pat.len() > 0,
            last == s.len() - pat.len(),
            find(s@, pat@, from as int) == find(s@, pat@, i as int),
        decreases last + 1 - i,
    {
        if occurs_at(s, pat, i) {
            return Some(i);
        }
        i += 1;
    }
    None
}

/// The characters `chars[from..to]` as a vector of their own.
pub(crate) fn slice_of(chars: &Vec<char>, from: usize, to: usize) -> (out: Vec<char>)
    requires
        from <= to <= chars.len(),
    ensures
        out@ == chars@.subrange(from as int, to as int),
{
    let mut out: Vec<char> = Vec::new();
    let mut i: usize = from;
    while i < to
        invariant
            from <= i <= to <= chars.len(),
            out@ == chars@.subrange(from as int, i as int),
        decreases to - i,
    {
        out.push(chars[i]);
        i += 1;
    }
    out
}

/// `first` followed by the characters of `rest`.
pub(crate) fn with_first(first: char, rest: &Vec<char>) -> (out: Vec<char>)
    ensures
        out@ == seq![first] + rest@,
{
    let mut out: Vec<char> = Vec::new();
    out.push(first);
    let mut i: usize = 0;
    while i < rest.len()
        invariant
            i <= rest.len(),
            out@ == seq![first] + rest@.subrange(0, i as int),
        decreases rest.len() - i,
    {
        out.push(rest[i]);
        i += 1;
    }
    out
}

/// The first index in `[from, to]` that does not hold leading whitespace of
/// `chars[from..to]`.
pub(crate) fn skip_spaces(chars: &Vec<char>, from: usize, to: usize) -> (a: usize)
    requires
        from <= to <= chars.len(),
    ensures
        from <= a <= to,
        chars@.subrange(a as int, to as int) == trim_start(chars@.subrange(from as int, to as int)),
{
    let mut a: usize = from;
    while a < to && is_whitespace(chars[a])
        invariant
            from <= a <= to <= chars.len(),
            trim_start(chars@.subrange(from as int, to as int)) == trim_start(
                chars@.subrange(a as int, to as int),
            ),
        decreases to - a,
    {
        proof {
            let cur = chars@.subrange(a as int, to as int);
            assert(cur.drop_first() == chars@.subrange(a + 1, to as int));
        }
        a += 1;
    }
    a
}

/// The first index in `[from, to]` that holds whitespace, or `to`.
pub(crate) fn skip_word(chars: &Vec<char>, from: usize, to: usize) -> (a: usize)
    requires
        from <= to <= chars.len(),
    ensures
        from <= a <= to,
        a - from == word_len(chars@.subrange(from as int, to as int)),
{
    let mut a: usize = from;
    while a < to && !is_whitespace(chars[a])
        invariant
            from <= a <= to <= chars.len(),
            word_len(chars@.subrange(from as int, to as int)) == (a - from) + word_len(
                chars@.subrange(a as int, to as int),
            ),
        decreases to - a,
    {
        proof {
            let cur = chars@.subrange(a as int, to as int);
            assert(cur.drop_first() == chars@.subrange(a + 1, to as int));
        }
        a += 1;
    }
    a
}

/// Narrows `[from, to)` to the part of `chars` that is left after trimming.
pub(crate) fn trim_range(chars: &Vec<char>, from: usize, to: usize) -> (r: (usize, usize))
    requires
        from <= to <= chars.len(),
    ensures
        from <= r.0 <= r.1 <= to,
        chars@.subrange(r.0 as int, r.1 as int) == trim(chars@.subrange(from as int, to as int)),
{
    let a: usize = skip_spaces(chars, from, to);
    let mut b: usize = to;
    while b > a && is_whitespace(chars[b - 1])
        invariant
            a <= b <= to <= chars.len(),
            trim_end(chars@.subrange(a as int, to as int)) == trim_end(
                chars@.subrange(a as int, b as int),
            ),
        decreases b - a,
    {
        proof {
            let cur = chars@.subrange(a as int, b as int);
            assert(cur.drop_last() == chars@.subrange(a as int, b - 1));
        }
        b -= 1;
    }
    (a, b)
}

/// Appends the escaped form of one character to `out`.
pub(crate) fn push_escaped(out: &mut String, c: char)
    ensures
        final(out)@ == old(out)@ + escape_char(c),
{
    if c == '&' {
        proof {
            reveal_strlit("&amp;");
        }
        out.append("&amp;");
    } else if c == '<' {
        proof {
            reveal_strlit("&lt;");
        }
        out.append("&lt;");
    } else if c == '>' {
        proof {
            reveal_strlit("&gt;");
        }
        out.append("&gt;");
    } else if c == '"' {
        proof {
            reveal_strlit("&quot;");
        }
        out.append("&quot;");
    } else if c == '\'' {
        proof {
            reveal_strlit("&#39;");
        }
        out.append("&#39;");
    } else {
        out.push(c);
    }
}

/// Appends `s` to `out`, escaped for HTML.
pub(crate) fn push_escaped_str(out: &mut String, s: &str)
    ensures
        final(out)@ == old(out)@ + escape(s@),
{
    let ghost before = out@;
    for c in it: s.chars()
        invariant
            it.seq() == s@,
            out@ == before + escape(s@.take(it.index() as int)),
    {
        proof {
            let next = s@.take(it.index() + 1);
            assert(next.drop_last() == s@.take(it.index() as int));
        }
        push_escaped(out, c);
    }
    proof {
        assert(s@.take(s@.len() as int) == s@);
    }
}

/// `s` with each of `&`, `<`, `>`, `"` and `'` replaced by its HTML entity.
pub fn escape_html(s: &str) -> (out: String)
    ensures
        out@ == escape(s@),
{
    let mut out = String::new();
    push_escaped_str(&mut out, s);
    out
}

} // verus!
