//! The lexer: template text to a sequence of tokens.
//!
//! A template is literal text with tags between an opening and a closing
//! delimiter, `{{` and `}}` until a tag of the form `{{=open close=}}` names
//! others. The character after the opening delimiter tells what a tag is.

use crate::error::{Error, ErrorView};
use crate::text::{
    chars_of, find, find_from, is_space, is_whitespace, lemma_find_some, skip_spaces, skip_word,
    slice_of, string_of, trim, trim_range, trim_start, with_first, word_len,
};
use vstd::prelude::*;
use vstd::string::*;

verus! {

/// What a tag asks for.
#[derive(Debug, Clone, Copy, PartialEq, Eq, Structural)]
pub enum TagKind {
    /// `{{name}}`: the value under `name`, escaped.
    Variable,
    /// `{{{name}}}` or `{{&name}}`: the value under `name`, as it is.
    UnescapedVariable,
    /// `{{#name}}`: the start of a section.
    SectionOpen,
    /// `{{^name}}`: the start of an inverted section.
    InvertedSectionOpen,
    /// `{{/name}}`: the end of a section.
    SectionClose,
    /// `{{>name}}`: the inclusion of another template.
    Partial,
    /// `{{!text}}`: a comment.
    Comment,
    /// `{{=open close=}}`: new delimiters for what follows.
    DelimiterChange,
}

/// A piece of a template: a run of literal text, or one tag with its kind,
/// its name and all that stood between its delimiters.
#[derive(Debug, PartialEq, Eq)]
pub enum Token {
    Text(String),
    Tag(TagKind, String, String),
}

/// A `Token` with its strings as sequences of characters.
pub enum TokenView {
    Text(Seq<char>),
    Tag(TagKind, Seq<char>, Seq<char>),
}

impl View for Token {
    type V = TokenView;

    open spec fn view(&self) -> TokenView {
        match self {
            Token::Text(text) => TokenView::Text(text@),
            Token::Tag(kind, name, raw) => TokenView::Tag(*kind, name@, raw@),
        }
    }
}

/// The views of `tokens`, in order.
pub open spec fn tokens_view(tokens: Seq<Token>) -> Seq<TokenView> {
    tokens.map_values(|t: Token| t@)
}

/// The opening delimiter at the start of a template.
pub open spec fn default_open() -> Seq<char> {
    seq!['{', '{']
}

/// The closing delimiter at the start of a template.
pub open spec fn default_close() -> Seq<char> {
    seq!['}', '}']
}

/// A delimiter is not empty and holds neither whitespace nor `=`.
pub open spec fn valid_delimiter(d: Seq<char>) -> bool {
    d.len() > 0 && forall|i: int| 0 <= i < d.len() ==> !is_space(#[trigger] d[i]) && d[i] != '='
}

/// The opening delimiter that a delimiter change with this body names: the
/// first word of the body.
pub open spec fn directive_open(body: Seq<char>) -> Seq<char> {
    trim(body).take(word_len(trim(body)) as int)
}

/// The closing delimiter that a delimiter change with this body names: what
/// follows the first word and the whitespace after it.
pub open spec fn directive_close(body: Seq<char>) -> Seq<char> {
    trim_start(trim(body).skip(word_len(trim(body)) as int))
}

/// The token of a tag that is neither a triple-brace tag nor a delimiter
/// change, from what stands between its delimiters.
pub open spec fn plain_tag(raw: Seq<char>) -> TokenView {
    if raw.len() > 0 && raw[0] == '#' {
        TokenView::Tag(TagKind::SectionOpen, trim(raw.drop_first()), raw)
    } else if raw.len() > 0 && raw[0] == '^' {
        TokenView::Tag(TagKind::InvertedSectionOpen, trim(raw.drop_first()), raw)
    } else if raw.len() > 0 && raw[0] == '/' {
        TokenView::Tag(TagKind::SectionClose, trim(raw.drop_first()), raw)
    } else if raw.len() > 0 && raw[0] == '>' {
        TokenView::Tag(TagKind::Partial, trim(raw.drop_first()), raw)
    } else if raw.len() > 0 && raw[0] == '!' {
        TokenView::Tag(TagKind::Comment, trim(raw.drop_first()), raw)
    } else if raw.len() > 0 && raw[0] == '&' {
        TokenView::Tag(TagKind::UnescapedVariable, trim(raw.drop_first()), raw)
    } else {
        TokenView::Tag(TagKind::Variable, trim(raw), raw)
    }
}

/// One tag as the lexer reads it: its token, the index after its closing
/// delimiter, and the delimiters in force behind it.
pub struct Scan {
    pub token: TokenView,
    pub end: int,
    pub open: Seq<char>,
    pub close: Seq<char>,
}

/// The tag whose content starts at `p`, just behind an opening delimiter.
///
/// A content that starts with `{` runs to the first `}` followed by the
/// closing delimiter, one that starts with `=` to the first `=` followed by
/// it, and any other to the first closing delimiter. There is no tag where
/// that end is missing, or where a delimiter change does not name two valid
/// delimiters.
pub open spec fn scan_tag(s: Seq<char>, p: int, open: Seq<char>, close: Seq<char>) -> Option<Scan> {
    if p < s.len() && s[p] == '{' {
        match find(s, seq!['}'] + close, p + 1) {
            Some(e) => Some(
                Scan {
                    token: TokenView::Tag(
                        TagKind::UnescapedVariable,
                        trim(s.subrange(p + 1, e)),
                        s.subrange(p, e + 1),
                    ),
                    end: e + 1 + close.len(),
                    open,
                    close,
                },
            ),
            None => None,
        }
    } else if p < s.len() && s[p] == '=' {
        match find(s, seq!['='] + close, p + 1) {
            Some(e) => {
                let body = s.subrange(p + 1, e);
                if valid_delimiter(directive_open(body)) && valid_delimiter(directive_close(body)) {
                    Some(
                        Scan {
                            token: TokenView::Tag(
                                TagKind::DelimiterChange,
                                trim(body),
                                s.subrange(p, e + 1),
                            ),
                            end: e + 1 + close.len(),
                            open: directive_open(body),
                            close: directive_close(body),
                        },
                    )
                } else {
                    None
                }
            },
            None => None,
        }
    } else {
        match find(s, close, p) {
            Some(e) => Some(
                Scan { token: plain_tag(s.subrange(p, e)), end: e + close.len(), open, close },
            ),
            None => None,
        }
    }
}

/// The text token for `s[pos..j]`, if there is any text there.
pub open spec fn text_before(s: Seq<char>, pos: int, j: int) -> Seq<TokenView> {
    if pos < j {
        seq![TokenView::Text(s.subrange(pos, j))]
    } else {
        Seq::empty()
    }
}

/// The tokens of `s` from `pos` on, read with the given delimiters.
pub open spec fn lex_from(s: Seq<char>, pos: int, open: Seq<char>, close: Seq<char>) -> Result<
    Seq<TokenView>,
    ErrorView,
>
    decreases s.len() - pos,
    via lex_from_decreases
{
    if pos < 0 || pos >= s.len() {
        Ok(Seq::empty())
    } else {
        match find(s, open, pos) {
            None => Ok(seq![TokenView::Text(s.subrange(pos, s.len() as int))]),
            Some(j) => match scan_tag(s, j + open.len(), open, close) {
                None => Err(ErrorView::MalformedTag),
                Some(scan) => match lex_from(s, scan.end, scan.open, scan.close) {
                    Err(e) => Err(e),
                    Ok(rest) => Ok(text_before(s, pos, j) + seq![scan.token] + rest),
                },
            },
        }
    }
}

#[via_fn]
proof fn lex_from_decreases(s: Seq<char>, pos: int, open: Seq<char>, close: Seq<char>) {
    if 0 <= pos < s.len() && find(s, open, pos) is Some {
        lemma_find_some(s, open, pos);
        let j: int = find(s, open, pos).unwrap();
        if scan_tag(s, j + open.len(), open, close) is Some {
            lemma_scan_tag(s, j + open.len(), open, close);
        }
    }
}

/// The tokens of the template `s`.
pub open spec fn lex(s: Seq<char>) -> Result<Seq<TokenView>, ErrorView> {
    lex_from(s, 0, default_open(), default_close())
}

/// `tokens` followed by what `rest` holds, or the error of `rest`.
pub open spec fn prepend(tokens: Seq<TokenView>, rest: Result<Seq<TokenView>, ErrorView>) -> Result<
    Seq<TokenView>,
    ErrorView,
> {
    match rest {
        Ok(more) => Ok(tokens + more),
        Err(e) => Err(e),
    }
}

/// A tag ends behind where its content starts, within the text, and leaves
/// valid delimiters in force if it was read with valid ones.
pub proof fn lemma_scan_tag(s: Seq<char>, p: int, open: Seq<char>, close: Seq<char>)
    requires
        0 <= p,
        scan_tag(s, p, open, close) is Some,
    ensures
        p <= scan_tag(s, p, open, close).unwrap().end <= s.len(),
        close.len() > 0 ==> p < scan_tag(s, p, open, close).unwrap().end,
        valid_delimiter(open) && valid_delimiter(close) ==> valid_delimiter(
            scan_tag(s, p, open, close).unwrap().open,
        ) && valid_delimiter(scan_tag(s, p, open, close).unwrap().close),
{
    if p < s.len() && s[p] == '{' {
        lemma_find_some(s, seq!['}'] + close, p + 1);
    } else if p < s.len() && s[p] == '=' {
        lemma_find_some(s, seq!['='] + close, p + 1);
    } else {
        lemma_find_some(s, close, p);
    }
}

/// Whether `chars[from..to]` can serve as a delimiter.
fn is_valid_delimiter(chars: &Vec<char>, from: usize, to: usize) -> (r: bool)
    requires
        from <= to <= chars.len(),
    ensures
        r == valid_delimiter(chars@.subrange(from as int, to as int)),
{
    if from == to {
        return false;
    }
    let ghost d = chars@.subrange(from as int, to as int);
    let mut i: usize = from;
    while i < to
        invariant
            from <= i <= to <= chars.len(),
            d == chars@.subrange(from as int, to as int),
            forall|k: int| 0 <= k < i - from ==> !is_space(#[trigger] d[k]) && d[k] != '=',
        decreases to - i,
    {
        if is_whitespace(chars[i]) || chars[i] == '=' {
            assert(d[i - from] == chars@[i as int]);
            return false;
        }
        i += 1;
    }
    true
}

/// The token of a tag that stands between plain delimiters, from its content
/// `chars[from..to]`.
fn plain_tag_of(chars: &Vec<char>, from: usize, to: usize) -> (token: Token)
    requires
        from <= to <= chars.len(),
    ensures
        token@ == plain_tag(chars@.subrange(from as int, to as int)),
{
    let ghost raw = chars@.subrange(from as int, to as int);
    let raw_text = string_of(chars, from, to);
    if from < to {
        let sigil = chars[from];
        assert(raw.drop_first() == chars@.subrange(from + 1, to as int));
        if sigil == '#' || sigil == '^' || sigil == '/' || sigil == '>' || sigil == '!' || sigil
            == '&' {
            let (a, b): (usize, usize) = trim_range(chars, from + 1, to);
            let name = string_of(chars, a, b);
            let kind = if sigil == '#' {
                TagKind::SectionOpen
            } else if sigil == '^' {
                TagKind::InvertedSectionOpen
            } else if sigil == '/' {
                TagKind::SectionClose
            } else if sigil == '>' {
                TagKind::Partial
            } else if sigil == '!' {
                TagKind::Comment
            } else {
                TagKind::UnescapedVariable
            };
            return Token::Tag(kind, name, raw_text);
        }
    }
    let (a, b): (usize, usize) = trim_range(chars, from, to);
    Token::Tag(TagKind::Variable, string_of(chars, a, b), raw_text)
}

/// Reads the tag whose content starts at `p`. On success the token and the
/// index behind the tag are returned, and `open` and `close` hold the
/// delimiters in force behind it.
fn scan_tag_at(chars: &Vec<char>, p: usize, open: &mut Vec<char>, close: &mut Vec<char>) -> (r:
    Option<(Token, usize)>)
    requires
        p <= chars.len(),
    ensures
        match r {
            Some((token, end)) => scan_tag(chars@, p as int, old(open)@, old(close)@) == Some(
                Scan { token: token@, end: end as int, open: final(open)@, close: final(close)@ },
            ),
            None => scan_tag(chars@, p as int, old(open)@, old(close)@) is None,
        },
{
    if p < chars.len() && chars[p] == '{' {
        let pat = with_first('}', close);
        match find_from(chars, &pat, p + 1) {
            Some(e) => {
                proof {
                    lemma_find_some(chars@, pat@, p + 1);
                }
                let (a, b): (usize, usize) = trim_range(chars, p + 1, e);
                let token = Token::Tag(
                    TagKind::UnescapedVariable,
                    string_of(chars, a, b),
                    string_of(chars, p, e + 1),
                );
                Some((token, e + 1 + close.len()))
            },
            None => None,
        }
    } else if p < chars.len() && chars[p] == '=' {
        let pat = with_first('=', close);
        match find_from(chars, &pat, p + 1) {
            Some(e) => {
                proof {
                    lemma_find_some(chars@, pat@, p + 1);
                }
                let ghost body = chars@.subrange(p + 1, e as int);
                let (a, b): (usize, usize) = trim_range(chars, p + 1, e);
                let w: usize = skip_word(chars, a, b);
                let c: usize = skip_spaces(chars, w, b);
                proof {
                    let t = trim(body);
                    assert(t.take(w - a) == chars@.subrange(a as int, w as int));
                    assert(t.skip(w - a) == chars@.subrange(w as int, b as int));
                }
                if is_valid_delimiter(chars, a, w) && is_valid_delimiter(chars, c, b) {
                    let token = Token::Tag(
                        TagKind::DelimiterChange,
                        string_of(chars, a, b),
                        string_of(chars, p, e + 1),
                    );
                    let end: usize = e + 1 + close.len();
                    *open = slice_of(chars, a, w);
                    *close = slice_of(chars, c, b);
                    Some((token, end))
                } else {
                    None
                }
            },
            None => None,
        }
    } else {
        match find_from(chars, close, p) {
            Some(e) => {
                proof {
                    lemma_find_some(chars@, close@, p as int);
                }
                Some((plain_tag_of(chars, p, e), e + close.len()))
            },
            None => None,
        }
    }
}

/// Splits a template into its tokens: each run of literal text and each tag,
/// in the order of the text. Fails with `MalformedTag` where a tag is not
/// closed or a delimiter change is malformed.
pub fn compile(text: &str) -> (r: Result<Vec<Token>, Error>)
    ensures
        match r {
            Ok(tokens) => lex(text@) == Ok::<Seq<TokenView>, ErrorView>(tokens_view(tokens@)),
            Err(e) => lex(text@) == Err::<Seq<TokenView>, ErrorView>(e@),
        },
{
    proof {
        reveal_strlit("{{");
        reveal_strlit("}}");
        assert("{{"@ == default_open());
        assert("}}"@ == default_close());
    }
    compile_with(text, "{{", "}}")
}

/// Splits a template into its tokens as `compile` does, with `open` and
/// `close` as the delimiters at its start.
pub fn compile_with(text: &str, open: &str, close: &str) -> (r: Result<Vec<Token>, Error>)
    ensures
        match r {
            Ok(tokens) => lex_from(text@, 0, open@, close@) == Ok::<Seq<TokenView>, ErrorView>(
                tokens_view(tokens@),
            ),
            Err(e) => lex_from(text@, 0, open@, close@) == Err::<Seq<TokenView>, ErrorView>(e@),
        },
{
    let chars = chars_of(text);
    let mut tokens: Vec<Token> = Vec::new();
    let mut opening: Vec<char> = chars_of(open);
    let mut closing: Vec<char> = chars_of(close);
    let mut pos: usize = 0;
    while pos < chars.len()
        invariant
            pos <= chars.len(),
            chars@ == text@,
            lex_from(text@, 0, open@, close@) == prepend(
                tokens_view(tokens@),
                lex_from(chars@, pos as int, opening@, closing@),
            ),
        decreases chars.len() - pos,
    {
        let ghost before = tokens_view(tokens@);
        match find_from(&chars, &opening, pos) {
            None => {
                tokens.push(Token::Text(string_of(&chars, pos, chars.len())));
                proof {
                    assert(tokens_view(tokens@) == before + seq![
                        TokenView::Text(chars@.subrange(pos as int, chars.len() as int)),
                    ]);
                }
                pos = chars.len();
            },
            Some(j) => {
                proof {
                    lemma_find_some(chars@, opening@, pos as int);
                }
                let ghost old_open = opening@;
                let ghost old_close = closing@;
                match scan_tag_at(&chars, j + opening.len(), &mut opening, &mut closing) {
                    None => {
                        return Err(Error::MalformedTag);
                    },
                    Some((token, end)) => {
                        proof {
                            lemma_scan_tag(chars@, j + old_open.len(), old_open, old_close);
                        }
                        let ghost rest = lex_from(chars@, end as int, opening@, closing@);
                        if pos < j {
                            tokens.push(Token::Text(string_of(&chars, pos, j)));
                        }
                        let ghost tag = token@;
                        tokens.push(token);
                        proof {
                            if let Ok(more) = rest {
                                assert(before + (text_before(chars@, pos as int, j as int) + seq![
                                    tag,
                                ] + more) == tokens_view(tokens@) + more);
                            }
                        }
                        pos = end;
                    },
                }
            },
        }
    }
    Ok(tokens)
}

} // verus!
