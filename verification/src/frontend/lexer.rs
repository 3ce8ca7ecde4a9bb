use vstd::prelude::*;
use vstd::std_specs::iter::IteratorSpec;

verus! {

broadcast use vstd::string::group_string_axioms;

// ---------------------------------------------------------------------------
// Character classes
// ---------------------------------------------------------------------------

/// Unicode's White_Space property (PropList.txt), which `char::is_whitespace`
/// tests: U+0009..U+000D, U+0020, U+0085, U+00A0, U+1680, U+2000..U+200A,
/// U+2028, U+2029, U+202F, U+205F and U+3000.
pub open spec fn is_white_space(c: char) -> bool {
    ||| ('\u{9}' <= c && c <= '\u{d}')
    ||| c == ' '
    ||| c == '\u{85}'
    ||| c == '\u{a0}'
    ||| c == '\u{1680}'
    ||| ('\u{2000}' <= c && c <= '\u{200a}')
    ||| c == '\u{2028}'
    ||| c == '\u{2029}'
    ||| c == '\u{202f}'
    ||| c == '\u{205f}'
    ||| c == '\u{3000}'
}

/// An ASCII letter, `[a-zA-Z]`.
pub open spec fn is_ascii_letter(c: char) -> bool {
    ('a' <= c && c <= 'z') || ('A' <= c && c <= 'Z')
}

/// An ASCII decimal digit, `[0-9]`.
pub open spec fn is_ascii_digit(c: char) -> bool {
    '0' <= c && c <= '9'
}

fn is_whitespace(c: char) -> (r: bool)
    ensures
        r == is_white_space(c),
{
    ('\u{9}' <= c && c <= '\u{d}') || c == ' ' || c == '\u{85}' || c == '\u{a0}' || c
        == '\u{1680}' || ('\u{2000}' <= c && c <= '\u{200a}') || c == '\u{2028}' || c
        == '\u{2029}' || c == '\u{202f}' || c == '\u{205f}' || c == '\u{3000}'
}

fn is_letter(c: char) -> (r: bool)
    ensures
        r == is_ascii_letter(c),
{
    ('a' <= c && c <= 'z') || ('A' <= c && c <= 'Z')
}

fn is_digit(c: char) -> (r: bool)
    ensures
        r == is_ascii_digit(c),
{
    '0' <= c && c <= '9'
}

/// The characters of `text`, in order.
pub fn chars_of(text: &str) -> (v: Vec<char>)
    ensures
        v@ == text@,
{
    let mut v: Vec<char> = Vec::new();
    let mut it = text.chars();
    loop
        invariant_except_break
            v@ + it.remaining() == text@,
            it.decrease() is Some,
        ensures
            v@ == text@,
        decreases it.decrease()->0,
    {
        match it.next() {
            Some(c) => {
                v.push(c);
            },
            None => {
                break ;
            },
        }
    }
    v
}

// ---------------------------------------------------------------------------
// Tokens
// ---------------------------------------------------------------------------

/// A token of Kaleidoscope. A number is kept as the decimal literal that was
/// read (ASCII digits with at most one `.`); its value is that of the literal.
#[derive(Debug, PartialEq)]
pub enum Token {
    Eof,
    Def,
    Extern,
    Identifier(String),
    Number(String),
    Char(char),
}

/// The mathematical value of a token.
pub enum SpecToken {
    Eof,
    Def,
    Extern,
    Identifier(Seq<char>),
    Number(Seq<char>),
    Char(char),
}

impl View for Token {
    type V = SpecToken;

    open spec fn view(&self) -> SpecToken {
        match self {
            Token::Eof => SpecToken::Eof,
            Token::Def => SpecToken::Def,
            Token::Extern => SpecToken::Extern,
            Token::Identifier(s) => SpecToken::Identifier(s@),
            Token::Number(s) => SpecToken::Number(s@),
            Token::Char(c) => SpecToken::Char(*c),
        }
    }
}

// ---------------------------------------------------------------------------
// The lexical grammar
// ---------------------------------------------------------------------------

/// The runs of characters that the lexer reads while a class holds.
pub enum CharClass {
    Space,
    NumberPart,
    Word,
    CommentBody,
}

pub open spec fn in_class(k: CharClass, c: char) -> bool {
    match k {
        CharClass::Space => is_white_space(c),
        CharClass::NumberPart => is_ascii_digit(c) || c == '.',
        CharClass::Word => is_ascii_letter(c) || is_ascii_digit(c),
        CharClass::CommentBody => c != '\n' && c != '\r',
    }
}

/// The first index at or after `p` whose character is not in class `k`
/// (or the end of `s`).
pub open spec fn scan(s: Seq<char>, p: int, k: CharClass) -> int
    decreases s.len() - p,
{
    if 0 <= p < s.len() && in_class(k, s[p]) {
        scan(s, p + 1, k)
    } else {
        p
    }
}

/// Number of `.` in `x`.
pub open spec fn dot_count(x: Seq<char>) -> nat
    decreases x.len(),
{
    if x.len() == 0 {
        0
    } else {
        dot_count(x.drop_last()) + if x.last() == '.' {
            1nat
        } else {
            0nat
        }
    }
}

/// A decimal literal: ASCII digits with at most one `.`. Of the runs of
/// digits and dots that start with a digit, these are the ones with at most
/// one dot, which `f64`'s parser accepts.
pub open spec fn is_decimal_literal(x: Seq<char>) -> bool {
    &&& forall|i: int| 0 <= i < x.len() ==> is_ascii_digit(#[trigger] x[i]) || x[i] == '.'
    &&& dot_count(x) <= 1
}

/// The token of a word: a keyword or an identifier.
pub open spec fn word_token(w: Seq<char>) -> SpecToken {
    if w == seq!['d', 'e', 'f'] {
        SpecToken::Def
    } else if w == seq!['e', 'x', 't', 'e', 'r', 'n'] {
        SpecToken::Extern
    } else {
        SpecToken::Identifier(w)
    }
}

/// One step of the lexer: the token that starts at or after `p`, with the
/// position after it; or the run of digits and dots that holds more than one
/// dot, on which the lexer gives up.
pub enum Lexed {
    Token(SpecToken, int),
    Malformed(Seq<char>),
}

/// What the lexer reads from position `p` of `s`:
/// whitespace is skipped; an ASCII digit starts a number `[0-9.]+`;
/// an ASCII letter starts a word `[a-zA-Z][a-zA-Z0-9]*`; `#` starts a
/// comment that runs to the end of the line, whose line break is then the
/// token (or `Eof` at the end of input); any other character is a token itself.
pub open spec fn lex_step(s: Seq<char>, p: int) -> Lexed {
    let q = scan(s, p, CharClass::Space);
    if q >= s.len() {
        Lexed::Token(SpecToken::Eof, q)
    } else if is_ascii_digit(s[q]) {
        let r = scan(s, q, CharClass::NumberPart);
        let x = s.subrange(q, r);
        if is_decimal_literal(x) {
            Lexed::Token(SpecToken::Number(x), r)
        } else {
            Lexed::Malformed(x)
        }
    } else if is_ascii_letter(s[q]) {
        let r = scan(s, q + 1, CharClass::Word);
        Lexed::Token(word_token(s.subrange(q, r)), r)
    } else if s[q] == '#' {
        let r = scan(s, q, CharClass::CommentBody);
        if r >= s.len() {
            Lexed::Token(SpecToken::Eof, r)
        } else {
            Lexed::Token(SpecToken::Char(s[r]), r + 1)
        }
    } else {
        Lexed::Token(SpecToken::Char(s[q]), q + 1)
    }
}

// ---------------------------------------------------------------------------
// The token stream
// ---------------------------------------------------------------------------

/// How a token stream ends: with `Eof` for ever after, or with a run of
/// number characters that is no decimal literal, on which lexing stops.
pub enum StreamEnd {
    Eof,
    Malformed(Seq<char>),
}

/// All the tokens that lexing reads, `Eof` left out, and how it ends.
pub struct Stream {
    pub toks: Seq<SpecToken>,
    pub end: StreamEnd,
}

/// What the `k`-th read of a stream gives.
pub enum Item {
    Tok(SpecToken),
    Bad(Seq<char>),
}

/// The `k`-th read (from 0) of a stream: after its tokens, `Eof` again and
/// again, or the malformed number.
pub open spec fn item(st: Stream, k: int) -> Item {
    if 0 <= k < st.toks.len() {
        Item::Tok(st.toks[k])
    } else {
        match st.end {
            StreamEnd::Eof => Item::Tok(SpecToken::Eof),
            StreamEnd::Malformed(x) => Item::Bad(x),
        }
    }
}

/// The stream left after `n` reads.
pub open spec fn drop_reads(st: Stream, n: nat) -> Stream {
    Stream {
        toks: if n <= st.toks.len() {
            st.toks.skip(n as int)
        } else {
            Seq::empty()
        },
        end: st.end,
    }
}

/// The token stream of `s` read from position `p` on.
pub open spec fn tokenize_from(s: Seq<char>, p: int) -> Stream
    decreases s.len() - p,
{
    if !(0 <= p <= s.len()) {
        Stream { toks: Seq::empty(), end: StreamEnd::Eof }
    } else {
        match lex_step(s, p) {
            Lexed::Token(t, r) => {
                if t is Eof || !(p < r <= s.len()) {
                    Stream { toks: Seq::empty(), end: StreamEnd::Eof }
                } else {
                    let rest = tokenize_from(s, r);
                    Stream { toks: seq![t] + rest.toks, end: rest.end }
                }
            },
            Lexed::Malformed(x) => Stream { toks: Seq::empty(), end: StreamEnd::Malformed(x) },
        }
    }
}

/// The token stream of a whole text.
pub open spec fn tokenize(s: Seq<char>) -> Stream {
    tokenize_from(s, 0)
}

pub proof fn lemma_scan_bounds(s: Seq<char>, p: int, k: CharClass)
    requires
        0 <= p <= s.len(),
    ensures
        p <= scan(s, p, k) <= s.len(),
        scan(s, p, k) < s.len() ==> !in_class(k, s[scan(s, p, k)]),
    decreases s.len() - p,
{
    if p < s.len() && in_class(k, s[p]) {
        lemma_scan_bounds(s, p + 1, k);
    }
}

/// A step of the lexer stays within the text; every token but `Eof` reads
/// at least one character, and `Eof` is read only at the end of the text.
pub proof fn lemma_lex_step_bounds(s: Seq<char>, p: int)
    requires
        0 <= p <= s.len(),
    ensures
        lex_step(s, p) matches Lexed::Token(t, r) ==> {
            &&& p <= r <= s.len()
            &&& t is Eof ==> r == s.len()
            &&& !(t is Eof) ==> p < r
        },
{
    let q = scan(s, p, CharClass::Space);
    lemma_scan_bounds(s, p, CharClass::Space);
    if q < s.len() {
        if is_ascii_digit(s[q]) {
            lemma_scan_bounds(s, q, CharClass::NumberPart);
        } else if is_ascii_letter(s[q]) {
            lemma_scan_bounds(s, q + 1, CharClass::Word);
        } else if s[q] == '#' {
            lemma_scan_bounds(s, q, CharClass::CommentBody);
        }
    }
}

/// Reading one token moves one step along the token stream.
pub proof fn lemma_read_step(s: Seq<char>, p: int, st: Stream, n: nat)
    requires
        0 <= p <= s.len(),
        tokenize_from(s, p) == drop_reads(st, n),
    ensures
        lex_step(s, p) matches Lexed::Token(t, r) ==> {
            &&& item(st, n as int) == Item::Tok(t)
            &&& tokenize_from(s, r) == drop_reads(st, n + 1)
        },
        lex_step(s, p) matches Lexed::Malformed(x) ==> item(st, n as int) == Item::Bad(x),
{
    lemma_lex_step_bounds(s, p);
    match lex_step(s, p) {
        Lexed::Token(t, r) => {
            if t is Eof {
                assert(drop_reads(st, n).toks.len() == 0);
                lemma_lex_step_bounds(s, r);
                assert(drop_reads(st, n + 1) =~= tokenize_from(s, r));
            } else {
                let rest = tokenize_from(s, r);
                assert(drop_reads(st, n).toks.len() > 0);
                assert(n < st.toks.len());
                assert(st.toks.skip(n as int)[0] == st.toks[n as int]);
                assert(st.toks.skip(n + 1 as int) =~= st.toks.skip(n as int).drop_first());
                assert((seq![t] + rest.toks).drop_first() =~= rest.toks);
                assert(drop_reads(st, n + 1) =~= rest);
            }
        },
        Lexed::Malformed(x) => {
            assert(drop_reads(st, n).toks.len() == 0);
        },
    }
}

/// The token stream from `p` starts with the token the lexer reads at `p`,
/// and goes on with the stream from where that token ends.
pub proof fn law_stream_starts_with_next_token(s: Seq<char>, p: int)
    requires
        0 <= p <= s.len(),
    ensures
        lex_step(s, p) matches Lexed::Token(t, r) ==> {
            &&& item(tokenize_from(s, p), 0) == Item::Tok(t)
            &&& tokenize_from(s, r) == drop_reads(tokenize_from(s, p), 1)
        },
        lex_step(s, p) matches Lexed::Malformed(x) ==> item(tokenize_from(s, p), 0) == Item::Bad(x),
{
    let st = tokenize_from(s, p);
    assert(st.toks.skip(0) =~= st.toks);
    assert(drop_reads(st, 0) =~= st);
    lemma_read_step(s, p, st, 0);
}

/// Lexing ends: from position `p` the lexer reads at most as many tokens
/// other than `Eof` as there are characters left, and then gives `Eof` for
/// ever after (or stops at a malformed number).
pub proof fn law_lexing_ends(s: Seq<char>, p: int)
    requires
        0 <= p <= s.len(),
    ensures
        tokenize_from(s, p).toks.len() <= s.len() - p,
        forall|i: int|
            0 <= i < tokenize_from(s, p).toks.len() ==> !(#[trigger] tokenize_from(
                s,
                p,
            ).toks[i] is Eof),
        forall|k: int|
            #![trigger item(tokenize_from(s, p), k)]
            k >= tokenize_from(s, p).toks.len() ==> item(tokenize_from(s, p), k) == item(
                tokenize_from(s, p),
                tokenize_from(s, p).toks.len() as int,
            ),
    decreases s.len() - p,
{
    lemma_lex_step_bounds(s, p);
    if let Lexed::Token(t, r) = lex_step(s, p) {
        if !(t is Eof) {
            law_lexing_ends(s, r);
        }
    }
}

/// Whitespace before a token does not change what is read.
pub proof fn law_whitespace_is_skipped(s: Seq<char>, p: int)
    requires
        0 <= p < s.len(),
        is_white_space(s[p]),
    ensures
        lex_step(s, p) == lex_step(s, p + 1),
{
    assert(scan(s, p, CharClass::Space) == scan(s, p + 1, CharClass::Space));
}

/// A number token holds a decimal literal that starts with a digit: the
/// characters read.
pub proof fn law_number_is_decimal_literal(s: Seq<char>, p: int)
    requires
        0 <= p <= s.len(),
        lex_step(s, p) matches Lexed::Token(SpecToken::Number(_), _),
    ensures
        lex_step(s, p) matches Lexed::Token(SpecToken::Number(x), r) && x.len() >= 1
            && is_ascii_digit(x[0]) && is_decimal_literal(x) && x == s.subrange(r - x.len(), r),
{
    let q = scan(s, p, CharClass::Space);
    lemma_scan_bounds(s, p, CharClass::Space);
    lemma_scan_bounds(s, q, CharClass::NumberPart);
}

/// The keywords `def` and `extern` are never read as identifiers; an
/// identifier is a non-empty word that starts with an ASCII letter.
pub proof fn law_keywords_are_not_identifiers(s: Seq<char>, p: int)
    requires
        0 <= p <= s.len(),
        lex_step(s, p) matches Lexed::Token(SpecToken::Identifier(_), _),
    ensures
        lex_step(s, p) matches Lexed::Token(SpecToken::Identifier(w), _) && w != seq!['d', 'e', 'f']
            && w != seq!['e', 'x', 't', 'e', 'r', 'n'] && w.len() >= 1 && is_ascii_letter(w[0]),
{
    let q = scan(s, p, CharClass::Space);
    lemma_scan_bounds(s, p, CharClass::Space);
    lemma_scan_bounds(s, q + 1, CharClass::Word);
}

/// `scan` stops exactly at the end of a run of characters of its class.
pub proof fn lemma_scan_run(s: Seq<char>, a: int, b: int, k: CharClass)
    requires
        0 <= a <= b <= s.len(),
        forall|i: int| a <= i < b ==> in_class(k, #[trigger] s[i]),
        b == s.len() || !in_class(k, s[b]),
    ensures
        scan(s, a, k) == b,
    decreases b - a,
{
    if a < b {
        lemma_scan_run(s, a + 1, b, k);
    }
}

/// Words: at an ASCII letter of either case, after whitespace, the lexer
/// reads the longest run of ASCII letters (`a`-`z`, `A`-`Z`) and digits
/// (`0`-`9`) from there; `def` and `extern` are keywords, any other run is an
/// identifier.
pub proof fn law_words_are_ascii_letters_and_digits(s: Seq<char>, p: int, q: int, r: int)
    requires
        0 <= p <= q < r <= s.len(),
        forall|i: int| p <= i < q ==> is_white_space(#[trigger] s[i]),
        ('a' <= s[q] && s[q] <= 'z') || ('A' <= s[q] && s[q] <= 'Z'),
        forall|i: int|
            q < i < r ==> ('a' <= #[trigger] s[i] && s[i] <= 'z') || ('A' <= s[i] && s[i] <= 'Z')
                || ('0' <= s[i] && s[i] <= '9'),
        r == s.len() || !(('a' <= s[r] && s[r] <= 'z') || ('A' <= s[r] && s[r] <= 'Z') || ('0'
            <= s[r] && s[r] <= '9')),
    ensures
        lex_step(s, p) == Lexed::Token(
            if s.subrange(q, r) == seq!['d', 'e', 'f'] {
                SpecToken::Def
            } else if s.subrange(q, r) == seq!['e', 'x', 't', 'e', 'r', 'n'] {
                SpecToken::Extern
            } else {
                SpecToken::Identifier(s.subrange(q, r))
            },
            r,
        ),
{
    lemma_scan_run(s, p, q, CharClass::Space);
    lemma_scan_run(s, q + 1, r, CharClass::Word);
}

/// Comments: at `#`, after whitespace, the lexer skips to the end of the
/// line; the line break is then the token, or `Eof` at the end of the text.
pub proof fn law_comments_run_to_the_line_break(s: Seq<char>, p: int, q: int, r: int)
    requires
        0 <= p <= q < r <= s.len(),
        forall|i: int| p <= i < q ==> is_white_space(#[trigger] s[i]),
        s[q] == '#',
        forall|i: int| q < i < r ==> #[trigger] s[i] != '\n' && s[i] != '\r',
        r == s.len() || s[r] == '\n' || s[r] == '\r',
    ensures
        lex_step(s, p) == if r == s.len() {
            Lexed::Token(SpecToken::Eof, r)
        } else {
            Lexed::Token(SpecToken::Char(s[r]), r + 1)
        },
{
    lemma_scan_run(s, p, q, CharClass::Space);
    lemma_scan_run(s, q, r, CharClass::CommentBody);
}

/// Any other character, after whitespace, is a token by itself; at the end
/// of the text only whitespace is left and the token is `Eof`.
pub proof fn law_other_characters_are_tokens(s: Seq<char>, p: int, q: int)
    requires
        0 <= p <= q <= s.len(),
        forall|i: int| p <= i < q ==> is_white_space(#[trigger] s[i]),
        q < s.len() ==> !is_white_space(s[q]) && !('0' <= s[q] && s[q] <= '9') && !('a' <= s[q]
            && s[q] <= 'z') && !('A' <= s[q] && s[q] <= 'Z') && s[q] != '#',
    ensures
        lex_step(s, p) == if q == s.len() {
            Lexed::Token(SpecToken::Eof, q)
        } else {
            Lexed::Token(SpecToken::Char(s[q]), q + 1)
        },
{
    lemma_scan_run(s, p, q, CharClass::Space);
}

/// Numbers: at an ASCII digit, after whitespace, the lexer reads the longest
/// run of digits (`0`-`9`) and dots from there; it is a number when it holds
/// at most one dot, and otherwise a malformed number.
pub proof fn law_numbers_are_runs_of_digits_and_dots(s: Seq<char>, p: int, q: int, r: int)
    requires
        0 <= p <= q < r <= s.len(),
        forall|i: int| p <= i < q ==> is_white_space(#[trigger] s[i]),
        '0' <= s[q] && s[q] <= '9',
        forall|i: int| q < i < r ==> ('0' <= #[trigger] s[i] && s[i] <= '9') || s[i] == '.',
        r == s.len() || !(('0' <= s[r] && s[r] <= '9') || s[r] == '.'),
    ensures
        lex_step(s, p) == if forall|i: int, j: int|
            q <= i < j < r ==> !(#[trigger] s[i] == '.' && #[trigger] s[j] == '.') {
            Lexed::Token(SpecToken::Number(s.subrange(q, r)), r)
        } else {
            Lexed::Malformed(s.subrange(q, r))
        },
{
    lemma_scan_run(s, p, q, CharClass::Space);
    lemma_scan_run(s, q, r, CharClass::NumberPart);
    let x = s.subrange(q, r);
    lemma_dot_count(x);
    assert forall|i: int, j: int| 0 <= i < j < x.len() implies (x[i] == '.' && x[j] == '.') == (
    s[q + i] == '.' && s[q + j] == '.') by {}
    if forall|i: int, j: int| q <= i < j < r ==> !(#[trigger] s[i] == '.' && #[trigger] s[j] == '.') {
        assert forall|i: int, j: int| 0 <= i < j < x.len() implies !(#[trigger] x[i] == '.'
            && #[trigger] x[j] == '.') by {
            assert(!(s[q + i] == '.' && s[q + j] == '.'));
        }
    } else {
        let (i, j) = choose|i: int, j: int|
            q <= i < j < r && (#[trigger] s[i] == '.' && #[trigger] s[j] == '.');
        assert(x[i - q] == '.' && x[j - q] == '.');
    }
}

/// No dot, or at most one dot, by the count.
proof fn lemma_dot_count(x: Seq<char>)
    ensures
        dot_count(x) == 0 <==> forall|i: int| 0 <= i < x.len() ==> #[trigger] x[i] != '.',
        dot_count(x) <= 1 <==> forall|i: int, j: int|
            0 <= i < j < x.len() ==> !(#[trigger] x[i] == '.' && #[trigger] x[j] == '.'),
    decreases x.len(),
{
    if x.len() > 0 {
        let d = x.drop_last();
        lemma_dot_count(d);
        assert forall|i: int| 0 <= i < d.len() implies #[trigger] d[i] == x[i] by {}
        if dot_count(x) <= 1 {
            assert forall|i: int, j: int| 0 <= i < j < x.len() implies !(#[trigger] x[i] == '.'
                && #[trigger] x[j] == '.') by {
                if j < x.len() - 1 {
                    assert(d[i] == x[i] && d[j] == x[j]);
                } else {
                    assert(d[i] == x[i]);
                }
            }
        }
        if forall|i: int, j: int|
            0 <= i < j < x.len() ==> !(#[trigger] x[i] == '.' && #[trigger] x[j] == '.') {
            assert forall|i: int, j: int| 0 <= i < j < d.len() implies !(#[trigger] d[i] == '.'
                && #[trigger] d[j] == '.') by {
                assert(d[i] == x[i] && d[j] == x[j]);
            }
            if x.last() == '.' {
                assert forall|i: int| 0 <= i < d.len() implies #[trigger] d[i] != '.' by {
                    assert(d[i] == x[i]);
                    assert(!(x[i] == '.' && x[x.len() - 1] == '.'));
                }
            }
        }
        if dot_count(x) == 0 {
            assert forall|i: int| 0 <= i < x.len() implies #[trigger] x[i] != '.' by {
                if i < x.len() - 1 {
                    assert(d[i] == x[i]);
                }
            }
        }
        if forall|i: int| 0 <= i < x.len() ==> #[trigger] x[i] != '.' {
            assert forall|i: int| 0 <= i < d.len() implies #[trigger] d[i] != '.' by {
                assert(d[i] == x[i]);
            }
            assert(x[x.len() - 1] != '.');
        }
    }
}

// ---------------------------------------------------------------------------
// The lexer
// ---------------------------------------------------------------------------

/// Reads tokens from a line of text, one at a time.
pub struct Lexer {
    input: Vec<char>,
    /// the same text, from which lexemes are copied
    source: String,
    pos: usize,
}

impl Lexer {
    #[verifier::type_invariant]
    spec fn same_text(self) -> bool {
        self.source@ == self.input@
    }

    /// The whole text being read.
    pub closed spec fn text(&self) -> Seq<char> {
        self.input@
    }

    /// How many characters of the text have been read.
    pub closed spec fn position(&self) -> int {
        self.pos as int
    }

    pub open spec fn wf(&self) -> bool {
        0 <= self.position() <= self.text().len()
    }

    /// A lexer at the start of `input`.
    pub fn new(input: &str) -> (l: Lexer)
        ensures
            l.wf(),
            l.text() == input@,
            l.position() == 0,
    {
        Lexer { input: chars_of(input), source: String::from_str(input), pos: 0 }
    }

    /// The characters of the text from `from` up to `to`.
    fn lexeme(&self, from: usize, to: usize) -> (r: String)
        requires
            from <= to <= self.text().len(),
        ensures
            r@ == self.text().subrange(from as int, to as int),
    {
        proof {
            use_type_invariant(self);
        }
        String::from_str(self.source.as_str().substring_char(from, to))
    }

    /// Reads the next token, or the run of characters of a number that is no
    /// decimal literal (the lexer has then read past it).
    pub fn next_token(&mut self) -> (r: Result<Token, String>)
        requires
            old(self).wf(),
        ensures
            final(self).wf(),
            final(self).text() == old(self).text(),
            match lex_step(old(self).text(), old(self).position()) {
                Lexed::Token(t, q) => r is Ok && r->Ok_0@ == t && final(self).position() == q,
                Lexed::Malformed(x) => r is Err && r->Err_0@ == x,
            },
    {
        proof {
            use_type_invariant(&*self);
        }
        let ghost s = self.input@;
        let ghost p0 = self.pos as int;
        let len = self.input.len();
        while self.pos < len && is_whitespace(self.input[self.pos])
            invariant
                self.input@ == s,
                self.source@ == s,
                len == s.len(),
                p0 <= self.pos <= len,
                scan(s, self.pos as int, CharClass::Space) == scan(s, p0, CharClass::Space),
            decreases len - self.pos,
        {
            self.pos = self.pos + 1;
        }
        if self.pos >= len {
            return Ok(Token::Eof);
        }
        let c = self.input[self.pos];
        if is_digit(c) {
            let start = self.pos;
            let mut num: Vec<char> = Vec::new();
            while self.pos < len && (is_digit(self.input[self.pos]) || self.input[self.pos]
                == '.')
                invariant
                    self.input@ == s,
                self.source@ == s,
                    len == s.len(),
                    start <= self.pos <= len,
                    num@ == s.subrange(start as int, self.pos as int),
                    scan(s, self.pos as int, CharClass::NumberPart) == scan(
                        s,
                        start as int,
                        CharClass::NumberPart,
                    ),
                decreases len - self.pos,
            {
                num.push(self.input[self.pos]);
                self.pos = self.pos + 1;
                assert(num@ =~= s.subrange(start as int, self.pos as int));
            }
            let well_formed = decimal_literal(&num);
            let text = self.lexeme(start, self.pos);
            if well_formed {
                return Ok(Token::Number(text));
            } else {
                return Err(text);
            }
        }
        if is_letter(c) {
            let start = self.pos;
            let mut word: Vec<char> = Vec::new();
            while self.pos < len && (is_letter(self.input[self.pos]) || is_digit(self.input[self.pos]))
                invariant
                    self.input@ == s,
                self.source@ == s,
                    len == s.len(),
                    start <= self.pos <= len,
                    word@ == s.subrange(start as int, self.pos as int),
                    self.pos > start ==> scan(s, self.pos as int, CharClass::Word) == scan(
                        s,
                        start + 1,
                        CharClass::Word,
                    ),
                    self.pos == start ==> is_ascii_letter(s[start as int]),
                decreases len - self.pos,
            {
                word.push(self.input[self.pos]);
                self.pos = self.pos + 1;
                assert(word@ =~= s.subrange(start as int, self.pos as int));
            }
            if word.len() == 3 && word[0] == 'd' && word[1] == 'e' && word[2] == 'f' {
                assert(word@ =~= seq!['d', 'e', 'f']);
                return Ok(Token::Def);
            }
            if word.len() == 6 && word[0] == 'e' && word[1] == 'x' && word[2] == 't' && word[3]
                == 'e' && word[4] == 'r' && word[5] == 'n' {
                assert(word@ =~= seq!['e', 'x', 't', 'e', 'r', 'n']);
                return Ok(Token::Extern);
            }
            assert(word@ != seq!['d', 'e', 'f']) by {
                if word@ == seq!['d', 'e', 'f'] {
                    assert(word@[0] == 'd' && word@[1] == 'e' && word@[2] == 'f');
                }
            }
            assert(word@ != seq!['e', 'x', 't', 'e', 'r', 'n']) by {
                if word@ == seq!['e', 'x', 't', 'e', 'r', 'n'] {
                    assert(word@[0] == 'e' && word@[1] == 'x' && word@[2] == 't' && word@[3]
                        == 'e' && word@[4] == 'r' && word@[5] == 'n');
                }
            }
            return Ok(Token::Identifier(self.lexeme(start, self.pos)));
        }
        if c == '#' {
            let ghost start = self.pos as int;
            while self.pos < len && self.input[self.pos] != '\n' && self.input[self.pos] != '\r'
                invariant
                    self.input@ == s,
                self.source@ == s,
                    len == s.len(),
                    start <= self.pos <= len,
                    scan(s, self.pos as int, CharClass::CommentBody) == scan(
                        s,
                        start,
                        CharClass::CommentBody,
                    ),
                decreases len - self.pos,
            {
                self.pos = self.pos + 1;
            }
            if self.pos >= len {
                return Ok(Token::Eof);
            }
        }
        let t = self.input[self.pos];
        self.pos = self.pos + 1;
        Ok(Token::Char(t))
    }

    /// Reads the next token.
    pub fn gettok(&mut self) -> (t: Token)
        requires
            old(self).wf(),
            lex_step(old(self).text(), old(self).position()) is Token,
        ensures
            final(self).wf(),
            final(self).text() == old(self).text(),
            lex_step(old(self).text(), old(self).position()) == Lexed::Token(
                t@,
                final(self).position(),
            ),
    {
        match self.next_token() {
            Ok(t) => t,
            Err(_) => {
                assert(false);
                Token::Eof
            },
        }
    }
}

/// Whether `x` is a decimal literal.
fn decimal_literal(x: &Vec<char>) -> (r: bool)
    ensures
        r == is_decimal_literal(x@),
{
    let mut dots: usize = 0;
    let mut ok = true;
    let mut i: usize = 0;
    while i < x.len()
        invariant
            i <= x.len(),
            dots == dot_count(x@.take(i as int)),
            dots <= i,
            ok == forall|j: int| 0 <= j < i ==> is_ascii_digit(#[trigger] x@[j]) || x@[j] == '.',
        decreases x.len() - i,
    {
        assert(x@.take(i + 1).drop_last() =~= x@.take(i as int));
        if x[i] == '.' {
            dots = dots + 1;
        } else if !is_digit(x[i]) {
            ok = false;
        }
        i = i + 1;
    }
    assert(x@.take(x.len() as int) =~= x@);
    ok && dots <= 1
}

/// A lexer reads forward: the token it reads next ends within the text and,
/// unless it is `Eof`, after the current position; so it reads at most as
/// many tokens other than `Eof` as there are characters left, none of them
/// `Eof`, and then the same end again and again.
pub proof fn law_lexer_reads_forward(l: Lexer)
    requires
        l.wf(),
    ensures
        lex_step(l.text(), l.position()) matches Lexed::Token(t, q) ==> {
            &&& l.position() <= q <= l.text().len()
            &&& !(t is Eof) ==> l.position() < q
        },
        tokenize_from(l.text(), l.position()).toks.len() <= l.text().len() - l.position(),
        forall|i: int|
            0 <= i < tokenize_from(l.text(), l.position()).toks.len() ==> !(
            #[trigger] tokenize_from(l.text(), l.position()).toks[i] is Eof),
        forall|k: int|
            #![trigger item(tokenize_from(l.text(), l.position()), k)]
            k >= tokenize_from(l.text(), l.position()).toks.len() ==> item(
                tokenize_from(l.text(), l.position()),
                k,
            ) == item(
                tokenize_from(l.text(), l.position()),
                tokenize_from(l.text(), l.position()).toks.len() as int,
            ),
{
    lemma_lex_step_bounds(l.text(), l.position());
    law_lexing_ends(l.text(), l.position());
}

} // verus!
