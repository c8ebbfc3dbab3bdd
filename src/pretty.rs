//! The pattern language: a lexer, a recursive-descent parser and an evaluator for
//! templates such as `[%time] %message %prefix(\n/%stack)`.

use vstd::prelude::*;

use crate::json::{field_of, fields_view, get_field, render_into, render_value, FieldsView, JsonValue};
use crate::matcher::{regex_accepts, regex_replace_every, regex_replace_first, CompiledRegex};
use crate::text::{append_chars, chars_equal, chars_of, copy_chars, slice_chars, string_of, trim_chars, trimmed};

verus! {

/// Why a pattern was refused.
#[derive(Debug, Clone, Copy, PartialEq, Eq, Structural)]
pub enum PatternError {
    /// The pattern ends with a lone `\`.
    DanglingEscape,
    /// `\` followed by a character that is no escape.
    UnknownEscape(char),
    /// A `(` where no call can open.
    UnexpectedOpen,
    /// A `)` outside a call.
    UnexpectedClose,
    /// A `/` outside a call.
    UnexpectedSeparator,
    /// A call that the pattern never closes.
    UnterminatedCall,
    /// `prefix` without exactly two arguments.
    PrefixArity,
    /// `replace` or `replaceAll` without exactly three arguments.
    ReplaceArity,
    /// A regex or replacement argument that is not plain text.
    LiteralExpected,
    /// A regex argument that is not a regular expression.
    InvalidRegex,
    /// A call of a function other than `prefix`, `replace` and `replaceAll`.
    UnknownFunction,
}

/// A lexical token, as plain values.
pub enum TokenView {
    Literal(Seq<char>),
    Variable(Seq<char>),
    OpenParen,
    CloseParen,
    Slash,
}

/// A lexical token of a pattern.
pub enum Token {
    Literal(Vec<char>),
    Variable(Vec<char>),
    OpenParen,
    CloseParen,
    Slash,
}

impl View for Token {
    type V = TokenView;

    open spec fn view(&self) -> TokenView {
        match self {
            Token::Literal(l) => TokenView::Literal(l@),
            Token::Variable(n) => TokenView::Variable(n@),
            Token::OpenParen => TokenView::OpenParen,
            Token::CloseParen => TokenView::CloseParen,
            Token::Slash => TokenView::Slash,
        }
    }
}

pub open spec fn tokens_view(ts: Seq<Token>) -> Seq<TokenView> {
    ts.map_values(|t: Token| t@)
}

/// The characters that stand for structure: `%` starts a variable, `(` opens a call,
/// `/` separates arguments, `)` closes a call.
pub open spec fn is_structural(c: char) -> bool {
    c == '%' || c == '(' || c == ')' || c == '/'
}

pub open spec fn is_letter(c: char) -> bool {
    ('a' <= c <= 'z') || ('A' <= c <= 'Z')
}

/// What `\c` stands for: a character, nothing at all (`\v`, which ends the literal), or
/// no escape.
pub open spec fn escape_of(c: char) -> Option<Option<char>> {
    if c == 't' {
        Some(Some('\t'))
    } else if c == 's' {
        Some(Some(' '))
    } else if c == 'n' {
        Some(Some('\n'))
    } else if c == 'r' {
        Some(Some('\r'))
    } else if c == '%' || c == '\\' || c == '/' || c == '(' || c == ')' {
        Some(Some(c))
    } else if c == 'v' {
        Some(None)
    } else {
        None
    }
}

/// End of the run of ASCII letters that starts at `i`.
pub open spec fn ident_end(s: Seq<char>, i: int) -> int
    decreases s.len() - i,
{
    if 0 <= i < s.len() && is_letter(s[i]) {
        ident_end(s, i + 1)
    } else {
        i
    }
}

/// The literal text that starts at `i` after `acc`, and where it ends.
pub open spec fn lex_literal(s: Seq<char>, i: int, acc: Seq<char>) -> Result<(Seq<char>, int), PatternError>
    decreases s.len() - i,
{
    if i < 0 || i >= s.len() {
        Ok((acc, i))
    } else if s[i] == '\\' {
        if i + 1 >= s.len() {
            Err(PatternError::DanglingEscape)
        } else {
            match escape_of(s[i + 1]) {
                None => Err(PatternError::UnknownEscape(s[i + 1])),
                Some(None) => Ok((acc, i + 2)),
                Some(Some(c)) => lex_literal(s, i + 2, acc.push(c)),
            }
        }
    } else if is_structural(s[i]) {
        Ok((acc, i))
    } else {
        lex_literal(s, i + 1, acc.push(s[i]))
    }
}

/// The tokens of `s` from `i` on, after `acc`.
pub open spec fn lex_from(s: Seq<char>, i: int, acc: Seq<TokenView>) -> Result<Seq<TokenView>, PatternError>
    decreases s.len() - i,
{
    if i < 0 || i >= s.len() {
        Ok(acc)
    } else if s[i] == '%' {
        let e = ident_end(s, i + 1);
        if e <= i || e > s.len() {
            Ok(acc)
        } else {
            lex_from(s, e, acc.push(TokenView::Variable(s.subrange(i + 1, e))))
        }
    } else if s[i] == '(' {
        lex_from(s, i + 1, acc.push(TokenView::OpenParen))
    } else if s[i] == ')' {
        lex_from(s, i + 1, acc.push(TokenView::CloseParen))
    } else if s[i] == '/' {
        lex_from(s, i + 1, acc.push(TokenView::Slash))
    } else {
        match lex_literal(s, i, Seq::empty()) {
            Err(e) => Err(e),
            Ok((l, j)) => if j <= i || j > s.len() {
                Ok(acc)
            } else {
                lex_from(s, j, acc.push(TokenView::Literal(l)))
            },
        }
    }
}

/// The tokens of a pattern.
pub open spec fn lex_spec(s: Seq<char>) -> Result<Seq<TokenView>, PatternError> {
    lex_from(s, 0, Seq::empty())
}

fn escape(c: char) -> (r: Option<Option<char>>)
    ensures
        r == escape_of(c),
{
    if c == 't' {
        Some(Some('\t'))
    } else if c == 's' {
        Some(Some(' '))
    } else if c == 'n' {
        Some(Some('\n'))
    } else if c == 'r' {
        Some(Some('\r'))
    } else if c == '%' || c == '\\' || c == '/' || c == '(' || c == ')' {
        Some(Some(c))
    } else if c == 'v' {
        Some(None)
    } else {
        None
    }
}

fn structural(c: char) -> (r: bool)
    ensures
        r == is_structural(c),
{
    c == '%' || c == '(' || c == ')' || c == '/'
}

proof fn lemma_ident_end(s: Seq<char>, i: int)
    requires
        0 <= i <= s.len(),
    ensures
        i <= ident_end(s, i) <= s.len(),
    decreases s.len() - i,
{
    if i < s.len() && is_letter(s[i]) {
        lemma_ident_end(s, i + 1);
    }
}

/// Reads the literal that starts at `i`.
fn lex_literal_at(s: &Vec<char>, i: usize) -> (r: Result<(Vec<char>, usize), PatternError>)
    requires
        i <= s@.len(),
    ensures
        match lex_literal(s@, i as int, Seq::empty()) {
            Ok((l, j)) => r matches Ok((v, k)) && v@ == l && k == j,
            Err(e) => r == Err::<(Vec<char>, usize), PatternError>(e),
        },
        r matches Ok((_, k)) ==> i <= k <= s@.len() && (k == i ==> (i == s@.len() || is_structural(s@[i as int]))),
{
    let n = s.len();
    let mut acc: Vec<char> = Vec::new();
    let mut k: usize = i;
    loop
        invariant
            n == s@.len(),
            i <= k <= n,
            k == i ==> acc@.len() == 0,
            lex_literal(s@, i as int, Seq::empty()) == lex_literal(s@, k as int, acc@),
        decreases n - k,
    {
        if k >= n {
            return Ok((acc, k));
        }
        let c = s[k];
        if c == '\\' {
            if k + 1 >= n {
                return Err(PatternError::DanglingEscape);
            }
            let d = s[k + 1];
            match escape(d) {
                None => {
                    return Err(PatternError::UnknownEscape(d));
                },
                Some(None) => {
                    return Ok((acc, k + 2));
                },
                Some(Some(x)) => {
                    acc.push(x);
                    k = k + 2;
                },
            }
        } else if structural(c) {
            return Ok((acc, k));
        } else {
            acc.push(c);
            k = k + 1;
        }
    }
}

fn push_token(toks: &mut Vec<Token>, t: Token)
    ensures
        tokens_view(final(toks)@) == tokens_view(old(toks)@).push(t@),
{
    toks.push(t);
    proof {
        assert(tokens_view(toks@) =~= tokens_view(old(toks)@).push(t@));
    }
}

/// Splits a pattern into tokens.
pub fn lex(s: &Vec<char>) -> (r: Result<Vec<Token>, PatternError>)
    ensures
        match lex_spec(s@) {
            Ok(ts) => r matches Ok(v) && tokens_view(v@) == ts,
            Err(e) => r == Err::<Vec<Token>, PatternError>(e),
        },
{
    let n = s.len();
    let mut toks: Vec<Token> = Vec::new();
    let mut i: usize = 0;
    proof {
        assert(tokens_view(toks@) =~= Seq::<TokenView>::empty());
    }
    while i < n
        invariant
            n == s@.len(),
            0 <= i <= n,
            lex_spec(s@) == lex_from(s@, i as int, tokens_view(toks@)),
        decreases n - i,
    {
        let c = s[i];
        if c == '%' {
            let mut e: usize = i + 1;
            proof {
                lemma_ident_end(s@, i + 1);
            }
            while e < n && (('a' <= s[e] && s[e] <= 'z') || ('A' <= s[e] && s[e] <= 'Z'))
                invariant
                    n == s@.len(),
                    i < e <= n,
                    ident_end(s@, e as int) == ident_end(s@, i + 1),
                decreases n - e,
            {
                e = e + 1;
            }
            let name = slice_chars(s, i + 1, e);
            push_token(&mut toks, Token::Variable(name));
            i = e;
        } else if c == '(' {
            push_token(&mut toks, Token::OpenParen);
            i = i + 1;
        } else if c == ')' {
            push_token(&mut toks, Token::CloseParen);
            i = i + 1;
        } else if c == '/' {
            push_token(&mut toks, Token::Slash);
            i = i + 1;
        } else {
            match lex_literal_at(s, i) {
                Err(e) => {
                    return Err(e);
                },
                Ok((lit, j)) => {
                    push_token(&mut toks, Token::Literal(lit));
                    i = j;
                },
            }
        }
    }
    Ok(toks)
}

/// A node of a parsed pattern, as plain values.
pub enum FragmentView {
    Literal(Seq<char>),
    Variable(Seq<char>),
    /// `prefix(prefix/base)`: the prefix and the trimmed base when the base is not blank.
    Prefix(Seq<FragmentView>, Seq<FragmentView>),
    /// `replace(base/regex/replacement)`, or `replaceAll` when the flag is set.
    Replace(Seq<FragmentView>, Seq<char>, Seq<char>, bool),
}

/// A node of a parsed pattern; the nested programs are owned by their node.
enum PrettyFragment {
    Literal(Vec<char>),
    Variable(String),
    /// The prefix program, then the base program.
    Prefix(PrettyDescriptor, PrettyDescriptor),
    /// The base program, the regex, the replacement, and whether every match is replaced.
    Replace(PrettyDescriptor, CompiledRegex, String, bool),
}

/// A parsed pattern: fragments rendered left to right.
pub struct PrettyDescriptor {
    fragments: Vec<PrettyFragment>,
}

spec fn fragment_view(f: PrettyFragment) -> FragmentView
    decreases f,
{
    match f {
        PrettyFragment::Literal(l) => FragmentView::Literal(l@),
        PrettyFragment::Variable(n) => FragmentView::Variable(n@),
        PrettyFragment::Prefix(prefix, base) => FragmentView::Prefix(
            fragments_view(prefix.fragments@),
            fragments_view(base.fragments@),
        ),
        PrettyFragment::Replace(base, regex, replacement, global) => FragmentView::Replace(
            fragments_view(base.fragments@),
            regex@,
            replacement@,
            global,
        ),
    }
}

spec fn fragments_view(fs: Seq<PrettyFragment>) -> Seq<FragmentView>
    decreases fs,
{
    if fs.len() == 0 {
        Seq::empty()
    } else {
        fragments_view(fs.drop_last()).push(fragment_view(fs.last()))
    }
}

impl View for PrettyDescriptor {
    type V = Seq<FragmentView>;

    closed spec fn view(&self) -> Seq<FragmentView> {
        fragments_view(self.fragments@)
    }
}

pub open spec fn prefix_name() -> Seq<char> {
    seq!['p', 'r', 'e', 'f', 'i', 'x']
}

pub open spec fn replace_name() -> Seq<char> {
    seq!['r', 'e', 'p', 'l', 'a', 'c', 'e']
}

pub open spec fn replace_all_name() -> Seq<char> {
    seq!['r', 'e', 'p', 'l', 'a', 'c', 'e', 'A', 'l', 'l']
}

/// One fragment starting at token `i`, and the position after it.
pub open spec fn parse_expr(t: Seq<TokenView>, i: int) -> Result<(FragmentView, int), PatternError>
    decreases t.len() - i, 0nat,
{
    if i < 0 || i >= t.len() {
        Err(PatternError::UnterminatedCall)
    } else {
        match t[i] {
            TokenView::Literal(l) => Ok((FragmentView::Literal(l), i + 1)),
            TokenView::Variable(name) => if i + 1 < t.len() && t[i + 1] is OpenParen {
                parse_call(t, i + 2, name)
            } else {
                Ok((FragmentView::Variable(name), i + 1))
            },
            TokenView::OpenParen => Err(PatternError::UnexpectedOpen),
            TokenView::CloseParen => Err(PatternError::UnexpectedClose),
            TokenView::Slash => Err(PatternError::UnexpectedSeparator),
        }
    }
}

/// The fragments of one call argument from token `i`, after `acc`; the argument ends
/// before a `/` or `)`, at the position returned.
pub open spec fn parse_argument(t: Seq<TokenView>, i: int, acc: Seq<FragmentView>) -> Result<(Seq<FragmentView>, int), PatternError>
    decreases t.len() - i, 1nat,
{
    if i < 0 || i >= t.len() {
        Err(PatternError::UnterminatedCall)
    } else if t[i] is Slash || t[i] is CloseParen {
        Ok((acc, i))
    } else if t[i] is OpenParen {
        Err(PatternError::UnexpectedOpen)
    } else {
        match parse_expr(t, i) {
            Err(e) => Err(e),
            Ok((f, j)) => if j <= i || j > t.len() {
                Err(PatternError::UnterminatedCall)
            } else {
                parse_argument(t, j, acc.push(f))
            },
        }
    }
}

/// The token at `i`, if there is one.
pub open spec fn token_at(t: Seq<TokenView>, i: int) -> Option<TokenView> {
    if 0 <= i < t.len() {
        Some(t[i])
    } else {
        None
    }
}

/// The call of function `name`, whose arguments start at token `i` (after the `(`).
pub open spec fn parse_call(t: Seq<TokenView>, i: int, name: Seq<char>) -> Result<(FragmentView, int), PatternError>
    decreases t.len() - i, 2nat,
{
    if name == prefix_name() {
        match parse_argument(t, i, Seq::empty()) {
            Err(e) => Err(e),
            Ok((prefix, p)) => if p < i || p >= t.len() {
                Err(PatternError::UnterminatedCall)
            } else if !(t[p] is Slash) {
                Err(PatternError::PrefixArity)
            } else {
                match parse_argument(t, p + 1, Seq::empty()) {
                    Err(e) => Err(e),
                    Ok((base, q)) => if q < p + 1 || q >= t.len() {
                        Err(PatternError::UnterminatedCall)
                    } else if !(t[q] is CloseParen) {
                        Err(PatternError::PrefixArity)
                    } else {
                        Ok((FragmentView::Prefix(prefix, base), q + 1))
                    },
                }
            },
        }
    } else if name == replace_name() || name == replace_all_name() {
        match parse_argument(t, i, Seq::empty()) {
            Err(e) => Err(e),
            Ok((base, p)) => if p < i || p >= t.len() {
                Err(PatternError::UnterminatedCall)
            } else if !(t[p] is Slash) {
                Err(PatternError::ReplaceArity)
            } else if !(token_at(t, p + 1) matches Some(TokenView::Literal(_))) {
                Err(PatternError::LiteralExpected)
            } else if !(token_at(t, p + 2) matches Some(TokenView::Slash)) {
                Err(PatternError::ReplaceArity)
            } else if !(token_at(t, p + 3) matches Some(TokenView::Literal(_))) {
                Err(PatternError::LiteralExpected)
            } else if !(token_at(t, p + 4) matches Some(TokenView::CloseParen)) {
                Err(PatternError::ReplaceArity)
            } else if !regex_accepts(t[p + 1]->Literal_0) {
                Err(PatternError::InvalidRegex)
            } else {
                Ok((
                    FragmentView::Replace(
                        base,
                        t[p + 1]->Literal_0,
                        t[p + 3]->Literal_0,
                        name == replace_all_name(),
                    ),
                    p + 5,
                ))
            },
        }
    } else {
        Err(PatternError::UnknownFunction)
    }
}

/// The fragments from token `i` to the end, after `acc`.
pub open spec fn parse_program(t: Seq<TokenView>, i: int, acc: Seq<FragmentView>) -> Result<Seq<FragmentView>, PatternError>
    decreases t.len() - i,
{
    if i < 0 || i >= t.len() {
        Ok(acc)
    } else {
        match parse_expr(t, i) {
            Err(e) => Err(e),
            Ok((f, j)) => if j <= i || j > t.len() {
                Err(PatternError::UnterminatedCall)
            } else {
                parse_program(t, j, acc.push(f))
            },
        }
    }
}

/// The parsed form of a pattern, or why it is refused.
pub open spec fn pattern_spec(s: Seq<char>) -> Result<Seq<FragmentView>, PatternError> {
    match lex_spec(s) {
        Err(e) => Err(e),
        Ok(t) => parse_program(t, 0, Seq::empty()),
    }
}

/// What a program renders for a record.
pub open spec fn eval_program(p: Seq<FragmentView>, fields: FieldsView) -> Seq<char>
    decreases p,
{
    if p.len() == 0 {
        Seq::empty()
    } else {
        eval_program(p.drop_last(), fields) + eval_fragment(p.last(), fields)
    }
}

/// What one fragment renders for a record.
pub open spec fn eval_fragment(f: FragmentView, fields: FieldsView) -> Seq<char>
    decreases f,
{
    match f {
        FragmentView::Literal(l) => l,
        FragmentView::Variable(name) => match field_of(fields, name) {
            Some(v) => render_value(v),
            None => Seq::empty(),
        },
        FragmentView::Prefix(prefix, base) => {
            let body = trimmed(eval_program(base, fields));
            if body.len() == 0 {
                Seq::empty()
            } else {
                eval_program(prefix, fields) + body
            }
        },
        FragmentView::Replace(base, regex, replacement, global) => if global {
            regex_replace_every(regex, eval_program(base, fields), replacement)
        } else {
            regex_replace_first(regex, eval_program(base, fields), replacement)
        },
    }
}

proof fn lemma_fragments_push(fs: Seq<PrettyFragment>, f: PrettyFragment)
    ensures
        fragments_view(fs.push(f)) == fragments_view(fs).push(fragment_view(f)),
{
    assert(fs.push(f).drop_last() =~= fs);
}

proof fn lemma_fragments_prefix(fs: Seq<PrettyFragment>, i: int)
    requires
        0 <= i < fs.len(),
    ensures
        fragments_view(fs.subrange(0, i + 1)) == fragments_view(fs.subrange(0, i)).push(fragment_view(fs[i])),
{
    assert(fs.subrange(0, i + 1).drop_last() =~= fs.subrange(0, i));
}

proof fn lemma_eval_push(p: Seq<FragmentView>, f: FragmentView, fields: FieldsView)
    ensures
        eval_program(p.push(f), fields) == eval_program(p, fields) + eval_fragment(f, fields),
{
    assert(p.push(f).drop_last() =~= p);
}

fn push_fragment(frags: &mut Vec<PrettyFragment>, f: PrettyFragment)
    ensures
        fragments_view(final(frags)@) == fragments_view(old(frags)@).push(fragment_view(f)),
{
    proof {
        lemma_fragments_push(frags@, f);
    }
    frags.push(f);
}

/// Parses one fragment at token `i`.
fn parse_expr_at(t: &Vec<Token>, i: usize) -> (r: Result<(PrettyFragment, usize), PatternError>)
    requires
        i < t@.len(),
    ensures
        match parse_expr(tokens_view(t@), i as int) {
            Ok((f, j)) => r matches Ok((g, k)) && fragment_view(g) == f && k == j,
            Err(e) => r == Err::<(PrettyFragment, usize), PatternError>(e),
        },
        r matches Ok((_, k)) ==> i < k <= t@.len(),
    decreases t@.len() - i, 0nat,
{
    let n = t.len();
    match &t[i] {
        Token::Literal(l) => Ok((PrettyFragment::Literal(copy_chars(l)), i + 1)),
        Token::Variable(name) => {
            if i + 1 < t.len() {
                if let Token::OpenParen = &t[i + 1] {
                    return parse_call_at(t, i + 2, name);
                }
            }
            Ok((PrettyFragment::Variable(string_of(name)), i + 1))
        },
        Token::OpenParen => Err(PatternError::UnexpectedOpen),
        Token::CloseParen => Err(PatternError::UnexpectedClose),
        Token::Slash => Err(PatternError::UnexpectedSeparator),
    }
}

/// Parses one call argument starting at token `i`.
fn parse_argument_at(t: &Vec<Token>, i: usize) -> (r: Result<(PrettyDescriptor, usize), PatternError>)
    requires
        i <= t@.len(),
    ensures
        match parse_argument(tokens_view(t@), i as int, Seq::empty()) {
            Ok((fs, j)) => r matches Ok((d, k)) && d@ == fs && k == j,
            Err(e) => r == Err::<(PrettyDescriptor, usize), PatternError>(e),
        },
        r matches Ok((_, k)) ==> i <= k < t@.len(),
    decreases t@.len() - i, 1nat,
{
    let ghost tv = tokens_view(t@);
    let n = t.len();
    let mut frags: Vec<PrettyFragment> = Vec::new();
    let mut k: usize = i;
    proof {
        assert(fragments_view(frags@) =~= Seq::<FragmentView>::empty());
    }
    loop
        invariant
            n == t@.len(),
            tv == tokens_view(t@),
            i <= k <= n,
            parse_argument(tv, i as int, Seq::empty()) == parse_argument(tv, k as int, fragments_view(frags@)),
        decreases n - k,
    {
        if k >= n {
            return Err(PatternError::UnterminatedCall);
        }
        match &t[k] {
            Token::Slash => {
                let d = PrettyDescriptor { fragments: frags };
                return Ok((d, k));
            },
            Token::CloseParen => {
                let d = PrettyDescriptor { fragments: frags };
                return Ok((d, k));
            },
            Token::OpenParen => {
                return Err(PatternError::UnexpectedOpen);
            },
            _ => {},
        }
        match parse_expr_at(t, k) {
            Err(e) => {
                return Err(e);
            },
            Ok((f, j)) => {
                push_fragment(&mut frags, f);
                k = j;
            },
        }
    }
}

fn is_slash(t: &Vec<Token>, i: usize) -> (r: bool)
    ensures
        r == (token_at(tokens_view(t@), i as int) matches Some(TokenView::Slash)),
{
    if i < t.len() {
        match &t[i] {
            Token::Slash => true,
            _ => false,
        }
    } else {
        false
    }
}

fn is_close(t: &Vec<Token>, i: usize) -> (r: bool)
    ensures
        r == (token_at(tokens_view(t@), i as int) matches Some(TokenView::CloseParen)),
{
    if i < t.len() {
        match &t[i] {
            Token::CloseParen => true,
            _ => false,
        }
    } else {
        false
    }
}

fn literal_at(t: &Vec<Token>, i: usize) -> (r: Option<&Vec<char>>)
    ensures
        r is Some == (token_at(tokens_view(t@), i as int) matches Some(TokenView::Literal(_))),
        r matches Some(l) ==> tokens_view(t@)[i as int] == TokenView::Literal(l@),
{
    if i < t.len() {
        match &t[i] {
            Token::Literal(l) => Some(l),
            _ => None,
        }
    } else {
        None
    }
}

/// Parses the call of `name` whose arguments start at token `i`.
fn parse_call_at(t: &Vec<Token>, i: usize, name: &Vec<char>) -> (r: Result<(PrettyFragment, usize), PatternError>)
    requires
        i <= t@.len(),
    ensures
        match parse_call(tokens_view(t@), i as int, name@) {
            Ok((f, j)) => r matches Ok((g, k)) && fragment_view(g) == f && k == j,
            Err(e) => r == Err::<(PrettyFragment, usize), PatternError>(e),
        },
        r matches Ok((_, k)) ==> i < k <= t@.len(),
    decreases t@.len() - i, 2nat,
{
    let ghost tv = tokens_view(t@);
    let n = t.len();
    let is_prefix = chars_equal(name, "prefix");
    let is_replace = chars_equal(name, "replace");
    let is_replace_all = chars_equal(name, "replaceAll");
    proof {
        reveal_strlit("prefix");
        reveal_strlit("replace");
        reveal_strlit("replaceAll");
        assert("prefix"@ =~= prefix_name());
        assert("replace"@ =~= replace_name());
        assert("replaceAll"@ =~= replace_all_name());
    }
    if is_prefix {
        let (prefix, p) = match parse_argument_at(t, i) {
            Err(e) => {
                return Err(e);
            },
            Ok(x) => x,
        };
        if !is_slash(t, p) {
            return Err(PatternError::PrefixArity);
        }
        let (base, q) = match parse_argument_at(t, p + 1) {
            Err(e) => {
                return Err(e);
            },
            Ok(x) => x,
        };
        if !is_close(t, q) {
            return Err(PatternError::PrefixArity);
        }
        Ok((PrettyFragment::Prefix(prefix, base), q + 1))
    } else if is_replace || is_replace_all {
        let (base, p) = match parse_argument_at(t, i) {
            Err(e) => {
                return Err(e);
            },
            Ok(x) => x,
        };
        if !is_slash(t, p) {
            return Err(PatternError::ReplaceArity);
        }
        let regex_chars = match literal_at(t, p + 1) {
            Some(l) => l,
            None => {
                return Err(PatternError::LiteralExpected);
            },
        };
        if !is_slash(t, p + 2) {
            return Err(PatternError::ReplaceArity);
        }
        let replacement_chars = match literal_at(t, p + 3) {
            Some(l) => l,
            None => {
                return Err(PatternError::LiteralExpected);
            },
        };
        if !is_close(t, p + 4) {
            return Err(PatternError::ReplaceArity);
        }
        let regex_text = string_of(regex_chars);
        let regex = match CompiledRegex::compile(regex_text.as_str()) {
            Some(c) => c,
            None => {
                return Err(PatternError::InvalidRegex);
            },
        };
        let replacement = string_of(replacement_chars);
        Ok((PrettyFragment::Replace(base, regex, replacement, is_replace_all), p + 5))
    } else {
        Err(PatternError::UnknownFunction)
    }
}

impl PrettyDescriptor {
    /// What parsing `pattern` gives, as plain values.
    pub open spec fn parse_result(pattern: Seq<char>) -> Result<Seq<FragmentView>, PatternError> {
        pattern_spec(pattern)
    }

    /// Parses a pattern. `%name` reads a field; `%prefix(p/b)`, `%replace(b/re/rep)` and
    /// `%replaceAll(b/re/rep)` are calls; `\` escapes `t s n r % \ / ( )`, and `\v` ends a
    /// literal with nothing; everything else is literal text.
    pub fn parse(pattern: &str) -> (r: Result<PrettyDescriptor, PatternError>)
        ensures
            match pattern_spec(pattern@) {
                Ok(p) => r matches Ok(d) && d@ == p,
                Err(e) => r == Err::<PrettyDescriptor, PatternError>(e),
            },
    {
        let s = chars_of(pattern);
        let t = match lex(&s) {
            Err(e) => {
                return Err(e);
            },
            Ok(t) => t,
        };
        let ghost tv = tokens_view(t@);
        let n = t.len();
        let mut frags: Vec<PrettyFragment> = Vec::new();
        let mut k: usize = 0;
        proof {
            assert(fragments_view(frags@) =~= Seq::<FragmentView>::empty());
        }
        while k < n
            invariant
                n == t@.len(),
                tv == tokens_view(t@),
                0 <= k <= n,
                pattern_spec(pattern@) == parse_program(tv, k as int, fragments_view(frags@)),
            decreases n - k,
        {
            match parse_expr_at(&t, k) {
                Err(e) => {
                    return Err(e);
                },
                Ok((f, j)) => {
                    push_fragment(&mut frags, f);
                    k = j;
                },
            }
        }
        Ok(PrettyDescriptor { fragments: frags })
    }

    /// Appends what the pattern renders for `values` to `out`.
    fn print_chars(&self, values: &Vec<(String, JsonValue)>, out: &mut Vec<char>)
        ensures
            final(out)@ == old(out)@ + eval_program(self@, fields_view(values@)),
        decreases self,
    {
        let ghost start = out@;
        let mut i: usize = 0;
        proof {
            assert(self.fragments@.subrange(0, 0) =~= Seq::<PrettyFragment>::empty());
            assert(out@ =~= start + eval_program(fragments_view(self.fragments@.subrange(0, 0)), fields_view(values@)));
        }
        while i < self.fragments.len()
            invariant
                0 <= i <= self.fragments@.len(),
                out@ == start + eval_program(fragments_view(self.fragments@.subrange(0, i as int)), fields_view(values@)),
            decreases self.fragments@.len() - i,
        {
            proof {
                assert(decreases_to!(*self => self.fragments));
                assert(decreases_to!(self.fragments => self.fragments@));
                assert(decreases_to!(self.fragments@ => self.fragments@[i as int]));
                assert(decreases_to!(*self => self.fragments@[i as int]));
            }
            print_fragment(&self.fragments[i], values, out);
            proof {
                lemma_fragments_prefix(self.fragments@, i as int);
                lemma_eval_push(
                    fragments_view(self.fragments@.subrange(0, i as int)),
                    fragment_view(self.fragments@[i as int]),
                    fields_view(values@),
                );
            }
            i = i + 1;
        }
        proof {
            assert(self.fragments@.subrange(0, self.fragments@.len() as int) =~= self.fragments@);
        }
    }

    /// Appends what the pattern renders for `values` to `target`.
    pub fn print(&self, values: &Vec<(String, JsonValue)>, target: &mut String)
        ensures
            final(target)@ == old(target)@ + eval_program(self@, fields_view(values@)),
    {
        let text = self.print_to_string(values);
        target.append(text.as_str());
    }

    /// What the pattern renders for `values`.
    pub fn print_to_string(&self, values: &Vec<(String, JsonValue)>) -> (r: String)
        ensures
            r@ == eval_program(self@, fields_view(values@)),
    {
        let mut out: Vec<char> = Vec::new();
        self.print_chars(values, &mut out);
        proof {
            assert(out@ =~= eval_program(self@, fields_view(values@)));
        }
        string_of(&out)
    }
}

/// Appends what one fragment renders for `values` to `out`.
fn print_fragment(f: &PrettyFragment, values: &Vec<(String, JsonValue)>, out: &mut Vec<char>)
    ensures
        final(out)@ == old(out)@ + eval_fragment(fragment_view(*f), fields_view(values@)),
    decreases f,
{
    let ghost start = out@;
    match f {
        PrettyFragment::Literal(l) => {
            append_chars(out, l);
        },
        PrettyFragment::Variable(name) => {
            match get_field(values, name) {
                Some(v) => {
                    render_into(v, out);
                },
                None => {
                    proof {
                        assert(out@ =~= start + eval_fragment(fragment_view(*f), fields_view(values@)));
                    }
                },
            }
        },
        PrettyFragment::Prefix(prefix, base) => {
            let mut body: Vec<char> = Vec::new();
            proof {
                assert(decreases_to!(*f => f->Prefix_1));
            }
            base.print_chars(values, &mut body);
            proof {
                assert(body@ =~= eval_program(base@, fields_view(values@)));
            }
            let trimmed_body = trim_chars(&body);
            if trimmed_body.len() == 0 {
                proof {
                    assert(out@ =~= start + eval_fragment(fragment_view(*f), fields_view(values@)));
                }
            } else {
                proof {
                    assert(decreases_to!(*f => f->Prefix_0));
                }
                prefix.print_chars(values, out);
                append_chars(out, &trimmed_body);
                proof {
                    assert(out@ =~= start + eval_fragment(fragment_view(*f), fields_view(values@)));
                }
            }
        },
        PrettyFragment::Replace(base, regex, replacement, global) => {
            let mut body: Vec<char> = Vec::new();
            proof {
                assert(decreases_to!(*f => f->Replace_0));
            }
            base.print_chars(values, &mut body);
            proof {
                assert(body@ =~= eval_program(base@, fields_view(values@)));
            }
            let text = string_of(&body);
            let replaced = if *global {
                regex.replace_every(text.as_str(), replacement.as_str())
            } else {
                regex.replace_first(text.as_str(), replacement.as_str())
            };
            let cs = chars_of(replaced.as_str());
            append_chars(out, &cs);
        },
    }
}

/// Rendering is a function of the program and the record alone: the same record rendered
/// twice with the same program gives the same text.
pub proof fn lemma_render_idempotent(
    p: Seq<FragmentView>,
    fields: FieldsView,
    first: Seq<char>,
    second: Seq<char>,
)
    requires
        first == eval_program(p, fields),
        second == eval_program(p, fields),
    ensures
        first == second,
{
}

} // verus!
