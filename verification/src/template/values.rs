//! The leaf language of templates: literal text with `${{ path }}`
//! references, tokenised and parsed into renderable values.

use vstd::prelude::*;

use crate::json::{Json, JsonV, lookup_parts};
use crate::render::json_text;
use crate::strutil::{chars_of, push_char};

verus! {

broadcast use vstd::std_specs::vec::group_vec_axioms, vstd::seq::group_seq_axioms;

/// One lexical piece of a template string.
#[derive(Debug, PartialEq, Eq, Clone)]
pub enum Token {
    /// Literal text outside any marker.
    Text(String),
    /// The opening marker `${{`.
    TemplateStart,
    /// One identifier inside a marker.
    TemplateIdentifier(String),
    /// The `.` between identifiers inside a marker.
    TemplateDot,
    /// The closing marker `}}`.
    TemplateEnd,
}

/// What a token holds.
pub enum TokenV {
    Text(Seq<char>),
    Start,
    Ident(Seq<char>),
    Dot,
    End,
}

impl View for Token {
    type V = TokenV;

    open spec fn view(&self) -> TokenV {
        match self {
            Token::Text(t) => TokenV::Text(t@),
            Token::TemplateStart => TokenV::Start,
            Token::TemplateIdentifier(t) => TokenV::Ident(t@),
            Token::TemplateDot => TokenV::Dot,
            Token::TemplateEnd => TokenV::End,
        }
    }
}

/// What a token sequence holds.
pub open spec fn tokens_view(s: Seq<Token>) -> Seq<TokenV> {
    Seq::new(
        s.len(),
        |i: int|
            if 0 <= i < s.len() {
                s[i]@
            } else {
                TokenV::Dot
            },
    )
}

/// The whitespace the lexer skips.
pub open spec fn is_ws(c: char) -> bool {
    c == ' ' || c == '\t' || c == '\n' || c == '\r'
}

/// Whether a marker `${{` opens at `i`.
pub open spec fn marker_at(s: Seq<char>, i: int) -> bool {
    i + 3 <= s.len() && s[i] == '$' && s[i + 1] == '{' && s[i + 2] == '{'
}

/// The first position at or after `i` where a marker opens, or -1.
pub open spec fn find_marker_at(s: Seq<char>, i: int) -> int
    decreases s.len() - i,
{
    if i < 0 || i + 3 > s.len() {
        -1
    } else if marker_at(s, i) {
        i
    } else {
        find_marker_at(s, i + 1)
    }
}

proof fn lemma_find_marker(s: Seq<char>, i: int)
    requires
        0 <= i,
    ensures
        find_marker_at(s, i) < 0 ==> forall|k: int| i <= k ==> !marker_at(s, k),
        find_marker_at(s, i) >= 0 ==> i <= find_marker_at(s, i) && marker_at(
            s,
            find_marker_at(s, i),
        ) && forall|k: int| i <= k < find_marker_at(s, i) ==> !marker_at(s, k),
    decreases s.len() - i,
{
    if i + 3 > s.len() {
        assert forall|k: int| i <= k implies !marker_at(s, k) by {}
    } else if !marker_at(s, i) {
        lemma_find_marker(s, i + 1);
    }
}

/// The first position at or after `i` holding no whitespace.
pub open spec fn skip_ws_at(s: Seq<char>, i: int) -> int
    decreases s.len() - i,
{
    if i < 0 || i >= s.len() {
        i
    } else if is_ws(s[i]) {
        skip_ws_at(s, i + 1)
    } else {
        i
    }
}

proof fn lemma_skip_ws(s: Seq<char>, i: int)
    requires
        0 <= i <= s.len(),
    ensures
        i <= skip_ws_at(s, i) <= s.len(),
    decreases s.len() - i,
{
    if i < s.len() && is_ws(s[i]) {
        lemma_skip_ws(s, i + 1);
    }
}

/// Flush the identifier collected so far into at most one token.
pub open spec fn flush_ident(cur: Seq<char>) -> Seq<TokenV> {
    if cur.len() == 0 {
        Seq::empty()
    } else {
        seq![TokenV::Ident(cur)]
    }
}

/// Scan the inside of a marker from `i`, collecting identifier and dot
/// tokens, until whitespace or `}` or the end.  Yields the tokens and
/// the position scanning stopped at.
pub open spec fn scan_ident_at(s: Seq<char>, i: int, cur: Seq<char>) -> (Seq<TokenV>, int)
    decreases s.len() - i,
{
    if i < 0 || i >= s.len() || is_ws(s[i]) || s[i] == '}' {
        (flush_ident(cur), i)
    } else if s[i] == '.' {
        let rest = scan_ident_at(s, i + 1, Seq::empty());
        (flush_ident(cur) + seq![TokenV::Dot] + rest.0, rest.1)
    } else {
        scan_ident_at(s, i + 1, cur.push(s[i]))
    }
}

proof fn lemma_scan_ident(s: Seq<char>, i: int, cur: Seq<char>)
    requires
        0 <= i <= s.len(),
    ensures
        i <= scan_ident_at(s, i, cur).1 <= s.len(),
    decreases s.len() - i,
{
    if !(i >= s.len() || is_ws(s[i]) || s[i] == '}') {
        if s[i] == '.' {
            lemma_scan_ident(s, i + 1, Seq::empty());
        } else {
            lemma_scan_ident(s, i + 1, cur.push(s[i]));
        }
    }
}

/// The tokens of the template string from `i` on.
pub open spec fn lex_at(s: Seq<char>, i: int) -> Seq<TokenV>
    decreases s.len() - i, 0int,
    via lex_at_decreases
{
    let m = find_marker_at(s, i);
    if m < 0 {
        if i >= s.len() {
            Seq::empty()
        } else {
            seq![TokenV::Text(s.subrange(i, s.len() as int))]
        }
    } else {
        let pre: Seq<TokenV> = if m > i {
            seq![TokenV::Text(s.subrange(i, m))]
        } else {
            Seq::empty()
        };
        pre + seq![TokenV::Start] + lex_marker_at(s, m + 3)
    }
}

#[via_fn]
proof fn lex_at_decreases(s: Seq<char>, i: int) {
    if 0 <= i {
        lemma_find_marker(s, i);
    }
}

/// The tokens of a marker's inside from `i` on: the collected
/// identifiers and dots, a closing token when the marker closes, and
/// then the rest of the string.
pub open spec fn lex_marker_at(s: Seq<char>, i: int) -> Seq<TokenV>
    decreases s.len() - i, 1int,
    via lex_marker_at_decreases
{
    if i < 0 || i > s.len() {
        Seq::empty()
    } else {
        let a = skip_ws_at(s, i);
        let scanned = scan_ident_at(s, a, Seq::empty());
        let j = skip_ws_at(s, scanned.1);
        if j + 1 < s.len() && s[j] == '}' && s[j + 1] == '}' {
            scanned.0 + seq![TokenV::End] + lex_at(s, j + 2)
        } else {
            scanned.0 + lex_at(s, j)
        }
    }
}

#[via_fn]
proof fn lex_marker_at_decreases(s: Seq<char>, i: int) {
    if 0 <= i <= s.len() {
        lemma_skip_ws(s, i);
        lemma_scan_ident(s, skip_ws_at(s, i), Seq::empty());
        lemma_skip_ws(s, scan_ident_at(s, skip_ws_at(s, i), Seq::empty()).1);
    }
}

/// The tokens of a whole template string.
pub open spec fn lex_spec(s: Seq<char>) -> Seq<TokenV> {
    lex_at(s, 0)
}

fn is_ws_exec(c: char) -> (r: bool)
    ensures
        r == is_ws(c),
{
    c == ' ' || c == '\t' || c == '\n' || c == '\r'
}

fn skip_ws_exec(chars: &Vec<char>, i: usize) -> (r: usize)
    requires
        i <= chars@.len(),
    ensures
        r as int == skip_ws_at(chars@, i as int),
        i <= r <= chars@.len(),
    decreases chars@.len() - i,
{
    if i < chars.len() && is_ws_exec(chars[i]) {
        skip_ws_exec(chars, i + 1)
    } else {
        i
    }
}

fn find_marker_exec(chars: &Vec<char>, i: usize) -> (r: Option<usize>)
    requires
        i <= chars@.len(),
    ensures
        match r {
            Some(m) => find_marker_at(chars@, i as int) == m as int && i <= m && m + 3
                <= chars@.len(),
            None => find_marker_at(chars@, i as int) < 0,
        },
    decreases chars@.len() - i,
{
    if chars.len() < 3 || i > chars.len() - 3 {
        None
    } else if chars[i] == '$' && chars[i + 1] == '{' && chars[i + 2] == '{' {
        Some(i)
    } else {
        find_marker_exec(chars, i + 1)
    }
}

fn is_marker_ident_char(c: char) -> (r: bool)
    ensures
        r == (!is_ws(c) && c != '}' && c != '.'),
{
    !is_ws_exec(c) && c != '}' && c != '.'
}

fn scan_ident_exec(chars: &Vec<char>, i: usize, cur: String, out: &mut Vec<Token>) -> (r: usize)
    requires
        i <= chars@.len(),
    ensures
        tokens_view(final(out)@) == tokens_view(old(out)@) + scan_ident_at(
            chars@,
            i as int,
            cur@,
        ).0,
        r as int == scan_ident_at(chars@, i as int, cur@).1,
        i <= r <= chars@.len(),
    decreases chars@.len() - i,
{
    if i >= chars.len() || is_ws_exec(chars[i]) || chars[i] == '}' {
        if !cur.as_str().is_empty() {
            out.push(Token::TemplateIdentifier(cur));
        }
        proof {
            assert(tokens_view(out@) =~= tokens_view(old(out)@) + scan_ident_at(
                chars@,
                i as int,
                cur@,
            ).0);
        }
        i
    } else if chars[i] == '.' {
        if !cur.as_str().is_empty() {
            out.push(Token::TemplateIdentifier(cur));
        }
        out.push(Token::TemplateDot);
        let ghost mid = out@;
        let r = scan_ident_exec(chars, i + 1, String::new(), out);
        proof {
            assert(tokens_view(mid) =~= tokens_view(old(out)@) + flush_ident(cur@) + seq![
                TokenV::Dot,
            ]);
            assert(tokens_view(out@) =~= tokens_view(old(out)@) + scan_ident_at(
                chars@,
                i as int,
                cur@,
            ).0);
        }
        r
    } else {
        let mut cur2 = cur;
        push_char(&mut cur2, chars[i]);
        let r = scan_ident_exec(chars, i + 1, cur2, out);
        r
    }
}

fn lex_from(chars: &Vec<char>, i: usize, out: &mut Vec<Token>)
    requires
        i <= chars@.len(),
    ensures
        tokens_view(final(out)@) == tokens_view(old(out)@) + lex_at(chars@, i as int),
    decreases chars@.len() - i, 0int,
{
    match find_marker_exec(chars, i) {
        None => {
            if i < chars.len() {
                let text = segment(chars, i, chars.len());
                out.push(Token::Text(text));
            }
            proof {
                assert(tokens_view(out@) =~= tokens_view(old(out)@) + lex_at(chars@, i as int));
            }
        }
        Some(m) => {
            let total: usize = chars.len();
            if m > i {
                let text = segment(chars, i, m);
                out.push(Token::Text(text));
            }
            out.push(Token::TemplateStart);
            let ghost mid = out@;
            lex_marker_from(chars, m + 3, out);
            proof {
                if m > i {
                    assert(tokens_view(mid) =~= tokens_view(old(out)@) + seq![
                        TokenV::Text(chars@.subrange(i as int, m as int)),
                        TokenV::Start,
                    ]);
                } else {
                    assert(tokens_view(mid) =~= tokens_view(old(out)@) + seq![TokenV::Start]);
                }
                assert(tokens_view(out@) =~= tokens_view(old(out)@) + lex_at(chars@, i as int));
            }
        }
    }
}

fn lex_marker_from(chars: &Vec<char>, i: usize, out: &mut Vec<Token>)
    requires
        i <= chars@.len(),
    ensures
        tokens_view(final(out)@) == tokens_view(old(out)@) + lex_marker_at(chars@, i as int),
    decreases chars@.len() - i, 1int,
{
    let a = skip_ws_exec(chars, i);
    let e = scan_ident_exec(chars, a, String::new(), out);
    let j = skip_ws_exec(chars, e);
    let ghost mid = out@;
    if j < chars.len() && chars.len() - j > 1 && chars[j] == '}' && chars[j + 1] == '}' {
        out.push(Token::TemplateEnd);
        let ghost mid2 = out@;
        lex_from(chars, j + 2, out);
        proof {
            assert(tokens_view(mid2) =~= tokens_view(mid) + seq![TokenV::End]);
            assert(tokens_view(out@) =~= tokens_view(old(out)@) + lex_marker_at(
                chars@,
                i as int,
            ));
        }
    } else {
        lex_from(chars, j, out);
        proof {
            assert(tokens_view(out@) =~= tokens_view(old(out)@) + lex_marker_at(
                chars@,
                i as int,
            ));
        }
    }
}

/// The characters of `chars[from..to]`, as a string.
fn segment(chars: &Vec<char>, from: usize, to: usize) -> (r: String)
    requires
        from <= to <= chars@.len(),
    ensures
        r@ == chars@.subrange(from as int, to as int),
{
    let mut r = String::new();
    let mut k: usize = from;
    while k < to
        invariant
            from <= k <= to <= chars@.len(),
            r@ == chars@.subrange(from as int, k as int),
        decreases to - k,
    {
        push_char(&mut r, chars[k]);
        k = k + 1;
        proof {
            assert(r@ =~= chars@.subrange(from as int, k as int));
        }
    }
    r
}

/// Tokenise a template string: literal text, and `${{ ident(.ident)* }}`
/// markers broken into their pieces.  An unclosed marker leaves its
/// opening token without a closing one, which parsing then rejects.
pub fn lex(input: &str) -> (r: Vec<Token>)
    ensures
        tokens_view(r@) == lex_spec(input@),
{
    let chars = chars_of(input);
    let mut out: Vec<Token> = Vec::new();
    lex_from(&chars, 0, &mut out);
    proof {
        assert(tokens_view(out@) =~= lex_spec(input@));
    }
    out
}


/// Why a template failed to compile or render.
#[derive(Debug, PartialEq, Eq, Clone)]
pub enum TemplateError {
    /// The template's root was neither an object nor a string.
    NoMappingFound,
    /// An object key was not a string.
    KeyExpected,
    /// An opening marker with no matching token where one was expected:
    /// the position of the stray token.
    UnexpectedToken(usize),
    /// An opening marker that never closes: the position of the opener.
    UnclosedTemplate(usize),
    /// A reference named a field the payload does not hold.
    RenderError(String),
}

impl TemplateError {
    /// A short description of the failure.
    pub fn message(&self) -> String {
        match self {
            TemplateError::NoMappingFound => "template root must be an object or a string".to_owned(),
            TemplateError::KeyExpected => "template object keys must be strings".to_owned(),
            TemplateError::UnexpectedToken(_) => "unexpected token in template reference".to_owned(),
            TemplateError::UnclosedTemplate(_) => "template reference never closes".to_owned(),
            TemplateError::RenderError(field) => field.clone(),
        }
    }
}

/// A parse failure, as the contracts state it.
pub enum ParseErrV {
    Unexpected(int),
    Unclosed(int),
}

/// One `${{ ... }}` reference with the literal text around it.
#[derive(Debug, PartialEq, Eq)]
pub struct TemplatedValue {
    pub prefix: Option<String>,
    pub template_fields: Vec<String>,
    pub postfix: Option<String>,
}

/// One piece of a template string: literal text, or a reference.
#[derive(Debug, PartialEq, Eq)]
pub enum TemplateValue {
    Raw(String),
    Template(TemplatedValue),
}

/// What a template piece holds.
pub enum TValV {
    Raw(Seq<char>),
    Tmpl { prefix: Option<Seq<char>>, fields: Seq<Seq<char>>, postfix: Option<Seq<char>> },
}

/// The field names of a reference.
pub open spec fn fields_view(s: Seq<String>) -> Seq<Seq<char>> {
    Seq::new(
        s.len(),
        |i: int|
            if 0 <= i < s.len() {
                s[i]@
            } else {
                Seq::empty()
            },
    )
}

/// What an optional text holds.
pub open spec fn opt_view(o: Option<String>) -> Option<Seq<char>> {
    match o {
        Some(t) => Some(t@),
        None => None,
    }
}

impl View for TemplateValue {
    type V = TValV;

    open spec fn view(&self) -> TValV {
        match self {
            TemplateValue::Raw(t) => TValV::Raw(t@),
            TemplateValue::Template(tv) => TValV::Tmpl {
                prefix: opt_view(tv.prefix),
                fields: fields_view(tv.template_fields@),
                postfix: opt_view(tv.postfix),
            },
        }
    }
}

/// What a sequence of template pieces holds.
pub open spec fn tvals_view(s: Seq<TemplateValue>) -> Seq<TValV> {
    Seq::new(
        s.len(),
        |i: int|
            if 0 <= i < s.len() {
                s[i]@
            } else {
                TValV::Raw(Seq::empty())
            },
    )
}

/// Collect a reference's field names from `j` until the closing token.
/// `start` is the opening token's position, reported when the marker
/// never closes.
pub open spec fn scan_fields(toks: Seq<TokenV>, j: int, start: int, acc: Seq<Seq<char>>) -> Result<
    (Seq<Seq<char>>, int),
    ParseErrV,
>
    decreases toks.len() - j,
{
    if j < 0 || j >= toks.len() {
        Err(ParseErrV::Unclosed(start))
    } else {
        match toks[j] {
            TokenV::Ident(id) => scan_fields(toks, j + 1, start, acc.push(id)),
            TokenV::Dot => scan_fields(toks, j + 1, start, acc),
            TokenV::End => Ok((acc, j)),
            _ => Err(ParseErrV::Unexpected(j)),
        }
    }
}

proof fn lemma_scan_fields(toks: Seq<TokenV>, j: int, start: int, acc: Seq<Seq<char>>)
    ensures
        scan_fields(toks, j, start, acc) matches Ok(fj) ==> j <= fj.1 < toks.len(),
    decreases toks.len() - j,
{
    if 0 <= j < toks.len() {
        match toks[j] {
            TokenV::Ident(id) => lemma_scan_fields(toks, j + 1, start, acc.push(id)),
            TokenV::Dot => lemma_scan_fields(toks, j + 1, start, acc),
            _ => {}
        }
    }
}

/// Parse tokens from `i` on, extending the pieces gathered in `buf`:
/// text attaches as the postfix of an immediately preceding reference or
/// stands alone; a marker takes a preceding text piece as its prefix.
pub open spec fn parse_rec(toks: Seq<TokenV>, i: int, buf: Seq<TValV>) -> Result<
    Seq<TValV>,
    ParseErrV,
>
    decreases toks.len() - i,
    via parse_rec_decreases
{
    if i < 0 || i >= toks.len() {
        Ok(buf)
    } else {
        match toks[i] {
            TokenV::Text(t) => {
                if buf.len() > 0 && (buf.last() matches TValV::Tmpl { prefix, fields, postfix: None }) {
                    let updated = TValV::Tmpl {
                        prefix: buf.last()->Tmpl_prefix,
                        fields: buf.last()->Tmpl_fields,
                        postfix: Some(t),
                    };
                    parse_rec(toks, i + 1, buf.update(buf.len() - 1, updated))
                } else {
                    parse_rec(toks, i + 1, buf.push(TValV::Raw(t)))
                }
            }
            TokenV::Start => {
                match scan_fields(toks, i + 1, i, Seq::empty()) {
                    Err(e) => Err(e),
                    Ok(fj) => {
                        if buf.len() > 0 && (buf.last() matches TValV::Raw(p)) {
                            parse_rec(
                                toks,
                                fj.1 + 1,
                                buf.drop_last().push(
                                    TValV::Tmpl {
                                        prefix: Some(buf.last()->Raw_0),
                                        fields: fj.0,
                                        postfix: None,
                                    },
                                ),
                            )
                        } else {
                            parse_rec(
                                toks,
                                fj.1 + 1,
                                buf.push(TValV::Tmpl { prefix: None, fields: fj.0, postfix: None }),
                            )
                        }
                    }
                }
            }
            _ => parse_rec(toks, i + 1, buf),
        }
    }
}

#[via_fn]
proof fn parse_rec_decreases(toks: Seq<TokenV>, i: int, buf: Seq<TValV>) {
    if 0 <= i < toks.len() {
        lemma_scan_fields(toks, i + 1, i, Seq::empty());
    }
}

/// The pieces a token sequence parses to.
pub open spec fn parse_spec(toks: Seq<TokenV>) -> Result<Seq<TValV>, ParseErrV> {
    parse_rec(toks, 0, Seq::empty())
}

fn scan_fields_exec(
    tokens: &Vec<Token>,
    j: usize,
    start: usize,
    mut acc: Vec<String>,
) -> (r: Result<(Vec<String>, usize), TemplateError>)
    requires
        j <= tokens@.len(),
    ensures
        match r {
            Ok(fj) => scan_fields(tokens_view(tokens@), j as int, start as int, fields_view(acc@))
                == Ok::<(Seq<Seq<char>>, int), ParseErrV>((fields_view(fj.0@), fj.1 as int)) && j
                <= fj.1 < tokens@.len(),
            Err(e) => {
                &&& scan_fields(tokens_view(tokens@), j as int, start as int, fields_view(acc@))
                    matches Err(ev)
                &&& match e {
                    TemplateError::UnexpectedToken(p) => ev == ParseErrV::Unexpected(p as int),
                    TemplateError::UnclosedTemplate(p) => ev == ParseErrV::Unclosed(p as int),
                    _ => false,
                }
            },
        },
    decreases tokens@.len() - j,
{
    if j >= tokens.len() {
        return Err(TemplateError::UnclosedTemplate(start));
    }
    match &tokens[j] {
        Token::TemplateIdentifier(id) => {
            let ghost pre = acc@;
            acc.push(id.clone());
            proof {
                assert(fields_view(acc@) =~= fields_view(pre).push(id@));
            }
            scan_fields_exec(tokens, j + 1, start, acc)
        }
        Token::TemplateDot => scan_fields_exec(tokens, j + 1, start, acc),
        Token::TemplateEnd => Ok((acc, j)),
        _ => Err(TemplateError::UnexpectedToken(j)),
    }
}

/// Parse a token list into template pieces.
pub fn parse(tokens: Vec<Token>) -> (r: Result<Vec<TemplateValue>, TemplateError>)
    ensures
        match r {
            Ok(vs) => parse_spec(tokens_view(tokens@)) == Ok::<Seq<TValV>, ParseErrV>(
                tvals_view(vs@),
            ),
            Err(e) => {
                &&& parse_spec(tokens_view(tokens@)) matches Err(ev)
                &&& match e {
                    TemplateError::UnexpectedToken(p) => ev == ParseErrV::Unexpected(p as int),
                    TemplateError::UnclosedTemplate(p) => ev == ParseErrV::Unclosed(p as int),
                    _ => false,
                }
            },
        },
{
    let ghost toksv = tokens_view(tokens@);
    let mut buf: Vec<TemplateValue> = Vec::new();
    let mut i: usize = 0;
    proof {
        assert(tvals_view(buf@) =~= Seq::<TValV>::empty());
    }
    while i < tokens.len()
        invariant
            i <= tokens@.len(),
            toksv == tokens_view(tokens@),
            parse_rec(toksv, i as int, tvals_view(buf@)) == parse_spec(toksv),
        decreases tokens@.len() - i,
    {
        let ghost pre_buf = tvals_view(buf@);
        match &tokens[i] {
            Token::Text(t) => {
                let mut attach = false;
                if buf.len() > 0 {
                    match &buf[buf.len() - 1] {
                        TemplateValue::Template(tv) => {
                            if tv.postfix.is_none() {
                                attach = true;
                            }
                        }
                        _ => {}
                    }
                }
                if attach {
                    let last = buf.len() - 1;
                    match buf.remove(last) {
                        TemplateValue::Template(tv) => {
                            buf.push(
                                TemplateValue::Template(
                                    TemplatedValue {
                                        prefix: tv.prefix,
                                        template_fields: tv.template_fields,
                                        postfix: Some(t.clone()),
                                    },
                                ),
                            );
                        }
                        other => {
                            buf.push(other);
                        }
                    }
                    proof {
                        assert(tvals_view(buf@) =~= pre_buf.update(
                            pre_buf.len() - 1,
                            TValV::Tmpl {
                                prefix: pre_buf.last()->Tmpl_prefix,
                                fields: pre_buf.last()->Tmpl_fields,
                                postfix: Some(t@),
                            },
                        ));
                    }
                } else {
                    buf.push(TemplateValue::Raw(t.clone()));
                    proof {
                        assert(tvals_view(buf@) =~= pre_buf.push(TValV::Raw(t@)));
                    }
                }
                i = i + 1;
            }
            Token::TemplateStart => {
                let start = i;
                match scan_fields_exec(&tokens, i + 1, start, Vec::new()) {
                    Err(e) => {
                        proof {
                            assert(fields_view(Seq::<String>::empty()) =~= Seq::<
                                Seq<char>,
                            >::empty());
                        }
                        return Err(e);
                    }
                    Ok((fields, j)) => {
                        proof {
                            assert(fields_view(Seq::<String>::empty()) =~= Seq::<
                                Seq<char>,
                            >::empty());
                        }
                        let mut prefix: Option<String> = None;
                        if buf.len() > 0 {
                            let is_raw = matches!(&buf[buf.len() - 1], TemplateValue::Raw(_));
                            if is_raw {
                                let last = buf.len() - 1;
                                match buf.remove(last) {
                                    TemplateValue::Raw(p) => {
                                        prefix = Some(p);
                                    }
                                    other => {
                                        buf.push(other);
                                    }
                                }
                            }
                        }
                        buf.push(
                            TemplateValue::Template(
                                TemplatedValue { prefix, template_fields: fields, postfix: None },
                            ),
                        );
                        proof {
                            if pre_buf.len() > 0 && (pre_buf.last() matches TValV::Raw(pv)) {
                                assert(tvals_view(buf@) =~= pre_buf.drop_last().push(
                                    TValV::Tmpl {
                                        prefix: Some(pre_buf.last()->Raw_0),
                                        fields: fields_view(fields@),
                                        postfix: None,
                                    },
                                ));
                            } else {
                                assert(tvals_view(buf@) =~= pre_buf.push(
                                    TValV::Tmpl {
                                        prefix: None,
                                        fields: fields_view(fields@),
                                        postfix: None,
                                    },
                                ));
                            }
                        }
                        i = j + 1;
                    }
                }
            }
            _ => {
                i = i + 1;
            }
        }
    }
    Ok(buf)
}

/// Render one piece against a payload: literal text stays, a reference
/// becomes the canonical text of the value at its path, between its
/// prefix and postfix.  `Err` carries the first missing field.
pub open spec fn render_tval(tv: TValV, v: JsonV) -> Result<Seq<char>, Seq<char>> {
    match tv {
        TValV::Raw(t) => Ok(t),
        TValV::Tmpl { prefix, fields, postfix } => match lookup_parts(v, fields) {
            Ok(x) => Ok(
                (match prefix {
                    Some(p) => p,
                    None => Seq::empty(),
                }) + json_text(x) + (match postfix {
                    Some(p) => p,
                    None => Seq::empty(),
                }),
            ),
            Err(p) => Err(p),
        },
    }
}

/// Render pieces in order and concatenate, stopping at the first
/// missing field.
pub open spec fn render_leaf(s: Seq<TValV>, v: JsonV) -> Result<Seq<char>, Seq<char>>
    decreases s.len(),
{
    if s.len() == 0 {
        Ok(Seq::empty())
    } else {
        match render_tval(s[0], v) {
            Ok(t) => match render_leaf(s.drop_first(), v) {
                Ok(rest) => Ok(t + rest),
                Err(p) => Err(p),
            },
            Err(p) => Err(p),
        }
    }
}

impl TemplatedValue {
    /// Render the reference against a payload.
    pub fn render(&self, json: &Json) -> (r: Result<String, TemplateError>)
        ensures
            match r {
                Ok(t) => render_tval(
                    TValV::Tmpl {
                        prefix: opt_view(self.prefix),
                        fields: fields_view(self.template_fields@),
                        postfix: opt_view(self.postfix),
                    },
                    json@,
                ) == Ok::<Seq<char>, Seq<char>>(t@),
                Err(e) => {
                    &&& render_tval(
                        TValV::Tmpl {
                            prefix: opt_view(self.prefix),
                            fields: fields_view(self.template_fields@),
                            postfix: opt_view(self.postfix),
                        },
                        json@,
                    ) matches Err(p)
                    &&& e matches TemplateError::RenderError(m) && m@ == p
                },
            },
    {
        match crate::json::descend(json, &self.template_fields) {
            Ok(x) => {
                proof {
                    assert(fields_view(self.template_fields@) =~= self.template_fields@.map_values(
                        |p: String| p@,
                    ));
                }
                let mut out: String = match &self.prefix {
                    Some(p) => p.clone(),
                    None => String::new(),
                };
                let piece = crate::render::format_json_value(x);
                vstd::string::StringExecFns::append(&mut out, piece.as_str());
                match &self.postfix {
                    Some(p) => {
                        vstd::string::StringExecFns::append(&mut out, p.as_str());
                    }
                    None => {}
                }
                Ok(out)
            }
            Err(p) => {
                proof {
                    assert(fields_view(self.template_fields@) =~= self.template_fields@.map_values(
                        |q: String| q@,
                    ));
                }
                Err(TemplateError::RenderError(p))
            }
        }
    }
}

impl TemplateValue {
    /// Render the piece against a payload.
    pub fn render(&self, json: &Json) -> (r: Result<String, TemplateError>)
        ensures
            match r {
                Ok(t) => render_tval(self@, json@) == Ok::<Seq<char>, Seq<char>>(t@),
                Err(e) => {
                    &&& render_tval(self@, json@) matches Err(p)
                    &&& e matches TemplateError::RenderError(m) && m@ == p
                },
            },
    {
        match self {
            TemplateValue::Raw(t) => Ok(t.clone()),
            TemplateValue::Template(tv) => tv.render(json),
        }
    }

    /// Tokenise and parse a template string into its pieces.
    pub fn try_parse(value: &str) -> (r: Result<Vec<TemplateValue>, TemplateError>)
        ensures
            match r {
                Ok(vs) => parse_spec(lex_spec(value@)) == Ok::<Seq<TValV>, ParseErrV>(
                    tvals_view(vs@),
                ),
                Err(e) => {
                    &&& parse_spec(lex_spec(value@)) matches Err(ev)
                    &&& match e {
                        TemplateError::UnexpectedToken(p) => ev == ParseErrV::Unexpected(p as int),
                        TemplateError::UnclosedTemplate(p) => ev == ParseErrV::Unclosed(p as int),
                        _ => false,
                    }
                },
            },
    {
        parse(lex(value))
    }
}

/// Render pieces in order against a payload, concatenated.
pub fn render_values(values: &Vec<TemplateValue>, json: &Json) -> (r: Result<
    String,
    TemplateError,
>)
    ensures
        match r {
            Ok(t) => render_leaf(tvals_view(values@), json@) == Ok::<Seq<char>, Seq<char>>(t@),
            Err(e) => {
                &&& render_leaf(tvals_view(values@), json@) matches Err(p)
                &&& e matches TemplateError::RenderError(m) && m@ == p
            },
        },
{
    let ghost vs = tvals_view(values@);
    let mut out = String::new();
    let mut i: usize = 0;
    proof {
        assert(vs.subrange(0, vs.len() as int) =~= vs);
    }
    while i < values.len()
        invariant
            i <= values@.len(),
            vs == tvals_view(values@),
            (render_leaf(vs.subrange(i as int, vs.len() as int), json@) matches Ok(rest) ==>
            render_leaf(vs, json@) == Ok::<Seq<char>, Seq<char>>(out@ + rest)),
            (render_leaf(vs.subrange(i as int, vs.len() as int), json@) matches Err(p) ==>
            render_leaf(vs, json@) == Err::<Seq<char>, Seq<char>>(p)),
        decreases values@.len() - i,
    {
        let ghost rest_pre = vs.subrange(i as int, vs.len() as int);
        proof {
            assert(rest_pre[0] == vs[i as int]);
            assert(rest_pre.drop_first() =~= vs.subrange(i + 1, vs.len() as int));
        }
        match values[i].render(json) {
            Ok(t) => {
                let ghost out_pre = out@;
                vstd::string::StringExecFns::append(&mut out, t.as_str());
                i = i + 1;
                proof {
                    let rest_now = vs.subrange(i as int, vs.len() as int);
                    match render_leaf(rest_now, json@) {
                        Ok(rest2) => {
                            assert(render_leaf(rest_pre, json@) == Ok::<Seq<char>, Seq<char>>(
                                t@ + rest2,
                            ));
                            assert(out@ + rest2 =~= out_pre + (t@ + rest2));
                        }
                        Err(_) => {}
                    }
                }
            }
            Err(e) => {
                return Err(e);
            }
        }
    }
    proof {
        assert(vs.subrange(i as int, vs.len() as int) =~= Seq::<TValV>::empty());
        assert(out@ + Seq::<char>::empty() =~= out@);
    }
    Ok(out)
}

/// A template string without any marker parses to its literal text and
/// renders back to itself, whatever the payload.
pub proof fn lemma_markerless_renders_verbatim(s: Seq<char>, v: JsonV)
    requires
        forall|k: int| !marker_at(s, k),
    ensures
        parse_spec(lex_spec(s)) matches Ok(tvs) && render_leaf(tvs, v) == Ok::<
            Seq<char>,
            Seq<char>,
        >(s),
{
    lemma_find_marker(s, 0);
    assert(find_marker_at(s, 0) < 0);
    if s.len() == 0 {
        assert(lex_spec(s) =~= Seq::<TokenV>::empty());
        let tvs = parse_spec(lex_spec(s))->Ok_0;
        assert(tvs =~= Seq::<TValV>::empty());
        assert(render_leaf(tvs, v) == Ok::<Seq<char>, Seq<char>>(Seq::empty()));
        assert(s =~= Seq::<char>::empty());
    } else {
        assert(s.subrange(0, s.len() as int) =~= s);
        let toks = lex_spec(s);
        assert(toks =~= seq![TokenV::Text(s)]);
        let buf1 = Seq::<TValV>::empty().push(TValV::Raw(s));
        assert(parse_rec(toks, 1, buf1) == Ok::<Seq<TValV>, ParseErrV>(buf1));
        assert(parse_spec(toks) == Ok::<Seq<TValV>, ParseErrV>(buf1));
        assert(buf1.drop_first() =~= Seq::<TValV>::empty());
        assert(buf1[0] == TValV::Raw(s));
        assert(render_tval(buf1[0], v) == Ok::<Seq<char>, Seq<char>>(s));
        assert(render_leaf(Seq::<TValV>::empty(), v) == Ok::<Seq<char>, Seq<char>>(
            Seq::<char>::empty(),
        ));
        assert(render_leaf(buf1.drop_first(), v) == Ok::<Seq<char>, Seq<char>>(
            Seq::<char>::empty(),
        ));
        assert(render_leaf(buf1, v) == Ok::<Seq<char>, Seq<char>>(s + Seq::<char>::empty()));
        assert(s + Seq::<char>::empty() =~= s);
    }
}


impl Clone for TemplatedValue {
    /// A copy holding the same texts.
    fn clone(&self) -> (r: Self)
        ensures
            opt_view(r.prefix) == opt_view(self.prefix),
            fields_view(r.template_fields@) == fields_view(self.template_fields@),
            opt_view(r.postfix) == opt_view(self.postfix),
    {
        let prefix = match &self.prefix {
            Some(p) => Some(p.clone()),
            None => None,
        };
        let postfix = match &self.postfix {
            Some(p) => Some(p.clone()),
            None => None,
        };
        let mut template_fields: Vec<String> = Vec::new();
        let mut i: usize = 0;
        while i < self.template_fields.len()
            invariant
                i <= self.template_fields@.len(),
                template_fields@.len() == i,
                forall|k: int|
                    0 <= k < i ==> (#[trigger] template_fields@[k])@ == self.template_fields@[k]@,
            decreases self.template_fields@.len() - i,
        {
            template_fields.push(self.template_fields[i].clone());
            i = i + 1;
        }
        let r = TemplatedValue { prefix, template_fields, postfix };
        proof {
            assert(fields_view(r.template_fields@) =~= fields_view(self.template_fields@));
        }
        r
    }
}

impl Clone for TemplateValue {
    /// A copy holding the same pieces.
    fn clone(&self) -> (r: Self)
        ensures
            r@ == self@,
    {
        match self {
            TemplateValue::Raw(t) => TemplateValue::Raw(t.clone()),
            TemplateValue::Template(tv) => TemplateValue::Template(tv.clone()),
        }
    }
}

/// A copy of template pieces holding the same texts.
pub fn clone_values(values: &Vec<TemplateValue>) -> (r: Vec<TemplateValue>)
    ensures
        tvals_view(r@) == tvals_view(values@),
{
    let mut out: Vec<TemplateValue> = Vec::new();
    let mut i: usize = 0;
    while i < values.len()
        invariant
            i <= values@.len(),
            out@.len() == i,
            forall|k: int| 0 <= k < i ==> (#[trigger] out@[k])@ == values@[k]@,
        decreases values@.len() - i,
    {
        out.push(values[i].clone());
        i = i + 1;
    }
    proof {
        assert(tvals_view(out@) =~= tvals_view(values@));
    }
    out
}

} // verus!
