//! The SQL this reader understands: `SELECT` queries, and the `CREATE TABLE`
//! and `CREATE INDEX` statements stored in the schema.
use crate::cell::copy_bytes;
use crate::error::{SqliteError, UnsupportedFeature};
use vstd::prelude::*;
use vstd::utf8::encode_utf8;

verus! {

/// What a token is.
#[derive(Debug, Clone, Copy, PartialEq, Eq, Structural)]
pub enum TokenKind {
    /// A run of letters, digits, `_` and `*`.
    Word,
    /// The inside of a `"`-quoted identifier.
    Quoted,
    /// The inside of a `'`-quoted literal.
    Literal,
    /// Any other single byte.
    Punct,
}

/// A token: its kind and the bytes `start..end` of the statement that it
/// spans (for a quoted token, what lies between the quotes).
#[derive(Debug, Clone, Copy, PartialEq, Eq, Structural)]
pub struct Token {
    pub kind: TokenKind,
    pub start: usize,
    pub end: usize,
}

pub open spec fn is_space(b: u8) -> bool {
    b == 32 || b == 9 || b == 10 || b == 13
}

/// Letters, digits, `_` and `*`.
pub open spec fn is_word_byte(b: u8) -> bool {
    (48 <= b <= 57) || (65 <= b <= 90) || (97 <= b <= 122) || b == 95 || b == 42
}

/// The end of the run of word bytes that starts at `i`.
pub open spec fn word_end(s: Seq<u8>, i: int) -> int
    decreases s.len() - i,
{
    if 0 <= i < s.len() && is_word_byte(s[i]) {
        word_end(s, i + 1)
    } else {
        i
    }
}

/// The first `q` at or after `i`, or the end of `s`.
pub open spec fn quote_end(s: Seq<u8>, i: int, q: u8) -> int
    decreases s.len() - i,
{
    if 0 <= i < s.len() && s[i] != q {
        quote_end(s, i + 1, q)
    } else {
        i
    }
}

proof fn lemma_word_end(s: Seq<u8>, i: int)
    requires
        0 <= i <= s.len(),
    ensures
        i <= word_end(s, i) <= s.len(),
        forall|k: int| i <= k < word_end(s, i) ==> is_word_byte(#[trigger] s[k]),
    decreases s.len() - i,
{
    if i < s.len() && is_word_byte(s[i]) {
        lemma_word_end(s, i + 1);
    }
}

proof fn lemma_quote_end(s: Seq<u8>, i: int, q: u8)
    requires
        0 <= i <= s.len(),
    ensures
        i <= quote_end(s, i, q) <= s.len(),
    decreases s.len() - i,
{
    if i < s.len() && s[i] != q {
        lemma_quote_end(s, i + 1, q);
    }
}

/// The tokens of `s` from `i` on, or `None` where a quote is left open.
pub open spec fn lex_from(s: Seq<u8>, i: int) -> Option<Seq<Token>>
    decreases s.len() - i via lex_from_decreases
{
    if i >= s.len() || i < 0 {
        Some(Seq::empty())
    } else if is_space(s[i]) {
        lex_from(s, i + 1)
    } else if is_word_byte(s[i]) {
        match lex_from(s, word_end(s, i)) {
            None => None,
            Some(rest) => Some(
                seq![Token { kind: TokenKind::Word, start: i as usize, end: word_end(s, i) as usize }]
                    + rest,
            ),
        }
    } else if s[i] == 34 || s[i] == 39 {
        let e = quote_end(s, i + 1, s[i]);
        if e >= s.len() {
            None
        } else {
            match lex_from(s, e + 1) {
                None => None,
                Some(rest) => Some(
                    seq![
                        Token {
                            kind: if s[i] == 34 {
                                TokenKind::Quoted
                            } else {
                                TokenKind::Literal
                            },
                            start: (i + 1) as usize,
                            end: e as usize,
                        },
                    ] + rest,
                ),
            }
        }
    } else {
        match lex_from(s, i + 1) {
            None => None,
            Some(rest) => Some(
                seq![Token { kind: TokenKind::Punct, start: i as usize, end: (i + 1) as usize }]
                    + rest,
            ),
        }
    }
}

#[via_fn]
proof fn lex_from_decreases(s: Seq<u8>, i: int) {
    if 0 <= i < s.len() {
        lemma_word_end(s, i);
        if is_word_byte(s[i]) {
            assert(word_end(s, i) == word_end(s, i + 1));
            lemma_word_end(s, i + 1);
        }
        lemma_quote_end(s, i + 1, s[i]);
    }
}

/// Every token lies inside `s`.
pub open spec fn tokens_in(s: Seq<u8>, t: Seq<Token>) -> bool {
    forall|k: int| 0 <= k < t.len() ==> #[trigger] t[k].start <= t[k].end && t[k].end <= s.len()
}

proof fn lemma_tokens_push(s: Seq<u8>, t: Seq<Token>, tok: Token)
    requires
        tokens_in(s, t),
        tok.start <= tok.end <= s.len(),
    ensures
        tokens_in(s, t.push(tok)),
{
    assert forall|k: int| 0 <= k < t.push(tok).len() implies #[trigger] t.push(tok)[k].start
        <= t.push(tok)[k].end && t.push(tok)[k].end <= s.len() by {
        if k < t.len() {
            assert(t.push(tok)[k] == t[k]);
        }
    }
}

pub open spec fn prepend_tokens(pre: Seq<Token>, r: Option<Seq<Token>>) -> Option<Seq<Token>> {
    match r {
        None => None,
        Some(rest) => Some(pre + rest),
    }
}

/// Splits `s` into tokens; `None` where a quote is left open.
pub fn tokenize(s: &[u8]) -> (r: Option<Vec<Token>>)
    ensures
        match r {
            Some(t) => lex_from(s@, 0) == Some(t@) && tokens_in(s@, t@),
            None => lex_from(s@, 0) is None,
        },
{
    let len = s.len();
    let mut out: Vec<Token> = Vec::new();
    let mut i: usize = 0;
    while i < len
        invariant
            len == s@.len(),
            i <= len,
            lex_from(s@, 0) == prepend_tokens(out@, lex_from(s@, i as int)),
            tokens_in(s@, out@),
        decreases len - i,
    {
        let b = s[i];
        if b == 32 || b == 9 || b == 10 || b == 13 {
            i = i + 1;
        } else if (48 <= b && b <= 57) || (65 <= b && b <= 90) || (97 <= b && b <= 122) || b == 95
            || b == 42 {
            let mut e = i + 1;
            proof {
                lemma_word_end(s@, i as int);
                assert(word_end(s@, i as int) == word_end(s@, i + 1));
            }
            while e < len && ((48 <= s[e] && s[e] <= 57) || (65 <= s[e] && s[e] <= 90) || (97
                <= s[e] && s[e] <= 122) || s[e] == 95 || s[e] == 42)
                invariant
                    len == s@.len(),
                    i < e <= len,
                    word_end(s@, i as int) == word_end(s@, e as int),
                decreases len - e,
            {
                e = e + 1;
            }
            let tok = Token { kind: TokenKind::Word, start: i, end: e };
            proof {
                let rest = lex_from(s@, e as int);
                if let Some(r) = rest {
                    assert(out@ + (seq![tok] + r) =~= out@.push(tok) + r);
                }
                lemma_tokens_push(s@, out@, tok);
            }
            out.push(tok);
            i = e;
        } else if b == 34 || b == 39 {
            let mut e = i + 1;
            while e < len && s[e] != b
                invariant
                    len == s@.len(),
                    i < e <= len,
                    quote_end(s@, i + 1, b) == quote_end(s@, e as int, b),
                decreases len - e,
            {
                e = e + 1;
            }
            if e >= len {
                return None;
            }
            let kind = if b == 34 {
                TokenKind::Quoted
            } else {
                TokenKind::Literal
            };
            let tok = Token { kind, start: i + 1, end: e };
            proof {
                let rest = lex_from(s@, e + 1);
                if let Some(r) = rest {
                    assert(out@ + (seq![tok] + r) =~= out@.push(tok) + r);
                }
                lemma_tokens_push(s@, out@, tok);
            }
            out.push(tok);
            i = e + 1;
        } else {
            let tok = Token { kind: TokenKind::Punct, start: i, end: i + 1 };
            proof {
                let rest = lex_from(s@, i + 1);
                if let Some(r) = rest {
                    assert(out@ + (seq![tok] + r) =~= out@.push(tok) + r);
                }
                lemma_tokens_push(s@, out@, tok);
            }
            out.push(tok);
            i = i + 1;
        }
    }
    assert(out@ + Seq::<Token>::empty() =~= out@);
    Some(out)
}

pub open spec fn lower(b: u8) -> u8 {
    if 65 <= b <= 90 {
        (b + 32) as u8
    } else {
        b
    }
}

/// The bytes that a token spans.
pub open spec fn tok_text(s: Seq<u8>, tok: Token) -> Seq<u8> {
    s.subrange(tok.start as int, tok.end as int)
}

/// The token is the keyword `kw` (given in lower case), in any case.
pub open spec fn is_kw(s: Seq<u8>, tok: Token, kw: Seq<u8>) -> bool {
    &&& tok.kind == TokenKind::Word
    &&& tok.end - tok.start == kw.len()
    &&& forall|j: int| 0 <= j < kw.len() ==> lower(#[trigger] s[tok.start + j]) == kw[j]
}

pub open spec fn is_punct(s: Seq<u8>, tok: Token, c: u8) -> bool {
    tok.kind == TokenKind::Punct && tok.start < s.len() && s[tok.start as int] == c
}

/// A bare or `"`-quoted identifier.
pub open spec fn is_ident(tok: Token) -> bool {
    tok.kind == TokenKind::Word || tok.kind == TokenKind::Quoted
}

/// A bare or `'`-quoted literal.
pub open spec fn is_value(tok: Token) -> bool {
    tok.kind == TokenKind::Word || tok.kind == TokenKind::Literal
}

/// Whether token `i` of `t` is the keyword `kw`.
fn kw_at(s: &[u8], t: &Vec<Token>, i: usize, kw: &str) -> (r: bool)
    requires
        tokens_in(s@, t@),
    ensures
        r == (i < t@.len() && is_kw(s@, t@[i as int], encode_utf8(kw@))),
{
    if i >= t.len() {
        return false;
    }
    let tok = t[i];
    let k = kw.as_bytes();
    if tok.kind != TokenKind::Word || tok.end - tok.start != k.len() {
        return false;
    }
    let mut j: usize = 0;
    while j < k.len()
        invariant
            tokens_in(s@, t@),
            i < t@.len(),
            tok == t@[i as int],
            k@ == encode_utf8(kw@),
            tok.end - tok.start == k@.len(),
            j <= k@.len(),
            forall|m: int| 0 <= m < j ==> lower(#[trigger] s@[tok.start + m]) == k@[m],
        decreases k@.len() - j,
    {
        assert(tok.start <= tok.end && tok.end <= s@.len());
        let b = s[tok.start + j];
        let l = if 65 <= b && b <= 90 {
            b + 32
        } else {
            b
        };
        if l != k[j] {
            return false;
        }
        j = j + 1;
    }
    true
}

/// Whether token `i` of `t` is the punctuation byte `c`.
fn punct_at(s: &[u8], t: &Vec<Token>, i: usize, c: u8) -> (r: bool)
    ensures
        r == (i < t@.len() && is_punct(s@, t@[i as int], c)),
{
    i < t.len() && t[i].kind == TokenKind::Punct && t[i].start < s.len() && s[t[i].start] == c
}

fn ident_at(t: &Vec<Token>, i: usize) -> (r: bool)
    ensures
        r == (i < t@.len() && is_ident(t@[i as int])),
{
    i < t.len() && (t[i].kind == TokenKind::Word || t[i].kind == TokenKind::Quoted)
}

fn value_at(t: &Vec<Token>, i: usize) -> (r: bool)
    ensures
        r == (i < t@.len() && is_value(t@[i as int])),
{
    i < t.len() && (t[i].kind == TokenKind::Word || t[i].kind == TokenKind::Literal)
}

fn text_at(s: &[u8], t: &Vec<Token>, i: usize) -> (r: Vec<u8>)
    requires
        tokens_in(s@, t@),
        i < t@.len(),
    ensures
        r@ == tok_text(s@, t@[i as int]),
{
    let tok = t[i];
    assert(tok == t@[i as int]);
    copy_bytes(s, tok.start, tok.end)
}

pub open spec fn texts_view(v: Seq<Vec<u8>>) -> Seq<Seq<u8>> {
    v.map_values(|x: Vec<u8>| x@)
}

/// The identifiers of a list `a, b, c` that starts at token `i`, and the
/// token after it.
pub open spec fn col_list(s: Seq<u8>, t: Seq<Token>, i: int) -> Option<(Seq<Seq<u8>>, int)>
    decreases t.len() - i,
{
    if i < 0 || i >= t.len() || !is_ident(t[i]) {
        None
    } else if i + 1 < t.len() && is_punct(s, t[i + 1], 44) {
        match col_list(s, t, i + 2) {
            None => None,
            Some((cs, j)) => Some((seq![tok_text(s, t[i])] + cs, j)),
        }
    } else {
        Some((seq![tok_text(s, t[i])], i + 1))
    }
}

/// `COUNT(*)` right after `SELECT`.
pub open spec fn is_count_star(s: Seq<u8>, t: Seq<Token>) -> bool {
    &&& t.len() >= 5
    &&& is_kw(s, t[1], encode_utf8("count"@))
    &&& is_punct(s, t[2], 40)
    &&& t[3].kind == TokenKind::Word && t[3].end - t[3].start == 1 && t[3].start < s.len()
        && s[t[3].start as int] == 42
    &&& is_punct(s, t[4], 41)
}

/// A parsed `SELECT`, as plain values.
pub struct SelectModel {
    pub count: bool,
    pub columns: Seq<Seq<u8>>,
    pub table: Seq<u8>,
    pub filter: Option<(Seq<u8>, Seq<u8>)>,
}

/// The rest of a `SELECT` from token `j`: `FROM t`, an optional
/// `WHERE c = v`, an optional `;`, and nothing after.
pub open spec fn select_tail(
    s: Seq<u8>,
    t: Seq<Token>,
    j: int,
    count: bool,
    cols: Seq<Seq<u8>>,
) -> Result<SelectModel, SqliteError> {
    if !(0 <= j < t.len() && is_kw(s, t[j], encode_utf8("from"@))) {
        Err(SqliteError::ParseError)
    } else if !(j + 1 < t.len() && is_ident(t[j + 1])) {
        Err(SqliteError::ParseError)
    } else {
        let k = j + 2;
        let has_where = k < t.len() && is_kw(s, t[k], encode_utf8("where"@));
        if has_where && !(k + 3 < t.len() && is_ident(t[k + 1]) && is_punct(s, t[k + 2], 61)
            && is_value(t[k + 3])) {
            Err(SqliteError::ParseError)
        } else {
            let k2 = if has_where {
                k + 4
            } else {
                k
            };
            let k3 = if k2 < t.len() && is_punct(s, t[k2], 59) {
                k2 + 1
            } else {
                k2
            };
            if k3 != t.len() {
                Err(SqliteError::ParseError)
            } else {
                Ok(
                    SelectModel {
                        count,
                        columns: cols,
                        table: tok_text(s, t[j + 1]),
                        filter: if has_where {
                            Some((tok_text(s, t[k + 1]), tok_text(s, t[k + 3])))
                        } else {
                            None
                        },
                    },
                )
            }
        }
    }
}

/// The `SELECT` statement that `s` holds.
#[verifier::opaque]
pub open spec fn spec_select(s: Seq<u8>) -> Result<SelectModel, SqliteError> {
    match lex_from(s, 0) {
        None => Err(SqliteError::ParseError),
        Some(t) => if !(t.len() > 0 && is_kw(s, t[0], encode_utf8("select"@))) {
            Err(SqliteError::Unsupported(UnsupportedFeature::Statement))
        } else if is_count_star(s, t) {
            select_tail(s, t, 5, true, Seq::empty())
        } else {
            match col_list(s, t, 1) {
                None => Err(SqliteError::ParseError),
                Some((cols, j)) => select_tail(s, t, j, false, cols),
            }
        },
    }
}

/// The one aggregate that a query may ask for.
#[derive(Debug, Clone, Copy, PartialEq, Eq, Structural)]
pub enum SelectOperation {
    Count,
}

/// `WHERE column = value`.
#[derive(Debug, Clone)]
pub struct Condition {
    pub column: Vec<u8>,
    pub value: Vec<u8>,
}

/// A parsed query: `COUNT(*)` or a list of columns, a table, and an optional
/// equality filter. Names are the bytes of the query.
#[derive(Debug)]
pub struct SelectStatement {
    pub operation: Option<SelectOperation>,
    pub columns: Vec<Vec<u8>>,
    pub table: Vec<u8>,
    pub where_clause: Option<Condition>,
}

impl View for SelectStatement {
    type V = SelectModel;

    open spec fn view(&self) -> SelectModel {
        SelectModel {
            count: self.operation is Some,
            columns: texts_view(self.columns@),
            table: self.table@,
            filter: match self.where_clause {
                Some(c) => Some((c.column@, c.value@)),
                None => None,
            },
        }
    }
}

fn parse_col_list(s: &[u8], t: &Vec<Token>, i: usize) -> (r: Option<(Vec<Vec<u8>>, usize)>)
    requires
        tokens_in(s@, t@),
    ensures
        match r {
            Some((cs, j)) => col_list(s@, t@, i as int) == Some((texts_view(cs@), j as int)),
            None => col_list(s@, t@, i as int) is None,
        },
{
    let mut out: Vec<Vec<u8>> = Vec::new();
    let mut k = i;
    let ghost mut pre: Seq<Seq<u8>> = Seq::empty();
    loop
        invariant
            tokens_in(s@, t@),
            k >= i,
            texts_view(out@) == pre,
            col_list(s@, t@, i as int) == match col_list(s@, t@, k as int) {
                None => None,
                Some((cs, j)) => Some((pre + cs, j)),
            },
        decreases t@.len() - k,
    {
        if !ident_at(t, k) {
            return None;
        }
        let name = text_at(s, t, k);
        proof {
            assert(texts_view(out@.push(name)) =~= pre.push(name@));
        }
        out.push(name);
        if k < t.len() - 1 && punct_at(s, t, k + 1, 44) {
            proof {
                let r = col_list(s@, t@, k + 2);
                if let Some((cs, j)) = r {
                    assert(pre + (seq![name@] + cs) =~= pre.push(name@) + cs);
                }
                pre = pre.push(name@);
            }
            k = k + 2;
        } else {
            proof {
                assert(pre + seq![name@] =~= pre.push(name@));
            }
            return Some((out, k + 1));
        }
    }
}

/// Parses a query: `SELECT (COUNT(*) | a, b, ...) FROM t (WHERE c = v)? ;?`.
/// Keywords may be in any case; identifiers may be `"`-quoted and values
/// `'`-quoted, the quotes stripped.
pub fn select_statement(input: &[u8]) -> (r: Result<SelectStatement, SqliteError>)
    ensures
        match r {
            Ok(st) => spec_select(input@) == Ok::<SelectModel, SqliteError>(st@),
            Err(e) => spec_select(input@) == Err::<SelectModel, SqliteError>(e),
        },
{
    reveal(spec_select);
    let s = input;
    let t = match tokenize(s) {
        Some(t) => t,
        None => {
            return Err(SqliteError::ParseError);
        },
    };
    proof {
        assert(forall|k: int| 0 <= k < t@.len() ==> #[trigger] t@[k].start <= t@[k].end);
    }
    if !kw_at(s, &t, 0, "select") {
        return Err(SqliteError::Unsupported(UnsupportedFeature::Statement));
    }
    let count = t.len() >= 5 && kw_at(s, &t, 1, "count") && punct_at(s, &t, 2, 40)
        && t[3].kind == TokenKind::Word && t[3].start < t[3].end && t[3].end - t[3].start == 1
        && s[t[3].start] == 42
        && punct_at(s, &t, 4, 41);
    let (operation, columns, j) = if count {
        (Some(SelectOperation::Count), Vec::new(), 5)
    } else {
        match parse_col_list(s, &t, 1) {
            Some((cs, j)) => (None, cs, j),
            None => {
                return Err(SqliteError::ParseError);
            },
        }
    };
    assert(texts_view(columns@) == if count {
        Seq::<Seq<u8>>::empty()
    } else {
        col_list(s@, t@, 1)->Some_0.0
    }) by {
        if count {
            assert(texts_view(columns@) =~= Seq::<Seq<u8>>::empty());
        }
    }
    if !kw_at(s, &t, j, "from") {
        return Err(SqliteError::ParseError);
    }
    if !ident_at(&t, j + 1) {
        return Err(SqliteError::ParseError);
    }
    let table = text_at(s, &t, j + 1);
    let k = j + 2;
    let has_where = kw_at(s, &t, k, "where");
    let mut where_clause: Option<Condition> = None;
    let mut k2 = k;
    if has_where {
        if !(k < t.len() && t.len() - k > 3 && ident_at(&t, k + 1) && punct_at(s, &t, k + 2, 61) && value_at(
            &t,
            k + 3,
        )) {
            return Err(SqliteError::ParseError);
        }
        where_clause = Some(
            Condition { column: text_at(s, &t, k + 1), value: text_at(s, &t, k + 3) },
        );
        k2 = k + 4;
    }
    let k3 = if punct_at(s, &t, k2, 59) {
        k2 + 1
    } else {
        k2
    };
    if k3 != t.len() {
        return Err(SqliteError::ParseError);
    }
    Ok(SelectStatement { operation, columns, table, where_clause })
}

/// A column constraint that the reader takes note of.
#[derive(Debug, Clone, Copy, PartialEq, Eq, Structural)]
pub enum Constraint {
    PrimaryKey,
    Autoincrement,
    NotNull,
}

/// The end of the run of bare words that starts at token `i`.
pub open spec fn words_end(t: Seq<Token>, i: int) -> int
    decreases t.len() - i,
{
    if 0 <= i < t.len() && t[i].kind == TokenKind::Word {
        words_end(t, i + 1)
    } else {
        i
    }
}

proof fn lemma_words_end(t: Seq<Token>, i: int)
    requires
        0 <= i,
    ensures
        i <= words_end(t, i),
        i <= t.len() ==> words_end(t, i) <= t.len(),
        forall|k: int| i <= k < words_end(t, i) ==> (#[trigger] t[k]).kind == TokenKind::Word,
    decreases t.len() - i,
{
    if 0 <= i < t.len() && t[i].kind == TokenKind::Word {
        lemma_words_end(t, i + 1);
    }
}

/// The constraints that the words `t[k..e]` name: `PRIMARY KEY`,
/// `AUTOINCREMENT` and `NOT NULL`; other words are passed over.
pub open spec fn constraints_in(s: Seq<u8>, t: Seq<Token>, k: int, e: int) -> Seq<Constraint>
    decreases e - k,
{
    if k >= e || k < 0 || e > t.len() {
        Seq::empty()
    } else if k + 1 < e && is_kw(s, t[k], encode_utf8("primary"@)) && is_kw(
        s,
        t[k + 1],
        encode_utf8("key"@),
    ) {
        seq![Constraint::PrimaryKey] + constraints_in(s, t, k + 2, e)
    } else if k + 1 < e && is_kw(s, t[k], encode_utf8("not"@)) && is_kw(
        s,
        t[k + 1],
        encode_utf8("null"@),
    ) {
        seq![Constraint::NotNull] + constraints_in(s, t, k + 2, e)
    } else if is_kw(s, t[k], encode_utf8("autoincrement"@)) {
        seq![Constraint::Autoincrement] + constraints_in(s, t, k + 1, e)
    } else {
        constraints_in(s, t, k + 1, e)
    }
}

/// A column definition, as plain values.
pub struct ColumnModel {
    pub name: Seq<u8>,
    pub datatype: Seq<u8>,
    pub constraints: Seq<Constraint>,
}

/// The column definition at token `i`: a name, then bare words, the first of
/// them its type; and the token after it.
pub open spec fn col_def(s: Seq<u8>, t: Seq<Token>, i: int) -> Option<(ColumnModel, int)> {
    if !(0 <= i < t.len() && is_ident(t[i])) {
        None
    } else {
        let e = words_end(t, i + 1);
        Some(
            (
                ColumnModel {
                    name: tok_text(s, t[i]),
                    datatype: if e > i + 1 {
                        tok_text(s, t[i + 1])
                    } else {
                        Seq::empty()
                    },
                    constraints: constraints_in(s, t, i + 2, e),
                },
                e,
            ),
        )
    }
}

/// The column definitions, separated by commas, that start at token `i`.
pub open spec fn col_defs(s: Seq<u8>, t: Seq<Token>, i: int) -> Option<(Seq<ColumnModel>, int)>
    decreases t.len() - i via col_defs_decreases
{
    match col_def(s, t, i) {
        None => None,
        Some((c, e)) => if e < t.len() && is_punct(s, t[e], 44) {
            match col_defs(s, t, e + 1) {
                None => None,
                Some((cs, j)) => Some((seq![c] + cs, j)),
            }
        } else {
            Some((seq![c], e))
        },
    }
}

#[via_fn]
proof fn col_defs_decreases(s: Seq<u8>, t: Seq<Token>, i: int) {
    if 0 <= i < t.len() {
        lemma_words_end(t, i + 1);
    }
}

/// A parsed `CREATE` statement, as plain values.
pub enum CreateModel {
    Table { name: Seq<u8>, columns: Seq<ColumnModel> },
    Index { name: Seq<u8>, table: Seq<u8>, column: Seq<u8> },
}

/// `CREATE TABLE n (defs)` or `CREATE INDEX n ON t (c)`; what follows the
/// closing parenthesis is not read.
#[verifier::opaque]
pub open spec fn spec_create(s: Seq<u8>) -> Result<CreateModel, SqliteError> {
    match lex_from(s, 0) {
        None => Err(SqliteError::ParseError),
        Some(t) => if t.len() >= 4 && is_kw(s, t[0], encode_utf8("create"@)) && is_kw(
            s,
            t[1],
            encode_utf8("table"@),
        ) && is_ident(t[2]) && is_punct(s, t[3], 40) {
            match col_defs(s, t, 4) {
                Some((cols, j)) => if j < t.len() && is_punct(s, t[j], 41) {
                    Ok(CreateModel::Table { name: tok_text(s, t[2]), columns: cols })
                } else {
                    Err(SqliteError::ParseError)
                },
                None => Err(SqliteError::ParseError),
            }
        } else if t.len() >= 8 && is_kw(s, t[0], encode_utf8("create"@)) && is_kw(
            s,
            t[1],
            encode_utf8("index"@),
        ) && is_ident(t[2]) && is_kw(s, t[3], encode_utf8("on"@)) && is_ident(t[4]) && is_punct(
            s,
            t[5],
            40,
        ) && is_ident(t[6]) && is_punct(s, t[7], 41) {
            Ok(
                CreateModel::Index {
                    name: tok_text(s, t[2]),
                    table: tok_text(s, t[4]),
                    column: tok_text(s, t[6]),
                },
            )
        } else {
            Err(SqliteError::ParseError)
        },
    }
}

/// One column of a `CREATE TABLE`.
#[derive(Debug)]
pub struct ColumnDefinition {
    pub name: Vec<u8>,
    /// The declared type; empty where none is given.
    pub datatype: Vec<u8>,
    pub constraints: Vec<Constraint>,
}

impl View for ColumnDefinition {
    type V = ColumnModel;

    open spec fn view(&self) -> ColumnModel {
        ColumnModel { name: self.name@, datatype: self.datatype@, constraints: self.constraints@ }
    }
}

pub open spec fn columns_view(v: Seq<ColumnDefinition>) -> Seq<ColumnModel> {
    v.map_values(|c: ColumnDefinition| c@)
}

/// A parsed `CREATE TABLE`: the table's name and its columns in order.
#[derive(Debug)]
pub struct CreateTable {
    pub name: Vec<u8>,
    pub columns: Vec<ColumnDefinition>,
}

/// A parsed `CREATE INDEX` on a single column.
#[derive(Debug)]
pub struct CreateIndex {
    pub name: Vec<u8>,
    pub table: Vec<u8>,
    pub table_column: Vec<u8>,
}

/// A parsed `CREATE` statement.
#[derive(Debug)]
pub enum CreateStatement {
    Table(CreateTable),
    Index(CreateIndex),
}

impl View for CreateStatement {
    type V = CreateModel;

    open spec fn view(&self) -> CreateModel {
        match self {
            CreateStatement::Table(c) => CreateModel::Table {
                name: c.name@,
                columns: columns_view(c.columns@),
            },
            CreateStatement::Index(c) => CreateModel::Index {
                name: c.name@,
                table: c.table@,
                column: c.table_column@,
            },
        }
    }
}

fn parse_constraints(s: &[u8], t: &Vec<Token>, k0: usize, e: usize) -> (r: Vec<Constraint>)
    requires
        tokens_in(s@, t@),
        e <= t@.len(),
    ensures
        r@ == constraints_in(s@, t@, k0 as int, e as int),
{
    let mut out: Vec<Constraint> = Vec::new();
    let mut k = k0;
    while k < e
        invariant
            tokens_in(s@, t@),
            e <= t@.len(),
            k >= k0,
            constraints_in(s@, t@, k0 as int, e as int) == out@ + constraints_in(
                s@,
                t@,
                k as int,
                e as int,
            ),
        decreases e - k,
    {
        if k < e - 1 && kw_at(s, t, k, "primary") && kw_at(s, t, k + 1, "key") {
            proof {
                assert(out@ + (seq![Constraint::PrimaryKey] + constraints_in(s@, t@, k + 2, e as int))
                    =~= out@.push(Constraint::PrimaryKey) + constraints_in(s@, t@, k + 2, e as int));
            }
            out.push(Constraint::PrimaryKey);
            k = k + 2;
        } else if k < e - 1 && kw_at(s, t, k, "not") && kw_at(s, t, k + 1, "null") {
            proof {
                assert(out@ + (seq![Constraint::NotNull] + constraints_in(s@, t@, k + 2, e as int))
                    =~= out@.push(Constraint::NotNull) + constraints_in(s@, t@, k + 2, e as int));
            }
            out.push(Constraint::NotNull);
            k = k + 2;
        } else if kw_at(s, t, k, "autoincrement") {
            proof {
                assert(out@ + (seq![Constraint::Autoincrement] + constraints_in(
                    s@,
                    t@,
                    k + 1,
                    e as int,
                )) =~= out@.push(Constraint::Autoincrement) + constraints_in(s@, t@, k + 1, e as int));
            }
            out.push(Constraint::Autoincrement);
            k = k + 1;
        } else {
            k = k + 1;
        }
    }
    assert(out@ + Seq::<Constraint>::empty() =~= out@);
    out
}

fn parse_col_def(s: &[u8], t: &Vec<Token>, i: usize) -> (r: Option<(ColumnDefinition, usize)>)
    requires
        tokens_in(s@, t@),
    ensures
        match r {
            Some((c, e)) => col_def(s@, t@, i as int) == Some((c@, e as int)) && e > i,
            None => col_def(s@, t@, i as int) is None,
        },
{
    let tl = t.len();
    if !ident_at(t, i) {
        return None;
    }
    let name = text_at(s, t, i);
    let mut e = i + 1;
    proof {
        lemma_words_end(t@, i + 1);
    }
    while e < t.len() && t[e].kind == TokenKind::Word
        invariant
            e <= t@.len(),
            e >= i + 1,
            words_end(t@, i + 1) == words_end(t@, e as int),
        decreases t@.len() - e,
    {
        e = e + 1;
    }
    let datatype = if e > i + 1 {
        text_at(s, t, i + 1)
    } else {
        Vec::new()
    };
    let constraints = if e > i + 1 {
        parse_constraints(s, t, i + 2, e)
    } else {
        Vec::new()
    };
    proof {
        if e <= i + 1 {
            assert(constraints@ =~= constraints_in(s@, t@, i + 2, e as int));
        }
    }
    Some((ColumnDefinition { name, datatype, constraints }, e))
}

/// Parses a `CREATE TABLE` or `CREATE INDEX` statement, as stored in the
/// schema.
pub fn create_statement(input: &[u8]) -> (r: Result<CreateStatement, SqliteError>)
    ensures
        match r {
            Ok(st) => spec_create(input@) == Ok::<CreateModel, SqliteError>(st@),
            Err(e) => spec_create(input@) == Err::<CreateModel, SqliteError>(e),
        },
{
    reveal(spec_create);
    let s = input;
    let t = match tokenize(s) {
        Some(t) => t,
        None => {
            return Err(SqliteError::ParseError);
        },
    };
    if t.len() >= 4 && kw_at(s, &t, 0, "create") && kw_at(s, &t, 1, "table") && ident_at(&t, 2)
        && punct_at(s, &t, 3, 40) {
        let name = text_at(s, &t, 2);
        let mut columns: Vec<ColumnDefinition> = Vec::new();
        let mut k: usize = 4;
        let ghost mut pre: Seq<ColumnModel> = Seq::empty();
        let ghost head = t@.len() >= 4 && is_kw(s@, t@[0], encode_utf8("create"@)) && is_kw(
            s@,
            t@[1],
            encode_utf8("table"@),
        ) && is_ident(t@[2]) && is_punct(s@, t@[3], 40);
        assert(columns_view(columns@) =~= pre);
        loop
            invariant
                s@ == input@,
                tokens_in(s@, t@),
                lex_from(s@, 0) == Some(t@),
                head,
                head == (t@.len() >= 4 && is_kw(s@, t@[0], encode_utf8("create"@)) && is_kw(
                    s@,
                    t@[1],
                    encode_utf8("table"@),
                ) && is_ident(t@[2]) && is_punct(s@, t@[3], 40)),
                name@ == tok_text(s@, t@[2]),
                k >= 4,
                columns_view(columns@) == pre,
                col_defs(s@, t@, 4) == match col_defs(s@, t@, k as int) {
                    None => None,
                    Some((cs, j)) => Some((pre + cs, j)),
                },
            decreases t@.len() - k,
        {
            reveal(spec_create);
            let (c, e) = match parse_col_def(s, &t, k) {
                Some(x) => x,
                None => {
                    return Err(SqliteError::ParseError);
                },
            };
            let ghost cm = c@;
            proof {
                lemma_words_end(t@, k + 1);
                assert(columns_view(columns@.push(c)) =~= pre.push(cm));
            }
            columns.push(c);
            if e < t.len() && punct_at(s, &t, e, 44) {
                proof {
                    let r = col_defs(s@, t@, e + 1);
                    if let Some((cs, j)) = r {
                        assert(pre + (seq![cm] + cs) =~= pre.push(cm) + cs);
                    }
                    pre = pre.push(cm);
                }
                k = e + 1;
            } else {
                proof {
                    assert(pre + seq![cm] =~= pre.push(cm));
                }
                if !punct_at(s, &t, e, 41) {
                    return Err(SqliteError::ParseError);
                }
                return Ok(CreateStatement::Table(CreateTable { name, columns }));
            }
        }
    } else if t.len() >= 8 && kw_at(s, &t, 0, "create") && kw_at(s, &t, 1, "index") && ident_at(
        &t,
        2,
    ) && kw_at(s, &t, 3, "on") && ident_at(&t, 4) && punct_at(s, &t, 5, 40) && ident_at(&t, 6)
        && punct_at(s, &t, 7, 41) {
        Ok(
            CreateStatement::Index(
                CreateIndex {
                    name: text_at(s, &t, 2),
                    table: text_at(s, &t, 4),
                    table_column: text_at(s, &t, 6),
                },
            ),
        )
    } else {
        Err(SqliteError::ParseError)
    }
}

} // verus!
