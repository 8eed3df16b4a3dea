//! The tokenizer: converts source text into an ordered, finite sequence of
//! tokens, or fails on the first malformed piece of input.

use vstd::prelude::*;

verus! {

/// A lexing failure: either a piece of input matching no token rule, or a
/// numeric literal whose value does not fit a signed 64-bit integer.
#[derive(Debug, Clone, PartialEq, Eq)]
pub enum LexingError {
    Unknown,
    ParseIntError(IntErrorKind),
}

/// The kind of numeric-literal failure.
#[derive(Debug, Clone, Copy, PartialEq, Eq)]
pub enum IntErrorKind {
    PosOverflow,
}

/// The smallest lexical unit of the language.
#[derive(Debug, Clone, PartialEq, Eq)]
pub enum Token {
    // Literals
    Ident(String),
    String(String),
    Number(i64),
    Bool(bool),
    // Keywords
    Fn,
    SetKw,
    // Symbols
    LParen,
    RParen,
    LBrace,
    RBrace,
    Comma,
    Arrow,
    Add,
    Sub,
    Mul,
    Div,
    AddEqual,
    SubEqual,
    MulEqual,
    DivEqual,
    Semicolon,
    Colon,
}

/// Mathematical model of a token: string payloads become character sequences.
pub enum TokenV {
    Ident(Seq<char>),
    Str(Seq<char>),
    Number(i64),
    Bool(bool),
    Fn,
    SetKw,
    LParen,
    RParen,
    LBrace,
    RBrace,
    Comma,
    Arrow,
    Add,
    Sub,
    Mul,
    Div,
    AddEqual,
    SubEqual,
    MulEqual,
    DivEqual,
    Semicolon,
    Colon,
}

impl View for Token {
    type V = TokenV;

    open spec fn view(&self) -> TokenV {
        match self {
            Token::Ident(s) => TokenV::Ident(s@),
            Token::String(s) => TokenV::Str(s@),
            Token::Number(n) => TokenV::Number(*n),
            Token::Bool(b) => TokenV::Bool(*b),
            Token::Fn => TokenV::Fn,
            Token::SetKw => TokenV::SetKw,
            Token::LParen => TokenV::LParen,
            Token::RParen => TokenV::RParen,
            Token::LBrace => TokenV::LBrace,
            Token::RBrace => TokenV::RBrace,
            Token::Comma => TokenV::Comma,
            Token::Arrow => TokenV::Arrow,
            Token::Add => TokenV::Add,
            Token::Sub => TokenV::Sub,
            Token::Mul => TokenV::Mul,
            Token::Div => TokenV::Div,
            Token::AddEqual => TokenV::AddEqual,
            Token::SubEqual => TokenV::SubEqual,
            Token::MulEqual => TokenV::MulEqual,
            Token::DivEqual => TokenV::DivEqual,
            Token::Semicolon => TokenV::Semicolon,
            Token::Colon => TokenV::Colon,
        }
    }
}

/// Characters discarded between tokens.
pub open spec fn is_ws(c: char) -> bool {
    c == ' ' || c == '\t' || c == '\n' || c == '\r' || c == '\u{c}'
}

/// Characters an identifier may consist of.
pub open spec fn is_ident_char(c: char) -> bool {
    ('a' <= c && c <= 'z') || ('A' <= c && c <= 'Z') || ('0' <= c && c <= '9') || c == '_'
}

pub open spec fn is_digit(c: char) -> bool {
    '0' <= c && c <= '9'
}

pub open spec fn is_hex_digit(c: char) -> bool {
    is_digit(c) || ('a' <= c && c <= 'f') || ('A' <= c && c <= 'F')
}

pub open spec fn is_bin_digit(c: char) -> bool {
    c == '0' || c == '1'
}

/// Numeric value of a decimal digit.
pub open spec fn digit_val(c: char) -> nat {
    (c as nat - '0' as nat) as nat
}

/// Numeric value of a hexadecimal digit.
pub open spec fn hex_digit_val(c: char) -> nat {
    if is_digit(c) {
        digit_val(c)
    } else if 'a' <= c && c <= 'f' {
        (c as nat - 'a' as nat + 10) as nat
    } else {
        (c as nat - 'A' as nat + 10) as nat
    }
}

/// Value of a sequence of decimal digits, most significant first.
pub open spec fn dec_val(s: Seq<char>) -> nat
    decreases s.len(),
{
    if s.len() == 0 {
        0
    } else {
        dec_val(s.drop_last()) * 10 + digit_val(s.last())
    }
}

/// Value of a sequence of hexadecimal digits, most significant first.
pub open spec fn hex_val(s: Seq<char>) -> nat
    decreases s.len(),
{
    if s.len() == 0 {
        0
    } else {
        hex_val(s.drop_last()) * 16 + hex_digit_val(s.last())
    }
}

/// Value of a sequence of binary digits, most significant first.
pub open spec fn bin_val(s: Seq<char>) -> nat
    decreases s.len(),
{
    if s.len() == 0 {
        0
    } else {
        bin_val(s.drop_last()) * 2 + (if s.last() == '1' { 1nat } else { 0nat })
    }
}

/// True when no character of `s` is a backslash, so that escape expansion
/// leaves the string unchanged.
pub open spec fn no_backslash(s: Seq<char>) -> bool {
    forall|i: int| 0 <= i < s.len() ==> s[i] != '\\'
}

/// The character predicates the scanning rules quantify over, as named
/// values so that every mention denotes the same function.
pub open spec fn identp() -> spec_fn(char) -> bool {
    |c: char| is_ident_char(c)
}

pub open spec fn digitp() -> spec_fn(char) -> bool {
    |c: char| is_digit(c)
}

pub open spec fn hexp() -> spec_fn(char) -> bool {
    |c: char| is_hex_digit(c)
}

pub open spec fn binp() -> spec_fn(char) -> bool {
    |c: char| is_bin_digit(c)
}

pub open spec fn not_newline() -> spec_fn(char) -> bool {
    |c: char| c != '\n'
}

pub open spec fn not_quote() -> spec_fn(char) -> bool {
    |c: char| c != '"'
}

/// Length of the longest prefix of `s` whose characters all satisfy `p`.
pub open spec fn run_len(s: Seq<char>, p: spec_fn(char) -> bool) -> nat
    decreases s.len(),
{
    if s.len() > 0 && p(s[0]) {
        (1 + run_len(s.drop_first(), p)) as nat
    } else {
        0
    }
}

/// `run_len` is determined by pointwise facts: if the first `k` characters
/// satisfy `p` and the next one (if any) does not, the run has length `k`.
pub proof fn lemma_run_len_is(s: Seq<char>, p: spec_fn(char) -> bool, k: nat)
    requires
        k <= s.len(),
        forall|i: int| 0 <= i < k ==> p(s[i]),
        k < s.len() ==> !p(s[k as int]),
    ensures
        run_len(s, p) == k,
    decreases s.len(),
{
    if k == 0 {
    } else {
        assert(p(s[0]));
        assert(forall|i: int| 0 <= i < k - 1 ==> s.drop_first()[i] == s[i + 1]);
        lemma_run_len_is(s.drop_first(), p, (k - 1) as nat);
    }
}

/// Every character inside the run satisfies `p`; the one just past it, if
/// any, does not; and the run fits in `s`.
pub proof fn lemma_run_len_bounds(s: Seq<char>, p: spec_fn(char) -> bool)
    ensures
        run_len(s, p) <= s.len(),
        forall|i: int| 0 <= i < run_len(s, p) ==> p(s[i]),
        run_len(s, p) < s.len() ==> !p(s[run_len(s, p) as int]),
    decreases s.len(),
{
    if s.len() > 0 && p(s[0]) {
        lemma_run_len_bounds(s.drop_first(), p);
        assert forall|i: int| 0 <= i < run_len(s, p) implies p(s[i]) by {
            if i > 0 {
                assert(p(s.drop_first()[i - 1]));
                assert(s.drop_first()[i - 1] == s[i]);
            }
        }
        if run_len(s, p) < s.len() {
            assert(!p(s.drop_first()[run_len(s, p) - 1]));
            assert(s.drop_first()[run_len(s, p) - 1] == s[run_len(s, p) as int]);
        }
    }
}

/// Extending a digit string to the right can only increase its value.
pub proof fn lemma_dec_val_prefix(s: Seq<char>, k: int)
    requires
        0 <= k <= s.len(),
    ensures
        dec_val(s.take(k)) <= dec_val(s),
    decreases s.len(),
{
    if k < s.len() {
        lemma_dec_val_prefix(s.drop_last(), k);
        assert(s.drop_last().take(k) =~= s.take(k));
    } else {
        assert(s.take(k) =~= s);
    }
}

pub proof fn lemma_hex_val_prefix(s: Seq<char>, k: int)
    requires
        0 <= k <= s.len(),
    ensures
        hex_val(s.take(k)) <= hex_val(s),
    decreases s.len(),
{
    if k < s.len() {
        lemma_hex_val_prefix(s.drop_last(), k);
        assert(s.drop_last().take(k) =~= s.take(k));
    } else {
        assert(s.take(k) =~= s);
    }
}

pub proof fn lemma_bin_val_prefix(s: Seq<char>, k: int)
    requires
        0 <= k <= s.len(),
    ensures
        bin_val(s.take(k)) <= bin_val(s),
    decreases s.len(),
{
    if k < s.len() {
        lemma_bin_val_prefix(s.drop_last(), k);
        assert(s.drop_last().take(k) =~= s.take(k));
    } else {
        assert(s.take(k) =~= s);
    }
}

/// Length of the numeric match at the start of `s`: a `0x` form, a `0b` form,
/// or a plain run of decimal digits; 0 when no numeric rule matches.
pub open spec fn num_match_len(s: Seq<char>) -> nat {
    if s.len() >= 3 && s[0] == '0' && s[1] == 'x' && is_hex_digit(s[2]) {
        2 + run_len(s.skip(2), hexp())
    } else if s.len() >= 3 && s[0] == '0' && s[1] == 'b' && is_bin_digit(s[2]) {
        2 + run_len(s.skip(2), binp())
    } else if s.len() >= 1 && is_digit(s[0]) {
        run_len(s, digitp())
    } else {
        0
    }
}

/// Value denoted by the numeric match at the start of `s`; meaningful only
/// when `num_match_len(s) > 0`.
pub open spec fn num_match_val(s: Seq<char>) -> nat {
    if s.len() >= 3 && s[0] == '0' && s[1] == 'x' && is_hex_digit(s[2]) {
        hex_val(s.subrange(2, num_match_len(s) as int))
    } else if s.len() >= 3 && s[0] == '0' && s[1] == 'b' && is_bin_digit(s[2]) {
        bin_val(s.subrange(2, num_match_len(s) as int))
    } else {
        dec_val(s.subrange(0, num_match_len(s) as int))
    }
}

/// Index of the first `*/` at or after position `i`, if any.
pub open spec fn star_slash_idx(s: Seq<char>, i: nat) -> Option<nat>
    decreases s.len() - i,
{
    if i + 2 > s.len() {
        None
    } else if s[i as int] == '*' && s[i as int + 1] == '/' {
        Some(i)
    } else {
        star_slash_idx(s, i + 1)
    }
}

/// One step of the tokenizer: what the rules say about the head of the input.
pub enum LexStep {
    /// A token, and how many characters it spans.
    Tok(TokenV, nat),
    /// Whitespace or a comment: this many characters produce no token.
    Skip(nat),
    /// The head of the input matches no rule, or a numeric literal overflows.
    Fail(LexingError),
}

/// The classification of a nonempty input's head, with multi-character
/// operators, then numeric forms, then identifiers taking priority, and the
/// longest match winning between a numeric form and an identifier.
pub open spec fn lex_step(s: Seq<char>) -> LexStep {
    let c = s[0];
    if is_ws(c) {
        LexStep::Skip(1)
    } else if c == '/' && s.len() >= 2 && s[1] == '/' {
        LexStep::Skip(2 + run_len(s.skip(2), not_newline()))
    } else if c == '/' && s.len() >= 2 && s[1] == '*' && star_slash_idx(s, 2) is Some {
        LexStep::Skip((star_slash_idx(s, 2)->Some_0 + 2) as nat)
    } else if c == '+' {
        if s.len() >= 2 && s[1] == '=' {
            LexStep::Tok(TokenV::AddEqual, 2)
        } else {
            LexStep::Tok(TokenV::Add, 1)
        }
    } else if c == '-' {
        if s.len() >= 2 && s[1] == '=' {
            LexStep::Tok(TokenV::SubEqual, 2)
        } else if s.len() >= 2 && s[1] == '>' {
            LexStep::Tok(TokenV::Arrow, 2)
        } else {
            LexStep::Tok(TokenV::Sub, 1)
        }
    } else if c == '*' {
        if s.len() >= 2 && s[1] == '=' {
            LexStep::Tok(TokenV::MulEqual, 2)
        } else {
            LexStep::Tok(TokenV::Mul, 1)
        }
    } else if c == '/' {
        if s.len() >= 2 && s[1] == '=' {
            LexStep::Tok(TokenV::DivEqual, 2)
        } else {
            LexStep::Tok(TokenV::Div, 1)
        }
    } else if c == '(' {
        LexStep::Tok(TokenV::LParen, 1)
    } else if c == ')' {
        LexStep::Tok(TokenV::RParen, 1)
    } else if c == '{' {
        LexStep::Tok(TokenV::LBrace, 1)
    } else if c == '}' {
        LexStep::Tok(TokenV::RBrace, 1)
    } else if c == ',' {
        LexStep::Tok(TokenV::Comma, 1)
    } else if c == ';' {
        LexStep::Tok(TokenV::Semicolon, 1)
    } else if c == ':' {
        LexStep::Tok(TokenV::Colon, 1)
    } else if c == '"' {
        let content_len = run_len(s.drop_first(), not_quote());
        if 1 + content_len < s.len() {
            let raw = s.subrange(1, 1 + content_len as int);
            if no_backslash(raw) {
                LexStep::Tok(TokenV::Str(raw), content_len + 2)
            } else {
                match unescaped_of(raw) {
                    Some(u) => LexStep::Tok(TokenV::Str(u), content_len + 2),
                    None => LexStep::Fail(LexingError::Unknown),
                }
            }
        } else {
            LexStep::Fail(LexingError::Unknown)
        }
    } else if is_ident_char(c) {
        let wl = run_len(s, identp());
        let nl = num_match_len(s);
        if nl == wl {
            if num_match_val(s) <= i64::MAX {
                LexStep::Tok(TokenV::Number(num_match_val(s) as i64), nl)
            } else {
                LexStep::Fail(LexingError::ParseIntError(IntErrorKind::PosOverflow))
            }
        } else {
            LexStep::Tok(word_token(s.subrange(0, wl as int)), wl)
        }
    } else {
        LexStep::Fail(LexingError::Unknown)
    }
}

/// The token sequence the rules assign to `s`, or the first failure.
pub open spec fn spec_lex(s: Seq<char>) -> Result<Seq<TokenV>, LexingError>
    decreases s.len(),
{
    if s.len() == 0 {
        Ok(Seq::empty())
    } else {
        match lex_step(s) {
            LexStep::Skip(n) => if 1 <= n <= s.len() {
                spec_lex(s.skip(n as int))
            } else {
                Err(LexingError::Unknown)
            },
            LexStep::Tok(t, n) => if 1 <= n <= s.len() {
                match spec_lex(s.skip(n as int)) {
                    Ok(ts) => Ok(seq![t] + ts),
                    Err(e) => Err(e),
                }
            } else {
                Err(LexingError::Unknown)
            },
            LexStep::Fail(e) => Err(e),
        }
    }
}

/// What `unescape::unescape` returns for a given character sequence; the
/// result depends on the characters alone.
pub uninterp spec fn unescaped_of(s: Seq<char>) -> Option<Seq<char>>;

/// Relies on unescape::unescape: expands backslash escape sequences, copies
/// every other character unchanged, and fails on a malformed escape; a string
/// without backslashes therefore comes back unchanged.
#[verifier::external_body]
fn unescape_str(s: &str) -> (r: Option<String>)
    ensures
        r matches Some(u) ==> unescaped_of(s@) == Some(u@),
        r is None ==> unescaped_of(s@) is None,
        no_backslash(s@) ==> r is Some && r->Some_0@ == s@,
{
    unescape::unescape(s)
}

/// Relies on String::push: appends one character at the end.
#[verifier::external_body]
fn push_char(s: &mut String, c: char)
    ensures
        final(s)@ == old(s)@.push(c),
{
    s.push(c);
}

/// The token a bare word denotes: a keyword, a boolean, or an identifier.
pub open spec fn word_token(w: Seq<char>) -> TokenV {
    if w == "fn"@ {
        TokenV::Fn
    } else if w == "set"@ {
        TokenV::SetKw
    } else if w == "true"@ {
        TokenV::Bool(true)
    } else if w == "false"@ {
        TokenV::Bool(false)
    } else {
        TokenV::Ident(w)
    }
}

fn ws_char(c: char) -> (b: bool)
    ensures
        b == is_ws(c),
{
    c == ' ' || c == '\t' || c == '\n' || c == '\r' || c == '\u{c}'
}

fn ident_char(c: char) -> (b: bool)
    ensures
        b == is_ident_char(c),
{
    ('a' <= c && c <= 'z') || ('A' <= c && c <= 'Z') || ('0' <= c && c <= '9') || c == '_'
}

fn digit_char(c: char) -> (b: bool)
    ensures
        b == is_digit(c),
{
    '0' <= c && c <= '9'
}

fn hex_char(c: char) -> (b: bool)
    ensures
        b == is_hex_digit(c),
{
    ('0' <= c && c <= '9') || ('a' <= c && c <= 'f') || ('A' <= c && c <= 'F')
}

fn bin_char(c: char) -> (b: bool)
    ensures
        b == is_bin_digit(c),
{
    c == '0' || c == '1'
}

/// The characters of `source`, in order, as a vector.
fn chars_of(source: &str) -> (chars: Vec<char>)
    ensures
        chars@ == source@,
{
    let n = source.unicode_len();
    let mut v: Vec<char> = Vec::new();
    let mut i: usize = 0;
    while i < n
        invariant
            i <= n,
            n == source@.len(),
            v@ == source@.take(i as int),
        decreases n - i,
    {
        let c = source.get_char(i);
        v.push(c);
        proof {
            assert(source@.take(i as int).push(source@[i as int]) =~= source@.take(i as int + 1));
        }
        i += 1;
    }
    proof {
        assert(source@.take(n as int) =~= source@);
    }
    v
}

/// The string holding `chars[start..end]`.
pub(crate) fn build_string(chars: &Vec<char>, start: usize, end: usize) -> (s: String)
    requires
        start <= end <= chars@.len(),
    ensures
        s@ == chars@.subrange(start as int, end as int),
{
    let mut s = String::new();
    let mut j = start;
    while j < end
        invariant
            start <= j <= end <= chars@.len(),
            s@ == chars@.subrange(start as int, j as int),
        decreases end - j,
    {
        push_char(&mut s, chars[j]);
        proof {
            assert(chars@.subrange(start as int, j as int).push(chars@[j as int]) =~= chars@
                .subrange(start as int, j as int + 1));
        }
        j += 1;
    }
    s
}

/// End of the run of identifier characters beginning at `start`.
fn scan_ident(chars: &Vec<char>, start: usize) -> (end: usize)
    requires
        start <= chars@.len(),
    ensures
        start <= end <= chars@.len(),
        end - start == run_len(chars@.skip(start as int), identp()),
{
    let n = chars.len();
    let mut j = start;
    while j < n && ident_char(chars[j])
        invariant
            start <= j <= n == chars@.len(),
            forall|k: int| start <= k < j ==> is_ident_char(chars@[k]),
        decreases n - j,
    {
        j += 1;
    }
    proof {
        let s = chars@.skip(start as int);
        assert(forall|k: int| 0 <= k < j - start ==> s[k] == chars@[start + k]);
        lemma_run_len_is(s, identp(), (j - start) as nat);
    }
    j
}

/// End of the run of decimal digits beginning at `start`.
fn scan_digits(chars: &Vec<char>, start: usize) -> (end: usize)
    requires
        start <= chars@.len(),
    ensures
        start <= end <= chars@.len(),
        end - start == run_len(chars@.skip(start as int), digitp()),
{
    let n = chars.len();
    let mut j = start;
    while j < n && digit_char(chars[j])
        invariant
            start <= j <= n == chars@.len(),
            forall|k: int| start <= k < j ==> is_digit(chars@[k]),
        decreases n - j,
    {
        j += 1;
    }
    proof {
        let s = chars@.skip(start as int);
        assert(forall|k: int| 0 <= k < j - start ==> s[k] == chars@[start + k]);
        lemma_run_len_is(s, digitp(), (j - start) as nat);
    }
    j
}

/// End of the run of hexadecimal digits beginning at `start`.
fn scan_hex(chars: &Vec<char>, start: usize) -> (end: usize)
    requires
        start <= chars@.len(),
    ensures
        start <= end <= chars@.len(),
        end - start == run_len(chars@.skip(start as int), hexp()),
{
    let n = chars.len();
    let mut j = start;
    while j < n && hex_char(chars[j])
        invariant
            start <= j <= n == chars@.len(),
            forall|k: int| start <= k < j ==> is_hex_digit(chars@[k]),
        decreases n - j,
    {
        j += 1;
    }
    proof {
        let s = chars@.skip(start as int);
        assert(forall|k: int| 0 <= k < j - start ==> s[k] == chars@[start + k]);
        lemma_run_len_is(s, hexp(), (j - start) as nat);
    }
    j
}

/// End of the run of binary digits beginning at `start`.
fn scan_bin(chars: &Vec<char>, start: usize) -> (end: usize)
    requires
        start <= chars@.len(),
    ensures
        start <= end <= chars@.len(),
        end - start == run_len(chars@.skip(start as int), binp()),
{
    let n = chars.len();
    let mut j = start;
    while j < n && bin_char(chars[j])
        invariant
            start <= j <= n == chars@.len(),
            forall|k: int| start <= k < j ==> is_bin_digit(chars@[k]),
        decreases n - j,
    {
        j += 1;
    }
    proof {
        let s = chars@.skip(start as int);
        assert(forall|k: int| 0 <= k < j - start ==> s[k] == chars@[start + k]);
        lemma_run_len_is(s, binp(), (j - start) as nat);
    }
    j
}

/// First position at or after `start` holding a newline, or the length.
fn scan_to_newline(chars: &Vec<char>, start: usize) -> (end: usize)
    requires
        start <= chars@.len(),
    ensures
        start <= end <= chars@.len(),
        end - start == run_len(chars@.skip(start as int), not_newline()),
{
    let n = chars.len();
    let mut j = start;
    while j < n && chars[j] != '\n'
        invariant
            start <= j <= n == chars@.len(),
            forall|k: int| start <= k < j ==> chars@[k] != '\n',
        decreases n - j,
    {
        j += 1;
    }
    proof {
        let s = chars@.skip(start as int);
        assert(forall|k: int| 0 <= k < j - start ==> s[k] == chars@[start + k]);
        lemma_run_len_is(s, not_newline(), (j - start) as nat);
    }
    j
}

/// First position at or after `start` holding a double quote, or the length.
fn scan_to_quote(chars: &Vec<char>, start: usize) -> (end: usize)
    requires
        start <= chars@.len(),
    ensures
        start <= end <= chars@.len(),
        end - start == run_len(chars@.skip(start as int), not_quote()),
{
    let n = chars.len();
    let mut j = start;
    while j < n && chars[j] != '"'
        invariant
            start <= j <= n == chars@.len(),
            forall|k: int| start <= k < j ==> chars@[k] != '"',
        decreases n - j,
    {
        j += 1;
    }
    proof {
        let s = chars@.skip(start as int);
        assert(forall|k: int| 0 <= k < j - start ==> s[k] == chars@[start + k]);
        lemma_run_len_is(s, not_quote(), (j - start) as nat);
    }
    j
}

/// Index of the first `*/` at or after `start`, if any.
fn find_star_slash(chars: &Vec<char>, start: usize) -> (r: Option<usize>)
    requires
        start <= chars@.len(),
    ensures
        match r {
            Some(j) => start <= j && j + 2 <= chars@.len() && star_slash_idx(chars@, start as nat)
                == Some(j as nat),
            None => star_slash_idx(chars@, start as nat) is None,
        },
{
    let n = chars.len();
    let mut j = start;
    while n >= 2 && j <= n - 2 && !(chars[j] == '*' && chars[j + 1] == '/')
        invariant
            start <= j <= n == chars@.len(),
            star_slash_idx(chars@, start as nat) == star_slash_idx(chars@, j as nat),
        decreases n - j,
    {
        j += 1;
    }
    if n >= 2 && j <= n - 2 {
        Some(j)
    } else {
        None
    }
}

/// Value of the decimal digits `chars[start..end]`, or `None` on overflow of
/// a signed 64-bit integer.
fn parse_dec(chars: &Vec<char>, start: usize, end: usize) -> (r: Option<i64>)
    requires
        start <= end <= chars@.len(),
        forall|k: int| start <= k < end ==> is_digit(chars@[k]),
    ensures
        match r {
            Some(v) => 0 <= v && v == dec_val(chars@.subrange(start as int, end as int)),
            None => dec_val(chars@.subrange(start as int, end as int)) > i64::MAX,
        },
{
    let ghost whole = chars@.subrange(start as int, end as int);
    let mut acc: i64 = 0;
    let mut j = start;
    while j < end
        invariant
            start <= j <= end <= chars@.len(),
            forall|k: int| start <= k < end ==> is_digit(chars@[k]),
            0 <= acc,
            acc == dec_val(chars@.subrange(start as int, j as int)),
            whole == chars@.subrange(start as int, end as int),
        decreases end - j,
    {
        let c = chars[j];
        assert(is_digit(chars@[j as int]));
        let d = (c as u32 - 48) as i64;
        assert(0 <= d <= 9);
        proof {
            assert(chars@.subrange(start as int, j as int + 1).drop_last() =~= chars@.subrange(
                start as int,
                j as int,
            ));
            assert(chars@.subrange(start as int, j as int + 1).last() == chars@[j as int]);
        }
        if acc > 922337203685477580 || (acc == 922337203685477580 && d > 7) {
            proof {
                assert(dec_val(chars@.subrange(start as int, j as int + 1)) > i64::MAX);
                lemma_dec_val_prefix(whole, j + 1 - start);
                assert(whole.take(j + 1 - start) =~= chars@.subrange(start as int, j as int + 1));
            }
            return None;
        }
        acc = acc * 10 + d;
        j += 1;
    }
    Some(acc)
}

/// Value of the hexadecimal digits `chars[start..end]`, or `None` on
/// overflow.
fn parse_hex(chars: &Vec<char>, start: usize, end: usize) -> (r: Option<i64>)
    requires
        start <= end <= chars@.len(),
        forall|k: int| start <= k < end ==> is_hex_digit(chars@[k]),
    ensures
        match r {
            Some(v) => 0 <= v && v == hex_val(chars@.subrange(start as int, end as int)),
            None => hex_val(chars@.subrange(start as int, end as int)) > i64::MAX,
        },
{
    let ghost whole = chars@.subrange(start as int, end as int);
    let mut acc: i64 = 0;
    let mut j = start;
    while j < end
        invariant
            start <= j <= end <= chars@.len(),
            forall|k: int| start <= k < end ==> is_hex_digit(chars@[k]),
            0 <= acc,
            acc == hex_val(chars@.subrange(start as int, j as int)),
            whole == chars@.subrange(start as int, end as int),
        decreases end - j,
    {
        let c = chars[j];
        assert(is_hex_digit(chars@[j as int]));
        let u = c as u32;
        let d: i64 = if '0' <= c && c <= '9' {
            (u - 48) as i64
        } else if 'a' <= c && c <= 'f' {
            (u - 97 + 10) as i64
        } else {
            (u - 65 + 10) as i64
        };
        assert(0 <= d <= 15 && d == hex_digit_val(chars@[j as int]));
        proof {
            assert(chars@.subrange(start as int, j as int + 1).drop_last() =~= chars@.subrange(
                start as int,
                j as int,
            ));
            assert(chars@.subrange(start as int, j as int + 1).last() == chars@[j as int]);
        }
        if acc > 576460752303423487 {
            proof {
                assert(hex_val(chars@.subrange(start as int, j as int + 1)) > i64::MAX);
                lemma_hex_val_prefix(whole, j + 1 - start);
                assert(whole.take(j + 1 - start) =~= chars@.subrange(start as int, j as int + 1));
            }
            return None;
        }
        acc = acc * 16 + d;
        j += 1;
    }
    Some(acc)
}

/// Value of the binary digits `chars[start..end]`, or `None` on overflow.
fn parse_bin(chars: &Vec<char>, start: usize, end: usize) -> (r: Option<i64>)
    requires
        start <= end <= chars@.len(),
        forall|k: int| start <= k < end ==> is_bin_digit(chars@[k]),
    ensures
        match r {
            Some(v) => 0 <= v && v == bin_val(chars@.subrange(start as int, end as int)),
            None => bin_val(chars@.subrange(start as int, end as int)) > i64::MAX,
        },
{
    let ghost whole = chars@.subrange(start as int, end as int);
    let mut acc: i64 = 0;
    let mut j = start;
    while j < end
        invariant
            start <= j <= end <= chars@.len(),
            forall|k: int| start <= k < end ==> is_bin_digit(chars@[k]),
            0 <= acc,
            acc == bin_val(chars@.subrange(start as int, j as int)),
            whole == chars@.subrange(start as int, end as int),
        decreases end - j,
    {
        let c = chars[j];
        assert(is_bin_digit(chars@[j as int]));
        let d: i64 = if c == '1' {
            1
        } else {
            0
        };
        proof {
            assert(chars@.subrange(start as int, j as int + 1).drop_last() =~= chars@.subrange(
                start as int,
                j as int,
            ));
            assert(chars@.subrange(start as int, j as int + 1).last() == chars@[j as int]);
        }
        if acc > 4611686018427387903 {
            proof {
                assert(bin_val(chars@.subrange(start as int, j as int + 1)) > i64::MAX);
                lemma_bin_val_prefix(whole, j + 1 - start);
                assert(whole.take(j + 1 - start) =~= chars@.subrange(start as int, j as int + 1));
            }
            return None;
        }
        acc = acc * 2 + d;
        j += 1;
    }
    Some(acc)
}

/// The token for the word `chars[start..end]`: a keyword, a boolean, or an
/// identifier.
fn word_token_of(chars: &Vec<char>, start: usize, end: usize) -> (t: Token)
    requires
        start < end <= chars@.len(),
    ensures
        t@ == word_token(chars@.subrange(start as int, end as int)),
{
    proof {
        reveal_strlit("fn");
        reveal_strlit("set");
        reveal_strlit("true");
        reveal_strlit("false");
    }
    let ghost w = chars@.subrange(start as int, end as int);
    let len = end - start;
    if len == 2 && chars[start] == 'f' && chars[start + 1] == 'n' {
        proof {
            assert(w =~= "fn"@);
        }
        Token::Fn
    } else if len == 3 && chars[start] == 's' && chars[start + 1] == 'e' && chars[start + 2]
        == 't' {
        proof {
            assert(w =~= "set"@);
        }
        Token::SetKw
    } else if len == 4 && chars[start] == 't' && chars[start + 1] == 'r' && chars[start + 2] == 'u'
        && chars[start + 3] == 'e' {
        proof {
            assert(w =~= "true"@);
        }
        Token::Bool(true)
    } else if len == 5 && chars[start] == 'f' && chars[start + 1] == 'a' && chars[start + 2] == 'l'
        && chars[start + 3] == 's' && chars[start + 4] == 'e' {
        proof {
            assert(w =~= "false"@);
        }
        Token::Bool(false)
    } else {
        let s = build_string(chars, start, end);
        proof {
            assert(w != "fn"@ && w != "set"@ && w != "true"@ && w != "false"@) by {
                if w == "fn"@ {
                    assert(w.len() == 2 && w[0] == 'f' && w[1] == 'n');
                }
                if w == "set"@ {
                    assert(w.len() == 3 && w[0] == 's' && w[1] == 'e' && w[2] == 't');
                }
                if w == "true"@ {
                    assert(w.len() == 4 && w[0] == 't' && w[1] == 'r' && w[2] == 'u' && w[3]
                        == 'e');
                }
                if w == "false"@ {
                    assert(w.len() == 5 && w[0] == 'f' && w[1] == 'a' && w[2] == 'l' && w[3] == 's'
                        && w[4] == 'e');
                }
            }
        }
        Token::Ident(s)
    }
}

/// `star_slash_idx` looked at through `skip`: searching the suffix is the
/// same search shifted.
pub proof fn lemma_star_slash_shift(s: Seq<char>, d: int, k: nat)
    requires
        0 <= d <= s.len(),
    ensures
        match star_slash_idx(s, (d + k) as nat) {
            Some(j) => star_slash_idx(s.skip(d), k) == Some((j - d) as nat) && j >= d,
            None => star_slash_idx(s.skip(d), k) is None,
        },
    decreases s.len() - d - k,
{
    if d + k + 2 <= s.len() {
        assert(s.skip(d)[k as int] == s[d + k]);
        assert(s.skip(d)[k as int + 1] == s[d + k + 1]);
        if !(s[d + k] == '*' && s[d + k + 1] == '/') {
            lemma_star_slash_shift(s, d, k + 1);
        }
    }
}

/// The decimal digit characters of `n`, most significant first.
pub open spec fn dec_digits(n: nat) -> Seq<char>
    decreases n,
{
    if n < 10 {
        seq![digit_char_of(n)]
    } else {
        dec_digits(n / 10).push(digit_char_of(n % 10))
    }
}

/// The character for a single decimal digit.
pub open spec fn digit_char_of(d: nat) -> char {
    if d == 0 {
        '0'
    } else if d == 1 {
        '1'
    } else if d == 2 {
        '2'
    } else if d == 3 {
        '3'
    } else if d == 4 {
        '4'
    } else if d == 5 {
        '5'
    } else if d == 6 {
        '6'
    } else if d == 7 {
        '7'
    } else if d == 8 {
        '8'
    } else {
        '9'
    }
}

/// A nonempty all-digit input is one Number token with its decimal value.
pub proof fn lemma_lex_single_dec(dec: Seq<char>)
    requires
        dec.len() > 0,
        forall|i: int| 0 <= i < dec.len() ==> is_digit(dec[i]),
        dec_val(dec) <= i64::MAX,
    ensures
        spec_lex(dec) == Ok::<Seq<TokenV>, LexingError>(
            seq![TokenV::Number(dec_val(dec) as i64)],
        ),
{
    lemma_run_len_is(dec, identp(), dec.len());
    lemma_run_len_is(dec, digitp(), dec.len());
    assert(num_match_len(dec) == dec.len());
    assert(dec.subrange(0, dec.len() as int) =~= dec);
    assert(lex_step(dec) == LexStep::Tok(TokenV::Number(dec_val(dec) as i64), dec.len()));
    assert(dec.skip(dec.len() as int) =~= Seq::<char>::empty());
    assert(spec_lex(Seq::<char>::empty()) == Ok::<Seq<TokenV>, LexingError>(Seq::empty()));
    assert(seq![TokenV::Number(dec_val(dec) as i64)] + Seq::<TokenV>::empty()
        =~= seq![TokenV::Number(dec_val(dec) as i64)]);
}

/// A `0x` form over nonempty hexadecimal digits is one Number token with its
/// hexadecimal value.
pub proof fn lemma_lex_single_hex(hex: Seq<char>)
    requires
        hex.len() > 0,
        forall|i: int| 0 <= i < hex.len() ==> is_hex_digit(hex[i]),
        hex_val(hex) <= i64::MAX,
    ensures
        spec_lex(seq!['0', 'x'] + hex) == Ok::<Seq<TokenV>, LexingError>(
            seq![TokenV::Number(hex_val(hex) as i64)],
        ),
{
    let s = seq!['0', 'x'] + hex;
    assert(forall|i: int| 0 <= i < s.len() ==> is_ident_char(s[i]));
    lemma_run_len_is(s, identp(), s.len());
    assert(s.skip(2) =~= hex);
    lemma_run_len_is(hex, hexp(), hex.len());
    assert(num_match_len(s) == s.len());
    assert(s.subrange(2, s.len() as int) =~= hex);
    assert(lex_step(s) == LexStep::Tok(TokenV::Number(hex_val(hex) as i64), s.len()));
    assert(s.skip(s.len() as int) =~= Seq::<char>::empty());
    assert(spec_lex(Seq::<char>::empty()) == Ok::<Seq<TokenV>, LexingError>(Seq::empty()));
    assert(seq![TokenV::Number(hex_val(hex) as i64)] + Seq::<TokenV>::empty()
        =~= seq![TokenV::Number(hex_val(hex) as i64)]);
}

/// A `0b` form over nonempty binary digits is one Number token with its
/// binary value.
pub proof fn lemma_lex_single_bin(bin: Seq<char>)
    requires
        bin.len() > 0,
        forall|i: int| 0 <= i < bin.len() ==> is_bin_digit(bin[i]),
        bin_val(bin) <= i64::MAX,
    ensures
        spec_lex(seq!['0', 'b'] + bin) == Ok::<Seq<TokenV>, LexingError>(
            seq![TokenV::Number(bin_val(bin) as i64)],
        ),
{
    let s = seq!['0', 'b'] + bin;
    assert(forall|i: int| 0 <= i < s.len() ==> is_ident_char(s[i]));
    lemma_run_len_is(s, identp(), s.len());
    assert(s.skip(2) =~= bin);
    lemma_run_len_is(bin, binp(), bin.len());
    assert(num_match_len(s) == s.len());
    assert(s.subrange(2, s.len() as int) =~= bin);
    assert(lex_step(s) == LexStep::Tok(TokenV::Number(bin_val(bin) as i64), s.len()));
    assert(s.skip(s.len() as int) =~= Seq::<char>::empty());
    assert(spec_lex(Seq::<char>::empty()) == Ok::<Seq<TokenV>, LexingError>(Seq::empty()));
    assert(seq![TokenV::Number(bin_val(bin) as i64)] + Seq::<TokenV>::empty()
        =~= seq![TokenV::Number(bin_val(bin) as i64)]);
}

/// Integer literals written in decimal, `0x`, or `0b` form denoting the same
/// numeric value lex to the identical Number token.
pub proof fn lemma_number_radix_agreement(dec: Seq<char>, hex: Seq<char>, bin: Seq<char>)
    requires
        dec.len() > 0,
        forall|i: int| 0 <= i < dec.len() ==> is_digit(dec[i]),
        hex.len() > 0,
        forall|i: int| 0 <= i < hex.len() ==> is_hex_digit(hex[i]),
        bin.len() > 0,
        forall|i: int| 0 <= i < bin.len() ==> is_bin_digit(bin[i]),
        dec_val(dec) <= i64::MAX,
        hex_val(hex) == dec_val(dec),
        bin_val(bin) == dec_val(dec),
    ensures
        spec_lex(dec) == Ok::<Seq<TokenV>, LexingError>(
            seq![TokenV::Number(dec_val(dec) as i64)],
        ),
        spec_lex(seq!['0', 'x'] + hex) == spec_lex(dec),
        spec_lex(seq!['0', 'b'] + bin) == spec_lex(dec),
{
    lemma_lex_single_dec(dec);
    lemma_lex_single_hex(hex);
    lemma_lex_single_bin(bin);
}

/// The views of a sequence of tokens.
pub open spec fn token_views(ts: Seq<Token>) -> Seq<TokenV> {
    ts.map_values(|t: Token| t@)
}

/// The tokens already emitted plus whatever the remaining input yields make
/// up the whole result.
pub open spec fn lex_cont(
    full: Result<Seq<TokenV>, LexingError>,
    acc: Seq<TokenV>,
    sfx: Seq<char>,
) -> bool {
    full == (match spec_lex(sfx) {
        Ok(ts) => Ok::<Seq<TokenV>, LexingError>(acc + ts),
        Err(e) => Err::<Seq<TokenV>, LexingError>(e),
    })
}

proof fn lemma_cont_skip(
    full: Result<Seq<TokenV>, LexingError>,
    acc: Seq<TokenV>,
    sfx: Seq<char>,
    n: nat,
)
    requires
        lex_cont(full, acc, sfx),
        sfx.len() > 0,
        lex_step(sfx) == LexStep::Skip(n),
        1 <= n <= sfx.len(),
    ensures
        lex_cont(full, acc, sfx.skip(n as int)),
{
}

proof fn lemma_cont_tok(
    full: Result<Seq<TokenV>, LexingError>,
    acc: Seq<TokenV>,
    sfx: Seq<char>,
    t: TokenV,
    n: nat,
)
    requires
        lex_cont(full, acc, sfx),
        sfx.len() > 0,
        lex_step(sfx) == LexStep::Tok(t, n),
        1 <= n <= sfx.len(),
    ensures
        lex_cont(full, acc.push(t), sfx.skip(n as int)),
{
    match spec_lex(sfx.skip(n as int)) {
        Ok(ts) => {
            assert(acc + (seq![t] + ts) =~= acc.push(t) + ts);
        },
        Err(e) => {},
    }
}

proof fn lemma_cont_fail(
    full: Result<Seq<TokenV>, LexingError>,
    acc: Seq<TokenV>,
    sfx: Seq<char>,
    e: LexingError,
)
    requires
        lex_cont(full, acc, sfx),
        sfx.len() > 0,
        lex_step(sfx) == LexStep::Fail(e),
    ensures
        full == Err::<Seq<TokenV>, LexingError>(e),
{
}

/// Tokenize `source`: a single pass over the text, yielding the token
/// sequence the classification rules assign to it, or the first failure,
/// with no partial stream returned past the failure point.
#[verifier::rlimit(100)]
pub fn lex(source: &str) -> (r: Result<Vec<Token>, LexingError>)
    ensures
        r matches Ok(toks) ==> spec_lex(source@) == Ok::<Seq<TokenV>, LexingError>(
            token_views(toks@),
        ),
        r matches Err(e) ==> spec_lex(source@) == Err::<Seq<TokenV>, LexingError>(e),
{
    let ghost full = spec_lex(source@);
    let chars = chars_of(source);
    let n = chars.len();
    let mut toks: Vec<Token> = Vec::new();
    let mut i: usize = 0;
    proof {
        assert(chars@.skip(0) =~= source@);
        assert(token_views(toks@) =~= Seq::<TokenV>::empty());
        match spec_lex(source@) {
            Ok(ts) => {
                assert(Seq::<TokenV>::empty() + ts =~= ts);
            },
            Err(e) => {},
        }
    }
    while i < n
        invariant
            i <= n == chars@.len(),
            chars@ == source@,
            full == spec_lex(source@),
            lex_cont(full, token_views(toks@), chars@.skip(i as int)),
        decreases n - i,
    {
        let ghost sfx = chars@.skip(i as int);
        let ghost acc = token_views(toks@);
        proof {
            assert(sfx.len() == n - i);
            assert(sfx[0] == chars@[i as int]);
            assert(forall|k: int| 0 <= k < sfx.len() ==> sfx[k] == chars@[i + k]);
        }
        let c = chars[i];
        if ws_char(c) {
            proof {
                assert(lex_step(sfx) == LexStep::Skip(1nat));
                lemma_cont_skip(full, acc, sfx, 1);
                assert(sfx.skip(1) =~= chars@.skip(i as int + 1));
            }
            i = i + 1;
        } else if c == '/' && i + 1 < n && chars[i + 1] == '/' {
            let e = scan_to_newline(&chars, i + 2);
            proof {
                assert(sfx.skip(2) =~= chars@.skip(i as int + 2));
                assert(lex_step(sfx) == LexStep::Skip((e - i) as nat));
                lemma_cont_skip(full, acc, sfx, (e - i) as nat);
                assert(sfx.skip(e - i) =~= chars@.skip(e as int));
            }
            i = e;
        } else if c == '/' && i + 1 < n && chars[i + 1] == '*' && find_star_slash(
            &chars,
            i + 2,
        ).is_some() {
            let j = match find_star_slash(&chars, i + 2) {
                Some(j) => j,
                None => 0,  // unreachable: the guard above found a close
            };
            proof {
                lemma_star_slash_shift(chars@, i as int, 2);
                assert(star_slash_idx(sfx, 2) == Some((j - i) as nat));
                assert(lex_step(sfx) == LexStep::Skip((j - i + 2) as nat));
                lemma_cont_skip(full, acc, sfx, (j - i + 2) as nat);
                assert(sfx.skip(j - i + 2) =~= chars@.skip(j as int + 2));
            }
            i = j + 2;
        } else {
            // a token or a failure
            let step: Result<(Token, usize), LexingError> = if c == '+' {
                if i + 1 < n && chars[i + 1] == '=' {
                    proof {
                        assert(lex_step(sfx) == LexStep::Tok(TokenV::AddEqual, 2nat));
                    }
                    Ok((Token::AddEqual, 2))
                } else {
                    proof {
                        assert(lex_step(sfx) == LexStep::Tok(TokenV::Add, 1nat));
                    }
                    Ok((Token::Add, 1))
                }
            } else if c == '-' {
                if i + 1 < n && chars[i + 1] == '=' {
                    proof {
                        assert(lex_step(sfx) == LexStep::Tok(TokenV::SubEqual, 2nat));
                    }
                    Ok((Token::SubEqual, 2))
                } else if i + 1 < n && chars[i + 1] == '>' {
                    proof {
                        assert(lex_step(sfx) == LexStep::Tok(TokenV::Arrow, 2nat));
                    }
                    Ok((Token::Arrow, 2))
                } else {
                    proof {
                        assert(lex_step(sfx) == LexStep::Tok(TokenV::Sub, 1nat));
                    }
                    Ok((Token::Sub, 1))
                }
            } else if c == '*' {
                if i + 1 < n && chars[i + 1] == '=' {
                    proof {
                        assert(lex_step(sfx) == LexStep::Tok(TokenV::MulEqual, 2nat));
                    }
                    Ok((Token::MulEqual, 2))
                } else {
                    proof {
                        assert(lex_step(sfx) == LexStep::Tok(TokenV::Mul, 1nat));
                    }
                    Ok((Token::Mul, 1))
                }
            } else if c == '/' {
                proof {
                    if i + 1 < n && chars@[i as int + 1] == '*' {
                        lemma_star_slash_shift(chars@, i as int, 2);
                    }
                }
                if i + 1 < n && chars[i + 1] == '=' {
                    proof {
                        assert(lex_step(sfx) == LexStep::Tok(TokenV::DivEqual, 2nat));
                    }
                    Ok((Token::DivEqual, 2))
                } else {
                    proof {
                        assert(lex_step(sfx) == LexStep::Tok(TokenV::Div, 1nat));
                    }
                    Ok((Token::Div, 1))
                }
            } else if c == '(' {
                proof {
                    assert(lex_step(sfx) == LexStep::Tok(TokenV::LParen, 1nat));
                }
                Ok((Token::LParen, 1))
            } else if c == ')' {
                proof {
                    assert(lex_step(sfx) == LexStep::Tok(TokenV::RParen, 1nat));
                }
                Ok((Token::RParen, 1))
            } else if c == '{' {
                proof {
                    assert(lex_step(sfx) == LexStep::Tok(TokenV::LBrace, 1nat));
                }
                Ok((Token::LBrace, 1))
            } else if c == '}' {
                proof {
                    assert(lex_step(sfx) == LexStep::Tok(TokenV::RBrace, 1nat));
                }
                Ok((Token::RBrace, 1))
            } else if c == ',' {
                proof {
                    assert(lex_step(sfx) == LexStep::Tok(TokenV::Comma, 1nat));
                }
                Ok((Token::Comma, 1))
            } else if c == ';' {
                proof {
                    assert(lex_step(sfx) == LexStep::Tok(TokenV::Semicolon, 1nat));
                }
                Ok((Token::Semicolon, 1))
            } else if c == ':' {
                proof {
                    assert(lex_step(sfx) == LexStep::Tok(TokenV::Colon, 1nat));
                }
                Ok((Token::Colon, 1))
            } else if c == '"' {
                let e = scan_to_quote(&chars, i + 1);
                proof {
                    assert(sfx.drop_first() =~= chars@.skip(i as int + 1));
                }
                if e < n {
                    let raw = build_string(&chars, i + 1, e);
                    proof {
                        assert(raw@ =~= sfx.subrange(1, 1 + (e - i - 1)));
                    }
                    match unescape_str(raw.as_str()) {
                        Some(u) => {
                            proof {
                                assert(1 + run_len(sfx.drop_first(), not_quote()) < sfx.len());
                                if no_backslash(raw@) {
                                    assert(u@ == raw@);
                                }
                                assert(lex_step(sfx) == LexStep::Tok(
                                    TokenV::Str(u@),
                                    (e + 1 - i) as nat,
                                ));
                            }
                            Ok((Token::String(u), e + 1 - i))
                        },
                        None => {
                            proof {
                                assert(!no_backslash(raw@));
                                assert(lex_step(sfx) == LexStep::Fail(LexingError::Unknown));
                            }
                            Err(LexingError::Unknown)
                        },
                    }
                } else {
                    proof {
                        assert(1 + run_len(sfx.drop_first(), not_quote()) >= sfx.len());
                        assert(lex_step(sfx) == LexStep::Fail(LexingError::Unknown));
                    }
                    Err(LexingError::Unknown)
                }
            } else if ident_char(c) {
                let we = scan_ident(&chars, i);
                proof {
                    assert(we - i == run_len(sfx, |ch: char| is_ident_char(ch)));
                }
                let num_end: usize = if c == '0' && n - i > 2 && chars[i + 1] == 'x' && hex_char(
                    chars[i + 2],
                ) {
                    let ne = scan_hex(&chars, i + 2);
                    proof {
                        assert(sfx.skip(2) =~= chars@.skip(i as int + 2));
                        assert(num_match_len(sfx) == ne - i);
                    }
                    ne
                } else if c == '0' && n - i > 2 && chars[i + 1] == 'b' && bin_char(chars[i + 2]) {
                    let ne = scan_bin(&chars, i + 2);
                    proof {
                        assert(sfx.skip(2) =~= chars@.skip(i as int + 2));
                        assert(num_match_len(sfx) == ne - i);
                    }
                    ne
                } else if digit_char(c) {
                    let ne = scan_digits(&chars, i);
                    proof {
                        assert(num_match_len(sfx) == ne - i);
                    }
                    ne
                } else {
                    proof {
                        assert(num_match_len(sfx) == 0);
                    }
                    i
                };
                if num_end == we {
                    // the numeric rule wins
                    let v = if c == '0' && n - i > 2 && chars[i + 1] == 'x' && hex_char(
                        chars[i + 2],
                    ) {
                        proof {
                            lemma_run_len_bounds(chars@.skip(i as int + 2), hexp());
                            assert forall|k: int| i + 2 <= k < num_end implies is_hex_digit(
                                chars@[k],
                            ) by {
                                assert(hexp()(chars@.skip(i as int + 2)[k - i - 2]));
                                assert(chars@.skip(i as int + 2)[k - i - 2] == chars@[k]);
                            }
                        }
                        let v = parse_hex(&chars, i + 2, num_end);
                        proof {
                            assert(chars@.subrange(i as int + 2, num_end as int) =~= sfx.subrange(
                                2,
                                num_match_len(sfx) as int,
                            ));
                        }
                        v
                    } else if c == '0' && n - i > 2 && chars[i + 1] == 'b' && bin_char(
                        chars[i + 2],
                    ) {
                        proof {
                            lemma_run_len_bounds(chars@.skip(i as int + 2), binp());
                            assert forall|k: int| i + 2 <= k < num_end implies is_bin_digit(
                                chars@[k],
                            ) by {
                                assert(binp()(chars@.skip(i as int + 2)[k - i - 2]));
                                assert(chars@.skip(i as int + 2)[k - i - 2] == chars@[k]);
                            }
                        }
                        let v = parse_bin(&chars, i + 2, num_end);
                        proof {
                            assert(chars@.subrange(i as int + 2, num_end as int) =~= sfx.subrange(
                                2,
                                num_match_len(sfx) as int,
                            ));
                        }
                        v
                    } else {
                        proof {
                            lemma_run_len_bounds(chars@.skip(i as int), digitp());
                            assert forall|k: int| i <= k < num_end implies is_digit(chars@[k]) by {
                                assert(digitp()(chars@.skip(i as int)[k - i]));
                                assert(chars@.skip(i as int)[k - i] == chars@[k]);
                            }
                        }
                        let v = parse_dec(&chars, i, num_end);
                        proof {
                            assert(chars@.subrange(i as int, num_end as int) =~= sfx.subrange(
                                0,
                                num_match_len(sfx) as int,
                            ));
                        }
                        v
                    };
                    match v {
                        Some(v) => {
                            proof {
                                assert(num_match_val(sfx) == v);
                                assert(lex_step(sfx) == LexStep::Tok(
                                    TokenV::Number(v),
                                    (num_end - i) as nat,
                                ));
                            }
                            Ok((Token::Number(v), num_end - i))
                        },
                        None => {
                            proof {
                                assert(num_match_val(sfx) > i64::MAX);
                                assert(lex_step(sfx) == LexStep::Fail(
                                    LexingError::ParseIntError(IntErrorKind::PosOverflow),
                                ));
                            }
                            Err(LexingError::ParseIntError(IntErrorKind::PosOverflow))
                        },
                    }
                } else {
                    let t = word_token_of(&chars, i, we);
                    proof {
                        assert(chars@.subrange(i as int, we as int) =~= sfx.subrange(
                            0,
                            (we - i) as int,
                        ));
                        assert(lex_step(sfx) == LexStep::Tok(t@, (we - i) as nat));
                    }
                    Ok((t, we - i))
                }
            } else {
                proof {
                    assert(lex_step(sfx) == LexStep::Fail(LexingError::Unknown));
                }
                Err(LexingError::Unknown)
            };
            match step {
                Ok((tok, len)) => {
                    proof {
                        assert(lex_step(sfx) == LexStep::Tok(tok@, len as nat));
                        lemma_cont_tok(full, acc, sfx, tok@, len as nat);
                        assert(token_views(toks@.push(tok)) =~= acc.push(tok@));
                        assert(sfx.skip(len as int) =~= chars@.skip(i as int + len as int));
                    }
                    toks.push(tok);
                    i = i + len;
                },
                Err(e) => {
                    proof {
                        assert(lex_step(sfx) == LexStep::Fail(e));
                        lemma_cont_fail(full, acc, sfx, e);
                    }
                    return Err(e);
                },
            }
        }
    }
    proof {
        assert(chars@.skip(n as int) =~= Seq::<char>::empty());
        assert(token_views(toks@) + Seq::<TokenV>::empty() =~= token_views(toks@));
    }
    Ok(toks)
}


// ---------------------------------------------------------------------------
// Lexing is left-inverse to rendering: re-tokenizing the rendered source
// form of an accepted token sequence yields the same token sequence.
// ---------------------------------------------------------------------------

/// A token the tokenizer itself could produce, restricted for strings to
/// contents free of quotes and backslashes (whose rendering needs no escape
/// expansion).
pub open spec fn wf_token(t: TokenV) -> bool {
    match t {
        TokenV::Ident(s) => s.len() > 0 && (forall|i: int|
            0 <= i < s.len() ==> is_ident_char(s[i])) && s != "fn"@ && s != "set"@ && s != "true"@
            && s != "false"@ && num_match_len(s) != s.len(),
        TokenV::Str(s) => (forall|i: int| 0 <= i < s.len() ==> s[i] != '"') && no_backslash(s),
        TokenV::Number(n) => n >= 0,
        _ => true,
    }
}

/// The source form of one token.
pub open spec fn render_token(t: TokenV) -> Seq<char> {
    match t {
        TokenV::Ident(s) => s,
        TokenV::Str(s) => seq!['"'] + s + seq!['"'],
        TokenV::Number(n) => dec_digits(n as nat),
        TokenV::Bool(b) => if b {
            "true"@
        } else {
            "false"@
        },
        TokenV::Fn => "fn"@,
        TokenV::SetKw => "set"@,
        TokenV::LParen => seq!['('],
        TokenV::RParen => seq![')'],
        TokenV::LBrace => seq!['{'],
        TokenV::RBrace => seq!['}'],
        TokenV::Comma => seq![','],
        TokenV::Arrow => seq!['-', '>'],
        TokenV::Add => seq!['+'],
        TokenV::Sub => seq!['-'],
        TokenV::Mul => seq!['*'],
        TokenV::Div => seq!['/'],
        TokenV::AddEqual => seq!['+', '='],
        TokenV::SubEqual => seq!['-', '='],
        TokenV::MulEqual => seq!['*', '='],
        TokenV::DivEqual => seq!['/', '='],
        TokenV::Semicolon => seq![';'],
        TokenV::Colon => seq![':'],
    }
}

/// The source form of a token sequence: the tokens' forms joined by single
/// spaces.
pub open spec fn render_tokens(ts: Seq<TokenV>) -> Seq<char>
    decreases ts.len(),
{
    if ts.len() == 0 {
        Seq::empty()
    } else if ts.len() == 1 {
        render_token(ts[0])
    } else {
        render_token(ts[0]) + seq![' '] + render_tokens(ts.drop_first())
    }
}

/// The digits of `m` are nonempty decimal digits denoting `m` again.
pub proof fn lemma_dec_digits_val(m: nat)
    ensures
        dec_digits(m).len() > 0,
        forall|i: int| 0 <= i < dec_digits(m).len() ==> is_digit(#[trigger] dec_digits(m)[i]),
        dec_val(dec_digits(m)) == m,
    decreases m,
{
    if m < 10 {
        let d = seq![digit_char_of(m)];
        assert(d.drop_last() =~= Seq::<char>::empty());
        assert(dec_val(Seq::<char>::empty()) == 0);
        assert(dec_val(d) == digit_val(digit_char_of(m)));
    } else {
        lemma_dec_digits_val(m / 10);
        let d = dec_digits(m);
        assert(d == dec_digits(m / 10).push(digit_char_of(m % 10)));
        assert(d.drop_last() =~= dec_digits(m / 10));
        assert(d.last() == digit_char_of(m % 10));
        assert(digit_val(digit_char_of(m % 10)) == m % 10);
        assert(dec_val(d) == (m / 10) * 10 + m % 10);
        assert forall|i: int| 0 <= i < d.len() implies is_digit(#[trigger] d[i]) by {
            if i < d.len() - 1 {
                assert(d[i] == dec_digits(m / 10)[i]);
            }
        }
    }
}

/// A run that stops inside `s0` stops at the same place in `s0 + rest`.
proof fn lemma_run_len_prefix_stop(s0: Seq<char>, rest: Seq<char>, p: spec_fn(char) -> bool)
    requires
        run_len(s0, p) < s0.len(),
    ensures
        run_len(s0 + rest, p) == run_len(s0, p),
{
    lemma_run_len_bounds(s0, p);
    let k = run_len(s0, p);
    assert(forall|i: int| 0 <= i < s0.len() ==> (s0 + rest)[i] == s0[i]);
    lemma_run_len_is(s0 + rest, p, k);
}

/// A run that spans all of `s0` and whose continuation is blocked by a space
/// spans exactly `s0` in `s0 + rest`.
proof fn lemma_run_len_prefix_all(s0: Seq<char>, rest: Seq<char>, p: spec_fn(char) -> bool)
    requires
        run_len(s0, p) == s0.len(),
        rest.len() == 0 || !p(rest[0]),
    ensures
        run_len(s0 + rest, p) == s0.len(),
{
    lemma_run_len_bounds(s0, p);
    assert(forall|i: int| 0 <= i < s0.len() ==> (s0 + rest)[i] == s0[i]);
    if rest.len() > 0 {
        assert((s0 + rest)[s0.len() as int] == rest[0]);
    }
    lemma_run_len_is(s0 + rest, p, s0.len());
}

/// The numeric match of a word followed by a space boundary is the numeric
/// match of the word, provided the word is not numeric through its whole
/// length.
proof fn lemma_num_match_prefix(s0: Seq<char>, rest: Seq<char>)
    requires
        s0.len() > 0,
        num_match_len(s0) < s0.len(),
        rest.len() == 0 || rest[0] == ' ',
    ensures
        num_match_len(s0 + rest) == num_match_len(s0),
{
    let s = s0 + rest;
    assert(forall|i: int| 0 <= i < s0.len() ==> s[i] == s0[i]);
    if s0.len() >= 3 && s0[0] == '0' && s0[1] == 'x' && is_hex_digit(s0[2]) {
        assert(s.skip(2) =~= s0.skip(2) + rest);
        lemma_run_len_prefix_stop(s0.skip(2), rest, hexp());
    } else if s0.len() >= 3 && s0[0] == '0' && s0[1] == 'b' && is_bin_digit(s0[2]) {
        assert(s.skip(2) =~= s0.skip(2) + rest);
        lemma_run_len_prefix_stop(s0.skip(2), rest, binp());
    } else if is_digit(s0[0]) {
        // `s` is not a 0x or 0b form either: the character after the word's
        // end is a space, so any such prefix would lie inside the word.
        if s.len() >= 3 && s[0] == '0' && s[1] == 'x' && is_hex_digit(s[2]) {
            assert(s0.len() >= 2 ==> s0[1] == 'x');
            assert(s0.len() == 1 ==> s[1] == ' ');
            assert(s0.len() == 2 ==> s[2] == ' ');
            assert(false);
        }
        if s.len() >= 3 && s[0] == '0' && s[1] == 'b' && is_bin_digit(s[2]) {
            assert(s0.len() >= 2 ==> s0[1] == 'b');
            assert(s0.len() == 1 ==> s[1] == ' ');
            assert(s0.len() == 2 ==> s[2] == ' ');
            assert(false);
        }
        lemma_run_len_prefix_stop(s0, rest, digitp());
    } else {
        assert(num_match_len(s0) == 0);
        assert(!is_digit(s[0]));
    }
}


/// The numeric match never runs past the input.
proof fn lemma_num_match_le(s: Seq<char>)
    ensures
        num_match_len(s) <= s.len(),
{
    if s.len() >= 3 && s[0] == '0' && s[1] == 'x' && is_hex_digit(s[2]) {
        lemma_run_len_bounds(s.skip(2), hexp());
    } else if s.len() >= 3 && s[0] == '0' && s[1] == 'b' && is_bin_digit(s[2]) {
        lemma_run_len_bounds(s.skip(2), binp());
    } else if s.len() >= 1 && is_digit(s[0]) {
        lemma_run_len_bounds(s, digitp());
    }
}

/// At the head of a rendered token followed by nothing or a space, the
/// tokenizer reads back exactly that token.
#[verifier::rlimit(100)]
pub proof fn lemma_step_of_rendered(t: TokenV, rest: Seq<char>)
    requires
        wf_token(t),
        rest.len() == 0 || rest[0] == ' ',
    ensures
        render_token(t).len() > 0,
        lex_step(render_token(t) + rest) == LexStep::Tok(t, render_token(t).len()),
{
    reveal_strlit("fn");
    reveal_strlit("set");
    reveal_strlit("true");
    reveal_strlit("false");
    let r = render_token(t);
    let s = r + rest;
    assert(forall|i: int| 0 <= i < r.len() ==> s[i] == r[i]);
    if r.len() < s.len() {
        assert(s[r.len() as int] == rest[0]);
    }
    match t {
        TokenV::Ident(s0) => {
            lemma_run_len_is(s0, identp(), s0.len());
            lemma_run_len_prefix_all(s0, rest, identp());
            lemma_num_match_le(s0);
            lemma_num_match_prefix(s0, rest);
            assert(run_len(s, identp()) == s0.len());
            assert(num_match_len(s) != run_len(s, identp()));
            assert(s.subrange(0, s0.len() as int) =~= s0);
            assert(word_token(s0) == TokenV::Ident(s0));
        },
        TokenV::Str(s0) => {
            let inner = s0 + seq!['"'] + rest;
            assert(s.drop_first() =~= inner);
            assert(forall|i: int| 0 <= i < s0.len() ==> inner[i] == s0[i]);
            assert(inner[s0.len() as int] == '"');
            lemma_run_len_is(inner, not_quote(), s0.len());
            assert(run_len(s.drop_first(), not_quote()) == s0.len());
            assert(1 + s0.len() < s.len());
            assert(s.subrange(1, 1 + s0.len() as int) =~= s0);
            assert(lex_step(s) == LexStep::Tok(TokenV::Str(s0), s0.len() + 2));
        },
        TokenV::Number(n) => {
            lemma_dec_digits_val(n as nat);
            assert(forall|i: int| 0 <= i < r.len() ==> is_ident_char(r[i]));
            lemma_run_len_is(r, identp(), r.len());
            lemma_run_len_prefix_all(r, rest, identp());
            lemma_run_len_is(r, digitp(), r.len());
            lemma_run_len_prefix_all(r, rest, digitp());
            assert(!(s.len() >= 3 && s[0] == '0' && s[1] == 'x' && is_hex_digit(s[2])));
            assert(!(s.len() >= 3 && s[0] == '0' && s[1] == 'b' && is_bin_digit(s[2])));
            assert(num_match_len(s) == r.len());
            assert(s.subrange(0, r.len() as int) =~= r);
            assert(num_match_val(s) == dec_val(r));
            assert(lex_step(s) == LexStep::Tok(TokenV::Number(n), r.len()));
        },
        TokenV::Bool(b) => {
            assert(forall|i: int| 0 <= i < r.len() ==> is_ident_char(r[i]));
            lemma_run_len_is(r, identp(), r.len());
            lemma_run_len_prefix_all(r, rest, identp());
            assert(num_match_len(s) == 0);
            assert(s.subrange(0, r.len() as int) =~= r);
            assert(word_token(r) == TokenV::Bool(b));
        },
        TokenV::Fn => {
            assert(forall|i: int| 0 <= i < r.len() ==> is_ident_char(r[i]));
            lemma_run_len_is(r, identp(), r.len());
            lemma_run_len_prefix_all(r, rest, identp());
            assert(num_match_len(s) == 0);
            assert(s.subrange(0, r.len() as int) =~= r);
            assert(word_token(r) == TokenV::Fn);
        },
        TokenV::SetKw => {
            assert(forall|i: int| 0 <= i < r.len() ==> is_ident_char(r[i]));
            lemma_run_len_is(r, identp(), r.len());
            lemma_run_len_prefix_all(r, rest, identp());
            assert(num_match_len(s) == 0);
            assert(s.subrange(0, r.len() as int) =~= r);
            assert(word_token(r) == TokenV::SetKw);
        },
        _ => {
            assert(lex_step(s) == LexStep::Tok(t, r.len()));
        },
    }
}


/// Re-tokenizing the rendered source form of an accepted token sequence
/// yields the same token sequence: lexing is idempotent modulo formatting.
pub proof fn lemma_lex_render_roundtrip(ts: Seq<TokenV>)
    requires
        forall|i: int| 0 <= i < ts.len() ==> wf_token(#[trigger] ts[i]),
    ensures
        spec_lex(render_tokens(ts)) == Ok::<Seq<TokenV>, LexingError>(ts),
    decreases ts.len(),
{
    if ts.len() == 0 {
        assert(render_tokens(ts) =~= Seq::<char>::empty());
        assert(spec_lex(Seq::<char>::empty()) == Ok::<Seq<TokenV>, LexingError>(Seq::empty()));
        assert(ts =~= Seq::<TokenV>::empty());
    } else if ts.len() == 1 {
        let t = ts[0];
        let r = render_token(t);
        lemma_step_of_rendered(t, Seq::empty());
        assert(r + Seq::<char>::empty() =~= r);
        assert(render_tokens(ts) == r);
        assert(lex_step(r) == LexStep::Tok(t, r.len()));
        assert(r.skip(r.len() as int) =~= Seq::<char>::empty());
        assert(spec_lex(Seq::<char>::empty()) == Ok::<Seq<TokenV>, LexingError>(Seq::empty()));
        assert(seq![t] + Seq::<TokenV>::empty() =~= ts);
    } else {
        let t = ts[0];
        let r = render_token(t);
        let tail = render_tokens(ts.drop_first());
        let rest = seq![' '] + tail;
        lemma_step_of_rendered(t, rest);
        let s = r + rest;
        assert(render_tokens(ts) == r + seq![' '] + tail);
        assert(s =~= r + seq![' '] + tail);
        assert(lex_step(s) == LexStep::Tok(t, r.len()));
        assert(s.skip(r.len() as int) =~= rest);
        assert(rest[0] == ' ' && is_ws(' '));
        assert(lex_step(rest) == LexStep::Skip(1nat));
        assert(rest.skip(1) =~= tail);
        assert(forall|i: int|
            0 <= i < ts.drop_first().len() ==> wf_token(#[trigger] ts.drop_first()[i]));
        lemma_lex_render_roundtrip(ts.drop_first());
        assert(spec_lex(rest) == Ok::<Seq<TokenV>, LexingError>(ts.drop_first()));
        assert(spec_lex(s) == Ok::<Seq<TokenV>, LexingError>(seq![t] + ts.drop_first()));
        assert(seq![t] + ts.drop_first() =~= ts);
    }
}

} // verus!
