//! Character-stream tokenizer.
use vstd::prelude::*;

verus! {

/// Every kind of token. `Array`, `Dict`, `Call` and `Equality` are never
/// produced by the lexer.
#[derive(Clone, Copy, Debug, PartialEq, Eq, Structural)]
pub enum TokenType {
    Word,
    Number,
    String,
    Array,
    Dict,
    Func,
    Call,
    Var,
    If,
    Elif,
    Else,
    While,
    For,
    True,
    False,
    And,
    Or,
    Return,
    LeftParen,
    RightParen,
    LeftBrace,
    RightBrace,
    LeftBracket,
    RightBracket,
    Comma,
    Plus,
    Minus,
    Times,
    Divide,
    Modulo,
    Equal,
    Equality,
    LessThan,
    LessThanOrEqual,
    GreaterThan,
    GreaterThanOrEqual,
    Eof,
    Class,
    New,
    Range,
    Colon,
    Period,
}

/// A token: its kind and its text, held twice (`value` and `content` are equal
/// for every token the lexer makes).
#[derive(Debug)]
pub struct Token {
    pub kind: TokenType,
    pub value: String,
    pub content: String,
}

/// What a token stands for in contracts.
pub struct TokenModel {
    pub kind: TokenType,
    pub value: Seq<char>,
    pub content: Seq<char>,
}

impl View for Token {
    type V = TokenModel;

    open spec fn view(&self) -> TokenModel {
        TokenModel { kind: self.kind, value: self.value@, content: self.content@ }
    }
}

pub open spec fn token_views(ts: Seq<Token>) -> Seq<TokenModel> {
    ts.map_values(|t: Token| t@)
}

impl Token {
    pub fn new(kind: TokenType, value: String, content: String) -> (r: Token)
        ensures
            r.kind == kind,
            r.value == value,
            r.content == content,
    {
        Token { kind, value, content }
    }
}

/// A fatal lexical error, with the 0-based line on which it was detected.
#[derive(Clone, Copy, Debug, PartialEq, Eq, Structural)]
pub enum LexError {
    UnterminatedString { line: usize },
    UnexpectedCharacter { character: char, line: usize },
}

// ---------------------------------------------------------------------------
// Character classes

/// Whether a character has Unicode's Alphabetic property.
pub uninterp spec fn alphabetic(c: char) -> bool;

/// Whether a character is in one of Unicode's numeric general categories.
pub uninterp spec fn numeric(c: char) -> bool;

/// Relies on char::is_alphabetic: the Unicode Alphabetic property of `c`.
#[verifier::external_body]
fn is_alphabetic(c: char) -> (r: bool)
    ensures
        r == alphabetic(c),
{
    c.is_alphabetic()
}

/// Relies on char::is_numeric: whether `c` is in the Nd, Nl or No category.
#[verifier::external_body]
fn is_numeric(c: char) -> (r: bool)
    ensures
        r == numeric(c),
{
    c.is_numeric()
}

/// Relies on String::push: appends one character.
#[verifier::external_body]
fn push_char(s: &mut String, c: char)
    ensures
        final(s)@ == old(s)@.push(c),
{
    s.push(c)
}

// ---------------------------------------------------------------------------
// The lexical grammar

/// Number of line breaks in `s`.
pub open spec fn newlines(s: Seq<char>) -> nat
    decreases s.len(),
{
    if s.len() == 0 {
        0
    } else {
        newlines(s.drop_last()) + if s.last() == '\n' { 1nat } else { 0nat }
    }
}

/// The character at `i`, or NUL past either end.
pub open spec fn char_or_nul(s: Seq<char>, i: int) -> char {
    if 0 <= i < s.len() {
        s[i]
    } else {
        '\0'
    }
}

/// End of the run of alphabetic characters that starts at `i`.
pub open spec fn alpha_end(s: Seq<char>, i: int) -> int
    decreases s.len() - i,
{
    if 0 <= i < s.len() && alphabetic(s[i]) {
        alpha_end(s, i + 1)
    } else {
        i
    }
}

/// End of the run of numeric characters that starts at `i`.
pub open spec fn digits_end(s: Seq<char>, i: int) -> int
    decreases s.len() - i,
{
    if 0 <= i < s.len() && numeric(s[i]) {
        digits_end(s, i + 1)
    } else {
        i
    }
}

/// Position of the first `q` at or after `i`, or the length of `s`.
pub open spec fn quote_end(s: Seq<char>, i: int, q: char) -> int
    decreases s.len() - i,
{
    if 0 <= i < s.len() && s[i] != q {
        quote_end(s, i + 1, q)
    } else {
        i
    }
}

/// Position of the first line break at or after `i`, or the length of `s`.
pub open spec fn comment_end(s: Seq<char>, i: int) -> int
    decreases s.len() - i,
{
    if 0 <= i < s.len() && s[i] != '\n' {
        comment_end(s, i + 1)
    } else {
        i
    }
}

/// End of a number that starts at `i`: digits, then optionally a `.` and
/// digits, when at least one digit follows the `.`.
pub open spec fn number_end(s: Seq<char>, i: int) -> int {
    let j = digits_end(s, i);
    if j + 1 < s.len() && s[j] == '.' && numeric(s[j + 1]) {
        digits_end(s, j + 1)
    } else {
        j
    }
}

/// The reserved words, in lookup order.
pub open spec fn keyword_table() -> Seq<(Seq<char>, TokenType)> {
    seq![
        ("return"@, TokenType::Return),
        ("burn"@, TokenType::Var),
        ("for"@, TokenType::For),
        ("through"@, TokenType::Range),
        ("prepmatch"@, TokenType::Func),
        ("while"@, TokenType::While),
        ("lightertype"@, TokenType::Class),
        ("pullout"@, TokenType::New),
        ("if"@, TokenType::If),
        ("elif"@, TokenType::Elif),
        ("else"@, TokenType::Else),
        ("True"@, TokenType::True),
        ("False"@, TokenType::False),
        ("and"@, TokenType::And),
        ("or"@, TokenType::Or),
    ]
}

/// The kind paired with `w` by the first entry of `table` that holds it.
pub open spec fn lookup_kind(table: Seq<(Seq<char>, TokenType)>, w: Seq<char>) -> Option<TokenType>
    decreases table.len(),
{
    if table.len() == 0 {
        None
    } else if table[0].0 == w {
        Some(table[0].1)
    } else {
        lookup_kind(table.drop_first(), w)
    }
}

/// The kind of an identifier: its keyword kind, else `Word`.
pub open spec fn word_kind(w: Seq<char>) -> TokenType {
    match lookup_kind(keyword_table(), w) {
        Some(k) => k,
        None => TokenType::Word,
    }
}

/// The kind of a one-character punctuation or operator token.
pub open spec fn punct_kind(c: char) -> Option<TokenType> {
    if c == '(' {
        Some(TokenType::LeftParen)
    } else if c == ')' {
        Some(TokenType::RightParen)
    } else if c == '{' {
        Some(TokenType::LeftBrace)
    } else if c == '}' {
        Some(TokenType::RightBrace)
    } else if c == '[' {
        Some(TokenType::LeftBracket)
    } else if c == ']' {
        Some(TokenType::RightBracket)
    } else if c == ',' {
        Some(TokenType::Comma)
    } else if c == '+' {
        Some(TokenType::Plus)
    } else if c == '-' {
        Some(TokenType::Minus)
    } else if c == '*' {
        Some(TokenType::Times)
    } else if c == '/' {
        Some(TokenType::Divide)
    } else if c == '%' {
        Some(TokenType::Modulo)
    } else if c == ':' {
        Some(TokenType::Colon)
    } else if c == '.' {
        Some(TokenType::Period)
    } else {
        None
    }
}

pub open spec fn token_of(kind: TokenType, text: Seq<char>) -> TokenModel {
    TokenModel { kind, value: text, content: text }
}

pub open spec fn opt_seq(t: Option<TokenModel>) -> Seq<TokenModel> {
    match t {
        Some(t) => seq![t],
        None => seq![],
    }
}

/// One step of the lexer at position `i` of `s`: the token it emits, if any,
/// and the position after it; or the error.
/// A lone `=` is an assignment; `==` yields the `<=` token.
pub open spec fn scan_step(s: Seq<char>, i: int) -> Result<(Option<TokenModel>, int), LexError> {
    let c = s[i];
    let two = i + 1 < s.len() && s[i + 1] == '=';
    if punct_kind(c) is Some {
        Ok((Some(token_of(punct_kind(c)->0, seq![c])), i + 1))
    } else if c == '=' {
        if two {
            Ok((Some(token_of(TokenType::LessThanOrEqual, seq!['<', '='])), i + 2))
        } else {
            Ok((Some(token_of(TokenType::Equal, seq!['='])), i + 1))
        }
    } else if c == '<' {
        if two {
            Ok((Some(token_of(TokenType::LessThanOrEqual, seq!['<', '='])), i + 2))
        } else {
            Ok((Some(token_of(TokenType::LessThan, seq!['<'])), i + 1))
        }
    } else if c == '>' {
        if two {
            Ok((Some(token_of(TokenType::GreaterThanOrEqual, seq!['>', '='])), i + 2))
        } else {
            Ok((Some(token_of(TokenType::GreaterThan, seq!['>'])), i + 1))
        }
    } else if c == '"' || c == '\'' {
        let j = quote_end(s, i + 1, c);
        if j >= s.len() {
            Err(LexError::UnterminatedString { line: newlines(s) as usize })
        } else {
            Ok((Some(token_of(TokenType::String, s.subrange(i + 1, j))), j + 1))
        }
    } else if c == '#' {
        Ok((None, comment_end(s, i + 1)))
    } else if c == '\n' || c == ' ' || c == '\t' {
        Ok((None, i + 1))
    } else if alphabetic(c) {
        let j = alpha_end(s, i);
        Ok((Some(token_of(word_kind(s.subrange(i, j)), s.subrange(i, j))), j))
    } else if numeric(c) {
        let j = number_end(s, i);
        Ok((Some(token_of(TokenType::Number, s.subrange(i, j))), j))
    } else {
        Err(LexError::UnexpectedCharacter { character: c, line: newlines(s.take(i)) as usize })
    }
}

/// The tokens of `s` from position `i` on, ending in one `Eof` token.
pub open spec fn lex_from(s: Seq<char>, i: int) -> Result<Seq<TokenModel>, LexError>
    decreases s.len() - i,
{
    if i < 0 || i >= s.len() {
        Ok(seq![token_of(TokenType::Eof, seq![])])
    } else {
        match scan_step(s, i) {
            Err(e) => Err(e),
            Ok((t, j)) => if i < j <= s.len() {
                match lex_from(s, j) {
                    Ok(rest) => Ok(opt_seq(t) + rest),
                    Err(e) => Err(e),
                }
            } else {
                Ok(seq![])
            },
        }
    }
}

/// The token sequence of a whole source text.
pub open spec fn lex(s: Seq<char>) -> Result<Seq<TokenModel>, LexError> {
    lex_from(s, 0)
}

// ---------------------------------------------------------------------------
// Lemmas

proof fn lemma_newlines_step(s: Seq<char>, i: int)
    requires
        0 <= i < s.len(),
    ensures
        newlines(s.take(i + 1)) == newlines(s.take(i)) + if s[i] == '\n' { 1nat } else { 0nat },
{
    assert(s.take(i + 1).drop_last() =~= s.take(i));
}

proof fn lemma_newlines_bound(s: Seq<char>)
    ensures
        newlines(s) <= s.len(),
    decreases s.len(),
{
    if s.len() > 0 {
        lemma_newlines_bound(s.drop_last());
    }
}

/// Each step of the lexer moves forward.
pub proof fn lemma_step_advances(s: Seq<char>, i: int)
    requires
        0 <= i < s.len(),
    ensures
        scan_step(s, i) matches Ok((_, j)) ==> i < j <= s.len(),
{
    lemma_alpha_end(s, i + 1);
    lemma_digits_end(s, i + 1);
    let j = digits_end(s, i);
    if j + 1 < s.len() {
        lemma_digits_end(s, j + 1);
    }
    lemma_quote_end(s, i + 1, s[i]);
    lemma_comment_end(s, i + 1);
}

proof fn lemma_alpha_end(s: Seq<char>, i: int)
    requires
        0 <= i <= s.len(),
    ensures
        i <= alpha_end(s, i) <= s.len(),
    decreases s.len() - i,
{
    if i < s.len() && alphabetic(s[i]) {
        lemma_alpha_end(s, i + 1);
    }
}

proof fn lemma_digits_end(s: Seq<char>, i: int)
    requires
        0 <= i <= s.len(),
    ensures
        i <= digits_end(s, i) <= s.len(),
    decreases s.len() - i,
{
    if i < s.len() && numeric(s[i]) {
        lemma_digits_end(s, i + 1);
    }
}

proof fn lemma_quote_end(s: Seq<char>, i: int, q: char)
    requires
        0 <= i <= s.len(),
    ensures
        i <= quote_end(s, i, q) <= s.len(),
    decreases s.len() - i,
{
    if i < s.len() && s[i] != q {
        lemma_quote_end(s, i + 1, q);
    }
}

proof fn lemma_comment_end(s: Seq<char>, i: int)
    requires
        0 <= i <= s.len(),
    ensures
        i <= comment_end(s, i) <= s.len(),
    decreases s.len() - i,
{
    if i < s.len() && s[i] != '\n' {
        lemma_comment_end(s, i + 1);
    }
}

// ---------------------------------------------------------------------------
// The lexer

pub open spec fn keyword_views(t: Seq<(String, TokenType)>) -> Seq<(Seq<char>, TokenType)> {
    t.map_values(|e: (String, TokenType)| (e.0@, e.1))
}

/// The table of reserved words and the token kind of each.
pub fn keywords() -> (r: Vec<(String, TokenType)>)
    ensures
        keyword_views(r@) == keyword_table(),
{
    let mut t: Vec<(String, TokenType)> = Vec::new();
    t.push((String::from_str("return"), TokenType::Return));
    t.push((String::from_str("burn"), TokenType::Var));
    t.push((String::from_str("for"), TokenType::For));
    t.push((String::from_str("through"), TokenType::Range));
    t.push((String::from_str("prepmatch"), TokenType::Func));
    t.push((String::from_str("while"), TokenType::While));
    t.push((String::from_str("lightertype"), TokenType::Class));
    t.push((String::from_str("pullout"), TokenType::New));
    t.push((String::from_str("if"), TokenType::If));
    t.push((String::from_str("elif"), TokenType::Elif));
    t.push((String::from_str("else"), TokenType::Else));
    t.push((String::from_str("True"), TokenType::True));
    t.push((String::from_str("False"), TokenType::False));
    t.push((String::from_str("and"), TokenType::And));
    t.push((String::from_str("or"), TokenType::Or));
    assert(keyword_views(t@) =~= keyword_table());
    t
}

/// Looks `w` up in a keyword table.
fn find_keyword(table: &Vec<(String, TokenType)>, w: &String) -> (r: Option<TokenType>)
    ensures
        r == lookup_kind(keyword_views(table@), w@),
{
    let mut i: usize = 0;
    assert(keyword_views(table@).subrange(0, table.len() as int) =~= keyword_views(table@));
    while i < table.len()
        invariant
            i <= table.len(),
            lookup_kind(keyword_views(table@), w@) == lookup_kind(
                keyword_views(table@).subrange(i as int, table.len() as int),
                w@,
            ),
        decreases table.len() - i,
    {
        let ghost rest = keyword_views(table@).subrange(i as int, table.len() as int);
        assert(rest.drop_first() =~= keyword_views(table@).subrange(i + 1, table.len() as int));
        if table[i].0 == *w {
            return Some(table[i].1);
        }
        i = i + 1;
    }
    None
}

/// The characters `from..to` of `s` as a string.
fn slice_text(s: &Vec<char>, from: usize, to: usize) -> (r: String)
    requires
        from <= to <= s.len(),
    ensures
        r@ == s@.subrange(from as int, to as int),
{
    let mut r = String::new();
    let mut i: usize = from;
    while i < to
        invariant
            from <= i <= to <= s.len(),
            r@ == s@.subrange(from as int, i as int),
        decreases to - i,
    {
        push_char(&mut r, s[i]);
        i = i + 1;
        assert(r@ =~= s@.subrange(from as int, i as int));
    }
    r
}

/// The characters of a string, in order.
pub(crate) fn to_chars(s: &String) -> (r: Vec<char>)
    ensures
        r@ == s@,
{
    let mut out: Vec<char> = Vec::new();
    for c in it: s.chars()
        invariant
            out@ == it.seq().take(it.index() as int),
            it.seq() == s@,
    {
        out.push(c);
    }
    assert(out@ =~= s@);
    out
}

/// A single forward cursor over the characters of a source text, with the
/// tokens emitted so far and the current (0-based) line.
pub struct Lexer {
    source: Vec<char>,
    pub tokens: Vec<Token>,
    current: usize,
    line: usize,
    keywords: Vec<(String, TokenType)>,
}

impl Lexer {
    /// The source text.
    pub closed spec fn chars(&self) -> Seq<char> {
        self.source@
    }

    /// The cursor, as an index into `chars()`.
    pub closed spec fn position(&self) -> int {
        self.current as int
    }

    /// The tokens emitted so far.
    pub closed spec fn emitted(&self) -> Seq<Token> {
        self.tokens@
    }

    /// The line counter.
    pub closed spec fn line_number(&self) -> int {
        self.line as int
    }

    /// The cursor is within the source and the keyword table is the reserved words.
    pub closed spec fn wf(&self) -> bool {
        &&& self.current <= self.source.len()
        &&& keyword_views(self.keywords@) == keyword_table()
    }

    /// The line counter is the number of line breaks before the cursor.
    pub closed spec fn lines_tracked(&self) -> bool {
        self.line as int == newlines(self.source@.take(self.current as int))
    }

    pub fn new(source: String) -> (r: Lexer)
        ensures
            r.wf(),
            r.lines_tracked(),
            r.chars() == source@,
            r.position() == 0,
            r.line_number() == 0,
            r.emitted() == Seq::<Token>::empty(),
    {
        let chars = to_chars(&source);
        let r = Lexer { source: chars, tokens: Vec::new(), current: 0, line: 0, keywords: keywords() };
        assert(r.source@.take(0) =~= Seq::<char>::empty());
        r
    }

    /// The character under the cursor, or NUL at the end.
    pub fn peek(&self) -> (r: char)
        requires
            self.wf(),
        ensures
            r == char_or_nul(self.chars(), self.position()),
    {
        if self.current >= self.source.len() {
            return '\0';
        }
        self.source[self.current]
    }

    /// The character after the one under the cursor, or NUL past the end.
    pub fn peek_next(&self) -> (r: char)
        requires
            self.wf(),
        ensures
            r == char_or_nul(self.chars(), self.position() + 1),
    {
        if self.current >= self.source.len() || self.current + 1 >= self.source.len() {
            return '\0';
        }
        self.source[self.current + 1]
    }

    /// Returns the character under the cursor and moves past it; at the end,
    /// returns NUL and stays.
    pub fn advance(&mut self) -> (r: char)
        requires
            old(self).wf(),
        ensures
            final(self).wf(),
            r == char_or_nul(old(self).chars(), old(self).position()),
            final(self).position() == if old(self).position() < old(self).chars().len() {
                old(self).position() + 1
            } else {
                old(self).position()
            },
            final(self).chars() == old(self).chars(),
            final(self).line_number() == old(self).line_number(),
            final(self).emitted() == old(self).emitted(),
    {
        if self.current >= self.source.len() {
            return '\0';
        }
        let res = self.peek();
        self.current = self.current + 1;
        res
    }

    /// Moves past the character under the cursor when it is `chr`.
    pub fn match_char(&mut self, chr: char) -> (r: bool)
        requires
            old(self).wf(),
        ensures
            final(self).wf(),
            r == (char_or_nul(old(self).chars(), old(self).position()) == chr),
            final(self).position() == if r && old(self).position() < old(self).chars().len() {
                old(self).position() + 1
            } else {
                old(self).position()
            },
            final(self).chars() == old(self).chars(),
            final(self).line_number() == old(self).line_number(),
            final(self).emitted() == old(self).emitted(),
    {
        if self.peek() == chr {
            self.advance();
            return true;
        }
        false
    }

    /// Appends a token.
    pub fn add_token(&mut self, kind: TokenType, value: String, content: String)
        ensures
            final(self).emitted() == old(self).emitted().push(Token { kind, value, content }),
            final(self).chars() == old(self).chars(),
            final(self).position() == old(self).position(),
            final(self).line_number() == old(self).line_number(),
            final(self).wf() == old(self).wf(),
            final(self).lines_tracked() == old(self).lines_tracked(),
    {
        self.tokens.push(Token::new(kind, value, content))
    }

    /// Moves past the character under the cursor, counting it if it is a line break.
    fn consume(&mut self)
        requires
            old(self).wf(),
            old(self).lines_tracked(),
            old(self).current < old(self).source.len(),
        ensures
            final(self).wf(),
            final(self).lines_tracked(),
            final(self).current == old(self).current + 1,
            final(self).source == old(self).source,
            final(self).tokens == old(self).tokens,
    {
        proof {
            lemma_newlines_step(self.source@, self.current as int);
            lemma_newlines_bound(self.source@.take(self.current as int));
        }
        if self.source[self.current] == '\n' {
            self.line = self.line + 1;
        }
        self.current = self.current + 1;
    }

    /// Appends a token whose text is the characters `from..current`.
    fn add_token_from(&mut self, kind: TokenType, from: usize)
        requires
            old(self).wf(),
            from <= old(self).current,
        ensures
            token_views(final(self).tokens@) == token_views(old(self).tokens@).push(
                token_of(kind, old(self).source@.subrange(from as int, old(self).current as int)),
            ),
            final(self).chars() == old(self).chars(),
            final(self).position() == old(self).position(),
            final(self).line_number() == old(self).line_number(),
            final(self).wf(),
            final(self).lines_tracked() == old(self).lines_tracked(),
    {
        let text = slice_text(&self.source, from, self.current);
        let copy = text.clone();
        self.add_token(kind, copy, text);
        assert(token_views(old(self).tokens@.push(self.tokens@.last())) =~= token_views(old(self).tokens@).push(self.tokens@.last()@));
        assert(token_views(self.tokens@) =~= token_views(old(self).tokens@).push(
            token_of(kind, old(self).source@.subrange(from as int, old(self).current as int)),
        ));
    }
}


/// The kind of a one-character punctuation or operator token.
fn punct_token(c: char) -> (r: Option<TokenType>)
    ensures
        r == punct_kind(c),
{
    match c {
        '(' => Some(TokenType::LeftParen),
        ')' => Some(TokenType::RightParen),
        '{' => Some(TokenType::LeftBrace),
        '}' => Some(TokenType::RightBrace),
        '[' => Some(TokenType::LeftBracket),
        ']' => Some(TokenType::RightBracket),
        ',' => Some(TokenType::Comma),
        '+' => Some(TokenType::Plus),
        '-' => Some(TokenType::Minus),
        '*' => Some(TokenType::Times),
        '/' => Some(TokenType::Divide),
        '%' => Some(TokenType::Modulo),
        ':' => Some(TokenType::Colon),
        '.' => Some(TokenType::Period),
        _ => None,
    }
}

/// What one step of the lexer from position `start` does to `old`, giving
/// `new` and the outcome `r`.
pub open spec fn push_opt(ts: Seq<TokenModel>, t: Option<TokenModel>) -> Seq<TokenModel> {
    match t {
        Some(t) => ts.push(t),
        None => ts,
    }
}

pub open spec fn step_result(old: Lexer, new: Lexer, start: int, r: Result<(), LexError>) -> bool {
    match scan_step(old.chars(), start) {
        Ok((t, j)) => {
            &&& r is Ok
            &&& new.wf()
            &&& new.lines_tracked()
            &&& new.chars() == old.chars()
            &&& new.position() == j
            &&& token_views(new.emitted()) == push_opt(token_views(old.emitted()), t)
        },
        Err(e) => r == Err::<(), LexError>(e),
    }
}

/// Reads a string literal whose opening quote is at `start`.
fn scan_string(lexer: &mut Lexer, quote: char, start: usize) -> (r: Result<(), LexError>)
    requires
        old(lexer).wf(),
        old(lexer).lines_tracked(),
        old(lexer).current == start + 1,
        start < old(lexer).source.len(),
    ensures
        ({
            let s = old(lexer).source@;
            let j = quote_end(s, start + 1, quote);
            if j >= s.len() {
                r == Err::<(), LexError>(LexError::UnterminatedString { line: newlines(s) as usize })
            } else {
                &&& r is Ok
                &&& final(lexer).wf()
                &&& final(lexer).lines_tracked()
                &&& final(lexer).source@ == s
                &&& final(lexer).current == j + 1
                &&& token_views(final(lexer).tokens@) == token_views(old(lexer).tokens@).push(
                    token_of(TokenType::String, s.subrange(start + 1, j)),
                )
            }
        }),
{
    let ghost s = lexer.source@;
    while lexer.current < lexer.source.len() && lexer.source[lexer.current] != quote
        invariant
            lexer.wf(),
            lexer.lines_tracked(),
            lexer.source@ == s,
            lexer.tokens == old(lexer).tokens,
            start + 1 <= lexer.current <= s.len(),
            quote_end(s, lexer.current as int, quote) == quote_end(s, start + 1, quote),
        decreases s.len() - lexer.current,
    {
        lexer.consume();
    }
    if lexer.current >= lexer.source.len() {
        assert(s.take(s.len() as int) =~= s);
        return Err(LexError::UnterminatedString { line: lexer.line });
    }
    lexer.add_token_from(TokenType::String, start + 1);
    lexer.consume();
    Ok(())
}

/// Skips a comment up to, not including, the end of its line.
fn skip_comment(lexer: &mut Lexer)
    requires
        old(lexer).wf(),
        old(lexer).lines_tracked(),
    ensures
        final(lexer).wf(),
        final(lexer).lines_tracked(),
        final(lexer).source == old(lexer).source,
        final(lexer).tokens == old(lexer).tokens,
        final(lexer).current == comment_end(old(lexer).source@, old(lexer).current as int),
{
    let ghost s = lexer.source@;
    let ghost start = lexer.current as int;
    while lexer.current < lexer.source.len() && lexer.source[lexer.current] != '\n'
        invariant
            lexer.wf(),
            lexer.lines_tracked(),
            lexer.source@ == s,
            lexer.source == old(lexer).source,
            lexer.tokens == old(lexer).tokens,
            start <= lexer.current <= s.len(),
            comment_end(s, lexer.current as int) == comment_end(s, start),
        decreases s.len() - lexer.current,
    {
        lexer.consume();
    }
}

/// Reads an identifier or keyword whose first letter is at `start`.
fn scan_identifier(lexer: &mut Lexer, start: usize)
    requires
        old(lexer).wf(),
        old(lexer).lines_tracked(),
        old(lexer).current == start + 1,
        start < old(lexer).source.len(),
        alphabetic(old(lexer).source@[start as int]),
    ensures
        ({
            let s = old(lexer).source@;
            let j = alpha_end(s, start as int);
            &&& final(lexer).wf()
            &&& final(lexer).lines_tracked()
            &&& final(lexer).source@ == s
            &&& final(lexer).current == j
            &&& token_views(final(lexer).tokens@) == token_views(old(lexer).tokens@).push(
                token_of(word_kind(s.subrange(start as int, j)), s.subrange(start as int, j)),
            )
        }),
{
    let ghost s = lexer.source@;
    while lexer.current < lexer.source.len() && is_alphabetic(lexer.source[lexer.current])
        invariant
            lexer.wf(),
            lexer.lines_tracked(),
            lexer.source@ == s,
            lexer.tokens == old(lexer).tokens,
            start + 1 <= lexer.current <= s.len(),
            alpha_end(s, lexer.current as int) == alpha_end(s, start as int),
        decreases s.len() - lexer.current,
    {
        lexer.consume();
    }
    let text = slice_text(&lexer.source, start, lexer.current);
    let kind = match find_keyword(&lexer.keywords, &text) {
        Some(k) => k,
        None => TokenType::Word,
    };
    lexer.add_token_from(kind, start);
}

/// Reads a number whose first digit is at `start`.
fn scan_number(lexer: &mut Lexer, start: usize)
    requires
        old(lexer).wf(),
        old(lexer).lines_tracked(),
        old(lexer).current == start + 1,
        start < old(lexer).source.len(),
        numeric(old(lexer).source@[start as int]),
    ensures
        ({
            let s = old(lexer).source@;
            let j = number_end(s, start as int);
            &&& final(lexer).wf()
            &&& final(lexer).lines_tracked()
            &&& final(lexer).source@ == s
            &&& final(lexer).current == j
            &&& token_views(final(lexer).tokens@) == token_views(old(lexer).tokens@).push(
                token_of(TokenType::Number, s.subrange(start as int, j)),
            )
        }),
{
    let ghost s = lexer.source@;
    while lexer.current < lexer.source.len() && is_numeric(lexer.source[lexer.current])
        invariant
            lexer.wf(),
            lexer.lines_tracked(),
            lexer.source@ == s,
            lexer.tokens == old(lexer).tokens,
            start + 1 <= lexer.current <= s.len(),
            digits_end(s, lexer.current as int) == digits_end(s, start as int),
        decreases s.len() - lexer.current,
    {
        lexer.consume();
    }
    let ghost mid = lexer.current as int;
    if lexer.current < lexer.source.len() && lexer.current + 1 < lexer.source.len() && lexer.peek() == '.' && is_numeric(lexer.peek_next()) {
        lexer.consume();
        while lexer.current < lexer.source.len() && is_numeric(lexer.source[lexer.current])
            invariant
                lexer.wf(),
                lexer.lines_tracked(),
                lexer.source@ == s,
                lexer.tokens == old(lexer).tokens,
                mid + 1 <= lexer.current <= s.len(),
                digits_end(s, lexer.current as int) == digits_end(s, mid + 1),
            decreases s.len() - lexer.current,
        {
            lexer.consume();
        }
    }
    lexer.add_token_from(TokenType::Number, start);
}

/// Reads one token, or skips blank space or a comment, at the cursor.
pub fn scan_token(lexer: &mut Lexer) -> (r: Result<(), LexError>)
    requires
        old(lexer).wf(),
        old(lexer).lines_tracked(),
        old(lexer).position() < old(lexer).chars().len(),
    ensures
        step_result(*old(lexer), *final(lexer), old(lexer).position(), r),
{
    let ghost s = lexer.source@;
    let start = lexer.current;
    let chr = lexer.source[start];
    proof {
        lemma_newlines_step(s, start as int);
    }
    lexer.consume();
    if let Some(kind) = punct_token(chr) {
        lexer.add_token_from(kind, start);
        assert(s.subrange(start as int, start + 1) =~= seq![chr]);
        return Ok(());
    }
    if chr == '=' || chr == '<' || chr == '>' {
        let two = lexer.current < lexer.source.len() && lexer.source[lexer.current] == '=';
        if two {
            lexer.consume();
        }
        if chr == '=' && two {
            let value = String::from_str("<=");
            let content = String::from_str("<=");
            proof {
                reveal_strlit("<=");
                assert(value@ =~= seq!['<', '=']);
            }
            lexer.add_token(TokenType::LessThanOrEqual, value, content);
            assert(token_views(lexer.tokens@) =~= token_views(old(lexer).tokens@.push(lexer.tokens@.last())));
            assert(token_views(lexer.tokens@) =~= token_views(old(lexer).tokens@).push(
                token_of(TokenType::LessThanOrEqual, seq!['<', '=']),
            ));
        } else {
            let kind = if chr == '=' {
                TokenType::Equal
            } else if chr == '<' {
                if two {
                    TokenType::LessThanOrEqual
                } else {
                    TokenType::LessThan
                }
            } else if two {
                TokenType::GreaterThanOrEqual
            } else {
                TokenType::GreaterThan
            };
            lexer.add_token_from(kind, start);
            assert(s.subrange(start as int, start + 1) =~= seq![chr]);
            assert(two ==> s.subrange(start as int, start + 2) =~= seq![chr, '=']);
        }
        return Ok(());
    }
    if chr == '"' || chr == '\'' {
        return scan_string(lexer, chr, start);
    }
    if chr == '#' {
        skip_comment(lexer);
        return Ok(());
    }
    if chr == '\n' || chr == ' ' || chr == '\t' {
        return Ok(());
    }
    if is_alphabetic(chr) {
        scan_identifier(lexer, start);
        return Ok(());
    }
    if is_numeric(chr) {
        scan_number(lexer, start);
        return Ok(());
    }
    Err(LexError::UnexpectedCharacter { character: chr, line: lexer.line })
}

pub open spec fn prepend(p: Seq<TokenModel>, r: Result<Seq<TokenModel>, LexError>) -> Result<
    Seq<TokenModel>,
    LexError,
> {
    match r {
        Ok(ts) => Ok(p + ts),
        Err(e) => Err(e),
    }
}

/// Runs the lexer to the end of the source, then appends the end-of-input token.
pub fn scan_tokens(lexer: &mut Lexer) -> (r: Result<(), LexError>)
    requires
        old(lexer).wf(),
        old(lexer).lines_tracked(),
    ensures
        match lex_from(old(lexer).chars(), old(lexer).position()) {
            Ok(ts) => {
                &&& r is Ok
                &&& token_views(final(lexer).emitted()) == token_views(old(lexer).emitted()) + ts
            },
            Err(e) => r == Err::<(), LexError>(e),
        },
{
    let ghost s = lexer.source@;
    let ghost goal = prepend(token_views(lexer.tokens@), lex_from(s, lexer.current as int));
    while lexer.current < lexer.source.len()
        invariant
            lexer.wf(),
            lexer.lines_tracked(),
            lexer.source@ == s,
            goal == prepend(token_views(lexer.tokens@), lex_from(s, lexer.current as int)),
            goal == prepend(token_views(old(lexer).tokens@), lex_from(s, old(lexer).current as int)),
            s == old(lexer).source@,
        decreases s.len() - lexer.current,
    {
        let ghost before = token_views(lexer.tokens@);
        let ghost cur = lexer.current as int;
        proof {
            lemma_step_advances(s, cur);
        }
        match scan_token(lexer) {
            Ok(()) => {},
            Err(e) => {
                assert(lex_from(s, cur) == Err::<Seq<TokenModel>, LexError>(e));
                return Err(e);
            },
        }
        proof {
            let t = scan_step(s, cur)->Ok_0.0;
            assert(push_opt(before, t) =~= before + opt_seq(t));
            match lex_from(s, lexer.current as int) {
                Ok(rest) => {
                    assert(before + (opt_seq(t) + rest) =~= (before + opt_seq(t)) + rest);
                },
                Err(_) => {},
            }
        }
    }
    let ghost before = token_views(lexer.tokens@);
    lexer.add_token(TokenType::Eof, String::new(), String::new());
    assert(token_views(lexer.tokens@) =~= before + seq![token_of(TokenType::Eof, seq![])]);
    Ok(())
}

/// The tokens of a whole source text, ending in one end-of-input token.
pub fn tokenize(source: String) -> (r: Result<Vec<Token>, LexError>)
    ensures
        match lex(source@) {
            Ok(ts) => match r {
                Ok(v) => token_views(v@) == ts,
                Err(_) => false,
            },
            Err(e) => r == Err::<Vec<Token>, LexError>(e),
        },
{
    let mut lexer = Lexer::new(source);
    match scan_tokens(&mut lexer) {
        Ok(()) => {
            assert(token_views(Seq::<Token>::empty()) =~= Seq::<TokenModel>::empty());
            proof {
                if let Ok(ts) = lex(lexer.source@) {
                    assert(Seq::<TokenModel>::empty() + ts =~= ts);
                }
            }
            Ok(lexer.tokens)
        },
        Err(e) => Err(e),
    }
}

/// Lexing is a function of the source text: equal texts give equal outcomes.
pub proof fn lemma_lex_deterministic(a: Seq<char>, b: Seq<char>)
    requires
        a == b,
    ensures
        lex(a) == lex(b),
{
}

} // verus!
