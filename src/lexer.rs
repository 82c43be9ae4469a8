use vstd::prelude::*;
use vstd::string::*;
use vstd::utf8::encode_utf8;

verus! {

/// A half-open range `[begin, end)` of byte offsets into the UTF-8 text of a
/// source line.
#[derive(Clone, Copy, Debug, PartialEq, Eq, Structural)]
pub struct Span {
    pub begin: usize,
    pub end: usize,
}

pub open spec fn min_usize(a: usize, b: usize) -> usize {
    if a <= b { a } else { b }
}

pub open spec fn max_usize(a: usize, b: usize) -> usize {
    if a >= b { a } else { b }
}

/// The text of `underline`: the source, a newline, `begin` spaces, one dash per
/// position of the span, then the message after `" << "` when there is one.
pub open spec fn underline_text(span: Span, s: Seq<char>, message: Option<Seq<char>>) -> Seq<char> {
    s + seq!['\n'] + Seq::new(span.begin as nat, |i: int| ' ') + Seq::new(
        (span.end - span.begin) as nat,
        |i: int| '-',
    ) + match message {
        Some(m) => seq![' ', '<', '<', ' '] + m,
        None => Seq::<char>::empty(),
    }
}

impl Span {
    pub fn new(begin: usize, end: usize) -> (r: Span)
        ensures
            r.begin == begin,
            r.end == end,
    {
        Span { begin, end }
    }

    /// The smallest span covering both `self` and `other`.
    pub fn up_to(&self, other: &Span) -> (r: Span)
        ensures
            r.begin == min_usize(self.begin, other.begin),
            r.end == max_usize(self.end, other.end),
    {
        let begin = if self.begin <= other.begin { self.begin } else { other.begin };
        let end = if self.end >= other.end { self.end } else { other.end };
        Span { begin, end }
    }

    pub fn underline(&self, s: &str, message: Option<&str>) -> (r: String)
        requires
            self.begin <= self.end,
        ensures
            r@ == underline_text(*self, s@, opt_view(message)),
    {
        proof {
            reveal_strlit("\n");
            reveal_strlit(" ");
            reveal_strlit("-");
            reveal_strlit(" << ");
        }
        let mut out = s.to_owned();
        out.append("\n");
        let ghost head = out@;
        let mut i: usize = 0;
        while i < self.begin
            invariant
                i <= self.begin,
                out@ == head + Seq::new(i as nat, |k: int| ' '),
            decreases self.begin - i,
        {
            proof {
                reveal_strlit(" ");
            }
            out.append(" ");
            i = i + 1;
            assert(out@ =~= head + Seq::new(i as nat, |k: int| ' '));
        }
        let ghost head2 = out@;
        let width = self.end - self.begin;
        let mut j: usize = 0;
        while j < width
            invariant
                j <= width,
                out@ == head2 + Seq::new(j as nat, |k: int| '-'),
            decreases width - j,
        {
            proof {
                reveal_strlit("-");
            }
            out.append("-");
            j = j + 1;
            assert(out@ =~= head2 + Seq::new(j as nat, |k: int| '-'));
        }
        if let Some(m) = message {
            out.append(" << ");
            out.append(m);
        }
        assert(out@ =~= underline_text(*self, s@, opt_view(message)));
        out
    }
}

/// The kind of a token, with the text of words and numerals.
#[derive(Debug)]
pub enum LexemeKind {
    Plus,
    Minus,
    Star,
    Slash,
    Karat,
    Comma,
    Word(String),
    Equals,
    OpenParen,
    CloseParen,
    /// A numeral as written: digits with at most one decimal point.
    Number(String),
}

/// What a token kind stands for, with texts as character sequences.
pub enum KindView {
    Plus,
    Minus,
    Star,
    Slash,
    Karat,
    Comma,
    Word(Seq<char>),
    Equals,
    OpenParen,
    CloseParen,
    Number(Seq<char>),
}

impl View for LexemeKind {
    type V = KindView;

    open spec fn view(&self) -> KindView {
        match self {
            LexemeKind::Plus => KindView::Plus,
            LexemeKind::Minus => KindView::Minus,
            LexemeKind::Star => KindView::Star,
            LexemeKind::Slash => KindView::Slash,
            LexemeKind::Karat => KindView::Karat,
            LexemeKind::Comma => KindView::Comma,
            LexemeKind::Word(w) => KindView::Word(w@),
            LexemeKind::Equals => KindView::Equals,
            LexemeKind::OpenParen => KindView::OpenParen,
            LexemeKind::CloseParen => KindView::CloseParen,
            LexemeKind::Number(n) => KindView::Number(n@),
        }
    }
}

#[derive(Debug)]
pub struct Lexeme {
    pub kind: LexemeKind,
    pub span: Span,
}

pub struct TokenView {
    pub kind: KindView,
    pub span: Span,
}

impl View for Lexeme {
    type V = TokenView;

    open spec fn view(&self) -> TokenView {
        TokenView { kind: self.kind@, span: self.span }
    }
}

pub open spec fn opt_view(m: Option<&str>) -> Option<Seq<char>> {
    match m {
        Some(t) => Some(t@),
        None => None,
    }
}

pub open spec fn scanned_view(r: Result<Option<Lexeme>, LexError>) -> Result<Option<TokenView>, LexError> {
    match r {
        Ok(Some(t)) => Ok(Some(t@)),
        Ok(None) => Ok(None),
        Err(e) => Err(e),
    }
}

pub open spec fn lexed_view(r: Result<Vec<Lexeme>, LexError>) -> Result<Seq<TokenView>, LexError> {
    match r {
        Ok(v) => Ok(views(v@)),
        Err(e) => Err(e),
    }
}

pub open spec fn views(v: Seq<Lexeme>) -> Seq<TokenView> {
    v.map_values(|l: Lexeme| l@)
}

impl LexemeKind {
    /// A copy of this kind.
    pub fn duplicate(&self) -> (r: LexemeKind)
        ensures
            r == *self,
    {
        match self {
            LexemeKind::Plus => LexemeKind::Plus,
            LexemeKind::Minus => LexemeKind::Minus,
            LexemeKind::Star => LexemeKind::Star,
            LexemeKind::Slash => LexemeKind::Slash,
            LexemeKind::Karat => LexemeKind::Karat,
            LexemeKind::Comma => LexemeKind::Comma,
            LexemeKind::Word(w) => LexemeKind::Word(w.clone()),
            LexemeKind::Equals => LexemeKind::Equals,
            LexemeKind::OpenParen => LexemeKind::OpenParen,
            LexemeKind::CloseParen => LexemeKind::CloseParen,
            LexemeKind::Number(n) => LexemeKind::Number(n.clone()),
        }
    }
}

impl Lexeme {
    pub fn new(kind: LexemeKind, span: Span) -> (r: Lexeme)
        ensures
            r.kind == kind,
            r.span == span,
    {
        Lexeme { kind, span }
    }

    /// A copy of this token.
    pub fn duplicate(&self) -> (r: Lexeme)
        ensures
            r == *self,
    {
        Lexeme { kind: self.kind.duplicate(), span: self.span }
    }
}

/// Why a line could not be split into tokens.
#[derive(Clone, Copy, Debug, PartialEq, Eq, Structural)]
pub enum LexError {
    /// A character that starts no token.
    UnrecognizedCharacter(Span),
    /// A decimal point that no digit follows; the span runs up to the point.
    MalformedNumber(Span),
}

/// Whitespace as Unicode defines it: the characters that `char::is_whitespace`
/// accepts.
pub open spec fn is_space(c: char) -> bool {
    ('\t' <= c <= '\r') || c == ' ' || c == '\u{85}' || c == '\u{A0}' || c == '\u{1680}' || ('\u{2000}'
        <= c <= '\u{200A}') || c == '\u{2028}' || c == '\u{2029}' || c == '\u{202F}' || c == '\u{205F}'
        || c == '\u{3000}'
}

/// How many bytes the UTF-8 encoding of a character takes.
pub open spec fn char_width(c: char) -> int {
    if (c as u32) <= 0x7F {
        1
    } else if (c as u32) <= 0x7FF {
        2
    } else if (c as u32) <= 0xFFFF {
        3
    } else {
        4
    }
}

/// The byte offset, in UTF-8, of character position `p`: the length of the
/// encoding of the text before it (`lemma_byte_offset_is_utf8`).
pub open spec fn byte_offset(s: Seq<char>, p: int) -> int
    decreases p,
{
    if p <= 0 {
        0
    } else {
        byte_offset(s, p - 1) + char_width(s[p - 1])
    }
}

/// The length of a text in UTF-8 bytes.
pub open spec fn utf8_len(s: Seq<char>) -> int {
    byte_offset(s, s.len() as int)
}

pub open spec fn is_digit(c: char) -> bool {
    '0' <= c <= '9'
}

pub open spec fn is_letter(c: char) -> bool {
    ('a' <= c <= 'z') || ('A' <= c <= 'Z')
}

/// The first position at or after `i` that holds no whitespace.
pub open spec fn skip_spaces(s: Seq<char>, i: int) -> int
    decreases s.len() - i,
{
    if 0 <= i < s.len() && is_space(s[i]) {
        skip_spaces(s, i + 1)
    } else {
        i
    }
}

/// The end of the run of letters that starts at `i`.
pub open spec fn letters_end(s: Seq<char>, i: int) -> int
    decreases s.len() - i,
{
    if 0 <= i < s.len() && is_letter(s[i]) {
        letters_end(s, i + 1)
    } else {
        i
    }
}

/// The end of the run of digits that starts at `i`.
pub open spec fn digits_end(s: Seq<char>, i: int) -> int
    decreases s.len() - i,
{
    if 0 <= i < s.len() && is_digit(s[i]) {
        digits_end(s, i + 1)
    } else {
        i
    }
}

/// The kind of a one-character token.
pub open spec fn symbol_kind(c: char) -> Option<KindView> {
    if c == '(' {
        Some(KindView::OpenParen)
    } else if c == ')' {
        Some(KindView::CloseParen)
    } else if c == '*' {
        Some(KindView::Star)
    } else if c == '+' {
        Some(KindView::Plus)
    } else if c == '-' {
        Some(KindView::Minus)
    } else if c == '^' {
        Some(KindView::Karat)
    } else if c == '/' {
        Some(KindView::Slash)
    } else if c == ',' {
        Some(KindView::Comma)
    } else if c == '=' {
        Some(KindView::Equals)
    } else {
        None
    }
}

proof fn lemma_encode_push(a: Seq<char>, c: char)
    ensures
        encode_utf8(a.push(c)).len() == encode_utf8(a).len() + char_width(c),
    decreases a.len(),
{
    broadcast use vstd::utf8::char_is_scalar;
    assert(vstd::utf8::is_scalar(c as u32));
    assert(vstd::utf8::encode_scalar(c as u32).len() == char_width(c));
    if a.len() == 0 {
        assert(a.push(c).drop_first() =~= Seq::<char>::empty());
        assert(encode_utf8(Seq::<char>::empty()).len() == 0);
        assert(a.push(c)[0] == c);
    } else {
        assert(a.push(c).drop_first() =~= a.drop_first().push(c));
        assert(a.push(c)[0] == a[0]);
        lemma_encode_push(a.drop_first(), c);
    }
}

/// `byte_offset` is the length of the UTF-8 encoding of the text before the
/// position.
pub proof fn lemma_byte_offset_is_utf8(s: Seq<char>, p: int)
    requires
        0 <= p <= s.len(),
    ensures
        byte_offset(s, p) == encode_utf8(s.subrange(0, p)).len(),
    decreases p,
{
    if p == 0 {
        assert(s.subrange(0, 0) =~= Seq::<char>::empty());
    } else {
        lemma_byte_offset_is_utf8(s, p - 1);
        assert(s.subrange(0, p) =~= s.subrange(0, p - 1).push(s[p - 1]));
        lemma_encode_push(s.subrange(0, p - 1), s[p - 1]);
    }
}

/// The span of the characters `b..e`, in bytes.
pub open spec fn mk_span(s: Seq<char>, b: int, e: int) -> Span {
    Span { begin: byte_offset(s, b) as usize, end: byte_offset(s, e) as usize }
}

/// Where the token that starts at position `p` ends, or where an error is found.
pub open spec fn token_end(s: Seq<char>, p: int) -> int {
    let c = s[p];
    if is_digit(c) {
        let e = digits_end(s, p);
        if e < s.len() && s[e] == '.' {
            if e + 1 < s.len() && is_digit(s[e + 1]) {
                digits_end(s, e + 1)
            } else {
                e + 1
            }
        } else {
            e
        }
    } else if is_letter(c) {
        letters_end(s, p)
    } else {
        p + 1
    }
}

/// The token that starts at position `p`, which holds no whitespace.
pub open spec fn token_at(s: Seq<char>, p: int) -> Result<TokenView, LexError> {
    let c = s[p];
    let e = token_end(s, p);
    if symbol_kind(c) is Some {
        Ok(TokenView { kind: symbol_kind(c)->0, span: mk_span(s, p, e) })
    } else if is_digit(c) {
        let d = digits_end(s, p);
        if d < s.len() && s[d] == '.' && !(d + 1 < s.len() && is_digit(s[d + 1])) {
            Err(LexError::MalformedNumber(mk_span(s, p, e)))
        } else {
            Ok(TokenView { kind: KindView::Number(s.subrange(p, e)), span: mk_span(s, p, e) })
        }
    } else if is_letter(c) {
        Ok(TokenView { kind: KindView::Word(s.subrange(p, e)), span: mk_span(s, p, e) })
    } else {
        Err(LexError::UnrecognizedCharacter(mk_span(s, p, e)))
    }
}

/// The next token at or after position `cur`: none when only whitespace is left.
pub open spec fn scan(s: Seq<char>, cur: int) -> Result<Option<TokenView>, LexError> {
    let p = skip_spaces(s, cur);
    if p >= s.len() {
        Ok(None)
    } else {
        match token_at(s, p) {
            Ok(t) => Ok(Some(t)),
            Err(e) => Err(e),
        }
    }
}

/// The position after the token that `scan` finds from `cur`.
pub open spec fn scan_end(s: Seq<char>, cur: int) -> int {
    token_end(s, skip_spaces(s, cur))
}

pub proof fn lemma_skip_spaces(s: Seq<char>, i: int)
    requires
        0 <= i,
    ensures
        i <= skip_spaces(s, i),
        i <= s.len() ==> skip_spaces(s, i) <= s.len(),
        skip_spaces(s, i) < s.len() ==> !is_space(s[skip_spaces(s, i)]),
    decreases s.len() - i,
{
    if 0 <= i < s.len() && is_space(s[i]) {
        lemma_skip_spaces(s, i + 1);
    }
}

pub proof fn lemma_runs(s: Seq<char>, i: int)
    requires
        0 <= i <= s.len(),
    ensures
        i <= digits_end(s, i) <= s.len(),
        i <= letters_end(s, i) <= s.len(),
        forall|k: int| i <= k < digits_end(s, i) ==> is_digit(#[trigger] s[k]),
        forall|k: int| i <= k < letters_end(s, i) ==> is_letter(#[trigger] s[k]),
    decreases s.len() - i,
{
    if i < s.len() {
        lemma_runs(s, i + 1);
    }
}

/// A token ends past the position it starts at, and within the line.
pub proof fn lemma_token_end(s: Seq<char>, p: int)
    requires
        0 <= p < s.len(),
    ensures
        p < token_end(s, p) <= s.len(),
{
    lemma_runs(s, p);
    lemma_runs(s, p + 1);
    let d = digits_end(s, p);
    if is_digit(s[p]) && d < s.len() && s[d] == '.' && d + 1 < s.len() {
        lemma_runs(s, d + 1);
    }
}

/// All tokens from position `cur` on, or the first error.
pub open spec fn tokens_from(s: Seq<char>, cur: nat) -> Result<Seq<TokenView>, LexError>
    decreases s.len() - cur,
{
    match scan(s, cur as int) {
        Err(e) => Err(e),
        Ok(None) => Ok(Seq::empty()),
        Ok(Some(t)) => {
            proof {
                lemma_skip_spaces(s, cur as int);
                lemma_token_end(s, skip_spaces(s, cur as int));
            }
            match tokens_from(s, scan_end(s, cur as int) as nat) {
                Ok(rest) => Ok(seq![t] + rest),
                Err(e) => Err(e),
            }
        },
    }
}

/// The tokens of a whole line, or the first error.
pub open spec fn tokenize(s: Seq<char>) -> Result<Seq<TokenView>, LexError> {
    tokens_from(s, 0)
}


fn is_space_char(c: char) -> (r: bool)
    ensures
        r == is_space(c),
{
    ('\t' <= c && c <= '\r') || c == ' ' || c == '\u{85}' || c == '\u{A0}' || c == '\u{1680}' || ('\u{2000}'
        <= c && c <= '\u{200A}') || c == '\u{2028}' || c == '\u{2029}' || c == '\u{202F}' || c == '\u{205F}'
        || c == '\u{3000}'
}

fn width_of(c: char) -> (r: usize)
    ensures
        r == char_width(c),
{
    let u = c as u32;
    if u <= 0x7F {
        1
    } else if u <= 0x7FF {
        2
    } else if u <= 0xFFFF {
        3
    } else {
        4
    }
}

proof fn lemma_offset_mono(s: Seq<char>, i: int, j: int)
    requires
        0 <= i <= j,
    ensures
        byte_offset(s, i) <= byte_offset(s, j),
    decreases j - i,
{
    if i < j {
        lemma_offset_mono(s, i, j - 1);
    }
}

/// A character takes at least one byte.
proof fn lemma_offset_ge(s: Seq<char>, p: int)
    requires
        0 <= p,
    ensures
        p <= byte_offset(s, p),
    decreases p,
{
    if p > 0 {
        lemma_offset_ge(s, p - 1);
    }
}

/// Over ASCII characters byte offsets grow one by one.
pub(crate) proof fn lemma_ascii_offsets(s: Seq<char>, p: int, e: int)
    requires
        0 <= p <= e,
        forall|k: int| p <= k < e ==> (#[trigger] s[k] as u32) <= 0x7F,
    ensures
        byte_offset(s, e) == byte_offset(s, p) + (e - p),
    decreases e - p,
{
    if p < e {
        lemma_ascii_offsets(s, p, e - 1);
    }
}

fn is_digit_char(c: char) -> (r: bool)
    ensures
        r == is_digit(c),
{
    '0' <= c && c <= '9'
}

fn is_letter_char(c: char) -> (r: bool)
    ensures
        r == is_letter(c),
{
    ('a' <= c && c <= 'z') || ('A' <= c && c <= 'Z')
}

fn symbol(c: char) -> (r: Option<LexemeKind>)
    ensures
        (match r { Some(k) => Some(k@), None => None }) == symbol_kind(c),
{
    if c == '(' {
        Some(LexemeKind::OpenParen)
    } else if c == ')' {
        Some(LexemeKind::CloseParen)
    } else if c == '*' {
        Some(LexemeKind::Star)
    } else if c == '+' {
        Some(LexemeKind::Plus)
    } else if c == '-' {
        Some(LexemeKind::Minus)
    } else if c == '^' {
        Some(LexemeKind::Karat)
    } else if c == '/' {
        Some(LexemeKind::Slash)
    } else if c == ',' {
        Some(LexemeKind::Comma)
    } else if c == '=' {
        Some(LexemeKind::Equals)
    } else {
        None
    }
}

fn in_run(c: char, letters: bool) -> (r: bool)
    ensures
        r == if letters { is_letter(c) } else { is_digit(c) },
{
    if letters {
        is_letter_char(c)
    } else {
        is_digit_char(c)
    }
}

/// The end of the run of characters from `i` on that `letters` (else digits) selects.
fn run_end(s: &str, n: usize, i: usize, letters: bool) -> (r: usize)
    requires
        n == s@.len(),
        i <= n,
    ensures
        i < n && (if letters { is_letter(s@[i as int]) } else { is_digit(s@[i as int]) }) ==> r > i,
        letters ==> r == letters_end(s@, i as int),
        !letters ==> r == digits_end(s@, i as int),
        i <= r <= n,
{
    let mut j = i;
    while j < n && in_run(s.get_char(j), letters)
        invariant
            i <= j <= n,
            n == s@.len(),
            letters ==> letters_end(s@, i as int) == letters_end(s@, j as int),
            !letters ==> digits_end(s@, i as int) == digits_end(s@, j as int),
        decreases n - j,
    {
        j = j + 1;
    }
    j
}

/// Where the token that starts at position `p` ends.
fn token_end_exec(s: &str, n: usize, p: usize) -> (r: usize)
    requires
        n == s@.len(),
        p < n,
    ensures
        r == token_end(s@, p as int),
{
    let c = s.get_char(p);
    if is_digit_char(c) {
        let d = run_end(s, n, p, false);
        if d < n && s.get_char(d) == '.' {
            if d + 1 < n && is_digit_char(s.get_char(d + 1)) {
                run_end(s, n, d + 1, false)
            } else {
                d + 1
            }
        } else {
            d
        }
    } else if is_letter_char(c) {
        run_end(s, n, p, true)
    } else {
        p + 1
    }
}

/// A token other than an unrecognised character is ASCII throughout.
proof fn lemma_token_ascii(s: Seq<char>, p: int)
    requires
        0 <= p < s.len(),
        token_at(s, p) is Ok || token_at(s, p) matches Err(LexError::MalformedNumber(_)),
    ensures
        forall|k: int| p <= k < token_end(s, p) ==> (#[trigger] s[k] as u32) <= 0x7F,
{
    lemma_runs(s, p);
    let d = digits_end(s, p);
    if is_digit(s[p]) && d < s.len() && s[d] == '.' && d + 1 < s.len() {
        lemma_runs(s, d + 1);
    }
}

/// Splits a line into tokens, one at a time.
pub struct Lexer {
    input: String,
    cursor: usize,
    offset: usize,
}

impl Lexer {
    /// The line being split.
    pub closed spec fn text(&self) -> Seq<char> {
        self.input@
    }

    /// The character position from which the next token is looked for.
    pub closed spec fn position(&self) -> nat {
        self.cursor as nat
    }

    pub closed spec fn wf(&self) -> bool {
        &&& self.cursor <= self.input@.len()
        &&& self.offset == byte_offset(self.input@, self.cursor as int)
        &&& utf8_len(self.input@) <= usize::MAX
    }

    /// A lexer at the start of a line, whose length in bytes fits in `usize`.
    pub fn new(input: String) -> (r: Lexer)
        requires
            utf8_len(input@) <= usize::MAX,
        ensures
            r.wf(),
            r.text() == input@,
            r.position() == 0,
    {
        Lexer { input, cursor: 0, offset: 0 }
    }

    /// The span of the next `n` characters, which are ASCII, and a step past them.
    fn next_span(&mut self, n: usize) -> (r: Span)
        requires
            old(self).wf(),
            old(self).cursor + n <= old(self).input@.len(),
            forall|k: int| old(self).cursor <= k < old(self).cursor + n ==> (#[trigger] old(self).input@[k] as u32) <= 0x7F,
        ensures
            r == mk_span(old(self).input@, old(self).cursor as int, old(self).cursor + n),
            final(self).wf(),
            final(self).cursor == old(self).cursor + n,
            final(self).input == old(self).input,
    {
        proof {
            lemma_ascii_offsets(self.input@, self.cursor as int, self.cursor + n);
            lemma_offset_ge(self.input@, self.cursor + n);
            lemma_offset_mono(self.input@, self.cursor + n, self.input@.len() as int);
        }
        let p = self.offset;
        self.cursor = self.cursor + n;
        self.offset = self.offset + n;
        Span::new(p, self.offset)
    }

    /// The next token; `None` once only whitespace is left. On a token the
    /// position moves to its end, at the end of input to the end of the line; an
    /// error leaves it where it was.
    pub fn next(&mut self) -> (r: Result<Option<Lexeme>, LexError>)
        requires
            old(self).wf(),
        ensures
            final(self).wf(),
            final(self).text() == old(self).text(),
            scanned_view(r) == scan(old(self).text(), old(self).position() as int),
            r is Ok && r->Ok_0 is Some ==> final(self).position() == scan_end(old(self).text(), old(self).position() as int)
                && final(self).position() > old(self).position(),
            r matches Ok(None) ==> final(self).position() == final(self).text().len(),
            r is Err ==> final(self).position() == old(self).position(),
    {
        let s = self.input.as_str();
        let n = s.unicode_len();
        let mut p = self.cursor;
        let mut off = self.offset;
        while p < n && is_space_char(s.get_char(p))
            invariant
                self.wf(),
                self.cursor <= p <= n,
                n == s@.len(),
                s@ == self.input@,
                skip_spaces(s@, self.cursor as int) == skip_spaces(s@, p as int),
                off == byte_offset(s@, p as int),
            decreases n - p,
        {
            proof {
                lemma_offset_mono(s@, p + 1, n as int);
            }
            off = off + width_of(s.get_char(p));
            p = p + 1;
        }
        if p >= n {
            self.cursor = n;
            self.offset = off;
            return Ok(None);
        }
        let c = s.get_char(p);
        let e = token_end_exec(s, n, p);
        proof {
            lemma_token_end(s@, p as int);
            lemma_runs(s@, p as int);
        }
        if let Some(kind) = symbol(c) {
            proof {
                lemma_token_ascii(s@, p as int);
            }
            self.cursor = p;
            self.offset = off;
            let span = self.next_span(1);
            return Ok(Some(Lexeme::new(kind, span)));
        }
        if is_digit_char(c) {
            let d = run_end(s, n, p, false);
            proof {
                lemma_token_ascii(s@, p as int);
                lemma_ascii_offsets(s@, p as int, e as int);
                lemma_offset_mono(s@, e as int, n as int);
            }
            if d < n && s.get_char(d) == '.' && !(d + 1 < n && is_digit_char(s.get_char(d + 1))) {
                return Err(LexError::MalformedNumber(Span::new(off, off + (e - p))));
            }
            let text = s.substring_char(p, e).to_owned();
            self.cursor = p;
            self.offset = off;
            let span = self.next_span(e - p);
            return Ok(Some(Lexeme::new(LexemeKind::Number(text), span)));
        }
        if is_letter_char(c) {
            proof {
                lemma_token_ascii(s@, p as int);
            }
            let text = s.substring_char(p, e).to_owned();
            self.cursor = p;
            self.offset = off;
            let span = self.next_span(e - p);
            return Ok(Some(Lexeme::new(LexemeKind::Word(text), span)));
        }
        proof {
            lemma_offset_mono(s@, p + 1, n as int);
        }
        Err(LexError::UnrecognizedCharacter(Span::new(off, off + width_of(c))))
    }

    /// Every token of the line, or the first error: a failure stops the whole
    /// line and is returned, never a shortened list.
    pub fn all(self) -> (r: Result<Vec<Lexeme>, LexError>)
        requires
            self.wf(),
        ensures
            lexed_view(r) == tokens_from(self.text(), self.position()),
    {
        let ghost s = self.text();
        let ghost start = self.position();
        let mut lexer = self;
        let mut toks: Vec<Lexeme> = Vec::new();
        proof {
            match tokens_from(s, start) {
                Ok(rest) => {
                    assert(views(toks@) + rest =~= rest);
                },
                Err(e) => {},
            }
        }
        loop
            invariant
                lexer.wf(),
                lexer.text() == s,
                s == self.text(),
                start == self.position(),
                tokens_from(s, start) == (match tokens_from(s, lexer.position()) {
                    Ok(rest) => Ok(views(toks@) + rest),
                    Err(e) => Err(e),
                }),
            decreases s.len() - lexer.position(),
        {
            match lexer.next() {
                Err(e) => {
                    return Err(e);
                },
                Ok(None) => {
                    assert(views(toks@) + Seq::<TokenView>::empty() =~= views(toks@));
                    return Ok(toks);
                },
                Ok(Some(t)) => {
                    let ghost old_toks = toks@;
                    toks.push(t);
                    assert(views(toks@) =~= views(old_toks) + seq![t@]);
                    assert forall|rest: Seq<TokenView>| (views(old_toks) + (seq![t@] + rest)) =~= (views(toks@) + rest) by {}
                },
            }
        }
    }
}

/// Whether two strings hold the same characters.
pub(crate) fn same_str(a: &str, b: &str) -> (r: bool)
    ensures
        r == (a@ == b@),
{
    let n = a.unicode_len();
    if n != b.unicode_len() {
        return false;
    }
    let mut i: usize = 0;
    while i < n
        invariant
            n == a@.len() == b@.len(),
            i <= n,
            forall|k: int| 0 <= k < i ==> a@[k] == b@[k],
        decreases n - i,
    {
        if a.get_char(i) != b.get_char(i) {
            return false;
        }
        i = i + 1;
    }
    assert(a@ =~= b@);
    true
}

} // verus!
