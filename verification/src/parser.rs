//! The textual syntax of formulas: a scanner from characters to tokens and a
//! recursive-descent parser from tokens to a formula.

use vstd::prelude::*;
use vstd::std_specs::cmp::PartialEqSpecImpl;
use crate::formula::{Formula, Prop};
use vstd::string::StrSliceExecFns;
use crate::text::{chars_of, is_letter, letter, push_char};

verus! {

/// Why a text is not a formula.
#[derive(Debug, Clone, Copy, PartialEq, Eq, Structural)]
pub enum SyntaxError {
    /// The character at this position (counted in characters) starts no token.
    InvalidCharacter { position: usize },
    /// A `-` is not followed by `>`; the position is that of the character
    /// after the `-`.
    IncompleteArrow { position: usize },
    /// An operand was due at this position (counted in tokens): a variable, a
    /// negation or an opening parenthesis.
    ExpectedOperand { position: usize },
    /// The token demanded at this position (counted in tokens) is not there.
    ExpectedToken { position: usize },
    /// The formula ends before this position (counted in tokens), and a token
    /// stands there that continues nothing.
    TrailingToken { position: usize },
}

impl SyntaxError {
    /// The position that the error names.
    pub open spec fn position(self) -> usize {
        match self {
            SyntaxError::InvalidCharacter { position } => position,
            SyntaxError::IncompleteArrow { position } => position,
            SyntaxError::ExpectedOperand { position } => position,
            SyntaxError::ExpectedToken { position } => position,
            SyntaxError::TrailingToken { position } => position,
        }
    }
}

/// The mathematical model of a token.
pub ghost enum Lexeme {
    Var(Seq<char>),
    And,
    Or,
    Not,
    Implies,
    LParen,
    RParen,
}

/// A token of the textual syntax.
#[derive(Debug)]
pub enum Token {
    Var(String),
    And,
    Or,
    Not,
    Implies,
    LParen,
    RParen,
}

impl View for Token {
    type V = Lexeme;

    open spec fn view(&self) -> Lexeme {
        match self {
            Token::Var(n) => Lexeme::Var(n@),
            Token::And => Lexeme::And,
            Token::Or => Lexeme::Or,
            Token::Not => Lexeme::Not,
            Token::Implies => Lexeme::Implies,
            Token::LParen => Lexeme::LParen,
            Token::RParen => Lexeme::RParen,
        }
    }
}

impl Clone for Token {
    fn clone(&self) -> (r: Self)
        ensures
            r@ == self@,
    {
        match self {
            Token::Var(n) => Token::Var(n.clone()),
            Token::And => Token::And,
            Token::Or => Token::Or,
            Token::Not => Token::Not,
            Token::Implies => Token::Implies,
            Token::LParen => Token::LParen,
            Token::RParen => Token::RParen,
        }
    }
}

impl PartialEq for Token {
    fn eq(&self, other: &Token) -> (r: bool) {
        match (self, other) {
            (Token::Var(a), Token::Var(b)) => *a == *b,
            (Token::And, Token::And) => true,
            (Token::Or, Token::Or) => true,
            (Token::Not, Token::Not) => true,
            (Token::Implies, Token::Implies) => true,
            (Token::LParen, Token::LParen) => true,
            (Token::RParen, Token::RParen) => true,
            _ => false,
        }
    }
}

impl PartialEqSpecImpl for Token {
    open spec fn obeys_eq_spec() -> bool {
        true
    }

    open spec fn eq_spec(&self, other: &Token) -> bool {
        self@ == other@
    }
}

/// The models of a sequence of tokens, in order.
pub open spec fn lexemes(ts: Seq<Token>) -> Seq<Lexeme> {
    Seq::new(ts.len(), |i: int| ts[i]@)
}

/// A character of the input together with its class: whether it is a
/// letter, one that can stand in a variable name.
pub type Glyph = (char, bool);

/// The characters `cs`, each with its class.
pub open spec fn glyphs_of(cs: Seq<char>) -> Seq<Glyph> {
    Seq::new(cs.len(), |i: int| (cs[i], is_letter(cs[i])))
}

/// The characters of `gs`, without their classes.
pub open spec fn text_of(gs: Seq<Glyph>) -> Seq<char> {
    Seq::new(gs.len(), |i: int| gs[i].0)
}

/// Where the run of letters that holds `pos` ends.
pub open spec fn word_end(gs: Seq<Glyph>, pos: int) -> int
    decreases gs.len() - pos,
{
    if 0 <= pos < gs.len() && gs[pos].1 {
        word_end(gs, pos + 1)
    } else {
        pos
    }
}

/// `first` followed by the tokens of `rest`, or the error of `rest`.
pub open spec fn after(first: Seq<Lexeme>, rest: Result<Seq<Lexeme>, SyntaxError>) -> Result<
    Seq<Lexeme>,
    SyntaxError,
> {
    match rest {
        Ok(ts) => Ok(first + ts),
        Err(e) => Err(e),
    }
}

/// The tokens of `gs` from `pos` on.
///
/// Blank, tab and line feed separate tokens. `(` and `)` group; `&` or `^` is
/// a conjunction, `|` a disjunction, `!`, `~` or the not sign a negation,
/// `->` an implication. A letter starts a name, which runs as far as letters
/// follow. Anything else is an error.
pub open spec fn lex(gs: Seq<Glyph>, pos: int) -> Result<Seq<Lexeme>, SyntaxError>
    decreases gs.len() - pos,
    via lex_terminates
{
    if pos < 0 || pos >= gs.len() {
        Ok(Seq::empty())
    } else {
        let c = gs[pos].0;
        if c == ' ' || c == '\t' || c == '\n' {
            lex(gs, pos + 1)
        } else if c == '(' {
            after(seq![Lexeme::LParen], lex(gs, pos + 1))
        } else if c == ')' {
            after(seq![Lexeme::RParen], lex(gs, pos + 1))
        } else if c == '&' || c == '^' {
            after(seq![Lexeme::And], lex(gs, pos + 1))
        } else if c == '|' {
            after(seq![Lexeme::Or], lex(gs, pos + 1))
        } else if c == '!' || c == '~' || c == '\u{ac}' {
            after(seq![Lexeme::Not], lex(gs, pos + 1))
        } else if c == '-' {
            if pos + 1 < gs.len() && gs[pos + 1].0 == '>' {
                after(seq![Lexeme::Implies], lex(gs, pos + 2))
            } else {
                Err(SyntaxError::IncompleteArrow { position: (pos + 1) as usize })
            }
        } else if gs[pos].1 {
            let end = word_end(gs, pos);
            after(seq![Lexeme::Var(text_of(gs.subrange(pos, end)))], lex(gs, end))
        } else {
            Err(SyntaxError::InvalidCharacter { position: pos as usize })
        }
    }
}

#[via_fn]
proof fn lex_terminates(gs: Seq<Glyph>, pos: int) {
    if 0 <= pos < gs.len() {
        lemma_word_end(gs, pos);
    }
}

/// A run of letters ends inside the input, after its first letter.
pub proof fn lemma_word_end(gs: Seq<Glyph>, pos: int)
    requires
        0 <= pos <= gs.len(),
    ensures
        pos <= word_end(gs, pos) <= gs.len(),
        pos < gs.len() && gs[pos].1 ==> pos < word_end(gs, pos),
        forall|k: int| pos <= k < word_end(gs, pos) ==> (#[trigger] gs[k]).1,
        word_end(gs, pos) < gs.len() ==> !gs[word_end(gs, pos)].1,
    decreases gs.len() - pos,
{
    if pos < gs.len() && gs[pos].1 {
        lemma_word_end(gs, pos + 1);
    }
}

/// What a parse gives: the formula and the position after it, or the error.
pub type Parsed = Result<(Prop, int), SyntaxError>;

/// Whether the token at `pos` is `t`.
pub open spec fn token_is(ts: Seq<Lexeme>, pos: int, t: Lexeme) -> bool {
    0 <= pos < ts.len() && ts[pos] == t
}

/// The name that stands for the sign of disjunction where a sign is due.
pub open spec fn or_word() -> Seq<char> {
    seq!['v']
}

/// Whether the token at `pos` is a sign of disjunction: the bar, or the name
/// `v`. This is asked only after an operand, where no name can be a variable.
pub open spec fn or_sign(ts: Seq<Lexeme>, pos: int) -> bool {
    token_is(ts, pos, Lexeme::Or) || token_is(ts, pos, Lexeme::Var(or_word()))
}

/// An operand at `pos`: a variable, a negated operand, or an implication in
/// parentheses.
pub open spec fn unary(ts: Seq<Lexeme>, pos: int) -> Parsed
    decreases ts.len() - pos, 0nat,
{
    if pos < 0 || pos >= ts.len() {
        Err(SyntaxError::ExpectedOperand { position: pos as usize })
    } else {
        match ts[pos] {
            Lexeme::Var(n) => Ok((Prop::Var(n), pos + 1)),
            Lexeme::Not => match unary(ts, pos + 1) {
                Ok((f, p)) => Ok((f.negated(), p)),
                Err(e) => Err(e),
            },
            Lexeme::LParen => match implication(ts, pos + 1) {
                Ok((f, p)) => if token_is(ts, p, Lexeme::RParen) {
                    Ok((f, p + 1))
                } else {
                    Err(SyntaxError::ExpectedToken { position: p as usize })
                },
                Err(e) => Err(e),
            },
            _ => Err(SyntaxError::ExpectedOperand { position: pos as usize }),
        }
    }
}

/// The conjunction that starts with `left` and goes on at `pos`: as long as a
/// conjunction sign follows, the next operand joins on the right.
pub open spec fn conjunction_from(ts: Seq<Lexeme>, left: Prop, pos: int) -> Parsed
    decreases ts.len() - pos, 1nat,
{
    if token_is(ts, pos, Lexeme::And) {
        match unary(ts, pos + 1) {
            Ok((right, p)) => if pos < p <= ts.len() {
                conjunction_from(ts, Prop::And(Box::new(left), Box::new(right)), p)
            } else {
                Ok((Prop::And(Box::new(left), Box::new(right)), p))
            },
            Err(e) => Err(e),
        }
    } else {
        Ok((left, pos))
    }
}

/// A conjunction at `pos`: operands joined by conjunction signs, grouped to
/// the left.
pub open spec fn conjunction(ts: Seq<Lexeme>, pos: int) -> Parsed
    decreases ts.len() - pos, 2nat,
{
    match unary(ts, pos) {
        Ok((left, p)) => if pos < p <= ts.len() {
            conjunction_from(ts, left, p)
        } else {
            Ok((left, p))
        },
        Err(e) => Err(e),
    }
}

/// The disjunction that starts with `left` and goes on at `pos`.
pub open spec fn disjunction_from(ts: Seq<Lexeme>, left: Prop, pos: int) -> Parsed
    decreases ts.len() - pos, 3nat,
{
    if or_sign(ts, pos) {
        match conjunction(ts, pos + 1) {
            Ok((right, p)) => if pos < p <= ts.len() {
                disjunction_from(ts, Prop::Or(Box::new(left), Box::new(right)), p)
            } else {
                Ok((Prop::Or(Box::new(left), Box::new(right)), p))
            },
            Err(e) => Err(e),
        }
    } else {
        Ok((left, pos))
    }
}

/// A disjunction at `pos`: conjunctions joined by disjunction signs, grouped
/// to the left.
pub open spec fn disjunction(ts: Seq<Lexeme>, pos: int) -> Parsed
    decreases ts.len() - pos, 4nat,
{
    match conjunction(ts, pos) {
        Ok((left, p)) => if pos < p <= ts.len() {
            disjunction_from(ts, left, p)
        } else {
            Ok((left, p))
        },
        Err(e) => Err(e),
    }
}

/// An implication at `pos`: a disjunction, and after an arrow another
/// implication, so that arrows group to the right and bind least.
pub open spec fn implication(ts: Seq<Lexeme>, pos: int) -> Parsed
    decreases ts.len() - pos, 5nat,
{
    match disjunction(ts, pos) {
        Ok((left, p)) => if pos < p && token_is(ts, p, Lexeme::Implies) {
            match implication(ts, p + 1) {
                Ok((right, q)) => Ok((Prop::Implies(Box::new(left), Box::new(right)), q)),
                Err(e) => Err(e),
            }
        } else {
            Ok((left, p))
        },
        Err(e) => Err(e),
    }
}

/// A parse that succeeds from inside the input ends after where it began and
/// inside the input.
pub open spec fn moves_on(ts: Seq<Lexeme>, pos: int, r: Parsed) -> bool {
    r matches Ok((_, p)) ==> pos < p <= ts.len()
}

/// Every level of the grammar consumes at least one token and never reads
/// past the end.
pub proof fn lemma_progress(ts: Seq<Lexeme>, pos: int)
    requires
        0 <= pos,
    ensures
        moves_on(ts, pos, unary(ts, pos)),
        moves_on(ts, pos, conjunction(ts, pos)),
        moves_on(ts, pos, disjunction(ts, pos)),
        moves_on(ts, pos, implication(ts, pos)),
    decreases ts.len() - pos, 5nat,
{
    lemma_progress_unary(ts, pos);
    lemma_progress_conjunction(ts, pos);
    lemma_progress_disjunction(ts, pos);
    if let Ok((left, p)) = disjunction(ts, pos) {
        if token_is(ts, p, Lexeme::Implies) {
            lemma_progress(ts, p + 1);
        }
    }
}

proof fn lemma_progress_unary(ts: Seq<Lexeme>, pos: int)
    requires
        0 <= pos,
    ensures
        moves_on(ts, pos, unary(ts, pos)),
    decreases ts.len() - pos, 0nat,
{
    if pos < ts.len() {
        match ts[pos] {
            Lexeme::Not => {
                lemma_progress_unary(ts, pos + 1);
            },
            Lexeme::LParen => {
                lemma_progress(ts, pos + 1);
            },
            _ => {},
        }
    }
}

proof fn lemma_progress_conjunction_from(ts: Seq<Lexeme>, left: Prop, pos: int)
    requires
        0 <= pos <= ts.len(),
    ensures
        conjunction_from(ts, left, pos) matches Ok((_, p)) ==> pos <= p <= ts.len(),
    decreases ts.len() - pos, 1nat,
{
    if token_is(ts, pos, Lexeme::And) {
        lemma_progress_unary(ts, pos + 1);
        if let Ok((right, p)) = unary(ts, pos + 1) {
            lemma_progress_conjunction_from(ts, Prop::And(Box::new(left), Box::new(right)), p);
        }
    }
}

proof fn lemma_progress_conjunction(ts: Seq<Lexeme>, pos: int)
    requires
        0 <= pos,
    ensures
        moves_on(ts, pos, conjunction(ts, pos)),
    decreases ts.len() - pos, 2nat,
{
    lemma_progress_unary(ts, pos);
    if let Ok((left, p)) = unary(ts, pos) {
        lemma_progress_conjunction_from(ts, left, p);
    }
}

proof fn lemma_progress_disjunction_from(ts: Seq<Lexeme>, left: Prop, pos: int)
    requires
        0 <= pos <= ts.len(),
    ensures
        disjunction_from(ts, left, pos) matches Ok((_, p)) ==> pos <= p <= ts.len(),
    decreases ts.len() - pos, 3nat,
{
    if or_sign(ts, pos) {
        lemma_progress_conjunction(ts, pos + 1);
        if let Ok((right, p)) = conjunction(ts, pos + 1) {
            lemma_progress_disjunction_from(ts, Prop::Or(Box::new(left), Box::new(right)), p);
        }
    }
}

proof fn lemma_progress_disjunction(ts: Seq<Lexeme>, pos: int)
    requires
        0 <= pos,
    ensures
        moves_on(ts, pos, disjunction(ts, pos)),
    decreases ts.len() - pos, 4nat,
{
    lemma_progress_conjunction(ts, pos);
    if let Ok((left, p)) = conjunction(ts, pos) {
        lemma_progress_disjunction_from(ts, left, p);
    }
}

/// The formula that the tokens `ts` spell: all of them, from the first to
/// the last. Where a formula ends before the tokens do, the first token after
/// it is an error.
pub open spec fn parse_tokens(ts: Seq<Lexeme>) -> Result<Prop, SyntaxError> {
    match implication(ts, 0) {
        Ok((f, end)) => if end == ts.len() {
            Ok(f)
        } else {
            Err(SyntaxError::TrailingToken { position: end as usize })
        },
        Err(e) => Err(e),
    }
}

/// The formula that the classified characters `gs` spell.
pub open spec fn parse_glyphs(gs: Seq<Glyph>) -> Result<Prop, SyntaxError> {
    match lex(gs, 0) {
        Ok(ts) => parse_tokens(ts),
        Err(e) => Err(e),
    }
}

/// Whether the result `r` of a parse is `expected`, formula by its model.
pub open spec fn parsed_as(r: Result<Formula, SyntaxError>, expected: Result<Prop, SyntaxError>) -> bool {
    match r {
        Ok(f) => expected == Ok::<Prop, SyntaxError>(f@),
        Err(e) => expected == Err::<Prop, SyntaxError>(e),
    }
}

/// The characters of `input`, each with its class.
pub fn classify(input: &str) -> (r: Vec<Glyph>)
    ensures
        r@ == glyphs_of(input@),
{
    let chars = chars_of(input);
    let mut out: Vec<Glyph> = Vec::new();
    let mut i: usize = 0;
    while i < chars.len()
        invariant
            i <= chars.len(),
            chars@ == input@,
            out.len() == i,
            forall|k: int| 0 <= k < i ==> (#[trigger] out[k]) == (chars[k], is_letter(chars[k])),
        decreases chars.len() - i,
    {
        let c = chars[i];
        let flag = letter(c);
        out.push((c, flag));
        i += 1;
    }
    assert(out@ =~= glyphs_of(input@));
    out
}

/// Scans classified characters into tokens.
pub fn scan(glyphs: &Vec<Glyph>) -> (r: Result<Vec<Token>, SyntaxError>)
    ensures
        match r {
            Ok(ts) => lex(glyphs@, 0) == Ok::<Seq<Lexeme>, SyntaxError>(lexemes(ts@)),
            Err(e) => lex(glyphs@, 0) == Err::<Seq<Lexeme>, SyntaxError>(e),
        },
{
    let ghost gs = glyphs@;
    let n = glyphs.len();
    let mut tokens: Vec<Token> = Vec::new();
    let mut pos: usize = 0;
    assert(lexemes(tokens@) + lex(gs, 0)->Ok_0 =~= lex(gs, 0)->Ok_0);
    while pos < n
        invariant
            pos <= n,
            n == glyphs.len(),
            gs == glyphs@,
            lex(gs, 0) == after(lexemes(tokens@), lex(gs, pos as int)),
        decreases n - pos,
    {
        let ghost before = lexemes(tokens@);
        let ghost here = pos as int;
        let c = glyphs[pos].0;
        if c == ' ' || c == '\t' || c == '\n' {
            pos += 1;
        } else if c == '(' {
            tokens.push(Token::LParen);
            pos += 1;
        } else if c == ')' {
            tokens.push(Token::RParen);
            pos += 1;
        } else if c == '&' || c == '^' {
            tokens.push(Token::And);
            pos += 1;
        } else if c == '|' {
            tokens.push(Token::Or);
            pos += 1;
        } else if c == '!' || c == '~' || c == '\u{ac}' {
            tokens.push(Token::Not);
            pos += 1;
        } else if c == '-' {
            if pos + 1 < n && glyphs[pos + 1].0 == '>' {
                tokens.push(Token::Implies);
                pos += 2;
            } else {
                return Err(SyntaxError::IncompleteArrow { position: pos + 1 });
            }
        } else if glyphs[pos].1 {
            let start = pos;
            let mut name = String::new();
            proof {
                lemma_word_end(gs, start as int);
            }
            while pos < n && glyphs[pos].1
                invariant
                    start <= pos <= n,
                    n == glyphs.len(),
                    gs == glyphs@,
                    word_end(gs, pos as int) == word_end(gs, start as int),
                    name@ == text_of(gs.subrange(start as int, pos as int)),
                decreases n - pos,
            {
                push_char(&mut name, glyphs[pos].0);
                pos += 1;
                assert(name@ =~= text_of(gs.subrange(start as int, pos as int)));
            }
            tokens.push(Token::Var(name));
        } else {
            return Err(SyntaxError::InvalidCharacter { position: pos });
        }
        proof {
            let rest = lex(gs, pos as int);
            if tokens.len() == before.len() {
                assert(lexemes(tokens@) =~= before);
            } else {
                let t = tokens@[tokens.len() - 1]@;
                assert(lexemes(tokens@) =~= before.push(t));
                assert(lex(gs, here) == after(seq![t], rest));
                if rest is Ok {
                    assert(before + (seq![t] + rest->Ok_0) =~= before.push(t) + rest->Ok_0);
                }
            }
        }
    }
    assert(lexemes(tokens@) + Seq::<Lexeme>::empty() =~= lexemes(tokens@));
    Ok(tokens)
}

/// Scans `input` into tokens.
pub fn tokenize(input: &str) -> (r: Result<Vec<Token>, SyntaxError>)
    ensures
        match r {
            Ok(ts) => lex(glyphs_of(input@), 0) == Ok::<Seq<Lexeme>, SyntaxError>(lexemes(ts@)),
            Err(e) => lex(glyphs_of(input@), 0) == Err::<Seq<Lexeme>, SyntaxError>(e),
        },
{
    let glyphs = classify(input);
    scan(&glyphs)
}

/// A recursive-descent parser over a token sequence, with the position of the
/// next token to read.
pub struct Parser {
    tokens: Vec<Token>,
    pos: usize,
}

impl Parser {
    /// The position never passes the end of the tokens.
    #[verifier::type_invariant]
    spec fn in_bounds(&self) -> bool {
        self.pos <= self.tokens.len()
    }

    /// The tokens that this parser reads.
    pub closed spec fn input(&self) -> Seq<Lexeme> {
        lexemes(self.tokens@)
    }

    /// The position of the next token to read.
    pub closed spec fn position(&self) -> int {
        self.pos as int
    }

    /// Whether a step from `before` to `self` that gave `r` is the parse
    /// `expected`: the tokens stand; on success the formula and the new
    /// position are those of `expected`; on failure the error is that of
    /// `expected` and the parser stands where the error says.
    pub open spec fn stepped(
        &self,
        before: &Parser,
        r: Result<Formula, SyntaxError>,
        expected: Parsed,
    ) -> bool {
        &&& self.input() == before.input()
        &&& match r {
            Ok(f) => expected == Ok::<(Prop, int), SyntaxError>((f@, self.position())),
            Err(e) => expected == Err::<(Prop, int), SyntaxError>(e) && self.position()
                == e.position(),
        }
    }

    /// A parser at the start of `tokens`.
    pub fn new(tokens: Vec<Token>) -> (p: Parser)
        ensures
            p.input() == lexemes(tokens@),
            p.position() == 0,
    {
        Parser { tokens, pos: 0 }
    }

    /// The next token to read, if any is left.
    fn current(&self) -> (r: Option<&Token>)
        ensures
            match r {
                Some(t) => self.position() < self.input().len() && t@ == self.input().index(
                    self.position(),
                ),
                None => self.position() >= self.input().len(),
            },
    {
        if self.pos < self.tokens.len() {
            Some(&self.tokens[self.pos])
        } else {
            None
        }
    }

    /// Steps over the next token.
    fn advance(&mut self)
        requires
            old(self).position() < old(self).input().len(),
        ensures
            final(self).input() == old(self).input(),
            final(self).position() == old(self).position() + 1,
    {
        proof {
            use_type_invariant(&*self);
        }
        self.pos += 1;
    }

    /// Steps over the next token if it is `token`; otherwise reports the
    /// position at which it was demanded.
    fn expect(&mut self, token: Token) -> (r: Result<(), SyntaxError>)
        ensures
            final(self).input() == old(self).input(),
            match r {
                Ok(_) => token_is(old(self).input(), old(self).position(), token@)
                    && final(self).position() == old(self).position() + 1,
                Err(e) => !token_is(old(self).input(), old(self).position(), token@) && e == (
                SyntaxError::ExpectedToken { position: old(self).position() as usize })
                    && final(self).position() == old(self).position(),
            },
    {
        let found = match self.current() {
            Some(t) => *t == token,
            None => false,
        };
        if found {
            self.advance();
            Ok(())
        } else {
            Err(SyntaxError::ExpectedToken { position: self.pos })
        }
    }

    /// Whether the token `t` is the name that stands for a disjunction.
    fn is_or_word(t: &Token) -> (r: bool)
        ensures
            r == (t@ == Lexeme::Var(or_word())),
    {
        match t {
            Token::Var(n) => {
                let r = n.as_str().unicode_len() == 1 && n.as_str().get_char(0) == 'v';
                assert(r == (n@ =~= or_word()));
                r
            },
            _ => false,
        }
    }

    /// Demands that every token was read: an error names the first one left.
    pub fn finish(&self) -> (r: Result<(), SyntaxError>)
        ensures
            match r {
                Ok(_) => self.position() == self.input().len(),
                Err(e) => self.position() != self.input().len() && e == (
                SyntaxError::TrailingToken { position: self.position() as usize }),
            },
    {
        if self.pos == self.tokens.len() {
            Ok(())
        } else {
            Err(SyntaxError::TrailingToken { position: self.pos })
        }
    }

    /// Parses a formula from the current position on, as far as it goes.
    pub fn parse(&mut self) -> (r: Result<Formula, SyntaxError>)
        ensures
            final(self).stepped(
                old(self),
                r,
                implication(old(self).input(), old(self).position()),
            ),
    {
        self.parse_implies()
    }

    fn parse_implies(&mut self) -> (r: Result<Formula, SyntaxError>)
        ensures
            final(self).stepped(
                old(self),
                r,
                implication(old(self).input(), old(self).position()),
            ),
        decreases old(self).input().len() - old(self).position(), 5nat,
    {
        let ghost ts = self.input();
        let ghost start = self.position();
        proof {
            use_type_invariant(&*self);
            lemma_progress(ts, start);
        }
        let left = match self.parse_or() {
            Ok(f) => f,
            Err(e) => {
                return Err(e);
            },
        };
        let arrow = match self.current() {
            Some(Token::Implies) => true,
            _ => false,
        };
        if arrow {
            self.advance();
            match self.parse_implies() {
                Ok(right) => Ok(Formula::implies(left, right)),
                Err(e) => Err(e),
            }
        } else {
            Ok(left)
        }
    }

    fn parse_or(&mut self) -> (r: Result<Formula, SyntaxError>)
        ensures
            final(self).stepped(
                old(self),
                r,
                disjunction(old(self).input(), old(self).position()),
            ),
        decreases old(self).input().len() - old(self).position(), 4nat,
    {
        let ghost ts = self.input();
        let ghost start = self.position();
        proof {
            use_type_invariant(&*self);
            lemma_progress(ts, start);
        }
        let mut left = match self.parse_and() {
            Ok(f) => f,
            Err(e) => {
                return Err(e);
            },
        };
        loop
            invariant
                ts == old(self).input(),
                start == old(self).position(),
                self.input() == ts,
                start < self.position() <= ts.len(),
                disjunction(ts, start) == disjunction_from(ts, left@, self.position()),
            decreases ts.len() - self.position(),
        {
            let more = match self.current() {
                Some(Token::Or) => true,
                Some(t) => Parser::is_or_word(t),
                None => false,
            };
            if !more {
                return Ok(left);
            }
            let ghost here = self.position();
            self.advance();
            proof {
                lemma_progress(ts, here + 1);
            }
            match self.parse_and() {
                Ok(right) => {
                    left = Formula::or(left, right);
                },
                Err(e) => {
                    return Err(e);
                },
            }
        }
    }

    fn parse_and(&mut self) -> (r: Result<Formula, SyntaxError>)
        ensures
            final(self).stepped(
                old(self),
                r,
                conjunction(old(self).input(), old(self).position()),
            ),
        decreases old(self).input().len() - old(self).position(), 2nat,
    {
        let ghost ts = self.input();
        let ghost start = self.position();
        proof {
            use_type_invariant(&*self);
            lemma_progress(ts, start);
        }
        let mut left = match self.parse_unary() {
            Ok(f) => f,
            Err(e) => {
                return Err(e);
            },
        };
        loop
            invariant
                ts == old(self).input(),
                start == old(self).position(),
                self.input() == ts,
                start < self.position() <= ts.len(),
                conjunction(ts, start) == conjunction_from(ts, left@, self.position()),
            decreases ts.len() - self.position(),
        {
            let more = match self.current() {
                Some(Token::And) => true,
                _ => false,
            };
            if !more {
                return Ok(left);
            }
            let ghost here = self.position();
            self.advance();
            proof {
                lemma_progress(ts, here + 1);
            }
            match self.parse_unary() {
                Ok(right) => {
                    left = Formula::and(left, right);
                },
                Err(e) => {
                    return Err(e);
                },
            }
        }
    }

    fn parse_unary(&mut self) -> (r: Result<Formula, SyntaxError>)
        ensures
            final(self).stepped(old(self), r, unary(old(self).input(), old(self).position())),
        decreases old(self).input().len() - old(self).position(), 0nat,
    {
        let ghost ts = self.input();
        let ghost start = self.position();
        proof {
            use_type_invariant(&*self);
        }
        match self.current() {
            Some(Token::Not) => {
                self.advance();
                match self.parse_unary() {
                    Ok(operand) => Ok(Formula::not(operand)),
                    Err(e) => Err(e),
                }
            },
            Some(Token::Var(name)) => {
                let f = Formula::var(name.as_str());
                self.advance();
                Ok(f)
            },
            Some(Token::LParen) => {
                self.advance();
                let inner = match self.parse_implies() {
                    Ok(f) => f,
                    Err(e) => {
                        return Err(e);
                    },
                };
                match self.expect(Token::RParen) {
                    Ok(_) => Ok(inner),
                    Err(e) => Err(e),
                }
            },
            _ => Err(SyntaxError::ExpectedOperand { position: self.pos }),
        }
    }
}

/// Parses `input` as a formula.
///
/// Succeeds exactly when the text scans into tokens and the tokens, all of
/// them, are one formula; the error says what failed, and where.
pub fn parse_formula(input: &str) -> (r: Result<Formula, SyntaxError>)
    ensures
        parsed_as(r, parse_glyphs(glyphs_of(input@))),
{
    let tokens = match tokenize(input) {
        Ok(ts) => ts,
        Err(e) => {
            return Err(e);
        },
    };
    let mut parser = Parser::new(tokens);
    let formula = match parser.parse() {
        Ok(f) => f,
        Err(e) => {
            return Err(e);
        },
    };
    match parser.finish() {
        Ok(_) => Ok(formula),
        Err(e) => Err(e),
    }
}

/// Parses classified characters as a formula.
pub fn parse_glyph_sequence(glyphs: &Vec<Glyph>) -> (r: Result<Formula, SyntaxError>)
    ensures
        parsed_as(r, parse_glyphs(glyphs@)),
{
    let tokens = match scan(glyphs) {
        Ok(ts) => ts,
        Err(e) => {
            return Err(e);
        },
    };
    let mut parser = Parser::new(tokens);
    let formula = match parser.parse() {
        Ok(f) => f,
        Err(e) => {
            return Err(e);
        },
    };
    match parser.finish() {
        Ok(_) => Ok(formula),
        Err(e) => Err(e),
    }
}

} // verus!
