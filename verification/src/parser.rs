//! Regular expressions as text.
//!
//! A letter `a`-`z` or `A`-`Z` is a symbol and `$` the empty word; `e*` repeats
//! `e`, `e.f` is `e` followed by `f`, and `e+f` is `e` or `f`. The star binds
//! closest and the sum least; products and sums group from the left;
//! parentheses group. Spaces, tabs and line ends between the signs are
//! skipped.

use vstd::prelude::*;
use vstd::string::StringSliceAdditionalSpecFns;
use crate::regexp::RegExp;

verus! {

/// A sign of the text of a regular expression.
#[derive(Debug, Clone, Copy, PartialEq, Eq, Structural)]
pub enum Token {
    /// A letter.
    Letter(char),
    /// `$`, the empty word.
    Dollar,
    /// `*`.
    Star,
    /// `.`.
    Dot,
    /// `+`.
    Plus,
    /// `(`.
    Open,
    /// `)`.
    Close,
}

/// Why a text is no regular expression.
#[derive(Debug, Clone, Copy, PartialEq, Eq, Structural)]
pub enum ParseError {
    /// The byte at the offset `at` is no sign of a regular expression.
    UnknownSymbol { at: usize },
    /// The sign number `at` cannot stand where it stands; `at` is the number of
    /// signs if the text ends too early.
    UnexpectedToken { at: usize },
}

/// Whether `b` is a space, a tab or a line end.
pub open spec fn is_blank(b: u8) -> bool {
    b == 32 || b == 9 || b == 10 || b == 13
}

/// The sign that the byte `b` stands for, if any.
pub open spec fn token_of(b: u8) -> Option<Token> {
    if (97 <= b <= 122) || (65 <= b <= 90) {
        Some(Token::Letter(b as char))
    } else if b == 36 {
        Some(Token::Dollar)
    } else if b == 42 {
        Some(Token::Star)
    } else if b == 46 {
        Some(Token::Dot)
    } else if b == 43 {
        Some(Token::Plus)
    } else if b == 40 {
        Some(Token::Open)
    } else if b == 41 {
        Some(Token::Close)
    } else {
        None
    }
}

/// The signs of a text, or the offset of the first byte that is neither
/// a sign nor blank.
pub open spec fn lex(text: Seq<u8>) -> Result<Seq<Token>, nat>
    decreases text.len(),
{
    if text.len() == 0 {
        Ok(Seq::empty())
    } else {
        match lex(text.drop_last()) {
            Err(at) => Err(at),
            Ok(front) => if is_blank(text.last()) {
                Ok(front)
            } else {
                match token_of(text.last()) {
                    Some(t) => Ok(front.push(t)),
                    None => Err((text.len() - 1) as nat),
                }
            },
        }
    }
}

/// The number of signs from the `i`-th on.
pub open spec fn rest(tokens: Seq<Token>, i: nat) -> nat {
    if i <= tokens.len() {
        (tokens.len() - i) as nat
    } else {
        0
    }
}

/// The expression `e` with a star for each star from the `i`-th sign on, and
/// the number of these stars.
pub open spec fn stars(tokens: Seq<Token>, i: nat, e: RegExp<char>) -> (RegExp<char>, nat)
    decreases rest(tokens, i),
{
    if i < tokens.len() && tokens[i as int] is Star {
        let (made, n) = stars(tokens, i + 1, RegExp::Repeat(Box::new(e)));
        (made, n + 1)
    } else {
        (e, 0)
    }
}

/// A letter, `$`, or an expression in parentheses, from the `i`-th sign on:
/// the expression and the number of its signs, or the number of the sign that
/// cannot stand there.
pub open spec fn atom(tokens: Seq<Token>, i: nat) -> Result<(RegExp<char>, nat), nat>
    decreases rest(tokens, i), 0nat,
{
    if i >= tokens.len() {
        Err(i)
    } else {
        match tokens[i as int] {
            Token::Letter(c) => Ok((RegExp::Symbol(c), 1)),
            Token::Dollar => Ok((RegExp::Epsilon, 1)),
            Token::Open => match sum(tokens, i + 1) {
                Err(at) => Err(at),
                Ok((e, n)) => if i + 1 + n < tokens.len() && tokens[(i + 1 + n) as int] is Close {
                    Ok((e, n + 2))
                } else {
                    Err(i + 1 + n)
                },
            },
            _ => Err(i),
        }
    }
}

/// An atom with its stars.
pub open spec fn factor(tokens: Seq<Token>, i: nat) -> Result<(RegExp<char>, nat), nat>
    decreases rest(tokens, i), 1nat,
{
    match atom(tokens, i) {
        Err(at) => Err(at),
        Ok((e, n)) => {
            let (made, m) = stars(tokens, i + n, e);
            Ok((made, n + m))
        },
    }
}

/// The product `left` with every factor that a `.` joins to it from the
/// `i`-th sign on.
pub open spec fn product_rest(tokens: Seq<Token>, i: nat, left: RegExp<char>) -> Result<
    (RegExp<char>, nat),
    nat,
>
    decreases rest(tokens, i), 2nat,
{
    if i < tokens.len() && tokens[i as int] is Dot {
        match factor(tokens, i + 1) {
            Err(at) => Err(at),
            Ok((f, n)) => match product_rest(
                tokens,
                i + 1 + n,
                RegExp::Concat(Box::new(left), Box::new(f)),
            ) {
                Err(at) => Err(at),
                Ok((made, m)) => Ok((made, 1 + n + m)),
            },
        }
    } else {
        Ok((left, 0))
    }
}

/// Factors joined by `.`, grouped from the left.
pub open spec fn product(tokens: Seq<Token>, i: nat) -> Result<(RegExp<char>, nat), nat>
    decreases rest(tokens, i), 3nat,
{
    match factor(tokens, i) {
        Err(at) => Err(at),
        Ok((e, n)) => match product_rest(tokens, i + n, e) {
            Err(at) => Err(at),
            Ok((made, m)) => Ok((made, n + m)),
        },
    }
}

/// The sum `left` with every product that a `+` joins to it from the `i`-th
/// sign on.
pub open spec fn sum_rest(tokens: Seq<Token>, i: nat, left: RegExp<char>) -> Result<
    (RegExp<char>, nat),
    nat,
>
    decreases rest(tokens, i), 4nat,
{
    if i < tokens.len() && tokens[i as int] is Plus {
        match product(tokens, i + 1) {
            Err(at) => Err(at),
            Ok((p, n)) => match sum_rest(
                tokens,
                i + 1 + n,
                RegExp::Or(Box::new(left), Box::new(p)),
            ) {
                Err(at) => Err(at),
                Ok((made, m)) => Ok((made, 1 + n + m)),
            },
        }
    } else {
        Ok((left, 0))
    }
}

/// Products joined by `+`, grouped from the left.
pub open spec fn sum(tokens: Seq<Token>, i: nat) -> Result<(RegExp<char>, nat), nat>
    decreases rest(tokens, i), 5nat,
{
    match product(tokens, i) {
        Err(at) => Err(at),
        Ok((e, n)) => match sum_rest(tokens, i + n, e) {
            Err(at) => Err(at),
            Ok((made, m)) => Ok((made, n + m)),
        },
    }
}

/// The expression that the signs spell, all of them.
pub open spec fn spell(tokens: Seq<Token>) -> Result<RegExp<char>, nat> {
    match sum(tokens, 0) {
        Err(at) => Err(at),
        Ok((e, n)) => if n == tokens.len() {
            Ok(e)
        } else {
            Err(n)
        },
    }
}

/// The expression that a text spells.
pub open spec fn parsed(text: Seq<u8>) -> Result<RegExp<char>, ParseError> {
    match lex(text) {
        Err(at) => Err(ParseError::UnknownSymbol { at: at as usize }),
        Ok(tokens) => match spell(tokens) {
            Err(at) => Err(ParseError::UnexpectedToken { at: at as usize }),
            Ok(e) => Ok(e),
        },
    }
}

/// The sign that the byte `b` stands for, if any.
pub fn read_token(b: u8) -> (token: Option<Token>)
    ensures
        token == token_of(b),
{
    if (97 <= b && b <= 122) || (65 <= b && b <= 90) {
        Some(Token::Letter(b as char))
    } else if b == 36 {
        Some(Token::Dollar)
    } else if b == 42 {
        Some(Token::Star)
    } else if b == 46 {
        Some(Token::Dot)
    } else if b == 43 {
        Some(Token::Plus)
    } else if b == 40 {
        Some(Token::Open)
    } else if b == 41 {
        Some(Token::Close)
    } else {
        None
    }
}

/// The signs of a text.
pub fn tokenize(text: &[u8]) -> (tokens: Result<Vec<Token>, usize>)
    ensures
        match tokens {
            Ok(list) => lex(text@) == Ok::<Seq<Token>, nat>(list@),
            Err(at) => lex(text@) == Err::<Seq<Token>, nat>(at as nat),
        },
{
    let mut list: Vec<Token> = Vec::new();
    let mut i: usize = 0;
    assert(text@.take(0) =~= Seq::<u8>::empty());
    while i < text.len()
        invariant
            i <= text.len(),
            lex(text@.take(i as int)) == Ok::<Seq<Token>, nat>(list@),
        decreases text.len() - i,
    {
        let b = text[i];
        proof {
            assert(text@.take(i + 1).drop_last() =~= text@.take(i as int));
            assert(text@.take(i + 1).last() == b);
        }
        if !(b == 32 || b == 9 || b == 10 || b == 13) {
            match read_token(b) {
                Some(t) => {
                    list.push(t);
                },
                None => {
                    proof {
                        lemma_lex_fails(text@, i + 1);
                    }
                    return Err(i);
                },
            }
        }
        i = i + 1;
    }
    assert(text@.take(i as int) =~= text@);
    Ok(list)
}

/// A text whose beginning has a byte that is no sign has that same fault.
pub proof fn lemma_lex_fails(text: Seq<u8>, i: int)
    requires
        0 <= i <= text.len(),
        lex(text.take(i)) is Err,
    ensures
        lex(text) == lex(text.take(i)),
    decreases text.len() - i,
{
    if i < text.len() {
        assert(text.take(i + 1).drop_last() =~= text.take(i));
        lemma_lex_fails(text, i + 1);
    } else {
        assert(text.take(i) =~= text);
    }
}

/// What a parser of a part of an expression returns: the expression and the
/// number of its signs, or the number of the sign that cannot stand there.
pub open spec fn agrees(
    got: Result<(RegExp<char>, usize), usize>,
    wanted: Result<(RegExp<char>, nat), nat>,
) -> bool {
    match got {
        Ok((e, n)) => wanted == Ok::<(RegExp<char>, nat), nat>((e, n as nat)),
        Err(at) => wanted == Err::<(RegExp<char>, nat), nat>(at as nat),
    }
}

/// The stars count no more signs than there are.
pub proof fn lemma_stars_bound(tokens: Seq<Token>, i: nat, e: RegExp<char>)
    requires
        i <= tokens.len(),
    ensures
        i + stars(tokens, i, e).1 <= tokens.len(),
    decreases rest(tokens, i),
{
    if i < tokens.len() && tokens[i as int] is Star {
        lemma_stars_bound(tokens, i + 1, RegExp::Repeat(Box::new(e)));
    }
}

/// Puts a star on `e` for each star from the `i`-th sign on.
pub fn read_stars(tokens: &Vec<Token>, i: usize, e: RegExp<char>) -> (made: (RegExp<char>, usize))
    requires
        i <= tokens.len(),
    ensures
        (made.0, made.1 as nat) == stars(tokens@, i as nat, e),
        i + made.1 <= tokens.len(),
    decreases rest(tokens@, i as nat),
{
    proof {
        lemma_stars_bound(tokens@, i as nat, e);
    }
    if i < tokens.len() && matches!(tokens[i], Token::Star) {
        let (made, n) = read_stars(tokens, i + 1, RegExp::Repeat(Box::new(e)));
        (made, n + 1)
    } else {
        (e, 0)
    }
}

/// Reads an atom from the `i`-th sign on.
pub fn read_atom(tokens: &Vec<Token>, i: usize) -> (got: Result<(RegExp<char>, usize), usize>)
    requires
        i <= tokens.len(),
    ensures
        agrees(got, atom(tokens@, i as nat)),
        got matches Ok(made) ==> i + made.1 <= tokens.len(),
        got matches Err(at) ==> at <= tokens.len(),
    decreases rest(tokens@, i as nat), 0nat,
{
    if i >= tokens.len() {
        return Err(i);
    }
    match tokens[i] {
        Token::Letter(c) => Ok((RegExp::Symbol(c), 1)),
        Token::Dollar => Ok((RegExp::Epsilon, 1)),
        Token::Open => match read_sum(tokens, i + 1) {
            Err(at) => Err(at),
            Ok((e, n)) => {
                if i + 1 + n < tokens.len() && matches!(tokens[i + 1 + n], Token::Close) {
                    Ok((e, n + 2))
                } else {
                    Err(i + 1 + n)
                }
            },
        },
        _ => Err(i),
    }
}

/// Reads an atom with its stars from the `i`-th sign on.
pub fn read_factor(tokens: &Vec<Token>, i: usize) -> (got: Result<(RegExp<char>, usize), usize>)
    requires
        i <= tokens.len(),
    ensures
        agrees(got, factor(tokens@, i as nat)),
        got matches Ok(made) ==> i + made.1 <= tokens.len(),
        got matches Err(at) ==> at <= tokens.len(),
    decreases rest(tokens@, i as nat), 1nat,
{
    match read_atom(tokens, i) {
        Err(at) => Err(at),
        Ok((e, n)) => {
            let (made, m) = read_stars(tokens, i + n, e);
            Ok((made, n + m))
        },
    }
}

/// Reads the factors that a `.` joins to `left` from the `i`-th sign on.
pub fn read_product_rest(tokens: &Vec<Token>, i: usize, left: RegExp<char>) -> (got: Result<
    (RegExp<char>, usize),
    usize,
>)
    requires
        i <= tokens.len(),
    ensures
        agrees(got, product_rest(tokens@, i as nat, left)),
        got matches Ok(made) ==> i + made.1 <= tokens.len(),
        got matches Err(at) ==> at <= tokens.len(),
    decreases rest(tokens@, i as nat), 2nat,
{
    if i < tokens.len() && matches!(tokens[i], Token::Dot) {
        match read_factor(tokens, i + 1) {
            Err(at) => Err(at),
            Ok((f, n)) => match read_product_rest(
                tokens,
                i + 1 + n,
                RegExp::Concat(Box::new(left), Box::new(f)),
            ) {
                Err(at) => Err(at),
                Ok((made, m)) => Ok((made, 1 + n + m)),
            },
        }
    } else {
        Ok((left, 0))
    }
}

/// Reads factors joined by `.` from the `i`-th sign on.
pub fn read_product(tokens: &Vec<Token>, i: usize) -> (got: Result<(RegExp<char>, usize), usize>)
    requires
        i <= tokens.len(),
    ensures
        agrees(got, product(tokens@, i as nat)),
        got matches Ok(made) ==> i + made.1 <= tokens.len(),
        got matches Err(at) ==> at <= tokens.len(),
    decreases rest(tokens@, i as nat), 3nat,
{
    match read_factor(tokens, i) {
        Err(at) => Err(at),
        Ok((e, n)) => match read_product_rest(tokens, i + n, e) {
            Err(at) => Err(at),
            Ok((made, m)) => Ok((made, n + m)),
        },
    }
}

/// Reads the products that a `+` joins to `left` from the `i`-th sign on.
pub fn read_sum_rest(tokens: &Vec<Token>, i: usize, left: RegExp<char>) -> (got: Result<
    (RegExp<char>, usize),
    usize,
>)
    requires
        i <= tokens.len(),
    ensures
        agrees(got, sum_rest(tokens@, i as nat, left)),
        got matches Ok(made) ==> i + made.1 <= tokens.len(),
        got matches Err(at) ==> at <= tokens.len(),
    decreases rest(tokens@, i as nat), 4nat,
{
    if i < tokens.len() && matches!(tokens[i], Token::Plus) {
        match read_product(tokens, i + 1) {
            Err(at) => Err(at),
            Ok((p, n)) => match read_sum_rest(
                tokens,
                i + 1 + n,
                RegExp::Or(Box::new(left), Box::new(p)),
            ) {
                Err(at) => Err(at),
                Ok((made, m)) => Ok((made, 1 + n + m)),
            },
        }
    } else {
        Ok((left, 0))
    }
}

/// Reads products joined by `+` from the `i`-th sign on.
pub fn read_sum(tokens: &Vec<Token>, i: usize) -> (got: Result<(RegExp<char>, usize), usize>)
    requires
        i <= tokens.len(),
    ensures
        agrees(got, sum(tokens@, i as nat)),
        got matches Ok(made) ==> i + made.1 <= tokens.len(),
        got matches Err(at) ==> at <= tokens.len(),
    decreases rest(tokens@, i as nat), 5nat,
{
    match read_product(tokens, i) {
        Err(at) => Err(at),
        Ok((e, n)) => match read_sum_rest(tokens, i + n, e) {
            Err(at) => Err(at),
            Ok((made, m)) => Ok((made, n + m)),
        },
    }
}

/// The regular expression that the bytes `text` spell.
pub fn parse_bytes(text: &[u8]) -> (got: Result<RegExp<char>, ParseError>)
    ensures
        got == parsed(text@),
{
    match tokenize(text) {
        Err(at) => Err(ParseError::UnknownSymbol { at }),
        Ok(tokens) => match read_sum(&tokens, 0) {
            Err(at) => Err(ParseError::UnexpectedToken { at }),
            Ok((e, n)) => {
                if n == tokens.len() {
                    Ok(e)
                } else {
                    Err(ParseError::UnexpectedToken { at: n })
                }
            },
        },
    }
}

impl RegExp<char> {
    /// The regular expression that `text` spells.
    pub fn try_from(text: &str) -> (got: Result<RegExp<char>, ParseError>)
        ensures
            got == parsed(text.spec_bytes()),
    {
        parse_bytes(text.as_bytes())
    }
}

} // verus!
