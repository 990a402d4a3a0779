//! The text of a regular expression spells the expression.
//!
//! The signs of the text of an expression are read back as a factor: an atom
//! with its stars. A sum or a product stands in parentheses in the text, so
//! that it is read as an atom whatever stands around it.

use vstd::prelude::*;
use vstd::string::*;
use vstd::utf8::{encode_utf8, is_ascii_chars, is_ascii_chars_encode_utf8};
use crate::parser::{
    atom,
    factor,
    is_blank,
    lex,
    parsed,
    product,
    product_rest,
    spell,
    stars,
    sum,
    sum_rest,
    token_of,
    ParseError,
    Token,
};
use crate::regexp::RegExp;
use crate::render::rendered;

verus! {

/// Whether `c` is a letter `a`-`z` or `A`-`Z`.
pub open spec fn is_letter(c: char) -> bool {
    ('a' <= c <= 'z') || ('A' <= c <= 'Z')
}

/// Whether every symbol of the expression is a letter.
pub open spec fn lettered(reg: RegExp<char>) -> bool
    decreases reg,
{
    match reg {
        RegExp::Epsilon => true,
        RegExp::Symbol(c) => is_letter(c),
        RegExp::Repeat(r) => lettered(*r),
        RegExp::Or(l, r) => lettered(*l) && lettered(*r),
        RegExp::Concat(l, r) => lettered(*l) && lettered(*r),
    }
}

/// A sum or a product in parentheses: the signs of `left`, the sign `op`
/// and the signs of `right`, between `(` and `)`.
pub open spec fn joined_signs(left: Seq<Token>, op: Token, right: Seq<Token>) -> Seq<Token> {
    seq![Token::Open] + left + seq![op] + right + seq![Token::Close]
}

/// The signs of the text of `reg`.
pub open spec fn signs(reg: RegExp<char>) -> Seq<Token>
    decreases reg,
{
    match reg {
        RegExp::Epsilon => seq![Token::Dollar],
        RegExp::Symbol(c) => seq![Token::Letter(c)],
        RegExp::Repeat(r) => signs(*r).push(Token::Star),
        RegExp::Or(l, r) => joined_signs(signs(*l), Token::Plus, signs(*r)),
        RegExp::Concat(l, r) => joined_signs(signs(*l), Token::Dot, signs(*r)),
    }
}

/// Whether the signs `part` stand in `ts` from the `i`-th sign on.
pub open spec fn stands_at(ts: Seq<Token>, i: nat, part: Seq<Token>) -> bool {
    i + part.len() <= ts.len() && forall|k: int|
        0 <= k < part.len() ==> ts[(i + k) as int] == #[trigger] part[k]
}

/// Whether the `i`-th sign of `ts` is a star.
pub open spec fn star_at(ts: Seq<Token>, i: nat) -> bool {
    i < ts.len() && ts[i as int] is Star
}

/// Where the parts of a sum or a product in parentheses stand.
proof fn lemma_joined_parts(ts: Seq<Token>, i: nat, left: Seq<Token>, op: Token, right: Seq<Token>)
    requires
        stands_at(ts, i, joined_signs(left, op, right)),
    ensures
        joined_signs(left, op, right).len() == left.len() + right.len() + 3,
        ts[i as int] == Token::Open,
        stands_at(ts, i + 1, left),
        ts[(i + 1 + left.len()) as int] == op,
        stands_at(ts, i + 2 + left.len(), right),
        ts[(i + 2 + left.len() + right.len()) as int] == Token::Close,
{
    let all = joined_signs(left, op, right);
    assert(all[0] == Token::Open);
    assert(ts[(i + 0) as int] == all[0]);
    assert forall|k: int| 0 <= k < left.len() implies ts[(i + 1 + k) as int] == #[trigger] left[k] by {
        assert(all[(1 + k) as int] == left[k]);
        assert(ts[(i + (1 + k)) as int] == all[(1 + k) as int]);
    }
    assert(all[(1 + left.len()) as int] == op);
    assert(ts[(i + (1 + left.len())) as int] == all[(1 + left.len()) as int]);
    assert forall|k: int| 0 <= k < right.len() implies ts[(i + 2 + left.len() + k) as int]
        == #[trigger] right[k] by {
        assert(all[(2 + left.len() + k) as int] == right[k]);
        assert(ts[(i + (2 + left.len() + k)) as int] == all[(2 + left.len() + k) as int]);
    }
    assert(all[(2 + left.len() + right.len()) as int] == Token::Close);
    assert(ts[(i + (2 + left.len() + right.len())) as int] == all[(2 + left.len() + right.len()) as int]);
}

/// What is read as a factor where the text of an expression stands: the
/// expression, with the stars that follow its text.
pub open spec fn read_on(ts: Seq<Token>, i: nat, reg: RegExp<char>) -> Result<(RegExp<char>, nat), nat> {
    let behind = stars(ts, i + signs(reg).len(), reg);
    Ok((behind.0, signs(reg).len() + behind.1))
}

/// Where the text of an expression stands and no star follows it, a factor
/// is read that is the expression.
proof fn lemma_factor_alone(reg: RegExp<char>, ts: Seq<Token>, i: nat)
    requires
        stands_at(ts, i, signs(reg)),
        !star_at(ts, i + signs(reg).len()),
    ensures
        factor(ts, i) == Ok::<(RegExp<char>, nat), nat>((reg, signs(reg).len())),
    decreases reg, 1nat,
{
    lemma_factor(reg, ts, i);
    assert(stars(ts, i + signs(reg).len(), reg) == (reg, 0nat));
}

/// The empty word is read where its sign stands.
proof fn lemma_factor_empty(ts: Seq<Token>, i: nat)
    requires
        stands_at(ts, i, signs(RegExp::Epsilon)),
    ensures
        factor(ts, i) == read_on(ts, i, RegExp::Epsilon),
{
    let reg = RegExp::<char>::Epsilon;
    assert(signs(reg) =~= seq![Token::Dollar]);
    assert(signs(reg)[0] == Token::Dollar);
    assert(ts[(i + 0) as int] == signs(reg)[0]);
    assert(atom(ts, i) == Ok::<(RegExp<char>, nat), nat>((reg, 1)));
}

/// A symbol is read where its sign stands.
proof fn lemma_factor_symbol(c: char, ts: Seq<Token>, i: nat)
    requires
        stands_at(ts, i, signs(RegExp::Symbol(c))),
    ensures
        factor(ts, i) == read_on(ts, i, RegExp::Symbol(c)),
{
    let reg = RegExp::Symbol(c);
    assert(signs(reg) =~= seq![Token::Letter(c)]);
    assert(signs(reg)[0] == Token::Letter(c));
    assert(ts[(i + 0) as int] == signs(reg)[0]);
    assert(atom(ts, i) == Ok::<(RegExp<char>, nat), nat>((reg, 1)));
}

/// A repetition is read where its text stands, if the expression that is
/// repeated is read there.
proof fn lemma_factor_repeat(inner: RegExp<char>, ts: Seq<Token>, i: nat)
    requires
        stands_at(ts, i, signs(RegExp::Repeat(Box::new(inner)))),
        stands_at(ts, i, signs(inner)) ==> factor(ts, i) == read_on(ts, i, inner),
    ensures
        factor(ts, i) == read_on(ts, i, RegExp::Repeat(Box::new(inner))),
{
    let reg = RegExp::Repeat(Box::new(inner));
    let part = signs(inner);
    assert(signs(reg) == part.push(Token::Star));
    assert forall|k: int| 0 <= k < part.len() implies ts[(i + k) as int] == #[trigger] part[k] by {
        assert(signs(reg)[k] == part[k]);
    }
    assert(signs(reg)[part.len() as int] == Token::Star);
    assert(ts[(i + part.len()) as int] == Token::Star);
    assert(stars(ts, i + part.len(), inner) == (
        stars(ts, i + part.len() + 1, reg).0,
        stars(ts, i + part.len() + 1, reg).1 + 1,
    ));
}

/// A sum is read as an atom where its text stands, if its two sides are
/// read there.
proof fn lemma_atom_sum(l: RegExp<char>, r: RegExp<char>, ts: Seq<Token>, i: nat)
    requires
        stands_at(ts, i, signs(RegExp::Or(Box::new(l), Box::new(r)))),
        factor(ts, i + 1) == Ok::<(RegExp<char>, nat), nat>((l, signs(l).len())),
        factor(ts, i + 2 + signs(l).len()) == Ok::<(RegExp<char>, nat), nat>((r, signs(r).len())),
    ensures
        atom(ts, i) == Ok::<(RegExp<char>, nat), nat>(
            (RegExp::Or(Box::new(l), Box::new(r)), signs(RegExp::Or(Box::new(l), Box::new(r))).len()),
        ),
{
    let reg = RegExp::Or(Box::new(l), Box::new(r));
    let a = signs(l).len();
    let b = signs(r).len();
    assert(signs(reg) == joined_signs(signs(l), Token::Plus, signs(r)));
    lemma_joined_parts(ts, i, signs(l), Token::Plus, signs(r));
    assert(product_rest(ts, i + 1 + a, l) == Ok::<(RegExp<char>, nat), nat>((l, 0)));
    assert(product(ts, i + 1) == Ok::<(RegExp<char>, nat), nat>((l, a)));
    assert(product_rest(ts, i + 2 + a + b, r) == Ok::<(RegExp<char>, nat), nat>((r, 0)));
    assert(product(ts, i + 2 + a) == Ok::<(RegExp<char>, nat), nat>((r, b)));
    assert(sum_rest(ts, i + 2 + a + b, reg) == Ok::<(RegExp<char>, nat), nat>((reg, 0)));
    assert(sum_rest(ts, i + 1 + a, l) == Ok::<(RegExp<char>, nat), nat>((reg, 1 + b)));
    assert(sum(ts, i + 1) == Ok::<(RegExp<char>, nat), nat>((reg, a + 1 + b)));
}

/// A product is read as an atom where its text stands, if its two sides
/// are read there.
proof fn lemma_atom_product(l: RegExp<char>, r: RegExp<char>, ts: Seq<Token>, i: nat)
    requires
        stands_at(ts, i, signs(RegExp::Concat(Box::new(l), Box::new(r)))),
        factor(ts, i + 1) == Ok::<(RegExp<char>, nat), nat>((l, signs(l).len())),
        factor(ts, i + 2 + signs(l).len()) == Ok::<(RegExp<char>, nat), nat>((r, signs(r).len())),
    ensures
        atom(ts, i) == Ok::<(RegExp<char>, nat), nat>(
            (
                RegExp::Concat(Box::new(l), Box::new(r)),
                signs(RegExp::Concat(Box::new(l), Box::new(r))).len(),
            ),
        ),
{
    let reg = RegExp::Concat(Box::new(l), Box::new(r));
    let a = signs(l).len();
    let b = signs(r).len();
    assert(signs(reg) == joined_signs(signs(l), Token::Dot, signs(r)));
    lemma_joined_parts(ts, i, signs(l), Token::Dot, signs(r));
    assert(product_rest(ts, i + 2 + a + b, reg) == Ok::<(RegExp<char>, nat), nat>((reg, 0)));
    assert(product_rest(ts, i + 1 + a, l) == Ok::<(RegExp<char>, nat), nat>((reg, 1 + b)));
    assert(product(ts, i + 1) == Ok::<(RegExp<char>, nat), nat>((reg, a + 1 + b)));
    assert(sum_rest(ts, i + 2 + a + b, reg) == Ok::<(RegExp<char>, nat), nat>((reg, 0)));
    assert(sum(ts, i + 1) == Ok::<(RegExp<char>, nat), nat>((reg, a + 1 + b)));
}

/// Where the text of an expression stands, a factor is read that is the
/// expression with the stars that follow its text.
proof fn lemma_factor(reg: RegExp<char>, ts: Seq<Token>, i: nat)
    requires
        stands_at(ts, i, signs(reg)),
    ensures
        factor(ts, i) == read_on(ts, i, reg),
    decreases reg, 0nat,
{
    match reg {
        RegExp::Epsilon => {
            lemma_factor_empty(ts, i);
        },
        RegExp::Symbol(c) => {
            lemma_factor_symbol(c, ts, i);
        },
        RegExp::Repeat(r) => {
            if stands_at(ts, i, signs(*r)) {
                lemma_factor(*r, ts, i);
            }
            lemma_factor_repeat(*r, ts, i);
        },
        RegExp::Or(l, r) => {
            lemma_joined_parts(ts, i, signs(*l), Token::Plus, signs(*r));
            lemma_factor_alone(*l, ts, i + 1);
            lemma_factor_alone(*r, ts, i + 2 + signs(*l).len());
            lemma_atom_sum(*l, *r, ts, i);
        },
        RegExp::Concat(l, r) => {
            lemma_joined_parts(ts, i, signs(*l), Token::Dot, signs(*r));
            lemma_factor_alone(*l, ts, i + 1);
            lemma_factor_alone(*r, ts, i + 2 + signs(*l).len());
            lemma_atom_product(*l, *r, ts, i);
        },
    }
}

/// The signs of the text of an expression spell the expression.
pub proof fn lemma_spell(reg: RegExp<char>)
    ensures
        spell(signs(reg)) == Ok::<RegExp<char>, nat>(reg),
{
    let ts = signs(reg);
    let n = ts.len();
    lemma_factor_alone(reg, ts, 0);
    assert(product_rest(ts, n, reg) == Ok::<(RegExp<char>, nat), nat>((reg, 0)));
    assert(product(ts, 0) == Ok::<(RegExp<char>, nat), nat>((reg, n)));
    assert(sum_rest(ts, n, reg) == Ok::<(RegExp<char>, nat), nat>((reg, 0)));
    assert(sum(ts, 0) == Ok::<(RegExp<char>, nat), nat>((reg, n)));
}

/// The bytes of a text of letters and signs, one byte for each character.
pub open spec fn plain_bytes(text: Seq<char>) -> Seq<u8> {
    text.map_values(|c: char| c as u8)
}

/// What the signs of two texts, the one after the other, are.
proof fn lemma_lex_append(a: Seq<u8>, b: Seq<u8>, first: Seq<Token>, second: Seq<Token>)
    requires
        lex(a) == Ok::<Seq<Token>, nat>(first),
        lex(b) == Ok::<Seq<Token>, nat>(second),
    ensures
        lex(a + b) == Ok::<Seq<Token>, nat>(first + second),
    decreases b.len(),
{
    if b.len() == 0 {
        assert(a + b =~= a);
        assert(first + second =~= first);
    } else {
        let front = b.drop_last();
        assert((a + b).drop_last() =~= a + front);
        assert((a + b).last() == b.last());
        match lex(front) {
            Ok(before) => {
                lemma_lex_append(a, front, first, before);
                if is_blank(b.last()) {
                } else {
                    let t = token_of(b.last())->Some_0;
                    assert(first + before.push(t) =~= (first + before).push(t));
                }
            },
            Err(_) => {},
        }
    }
}

/// The sign of a text of one byte that stands for a sign.
proof fn lemma_lex_one(b: u8, t: Token)
    requires
        !is_blank(b),
        token_of(b) == Some(t),
    ensures
        lex(seq![b]) == Ok::<Seq<Token>, nat>(seq![t]),
{
    let text = seq![b];
    assert(text.drop_last() =~= Seq::<u8>::empty());
    assert(lex(text.drop_last()) == Ok::<Seq<Token>, nat>(Seq::empty()));
    assert(Seq::<Token>::empty().push(t) =~= seq![t]);
}

/// The signs of the bytes of the text of an expression whose symbols are
/// letters are the signs of the expression, and the text has no character
/// beyond the first 128.
pub proof fn lemma_lex_text(reg: RegExp<char>)
    requires
        lettered(reg),
    ensures
        lex(plain_bytes(rendered(reg))) == Ok::<Seq<Token>, nat>(signs(reg)),
        is_ascii_chars(rendered(reg)),
    decreases reg,
{
    let text = rendered(reg);
    match reg {
        RegExp::Epsilon => {
            reveal_strlit("$");
            assert(text =~= seq!['$']);
            assert(plain_bytes(text) =~= seq![36u8]);
            lemma_lex_one(36u8, Token::Dollar);
        },
        RegExp::Symbol(c) => {
            assert(plain_bytes(text) =~= seq![c as u8]);
            assert((c as u8) as char == c);
            lemma_lex_one(c as u8, Token::Letter(c));
        },
        RegExp::Repeat(r) => {
            reveal_strlit("*");
            lemma_lex_text(*r);
            let inner = rendered(*r);
            assert(text =~= inner + seq!['*']);
            assert(plain_bytes(text) =~= plain_bytes(inner) + seq![42u8]);
            lemma_lex_one(42u8, Token::Star);
            lemma_lex_append(plain_bytes(inner), seq![42u8], signs(*r), seq![Token::Star]);
            assert(signs(*r) + seq![Token::Star] =~= signs(reg));
        },
        RegExp::Or(l, r) => {
            reveal_strlit("(");
            reveal_strlit("+");
            reveal_strlit(")");
            lemma_lex_text(*l);
            lemma_lex_text(*r);
            lemma_lex_joined(rendered(*l), 43u8, rendered(*r), signs(*l), Token::Plus, signs(*r));
            assert(text =~= seq!['('] + rendered(*l) + seq!['+'] + rendered(*r) + seq![')']);
            assert(plain_bytes(text) =~= seq![40u8] + plain_bytes(rendered(*l)) + seq![43u8]
                + plain_bytes(rendered(*r)) + seq![41u8]);
        },
        RegExp::Concat(l, r) => {
            reveal_strlit("(");
            reveal_strlit(".");
            reveal_strlit(")");
            lemma_lex_text(*l);
            lemma_lex_text(*r);
            lemma_lex_joined(rendered(*l), 46u8, rendered(*r), signs(*l), Token::Dot, signs(*r));
            assert(text =~= seq!['('] + rendered(*l) + seq!['.'] + rendered(*r) + seq![')']);
            assert(plain_bytes(text) =~= seq![40u8] + plain_bytes(rendered(*l)) + seq![46u8]
                + plain_bytes(rendered(*r)) + seq![41u8]);
        },
    }
}

/// The signs of two texts joined by a sign, in parentheses.
proof fn lemma_lex_joined(
    left: Seq<char>,
    op: u8,
    right: Seq<char>,
    first: Seq<Token>,
    sign: Token,
    second: Seq<Token>,
)
    requires
        lex(plain_bytes(left)) == Ok::<Seq<Token>, nat>(first),
        lex(plain_bytes(right)) == Ok::<Seq<Token>, nat>(second),
        !is_blank(op),
        token_of(op) == Some(sign),
    ensures
        lex(seq![40u8] + plain_bytes(left) + seq![op] + plain_bytes(right) + seq![41u8]) == Ok::<
            Seq<Token>,
            nat,
        >(joined_signs(first, sign, second)),
{
    lemma_lex_one(40u8, Token::Open);
    lemma_lex_one(op, sign);
    lemma_lex_one(41u8, Token::Close);
    lemma_lex_append(seq![40u8], plain_bytes(left), seq![Token::Open], first);
    lemma_lex_append(seq![40u8] + plain_bytes(left), seq![op], seq![Token::Open] + first, seq![sign]);
    lemma_lex_append(
        seq![40u8] + plain_bytes(left) + seq![op],
        plain_bytes(right),
        seq![Token::Open] + first + seq![sign],
        second,
    );
    lemma_lex_append(
        seq![40u8] + plain_bytes(left) + seq![op] + plain_bytes(right),
        seq![41u8],
        seq![Token::Open] + first + seq![sign] + second,
        seq![Token::Close],
    );
}

/// The text of an expression whose symbols are letters spells the
/// expression.
pub proof fn lemma_text_spells(reg: RegExp<char>)
    requires
        lettered(reg),
    ensures
        parsed(encode_utf8(rendered(reg))) == Ok::<RegExp<char>, ParseError>(reg),
{
    let text = rendered(reg);
    lemma_lex_text(reg);
    is_ascii_chars_encode_utf8(text);
    assert(encode_utf8(text) =~= plain_bytes(text));
    lemma_spell(reg);
}

} // verus!
