//! The text of a regular expression.
//!
//! The empty word is written `$` and a symbol as itself; a repetition gets a
//! star, and a product and a sum stand in parentheses, so that the text spells
//! the expression again.

use vstd::prelude::*;
use vstd::string::*;
use crate::dot::push_char;
use vstd::utf8::encode_utf8;
use crate::parser::{parsed, ParseError};
use crate::regexp::RegExp;
use crate::spelling::{lemma_text_spells, lettered};

verus! {

/// The text of `reg`.
pub open spec fn rendered(reg: RegExp<char>) -> Seq<char>
    decreases reg,
{
    match reg {
        RegExp::Epsilon => "$"@,
        RegExp::Symbol(c) => seq![c],
        RegExp::Repeat(r) => rendered(*r) + "*"@,
        RegExp::Or(l, r) => "("@ + rendered(*l) + "+"@ + rendered(*r) + ")"@,
        RegExp::Concat(l, r) => "("@ + rendered(*l) + "."@ + rendered(*r) + ")"@,
    }
}

/// Appends the text of `reg`.
pub fn write_regexp(out: &mut String, reg: &RegExp<char>)
    ensures
        final(out)@ == old(out)@ + rendered(*reg),
    decreases reg,
{
    match reg {
        RegExp::Epsilon => {
            out.append("$");
        },
        RegExp::Symbol(c) => {
            push_char(out, *c);
            assert(out@ =~= old(out)@ + rendered(*reg));
        },
        RegExp::Repeat(r) => {
            write_regexp(out, r);
            out.append("*");
            assert(out@ =~= old(out)@ + rendered(*reg));
        },
        RegExp::Or(l, r) => {
            out.append("(");
            write_regexp(out, l);
            out.append("+");
            write_regexp(out, r);
            out.append(")");
            assert(out@ =~= old(out)@ + rendered(*reg));
        },
        RegExp::Concat(l, r) => {
            out.append("(");
            write_regexp(out, l);
            out.append(".");
            write_regexp(out, r);
            out.append(")");
            assert(out@ =~= old(out)@ + rendered(*reg));
        },
    }
}

impl RegExp<char> {
    /// The text of the expression. If every symbol is a letter, the text
    /// spells the expression again.
    pub fn to_string(&self) -> (text: String)
        ensures
            text@ == rendered(*self),
            lettered(*self) ==> parsed(encode_utf8(text@)) == Ok::<RegExp<char>, ParseError>(*self),
    {
        let mut out = String::new();
        write_regexp(&mut out, self);
        proof {
            assert(out@ =~= rendered(*self));
            if lettered(*self) {
                lemma_text_spells(*self);
            }
        }
        out
    }
}

} // verus!
