//! Tokens and their kinds written out for a reader.

use crate::token::{lemma_token_view, views, Sub, SubMethod, Token, TokenType, TokenView};
use vstd::prelude::*;
use vstd::string::*;

verus! {

broadcast use lemma_token_view;

/// Values that can be written out, `n` levels deep in a tree.
pub trait Monitor {
    /// What is written for the value at depth `n`.
    spec fn shown(&self, n: nat) -> Seq<char>;

    /// Writes the value out as it stands at depth `n`.
    fn to_string(&self, n: usize) -> (r: String)
        ensures
            r@ == self.shown(n as nat),
    ;
}

/// The name of a kind of token.
pub open spec fn kind_name(typ: TokenType) -> Seq<char> {
    match typ {
        TokenType::NUMBER => "NUMBER"@,
        TokenType::ILLEGAL => "ILLEGAL"@,
        TokenType::SUBEXP => "SUB-EXPRESSION"@,
        TokenType::LPAREN => "LEFT-PARENTHESES"@,
        TokenType::RPAREN => "RIGHT-PARENTHESES"@,
        TokenType::POINTER => "POINTER"@,
        TokenType::IDENTIFIER => "IDENTIFIER"@,
        TokenType::PLUS => "PLUS"@,
        TokenType::MINUS => "MINUS"@,
        TokenType::PRODUCT => "PRODUCT"@,
        TokenType::DIVIDE => "DIVIDE"@,
        TokenType::PERCENTAGE => "PERCENTAGE"@,
        TokenType::POWER => "POWER"@,
        TokenType::LABS => "LEFT-ABS"@,
        TokenType::RABS => "RIGHT-ABS"@,
        TokenType::FACTORIAL => "FACTORIAL"@,
        TokenType::ASSIGN => "ASSIGN"@,
        TokenType::SQRT => "SQRT"@,
        TokenType::SIN => "SIN"@,
        TokenType::COS => "COS"@,
        TokenType::TAN => "TAN"@,
        TokenType::LOG => "LOG"@,
        TokenType::LN => "LN"@,
        TokenType::EXP => "EXP"@,
        TokenType::FLOOR => "FLOOR"@,
        TokenType::CEIL => "CEIL"@,
        TokenType::ROUND => "ROUND"@,
    }
}

/// The name of a method.
pub open spec fn method_name(method: SubMethod) -> Seq<char> {
    match method {
        SubMethod::ABS => "ABSOLUTE-VALUE"@,
        SubMethod::PAREN => "PARENTHESES"@,
    }
}

/// Two spaces for each of `n` levels.
pub open spec fn indent(n: nat) -> Seq<char>
    decreases n,
{
    if n == 0 {
        Seq::empty()
    } else {
        indent((n - 1) as nat) + "  "@
    }
}

/// The depth below depth `n`, as far as the machine counts.
pub open spec fn deeper(n: nat) -> nat {
    if n < usize::MAX {
        n + 1
    } else {
        n
    }
}

/// A token written out at depth `n`: the indent, the name of its kind
/// and its literal in brackets. A sub-expression has its method in place
/// of a literal, and each of its tokens on a line of its own, one level
/// deeper.
pub open spec fn token_text(t: TokenView, n: nat) -> Seq<char>
    decreases t,
{
    if t.typ != TokenType::SUBEXP {
        indent(n) + kind_name(t.typ) + "("@ + t.literal + ")"@
    } else {
        indent(n) + kind_name(t.typ) + " -> {"@ + method_name(t.sub.method) + "}"@ + lines_text(
            t.sub.tokens,
            deeper(n),
        )
    }
}

/// Tokens written out at depth `n`, each after a line break.
pub open spec fn lines_text(tokens: Seq<TokenView>, n: nat) -> Seq<char>
    decreases tokens,
{
    if tokens.len() == 0 {
        Seq::empty()
    } else {
        lines_text(tokens.drop_last(), n) + "\n"@ + token_text(tokens.last(), n)
    }
}

/// The name of a kind of token.
fn name_of(typ: TokenType) -> (r: &'static str)
    ensures
        r@ == kind_name(typ),
{
    match typ {
        TokenType::NUMBER => "NUMBER",
        TokenType::ILLEGAL => "ILLEGAL",
        TokenType::SUBEXP => "SUB-EXPRESSION",
        TokenType::LPAREN => "LEFT-PARENTHESES",
        TokenType::RPAREN => "RIGHT-PARENTHESES",
        TokenType::POINTER => "POINTER",
        TokenType::IDENTIFIER => "IDENTIFIER",
        TokenType::PLUS => "PLUS",
        TokenType::MINUS => "MINUS",
        TokenType::PRODUCT => "PRODUCT",
        TokenType::DIVIDE => "DIVIDE",
        TokenType::PERCENTAGE => "PERCENTAGE",
        TokenType::POWER => "POWER",
        TokenType::LABS => "LEFT-ABS",
        TokenType::RABS => "RIGHT-ABS",
        TokenType::FACTORIAL => "FACTORIAL",
        TokenType::ASSIGN => "ASSIGN",
        TokenType::SQRT => "SQRT",
        TokenType::SIN => "SIN",
        TokenType::COS => "COS",
        TokenType::TAN => "TAN",
        TokenType::LOG => "LOG",
        TokenType::LN => "LN",
        TokenType::EXP => "EXP",
        TokenType::FLOOR => "FLOOR",
        TokenType::CEIL => "CEIL",
        TokenType::ROUND => "ROUND",
    }
}

/// The name of a method.
fn name_of_method(method: SubMethod) -> (r: &'static str)
    ensures
        r@ == method_name(method),
{
    match method {
        SubMethod::ABS => "ABSOLUTE-VALUE",
        SubMethod::PAREN => "PARENTHESES",
    }
}

/// Appends a token as it is written out at depth `n`.
fn write_token(out: &mut String, t: &Token, n: usize)
    ensures
        final(out)@ == old(out)@ + token_text(t@, n as nat),
    decreases t,
{
    let ghost start = out@;
    let mut k: usize = 0;
    assert(out@ =~= start + indent(0));
    while k < n
        invariant
            k <= n,
            out@ == start + indent(k as nat),
        decreases n - k,
    {
        out.append("  ");
        assert(out@ =~= start + indent((k + 1) as nat));
        k += 1;
    }
    out.append(name_of(t.typ));
    if t.typ != TokenType::SUBEXP {
        out.append("(");
        out.append(t.literal.as_str());
        out.append(")");
        assert(out@ =~= start + token_text(t@, n as nat));
    } else {
        out.append(" -> {");
        out.append(name_of_method(t.sub.method));
        out.append("}");
        let ghost head = out@;
        let ghost all = views(t.sub.tokens@);
        let below: usize = if n < usize::MAX {
            n + 1
        } else {
            n
        };
        let mut i: usize = 0;
        assert(all.subrange(0, 0) =~= Seq::<TokenView>::empty());
        assert(out@ =~= head + lines_text(all.subrange(0, 0), below as nat));
        while i < t.sub.tokens.len()
            invariant
                i <= t.sub.tokens@.len(),
                all == views(t.sub.tokens@),
                out@ == head + lines_text(all.subrange(0, i as int), below as nat),
            decreases t.sub.tokens@.len() - i,
        {
            let ghost before = out@;
            out.append("\n");
            write_token(out, &t.sub.tokens[i], below);
            proof {
                let now = all.subrange(0, i + 1);
                assert(now.drop_last() =~= all.subrange(0, i as int));
                assert(now.last() == t.sub.tokens@[i as int]@);
                assert(out@ =~= head + lines_text(now, below as nat));
            }
            i += 1;
        }
        assert(all.subrange(0, all.len() as int) =~= all);
        assert(out@ =~= start + token_text(t@, n as nat));
    }
}

impl Monitor for Token {
    open spec fn shown(&self, n: nat) -> Seq<char> {
        token_text(self@, n)
    }

    fn to_string(&self, n: usize) -> (r: String) {
        let mut out = String::new();
        write_token(&mut out, self, n);
        assert(out@ =~= token_text(self@, n as nat));
        out
    }
}

impl Monitor for TokenType {
    /// The name of the kind, whatever the depth.
    open spec fn shown(&self, n: nat) -> Seq<char> {
        kind_name(*self)
    }

    fn to_string(&self, n: usize) -> (r: String) {
        String::from_str(name_of(*self))
    }
}

impl Monitor for Sub {
    /// The name of the sub-expression's method, whatever the depth.
    open spec fn shown(&self, n: nat) -> Seq<char> {
        method_name(self.method)
    }

    fn to_string(&self, n: usize) -> (r: String) {
        String::from_str(name_of_method(self.method))
    }
}

impl Monitor for SubMethod {
    /// The name of the method, whatever the depth.
    open spec fn shown(&self, n: nat) -> Seq<char> {
        method_name(*self)
    }

    fn to_string(&self, n: usize) -> (r: String) {
        String::from_str(name_of_method(*self))
    }
}

} // verus!
