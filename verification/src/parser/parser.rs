use vstd::prelude::*;
use crate::angle::{FloatOp, PI, apply, arith_ok, float_op, neg, spec_neg};
use crate::circuit::{Circuit, RegisterEntries, RegisterMap, inserted, lookup};
use crate::gate::{Angle, Gate, SpecGate, gates_view, keys_of};
use crate::parser::error::{ParseError, SpecParseError};
use crate::parser::lexer::{Lexer, SpecToken, Token, lemma_scan_token, lemma_skip, lex_from, reader_ok, scan_token, skip, tokens_view};
use crate::qubit::{BitKey, CbitRef, QubitRef};
use crate::text::{decimal_i64, spec_decimal};

verus! {

/// What `std` prints for `s` with `{:?}`: the text quoted, with escapes.
pub uninterp spec fn str_debug(s: Seq<char>) -> Seq<char>;

/// A renderer of binary64 numbers as text can be called on any number, and gives one
/// text for one number.
pub open spec fn shower_ok<S: Fn(Angle) -> String>(show: S) -> bool {
    &&& forall|x: Angle| #[trigger] show.requires((x,))
    &&& forall|x: Angle, r1: String, r2: String| #[trigger] show.ensures((x,), r1) && #[trigger] show.ensures((x,), r2) ==> r1@ == r2@
}

/// `show` can render `x` as `s`.
pub open spec fn shows_as<S: Fn(Angle) -> String>(show: S, x: Angle, s: Seq<char>) -> bool {
    exists|r: String| r@ == s && #[trigger] show.ensures((x,), r)
}

/// The text `show` renders `x` as.
pub open spec fn shown<S: Fn(Angle) -> String>(show: S, x: Angle) -> Seq<char> {
    choose|s: Seq<char>| #[trigger] shows_as(show, x, s)
}

/// How a token is printed in messages: its variant's name, with its contents in brackets.
pub open spec fn token_debug<S: Fn(Angle) -> String>(show: S, t: SpecToken) -> Seq<char> {
    match t {
        SpecToken::OpenQasm => "OpenQasm"@,
        SpecToken::Include => "Include"@,
        SpecToken::Qreg => "Qreg"@,
        SpecToken::Creg => "Creg"@,
        SpecToken::Barrier => "Barrier"@,
        SpecToken::Measure => "Measure"@,
        SpecToken::Reset => "Reset"@,
        SpecToken::If => "If"@,
        SpecToken::Gate => "Gate"@,
        SpecToken::Opaque => "Opaque"@,
        SpecToken::LParen => "LParen"@,
        SpecToken::RParen => "RParen"@,
        SpecToken::LBracket => "LBracket"@,
        SpecToken::RBracket => "RBracket"@,
        SpecToken::LBrace => "LBrace"@,
        SpecToken::RBrace => "RBrace"@,
        SpecToken::Semicolon => "Semicolon"@,
        SpecToken::Comma => "Comma"@,
        SpecToken::Arrow => "Arrow"@,
        SpecToken::Equals => "Equals"@,
        SpecToken::Plus => "Plus"@,
        SpecToken::Minus => "Minus"@,
        SpecToken::Star => "Star"@,
        SpecToken::Slash => "Slash"@,
        SpecToken::Caret => "Caret"@,
        SpecToken::Ident(s) => "Ident("@ + str_debug(s) + ")"@,
        SpecToken::Integer(n) => "Integer("@ + spec_decimal(n as int) + ")"@,
        SpecToken::Real(x) => "Real("@ + shown(show, x) + ")"@,
        SpecToken::StringLit(s) => "StringLit("@ + str_debug(s) + ")"@,
        SpecToken::Eof => "Eof"@,
    }
}

/// The token at position `p`; `Eof` past the end.
pub open spec fn tok(ts: Seq<SpecToken>, p: int) -> SpecToken {
    if 0 <= p < ts.len() { ts[p] } else { SpecToken::Eof }
}

/// The position after `p`; the last position stays put.
pub open spec fn adv(ts: Seq<SpecToken>, p: int) -> int {
    if p < ts.len() - 1 { p + 1 } else { p }
}

/// A syntax error, reported on line 0.
pub open spec fn unexpected(message: Seq<char>) -> SpecParseError {
    SpecParseError::UnexpectedToken { line: 0, message }
}

/// The error for a step that does not advance, which a token list ending in `Eof` never meets.
pub open spec fn stalled() -> SpecParseError {
    SpecParseError::Other(Seq::empty())
}

/// Consumes the token `e` at `p`.
pub open spec fn expect<S: Fn(Angle) -> String>(show: S, ts: Seq<SpecToken>, p: int, e: SpecToken) -> Result<int, SpecParseError> {
    if tok(ts, p) == e {
        Ok(adv(ts, p))
    } else {
        Err(unexpected("expected "@ + token_debug(show, e) + ", got "@ + token_debug(show, tok(ts, p))))
    }
}

/// Consumes an identifier at `p`.
pub open spec fn expect_ident<S: Fn(Angle) -> String>(show: S, ts: Seq<SpecToken>, p: int) -> Result<(Seq<char>, int), SpecParseError> {
    match tok(ts, p) {
        SpecToken::Ident(s) => Ok((s, adv(ts, p))),
        t => Err(unexpected("expected identifier, got "@ + token_debug(show, t))),
    }
}

/// Consumes a non-negative integer at `p`.
pub open spec fn expect_int<S: Fn(Angle) -> String>(show: S, ts: Seq<SpecToken>, p: int) -> Result<(usize, int), SpecParseError> {
    match tok(ts, p) {
        SpecToken::Integer(n) => if n >= 0 {
            Ok((n as usize, adv(ts, p)))
        } else {
            Err(unexpected("expected integer, got "@ + token_debug(show, SpecToken::Integer(n))))
        },
        t => Err(unexpected("expected integer, got "@ + token_debug(show, t))),
    }
}

/// The operation a function name in an expression stands for.
pub open spec fn function_op(s: Seq<char>) -> Option<FloatOp> {
    if s == "sin"@ {
        Some(FloatOp::Sin)
    } else if s == "cos"@ {
        Some(FloatOp::Cos)
    } else if s == "tan"@ {
        Some(FloatOp::Tan)
    } else if s == "exp"@ {
        Some(FloatOp::Exp)
    } else if s == "ln"@ {
        Some(FloatOp::Ln)
    } else if s == "sqrt"@ {
        Some(FloatOp::Sqrt)
    } else {
        None
    }
}

/// The operation an additive operator token stands for.
pub open spec fn additive_op(t: SpecToken) -> Option<FloatOp> {
    match t {
        SpecToken::Plus => Some(FloatOp::Add),
        SpecToken::Minus => Some(FloatOp::Sub),
        _ => None,
    }
}

/// The operation a multiplicative operator token stands for.
pub open spec fn multiplicative_op(t: SpecToken) -> Option<FloatOp> {
    match t {
        SpecToken::Star => Some(FloatOp::Mul),
        SpecToken::Slash => Some(FloatOp::Div),
        _ => None,
    }
}

/// A number, a bracketed expression, `pi`, or a function applied to a bracketed
/// expression, at `p`: its value and the position after it.
pub open spec fn primary<A: Fn(FloatOp, Angle, Angle) -> Angle, S: Fn(Angle) -> String>(
    arith: A,
    show: S,
    ts: Seq<SpecToken>,
    p: int,
) -> Result<(Angle, int), SpecParseError>
    decreases ts.len() - p, 0int,
{
    let p1 = adv(ts, p);
    match tok(ts, p) {
        SpecToken::Real(v) => Ok((v, p1)),
        SpecToken::Integer(n) => Ok((float_op(arith, FloatOp::FromInt, n as u64, 0), p1)),
        SpecToken::LParen => if p1 <= p {
            Err(stalled())
        } else {
            match expr(arith, show, ts, p1) {
                Ok((v, p2)) => match expect(show, ts, p2, SpecToken::RParen) {
                    Ok(p3) => Ok((v, p3)),
                    Err(e) => Err(e),
                },
                Err(e) => Err(e),
            }
        },
        SpecToken::Ident(s) => if s == "pi"@ {
            Ok((PI, p1))
        } else if function_op(s) is Some {
            if p1 <= p {
                Err(stalled())
            } else {
                match expect(show, ts, p1, SpecToken::LParen) {
                    Ok(p2) => match expr(arith, show, ts, p2) {
                        Ok((v, p3)) => match expect(show, ts, p3, SpecToken::RParen) {
                            Ok(p4) => Ok((float_op(arith, function_op(s)->0, v, 0), p4)),
                            Err(e) => Err(e),
                        },
                        Err(e) => Err(e),
                    },
                    Err(e) => Err(e),
                }
            }
        } else {
            Err(SpecParseError::InvalidParameter("unknown function: "@ + s))
        },
        t => Err(unexpected("expected number, got "@ + token_debug(show, t))),
    }
}

/// A primary, raised to the power of a unary expression when `^` follows: `^` binds
/// tightest and groups to the right.
pub open spec fn power<A: Fn(FloatOp, Angle, Angle) -> Angle, S: Fn(Angle) -> String>(
    arith: A,
    show: S,
    ts: Seq<SpecToken>,
    p: int,
) -> Result<(Angle, int), SpecParseError>
    decreases ts.len() - p, 1int,
{
    match primary(arith, show, ts, p) {
        Ok((v, q)) => if q < p || q > ts.len() {
            Err(stalled())
        } else if tok(ts, q) == SpecToken::Caret {
            let q1 = adv(ts, q);
            if q1 <= q {
                Err(stalled())
            } else {
                match unary(arith, show, ts, q1) {
                    Ok((w, r)) => Ok((float_op(arith, FloatOp::Pow, v, w), r)),
                    Err(e) => Err(e),
                }
            }
        } else {
            Ok((v, q))
        },
        Err(e) => Err(e),
    }
}

/// A power, negated when a minus comes first.
pub open spec fn unary<A: Fn(FloatOp, Angle, Angle) -> Angle, S: Fn(Angle) -> String>(
    arith: A,
    show: S,
    ts: Seq<SpecToken>,
    p: int,
) -> Result<(Angle, int), SpecParseError>
    decreases ts.len() - p, 2int,
{
    if tok(ts, p) == SpecToken::Minus {
        let p1 = adv(ts, p);
        if p1 <= p {
            Err(stalled())
        } else {
            match power(arith, show, ts, p1) {
                Ok((v, q)) => Ok((spec_neg(v), q)),
                Err(e) => Err(e),
            }
        }
    } else {
        power(arith, show, ts, p)
    }
}

/// The rest of a term whose value so far is `v`: `*` and `/` applied left to right.
pub open spec fn term_rest<A: Fn(FloatOp, Angle, Angle) -> Angle, S: Fn(Angle) -> String>(
    arith: A,
    show: S,
    ts: Seq<SpecToken>,
    p: int,
    v: Angle,
) -> Result<(Angle, int), SpecParseError>
    decreases ts.len() - p, 3int,
{
    match multiplicative_op(tok(ts, p)) {
        Some(op) => {
            let p1 = adv(ts, p);
            if p1 <= p {
                Err(stalled())
            } else {
                match unary(arith, show, ts, p1) {
                    Ok((w, q)) => if q < p1 || q > ts.len() {
                        Err(stalled())
                    } else {
                        term_rest(arith, show, ts, q, float_op(arith, op, v, w))
                    },
                    Err(e) => Err(e),
                }
            }
        },
        None => Ok((v, p)),
    }
}

/// A term at `p`: unary expressions joined by `*` and `/`.
pub open spec fn term<A: Fn(FloatOp, Angle, Angle) -> Angle, S: Fn(Angle) -> String>(
    arith: A,
    show: S,
    ts: Seq<SpecToken>,
    p: int,
) -> Result<(Angle, int), SpecParseError>
    decreases ts.len() - p, 4int,
{
    match unary(arith, show, ts, p) {
        Ok((v, q)) => if q < p || q > ts.len() {
            Err(stalled())
        } else {
            term_rest(arith, show, ts, q, v)
        },
        Err(e) => Err(e),
    }
}

/// The rest of an expression whose value so far is `v`: `+` and `-` applied left to right
/// to the terms that follow.
pub open spec fn expr_rest<A: Fn(FloatOp, Angle, Angle) -> Angle, S: Fn(Angle) -> String>(
    arith: A,
    show: S,
    ts: Seq<SpecToken>,
    p: int,
    v: Angle,
) -> Result<(Angle, int), SpecParseError>
    decreases ts.len() - p, 5int,
{
    match additive_op(tok(ts, p)) {
        Some(op) => {
            let p1 = adv(ts, p);
            if p1 <= p {
                Err(stalled())
            } else {
                match term(arith, show, ts, p1) {
                    Ok((w, q)) => if q < p1 || q > ts.len() {
                        Err(stalled())
                    } else {
                        expr_rest(arith, show, ts, q, float_op(arith, op, v, w))
                    },
                    Err(e) => Err(e),
                }
            }
        },
        None => Ok((v, p)),
    }
}

/// An expression at `p`: its value and the position after it. `^` binds tightest (to the
/// right), then a leading minus, then `*` and `/`, then `+` and `-` (both to the left).
pub open spec fn expr<A: Fn(FloatOp, Angle, Angle) -> Angle, S: Fn(Angle) -> String>(
    arith: A,
    show: S,
    ts: Seq<SpecToken>,
    p: int,
) -> Result<(Angle, int), SpecParseError>
    decreases ts.len() - p, 6int,
{
    match term(arith, show, ts, p) {
        Ok((v, q)) => if q < p || q > ts.len() {
            Err(stalled())
        } else {
            expr_rest(arith, show, ts, q, v)
        },
        Err(e) => Err(e),
    }
}

/// The rest of a parameter list from `p`, after the values `acc`: expressions separated
/// by commas, then a closing bracket.
pub open spec fn params_rest<A: Fn(FloatOp, Angle, Angle) -> Angle, S: Fn(Angle) -> String>(
    arith: A,
    show: S,
    ts: Seq<SpecToken>,
    p: int,
    acc: Seq<Angle>,
) -> Result<(Seq<Angle>, int), SpecParseError>
    decreases ts.len() - p,
{
    match expr(arith, show, ts, p) {
        Ok((v, q)) => if tok(ts, q) == SpecToken::Comma {
            let q1 = adv(ts, q);
            if q1 <= p {
                Err(stalled())
            } else {
                params_rest(arith, show, ts, q1, acc.push(v))
            }
        } else {
            match expect(show, ts, q, SpecToken::RParen) {
                Ok(q2) => Ok((acc.push(v), q2)),
                Err(e) => Err(e),
            }
        },
        Err(e) => Err(e),
    }
}

/// The bracketed parameter list at `p`, or none when no bracket opens there.
pub open spec fn params<A: Fn(FloatOp, Angle, Angle) -> Angle, S: Fn(Angle) -> String>(
    arith: A,
    show: S,
    ts: Seq<SpecToken>,
    p: int,
) -> Result<(Seq<Angle>, int), SpecParseError> {
    if tok(ts, p) == SpecToken::LParen {
        params_rest(arith, show, ts, adv(ts, p), Seq::empty())
    } else {
        Ok((Seq::empty(), p))
    }
}

/// A register name and a bracketed index at `p`: the name, the index and the position after.
pub open spec fn indexed<S: Fn(Angle) -> String>(show: S, ts: Seq<SpecToken>, p: int, regs: RegisterEntries) -> Result<(Seq<char>, usize, int), SpecParseError> {
    match expect_ident(show, ts, p) {
        Ok((reg, p1)) => if lookup(regs, reg) is None {
            Err(SpecParseError::UndefinedRegister(reg))
        } else {
            match expect(show, ts, p1, SpecToken::LBracket) {
                Ok(p2) => match expect_int(show, ts, p2) {
                    Ok((idx, p3)) => match expect(show, ts, p3, SpecToken::RBracket) {
                        Ok(p4) => Ok((reg, idx, p4)),
                        Err(e) => Err(e),
                    },
                    Err(e) => Err(e),
                },
                Err(e) => Err(e),
            }
        },
        Err(e) => Err(e),
    }
}

/// A qubit of a declared quantum register, within its size, at `p`.
pub open spec fn qubit_ref<S: Fn(Angle) -> String>(show: S, ts: Seq<SpecToken>, p: int, qregs: RegisterEntries) -> Result<(BitKey, int), SpecParseError> {
    match indexed(show, ts, p, qregs) {
        Ok((reg, idx, q)) => {
            let size = lookup(qregs, reg)->0;
            if idx >= size {
                Err(SpecParseError::IndexOutOfBounds { register: reg, index: idx, size })
            } else {
                Ok(((reg, idx), q))
            }
        },
        Err(e) => Err(e),
    }
}

/// A bit of a declared classical register at `p` (its index is not checked).
pub open spec fn cbit_ref<S: Fn(Angle) -> String>(show: S, ts: Seq<SpecToken>, p: int, cregs: RegisterEntries) -> Result<(BitKey, int), SpecParseError> {
    match indexed(show, ts, p, cregs) {
        Ok((reg, idx, q)) => Ok(((reg, idx), q)),
        Err(e) => Err(e),
    }
}

/// Qubits at `p` after `acc`, separated by commas: one or more.
pub open spec fn qubit_list<S: Fn(Angle) -> String>(show: S, ts: Seq<SpecToken>, p: int, qregs: RegisterEntries, acc: Seq<BitKey>) -> Result<(Seq<BitKey>, int), SpecParseError>
    decreases ts.len() - p,
{
    match qubit_ref(show, ts, p, qregs) {
        Ok((q, p1)) => if tok(ts, p1) == SpecToken::Comma {
            let p2 = adv(ts, p1);
            if p2 <= p {
                Err(stalled())
            } else {
                qubit_list(show, ts, p2, qregs, acc.push(q))
            }
        } else {
            Ok((acc.push(q), p1))
        },
        Err(e) => Err(e),
    }
}

/// The qubits of a custom gate at `p` after `acc`: as long as an identifier comes, a qubit
/// and then, if a comma follows, the next.
pub open spec fn custom_qubits<S: Fn(Angle) -> String>(show: S, ts: Seq<SpecToken>, p: int, qregs: RegisterEntries, acc: Seq<BitKey>) -> Result<(Seq<BitKey>, int), SpecParseError>
    decreases ts.len() - p,
{
    if tok(ts, p) is Ident {
        match qubit_ref(show, ts, p, qregs) {
            Ok((q, p1)) => if tok(ts, p1) == SpecToken::Comma {
                let p2 = adv(ts, p1);
                if p2 <= p {
                    Err(stalled())
                } else {
                    custom_qubits(show, ts, p2, qregs, acc.push(q))
                }
            } else {
                Ok((acc.push(q), p1))
            },
            Err(e) => Err(e),
        }
    } else {
        Ok((acc, p))
    }
}

/// The `i`-th parameter, or 0.
pub open spec fn param_or_zero(ps: Seq<Angle>, i: int) -> Angle {
    if 0 <= i < ps.len() { ps[i] } else { 0 }
}

/// `n` qubits at `p`, separated by commas.
pub open spec fn operands<S: Fn(Angle) -> String>(show: S, ts: Seq<SpecToken>, p: int, qregs: RegisterEntries, n: nat) -> Result<(Seq<BitKey>, int), SpecParseError>
    decreases n,
{
    if n <= 1 {
        match qubit_ref(show, ts, p, qregs) {
            Ok((q, p1)) => Ok((seq![q], p1)),
            Err(e) => Err(e),
        }
    } else {
        match operands(show, ts, p, qregs, (n - 1) as nat) {
            Ok((qs, p1)) => match expect(show, ts, p1, SpecToken::Comma) {
                Ok(p2) => match qubit_ref(show, ts, p2, qregs) {
                    Ok((q, p3)) => Ok((qs.push(q), p3)),
                    Err(e) => Err(e),
                },
                Err(e) => Err(e),
            },
            Err(e) => Err(e),
        }
    }
}

/// The number of qubits a standard gate name takes, or 0 for a name it does not know.
pub open spec fn arity(name: Seq<char>) -> nat {
    if name == "h"@ || name == "x"@ || name == "y"@ || name == "z"@ || name == "s"@ || name == "sdg"@
        || name == "t"@ || name == "tdg"@ || name == "rx"@ || name == "ry"@ || name == "rz"@
        || name == "u1"@ || name == "u2"@ || name == "u3"@ {
        1
    } else if name == "cx"@ || name == "cnot"@ || name == "cz"@ || name == "swap"@ {
        2
    } else if name == "ccx"@ || name == "toffoli"@ {
        3
    } else {
        0
    }
}

/// The standard gate `name` with parameters `ps` on qubits `qs`.
pub open spec fn standard_gate(name: Seq<char>, ps: Seq<Angle>, qs: Seq<BitKey>) -> SpecGate {
    if name == "h"@ {
        SpecGate::H(qs[0])
    } else if name == "x"@ {
        SpecGate::X(qs[0])
    } else if name == "y"@ {
        SpecGate::Y(qs[0])
    } else if name == "z"@ {
        SpecGate::Z(qs[0])
    } else if name == "s"@ {
        SpecGate::S(qs[0])
    } else if name == "sdg"@ {
        SpecGate::Sdg(qs[0])
    } else if name == "t"@ {
        SpecGate::T(qs[0])
    } else if name == "tdg"@ {
        SpecGate::Tdg(qs[0])
    } else if name == "rx"@ {
        SpecGate::Rx(param_or_zero(ps, 0), qs[0])
    } else if name == "ry"@ {
        SpecGate::Ry(param_or_zero(ps, 0), qs[0])
    } else if name == "rz"@ {
        SpecGate::Rz(param_or_zero(ps, 0), qs[0])
    } else if name == "u1"@ {
        SpecGate::U1(param_or_zero(ps, 0), qs[0])
    } else if name == "u2"@ {
        SpecGate::U2(param_or_zero(ps, 0), param_or_zero(ps, 1), qs[0])
    } else if name == "u3"@ {
        SpecGate::U3(param_or_zero(ps, 0), param_or_zero(ps, 1), param_or_zero(ps, 2), qs[0])
    } else if name == "cx"@ || name == "cnot"@ {
        SpecGate::Cx(qs[0], qs[1])
    } else if name == "cz"@ {
        SpecGate::Cz(qs[0], qs[1])
    } else if name == "swap"@ {
        SpecGate::Swap(qs[0], qs[1])
    } else {
        SpecGate::Ccx(qs[0], qs[1], qs[2])
    }
}

/// A call of gate `name` at `p` (after the name): parameters, then its qubits.
pub open spec fn gate_call<A: Fn(FloatOp, Angle, Angle) -> Angle, S: Fn(Angle) -> String>(
    arith: A,
    show: S,
    ts: Seq<SpecToken>,
    p: int,
    name: Seq<char>,
    qregs: RegisterEntries,
) -> Result<(SpecGate, int), SpecParseError> {
    match params(arith, show, ts, p) {
        Ok((ps, p1)) => if arity(name) > 0 {
            match operands(show, ts, p1, qregs, arity(name)) {
                Ok((qs, p2)) => Ok((standard_gate(name, ps, qs), p2)),
                Err(e) => Err(e),
            }
        } else {
            match custom_qubits(show, ts, p1, qregs, Seq::empty()) {
                Ok((qs, p2)) => Ok((SpecGate::Custom { name, params: ps, qubits: qs }, p2)),
                Err(e) => Err(e),
            }
        },
        Err(e) => Err(e),
    }
}

/// The position of the first `}` or `Eof` from `p` on.
pub open spec fn skip_to_brace(ts: Seq<SpecToken>, p: int) -> int
    decreases ts.len() - p,
{
    if tok(ts, p) is RBrace || tok(ts, p) is Eof || adv(ts, p) <= p {
        p
    } else {
        skip_to_brace(ts, adv(ts, p))
    }
}

/// The position of the first `;` or `Eof` from `p` on.
pub open spec fn skip_to_semicolon(ts: Seq<SpecToken>, p: int) -> int
    decreases ts.len() - p,
{
    if tok(ts, p) is Semicolon || tok(ts, p) is Eof || adv(ts, p) <= p {
        p
    } else {
        skip_to_semicolon(ts, adv(ts, p))
    }
}

/// What a program declares and does: its quantum registers, classical registers and gates.
pub type Program = (RegisterEntries, RegisterEntries, Seq<SpecGate>);

/// A register declaration at `p` (after its keyword): name, bracketed size, semicolon.
pub open spec fn declaration<S: Fn(Angle) -> String>(show: S, ts: Seq<SpecToken>, p: int) -> Result<(Seq<char>, usize, int), SpecParseError> {
    match expect_ident(show, ts, p) {
        Ok((name, p1)) => match expect(show, ts, p1, SpecToken::LBracket) {
            Ok(p2) => match expect_int(show, ts, p2) {
                Ok((size, p3)) => match expect(show, ts, p3, SpecToken::RBracket) {
                    Ok(p4) => match expect(show, ts, p4, SpecToken::Semicolon) {
                        Ok(p5) => Ok((name, size, p5)),
                        Err(e) => Err(e),
                    },
                    Err(e) => Err(e),
                },
                Err(e) => Err(e),
            },
            Err(e) => Err(e),
        },
        Err(e) => Err(e),
    }
}

/// The statement at `p`, whose first token is not `Eof`: the program after it, and the
/// position after it.
pub open spec fn statement<A: Fn(FloatOp, Angle, Angle) -> Angle, S: Fn(Angle) -> String>(
    arith: A,
    show: S,
    ts: Seq<SpecToken>,
    p: int,
    prog: Program,
) -> Result<(Program, int), SpecParseError> {
    let (qregs, cregs, gates) = prog;
    let p1 = adv(ts, p);
    match tok(ts, p) {
        SpecToken::Include => match expect(show, ts, adv(ts, p1), SpecToken::Semicolon) {
            Ok(q) => Ok((prog, q)),
            Err(e) => Err(e),
        },
        SpecToken::Qreg => match declaration(show, ts, p1) {
            Ok((name, size, q)) => Ok(((inserted(qregs, name, size), cregs, gates), q)),
            Err(e) => Err(e),
        },
        SpecToken::Creg => match declaration(show, ts, p1) {
            Ok((name, size, q)) => Ok(((qregs, inserted(cregs, name, size), gates), q)),
            Err(e) => Err(e),
        },
        SpecToken::Gate => {
            let q = skip_to_brace(ts, p1);
            Ok((prog, if tok(ts, q) is RBrace { adv(ts, q) } else { q }))
        },
        SpecToken::Opaque => {
            let q = skip_to_semicolon(ts, p1);
            Ok((prog, if tok(ts, q) is Semicolon { adv(ts, q) } else { q }))
        },
        SpecToken::Barrier => match qubit_list(show, ts, p1, qregs, Seq::empty()) {
            Ok((qs, q)) => match expect(show, ts, q, SpecToken::Semicolon) {
                Ok(q2) => Ok(((qregs, cregs, gates.push(SpecGate::Barrier(qs))), q2)),
                Err(e) => Err(e),
            },
            Err(e) => Err(e),
        },
        SpecToken::Measure => match qubit_ref(show, ts, p1, qregs) {
            Ok((qb, q)) => match expect(show, ts, q, SpecToken::Arrow) {
                Ok(q2) => match cbit_ref(show, ts, q2, cregs) {
                    Ok((cb, q3)) => match expect(show, ts, q3, SpecToken::Semicolon) {
                        Ok(q4) => Ok(((qregs, cregs, gates.push(SpecGate::Measure(qb, cb))), q4)),
                        Err(e) => Err(e),
                    },
                    Err(e) => Err(e),
                },
                Err(e) => Err(e),
            },
            Err(e) => Err(e),
        },
        SpecToken::Reset => match qubit_ref(show, ts, p1, qregs) {
            Ok((qb, q)) => match expect(show, ts, q, SpecToken::Semicolon) {
                Ok(q2) => Ok(((qregs, cregs, gates.push(SpecGate::Reset(qb))), q2)),
                Err(e) => Err(e),
            },
            Err(e) => Err(e),
        },
        SpecToken::Ident(name) => match gate_call(arith, show, ts, p1, name, qregs) {
            Ok((g, q)) => match expect(show, ts, q, SpecToken::Semicolon) {
                Ok(q2) => Ok(((qregs, cregs, gates.push(g)), q2)),
                Err(e) => Err(e),
            },
            Err(e) => Err(e),
        },
        _ => Ok((prog, p1)),
    }
}

/// The statements from `p` to `Eof`, applied in order to `prog`.
pub open spec fn statements<A: Fn(FloatOp, Angle, Angle) -> Angle, S: Fn(Angle) -> String>(
    arith: A,
    show: S,
    ts: Seq<SpecToken>,
    p: int,
    prog: Program,
) -> Result<Program, SpecParseError>
    decreases ts.len() - p,
{
    if tok(ts, p) is Eof {
        Ok(prog)
    } else {
        match statement(arith, show, ts, p, prog) {
            Ok((next, q)) => if q <= p || q > ts.len() {
                Err(stalled())
            } else {
                statements(arith, show, ts, q, next)
            },
            Err(e) => Err(e),
        }
    }
}

/// A whole program: an optional `OPENQASM` header (keyword, version, semicolon), then
/// statements, starting with no registers and no gates.
pub open spec fn program<A: Fn(FloatOp, Angle, Angle) -> Angle, S: Fn(Angle) -> String>(
    arith: A,
    show: S,
    ts: Seq<SpecToken>,
) -> Result<Program, SpecParseError> {
    let empty: Program = (Seq::empty(), Seq::empty(), Seq::empty());
    if tok(ts, 0) is OpenQasm {
        match expect(show, ts, adv(ts, adv(ts, 0)), SpecToken::Semicolon) {
            Ok(p) => statements(arith, show, ts, p, empty),
            Err(e) => Err(e),
        }
    } else {
        statements(arith, show, ts, 0, empty)
    }
}

/// OpenQASM text read into a program: tokens, then statements.
pub open spec fn parse_text<A: Fn(FloatOp, Angle, Angle) -> Angle, R: Fn(&String) -> Angle, S: Fn(Angle) -> String>(
    arith: A,
    read: R,
    show: S,
    source: Seq<char>,
) -> Result<Program, SpecParseError> {
    match lex_from(read, source, 0, 1) {
        Ok(ts) => program(arith, show, ts),
        Err(e) => Err(e),
    }
}

/// `std`'s `{:?}` for a string: the text quoted, with escapes.
#[verifier::external_body]
fn debug_str(s: &str) -> (r: String)
    ensures
        r@ == str_debug(s@),
{
    format!("{:?}", s)
}

/// Renders `x` with `show`.
fn show_real<S: Fn(Angle) -> String>(show: &S, x: Angle) -> (r: String)
    requires
        shower_ok(*show),
    ensures
        r@ == shown(*show, x),
{
    let r = show(x);
    proof {
        assert(shows_as(*show, x, r@));
        let c = choose|c: Seq<char>| #[trigger] shows_as(*show, x, c);
        let t = choose|t: String| t@ == c && #[trigger] show.ensures((x,), t);
        assert(show.ensures((x,), t));
    }
    r
}

/// How `t` is printed in messages.
fn debug_token<S: Fn(Angle) -> String>(t: &Token, show: &S) -> (r: String)
    requires
        shower_ok(*show),
    ensures
        r@ == token_debug(*show, t@),
{
    let name = match t {
        Token::OpenQasm => "OpenQasm",
        Token::Include => "Include",
        Token::Qreg => "Qreg",
        Token::Creg => "Creg",
        Token::Barrier => "Barrier",
        Token::Measure => "Measure",
        Token::Reset => "Reset",
        Token::If => "If",
        Token::Gate => "Gate",
        Token::Opaque => "Opaque",
        Token::LParen => "LParen",
        Token::RParen => "RParen",
        Token::LBracket => "LBracket",
        Token::RBracket => "RBracket",
        Token::LBrace => "LBrace",
        Token::RBrace => "RBrace",
        Token::Semicolon => "Semicolon",
        Token::Comma => "Comma",
        Token::Arrow => "Arrow",
        Token::Equals => "Equals",
        Token::Plus => "Plus",
        Token::Minus => "Minus",
        Token::Star => "Star",
        Token::Slash => "Slash",
        Token::Caret => "Caret",
        Token::Eof => "Eof",
        Token::Ident(s) => {
            let mut r = String::from_str("Ident(");
            r.append(debug_str(s.as_str()).as_str());
            r.append(")");
            return r;
        },
        Token::Integer(n) => {
            let mut r = String::from_str("Integer(");
            r.append(decimal_i64(*n).as_str());
            r.append(")");
            return r;
        },
        Token::Real(x) => {
            let mut r = String::from_str("Real(");
            r.append(show_real(show, *x).as_str());
            r.append(")");
            return r;
        },
        Token::StringLit(s) => {
            let mut r = String::from_str("StringLit(");
            r.append(debug_str(s.as_str()).as_str());
            r.append(")");
            return r;
        },
    };
    String::from_str(name)
}

/// A syntax error whose message is `prefix` then how `t` is printed.
fn unexpected_token<S: Fn(Angle) -> String>(prefix: &str, t: &Token, show: &S) -> (e: ParseError)
    requires
        shower_ok(*show),
    ensures
        e@ == unexpected(prefix@ + token_debug(*show, t@)),
{
    let mut message = String::from_str(prefix);
    message.append(debug_token(t, show).as_str());
    ParseError::UnexpectedToken { line: 0, message }
}

/// Reads a token list that ends with `Eof`.
struct Parser {
    tokens: Vec<Token>,
    pos: usize,
}

impl Parser {
    spec fn toks(&self) -> Seq<SpecToken> {
        tokens_view(self.tokens@)
    }

    spec fn wf(&self) -> bool {
        &&& self.tokens@.len() >= 1
        &&& self.toks().last() is Eof
        &&& self.pos < self.tokens@.len()
    }

    fn peek(&self) -> (t: &Token)
        requires
            self.wf(),
        ensures
            t@ == tok(self.toks(), self.pos as int),
    {
        &self.tokens[self.pos]
    }

    fn advance(&mut self) -> (t: Token)
        requires
            old(self).wf(),
        ensures
            final(self).wf(),
            final(self).tokens == old(self).tokens,
            t@ == tok(old(self).toks(), old(self).pos as int),
            final(self).pos == adv(old(self).toks(), old(self).pos as int),
            !(t@ is Eof) ==> final(self).pos == old(self).pos + 1,
    {
        let t = self.tokens[self.pos].clone();
        if self.pos < self.tokens.len() - 1 {
            self.pos += 1;
        }
        proof {
            let ts = old(self).toks();
            if old(self).pos == ts.len() - 1 {
                assert(ts[old(self).pos as int] == ts.last());
            }
        }
        t
    }

    fn expect<S: Fn(Angle) -> String>(&mut self, expected: &Token, show: &S) -> (r: Result<(), ParseError>)
        requires
            old(self).wf(),
            shower_ok(*show),
        ensures
            final(self).wf(),
            final(self).tokens == old(self).tokens,
            old(self).pos <= final(self).pos,
            match expect(*show, old(self).toks(), old(self).pos as int, expected@) {
                Ok(q) => r is Ok && final(self).pos == q,
                Err(e) => r matches Err(x) && x@ == e,
            },
    {
        if self.peek().same_as(expected) {
            self.advance();
            Ok(())
        } else {
            let mut message = String::from_str("expected ");
            message.append(debug_token(expected, show).as_str());
            message.append(", got ");
            message.append(debug_token(self.peek(), show).as_str());
            Err(ParseError::UnexpectedToken { line: 0, message })
        }
    }

    fn expect_ident<S: Fn(Angle) -> String>(&mut self, show: &S) -> (r: Result<String, ParseError>)
        requires
            old(self).wf(),
            shower_ok(*show),
        ensures
            final(self).wf(),
            final(self).tokens == old(self).tokens,
            old(self).pos <= final(self).pos,
            match expect_ident(*show, old(self).toks(), old(self).pos as int) {
                Ok((s, q)) => r matches Ok(x) && x@ == s && final(self).pos == q,
                Err(e) => r matches Err(x) && x@ == e,
            },
    {
        match self.advance() {
            Token::Ident(s) => Ok(s),
            other => Err(unexpected_token("expected identifier, got ", &other, show)),
        }
    }

    fn expect_int<S: Fn(Angle) -> String>(&mut self, show: &S) -> (r: Result<usize, ParseError>)
        requires
            old(self).wf(),
            shower_ok(*show),
        ensures
            final(self).wf(),
            final(self).tokens == old(self).tokens,
            old(self).pos <= final(self).pos,
            match expect_int(*show, old(self).toks(), old(self).pos as int) {
                Ok((n, q)) => r matches Ok(x) && x == n && final(self).pos == q,
                Err(e) => r matches Err(x) && x@ == e,
            },
    {
        match self.advance() {
            Token::Integer(n) => {
                if n >= 0 {
                    Ok(n as usize)
                } else {
                    Err(unexpected_token("expected integer, got ", &Token::Integer(n), show))
                }
            },
            other => Err(unexpected_token("expected integer, got ", &other, show)),
        }
    }

    fn parse_primary<A: Fn(FloatOp, Angle, Angle) -> Angle, S: Fn(Angle) -> String>(&mut self, arith: &A, show: &S) -> (r: Result<Angle, ParseError>)
        requires
            old(self).wf(),
            arith_ok(*arith),
            shower_ok(*show),
        ensures
            final(self).wf(),
            final(self).tokens == old(self).tokens,
            old(self).pos <= final(self).pos,
            match primary(*arith, *show, old(self).toks(), old(self).pos as int) {
                Ok((v, q)) => r matches Ok(x) && x == v && final(self).pos == q,
                Err(e) => r matches Err(x) && x@ == e,
            },
        decreases old(self).tokens@.len() - old(self).pos, 0int,
    {
        let ghost p0 = self.pos as int;
        match self.advance() {
            Token::Real(v) => Ok(v),
            Token::Integer(n) => Ok(apply(arith, FloatOp::FromInt, n as u64, 0)),
            Token::LParen => {
                let v = match self.parse_expr(arith, show) {
                    Ok(v) => v,
                    Err(e) => return Err(e),
                };
                match self.expect(&Token::RParen, show) {
                    Ok(()) => Ok(v),
                    Err(e) => Err(e),
                }
            },
            Token::Ident(s) => {
                if s == String::from_str("pi") {
                    return Ok(PI);
                }
                let op = if s == String::from_str("sin") {
                    FloatOp::Sin
                } else if s == String::from_str("cos") {
                    FloatOp::Cos
                } else if s == String::from_str("tan") {
                    FloatOp::Tan
                } else if s == String::from_str("exp") {
                    FloatOp::Exp
                } else if s == String::from_str("ln") {
                    FloatOp::Ln
                } else if s == String::from_str("sqrt") {
                    FloatOp::Sqrt
                } else {
                    let mut message = String::from_str("unknown function: ");
                    message.append(s.as_str());
                    return Err(ParseError::InvalidParameter(message));
                };
                match self.expect(&Token::LParen, show) {
                    Ok(()) => {},
                    Err(e) => return Err(e),
                }
                let v = match self.parse_expr(arith, show) {
                    Ok(v) => v,
                    Err(e) => return Err(e),
                };
                match self.expect(&Token::RParen, show) {
                    Ok(()) => Ok(apply(arith, op, v, 0)),
                    Err(e) => Err(e),
                }
            },
            other => Err(unexpected_token("expected number, got ", &other, show)),
        }
    }

    fn parse_power<A: Fn(FloatOp, Angle, Angle) -> Angle, S: Fn(Angle) -> String>(&mut self, arith: &A, show: &S) -> (r: Result<Angle, ParseError>)
        requires
            old(self).wf(),
            arith_ok(*arith),
            shower_ok(*show),
        ensures
            final(self).wf(),
            final(self).tokens == old(self).tokens,
            old(self).pos <= final(self).pos,
            match power(*arith, *show, old(self).toks(), old(self).pos as int) {
                Ok((v, q)) => r matches Ok(x) && x == v && final(self).pos == q,
                Err(e) => r matches Err(x) && x@ == e,
            },
        decreases old(self).tokens@.len() - old(self).pos, 1int,
    {
        let v = match self.parse_primary(arith, show) {
            Ok(v) => v,
            Err(e) => return Err(e),
        };
        if self.peek().same_as(&Token::Caret) {
            self.advance();
            match self.parse_unary(arith, show) {
                Ok(w) => Ok(apply(arith, FloatOp::Pow, v, w)),
                Err(e) => Err(e),
            }
        } else {
            Ok(v)
        }
    }

    fn parse_unary<A: Fn(FloatOp, Angle, Angle) -> Angle, S: Fn(Angle) -> String>(&mut self, arith: &A, show: &S) -> (r: Result<Angle, ParseError>)
        requires
            old(self).wf(),
            arith_ok(*arith),
            shower_ok(*show),
        ensures
            final(self).wf(),
            final(self).tokens == old(self).tokens,
            old(self).pos <= final(self).pos,
            match unary(*arith, *show, old(self).toks(), old(self).pos as int) {
                Ok((v, q)) => r matches Ok(x) && x == v && final(self).pos == q,
                Err(e) => r matches Err(x) && x@ == e,
            },
        decreases old(self).tokens@.len() - old(self).pos, 2int,
    {
        if self.peek().same_as(&Token::Minus) {
            self.advance();
            return match self.parse_power(arith, show) {
                Ok(v) => Ok(neg(v)),
                Err(e) => Err(e),
            };
        }
        self.parse_power(arith, show)
    }

    fn parse_term<A: Fn(FloatOp, Angle, Angle) -> Angle, S: Fn(Angle) -> String>(&mut self, arith: &A, show: &S) -> (r: Result<Angle, ParseError>)
        requires
            old(self).wf(),
            arith_ok(*arith),
            shower_ok(*show),
        ensures
            final(self).wf(),
            final(self).tokens == old(self).tokens,
            old(self).pos <= final(self).pos,
            match term(*arith, *show, old(self).toks(), old(self).pos as int) {
                Ok((v, q)) => r matches Ok(x) && x == v && final(self).pos == q,
                Err(e) => r matches Err(x) && x@ == e,
            },
        decreases old(self).tokens@.len() - old(self).pos, 4int,
    {
        let ghost ts = self.toks();
        let ghost p0 = self.pos as int;
        let mut val = match self.parse_unary(arith, show) {
            Ok(v) => v,
            Err(e) => return Err(e),
        };
        loop
            invariant
                self.wf(),
                self.tokens == old(self).tokens,
                ts == self.toks(),
                p0 == old(self).pos,
                p0 <= self.pos,
                arith_ok(*arith),
                shower_ok(*show),
                term(*arith, *show, ts, p0) == term_rest(*arith, *show, ts, self.pos as int, val),
            decreases self.tokens@.len() - self.pos,
        {
            let op = match self.peek() {
                Token::Star => FloatOp::Mul,
                Token::Slash => FloatOp::Div,
                _ => {
                    return Ok(val);
                },
            };
            self.advance();
            let w = match self.parse_unary(arith, show) {
                Ok(w) => w,
                Err(e) => return Err(e),
            };
            val = apply(arith, op, val, w);
        }
    }

    fn parse_expr<A: Fn(FloatOp, Angle, Angle) -> Angle, S: Fn(Angle) -> String>(&mut self, arith: &A, show: &S) -> (r: Result<Angle, ParseError>)
        requires
            old(self).wf(),
            arith_ok(*arith),
            shower_ok(*show),
        ensures
            final(self).wf(),
            final(self).tokens == old(self).tokens,
            old(self).pos <= final(self).pos,
            match expr(*arith, *show, old(self).toks(), old(self).pos as int) {
                Ok((v, q)) => r matches Ok(x) && x == v && final(self).pos == q,
                Err(e) => r matches Err(x) && x@ == e,
            },
        decreases old(self).tokens@.len() - old(self).pos, 6int,
    {
        let ghost ts = self.toks();
        let ghost p0 = self.pos as int;
        let mut val = match self.parse_term(arith, show) {
            Ok(v) => v,
            Err(e) => return Err(e),
        };
        loop
            invariant
                self.wf(),
                self.tokens == old(self).tokens,
                ts == self.toks(),
                p0 == old(self).pos,
                p0 <= self.pos,
                arith_ok(*arith),
                shower_ok(*show),
                expr(*arith, *show, ts, p0) == expr_rest(*arith, *show, ts, self.pos as int, val),
            decreases self.tokens@.len() - self.pos,
        {
            let op = match self.peek() {
                Token::Plus => FloatOp::Add,
                Token::Minus => FloatOp::Sub,
                _ => {
                    return Ok(val);
                },
            };
            self.advance();
            let w = match self.parse_term(arith, show) {
                Ok(w) => w,
                Err(e) => return Err(e),
            };
            val = apply(arith, op, val, w);
        }
    }

    fn parse_params<A: Fn(FloatOp, Angle, Angle) -> Angle, S: Fn(Angle) -> String>(&mut self, arith: &A, show: &S) -> (r: Result<Vec<Angle>, ParseError>)
        requires
            old(self).wf(),
            arith_ok(*arith),
            shower_ok(*show),
        ensures
            final(self).wf(),
            final(self).tokens == old(self).tokens,
            old(self).pos <= final(self).pos,
            match params(*arith, *show, old(self).toks(), old(self).pos as int) {
                Ok((ps, q)) => r matches Ok(x) && x@ == ps && final(self).pos == q,
                Err(e) => r matches Err(x) && x@ == e,
            },
    {
        let ghost ts = self.toks();
        if !self.peek().same_as(&Token::LParen) {
            return Ok(Vec::new());
        }
        self.advance();
        let mut ps: Vec<Angle> = Vec::new();
        loop
            invariant
                self.wf(),
                self.tokens == old(self).tokens,
                ts == self.toks(),
                old(self).pos <= self.pos,
                arith_ok(*arith),
                shower_ok(*show),
                params(*arith, *show, ts, old(self).pos as int) == params_rest(*arith, *show, ts, self.pos as int, ps@),
            decreases self.tokens@.len() - self.pos,
        {
            let v = match self.parse_expr(arith, show) {
                Ok(v) => v,
                Err(e) => return Err(e),
            };
            ps.push(v);
            if self.peek().same_as(&Token::Comma) {
                self.advance();
            } else {
                return match self.expect(&Token::RParen, show) {
                    Ok(()) => Ok(ps),
                    Err(e) => Err(e),
                };
            }
        }
    }

    /// A register name and bracketed index, the register declared in `regs`.
    fn parse_indexed<S: Fn(Angle) -> String>(&mut self, regs: &RegisterMap, show: &S) -> (r: Result<(String, usize), ParseError>)
        requires
            old(self).wf(),
            shower_ok(*show),
        ensures
            final(self).wf(),
            final(self).tokens == old(self).tokens,
            old(self).pos <= final(self).pos,
            match indexed(*show, old(self).toks(), old(self).pos as int, regs@) {
                Ok((reg, idx, q)) => r matches Ok(x) && x.0@ == reg && x.1 == idx && final(self).pos == q,
                Err(e) => r matches Err(x) && x@ == e,
            },
    {
        let reg = match self.expect_ident(show) {
            Ok(s) => s,
            Err(e) => return Err(e),
        };
        if !regs.contains_key(reg.as_str()) {
            return Err(ParseError::UndefinedRegister(reg));
        }
        match self.expect(&Token::LBracket, show) {
            Ok(()) => {},
            Err(e) => return Err(e),
        }
        let idx = match self.expect_int(show) {
            Ok(n) => n,
            Err(e) => return Err(e),
        };
        match self.expect(&Token::RBracket, show) {
            Ok(()) => Ok((reg, idx)),
            Err(e) => Err(e),
        }
    }

    fn parse_qubit_ref<S: Fn(Angle) -> String>(&mut self, circuit: &Circuit, show: &S) -> (r: Result<QubitRef, ParseError>)
        requires
            old(self).wf(),
            shower_ok(*show),
        ensures
            final(self).wf(),
            final(self).tokens == old(self).tokens,
            old(self).pos <= final(self).pos,
            match qubit_ref(*show, old(self).toks(), old(self).pos as int, circuit.qregs@) {
                Ok((k, q)) => r matches Ok(x) && x@ == k && final(self).pos == q,
                Err(e) => r matches Err(x) && x@ == e,
            },
    {
        let (reg, idx) = match self.parse_indexed(&circuit.qregs, show) {
            Ok(x) => x,
            Err(e) => return Err(e),
        };
        let size = match circuit.qregs.get(reg.as_str()) {
            Some(n) => n,
            None => 0,
        };
        if idx >= size {
            return Err(ParseError::IndexOutOfBounds { register: reg, index: idx, size });
        }
        Ok(QubitRef::new(reg.as_str(), idx))
    }

    fn parse_cbit_ref<S: Fn(Angle) -> String>(&mut self, circuit: &Circuit, show: &S) -> (r: Result<CbitRef, ParseError>)
        requires
            old(self).wf(),
            shower_ok(*show),
        ensures
            final(self).wf(),
            final(self).tokens == old(self).tokens,
            old(self).pos <= final(self).pos,
            match cbit_ref(*show, old(self).toks(), old(self).pos as int, circuit.cregs@) {
                Ok((k, q)) => r matches Ok(x) && x@ == k && final(self).pos == q,
                Err(e) => r matches Err(x) && x@ == e,
            },
    {
        match self.parse_indexed(&circuit.cregs, show) {
            Ok((reg, idx)) => Ok(CbitRef::new(reg.as_str(), idx)),
            Err(e) => Err(e),
        }
    }

    /// `n` qubits separated by commas.
    fn parse_operands<S: Fn(Angle) -> String>(&mut self, circuit: &Circuit, n: usize, show: &S) -> (r: Result<Vec<QubitRef>, ParseError>)
        requires
            old(self).wf(),
            shower_ok(*show),
            1 <= n,
        ensures
            final(self).wf(),
            final(self).tokens == old(self).tokens,
            old(self).pos <= final(self).pos,
            match operands(*show, old(self).toks(), old(self).pos as int, circuit.qregs@, n as nat) {
                Ok((qs, q)) => r matches Ok(x) && keys_of(x@) == qs && final(self).pos == q,
                Err(e) => r matches Err(x) && x@ == e,
            },
            r matches Ok(x) ==> x@.len() == n,
        decreases n,
    {
        if n == 1 {
            return match self.parse_qubit_ref(circuit, show) {
                Ok(q) => {
                    let mut v: Vec<QubitRef> = Vec::new();
                    v.push(q);
                    proof { assert(keys_of(v@) =~= seq![v@[0]@]); }
                    Ok(v)
                },
                Err(e) => Err(e),
            };
        }
        let mut qs = match self.parse_operands(circuit, n - 1, show) {
            Ok(qs) => qs,
            Err(e) => return Err(e),
        };
        match self.expect(&Token::Comma, show) {
            Ok(()) => {},
            Err(e) => return Err(e),
        }
        match self.parse_qubit_ref(circuit, show) {
            Ok(q) => {
                let ghost before = qs@;
                qs.push(q);
                proof { assert(keys_of(qs@) =~= keys_of(before).push(qs@.last()@)); }
                Ok(qs)
            },
            Err(e) => Err(e),
        }
    }

    /// The qubits of a custom gate: while an identifier comes, a qubit and an optional comma.
    fn parse_custom_qubits<S: Fn(Angle) -> String>(&mut self, circuit: &Circuit, show: &S) -> (r: Result<Vec<QubitRef>, ParseError>)
        requires
            old(self).wf(),
            shower_ok(*show),
        ensures
            final(self).wf(),
            final(self).tokens == old(self).tokens,
            old(self).pos <= final(self).pos,
            match custom_qubits(*show, old(self).toks(), old(self).pos as int, circuit.qregs@, Seq::empty()) {
                Ok((qs, q)) => r matches Ok(x) && keys_of(x@) == qs && final(self).pos == q,
                Err(e) => r matches Err(x) && x@ == e,
            },
    {
        let ghost ts = self.toks();
        let mut qs: Vec<QubitRef> = Vec::new();
        proof { assert(keys_of(qs@) =~= Seq::<BitKey>::empty()); }
        loop
            invariant
                self.wf(),
                self.tokens == old(self).tokens,
                ts == self.toks(),
                old(self).pos <= self.pos,
                shower_ok(*show),
                custom_qubits(*show, ts, old(self).pos as int, circuit.qregs@, Seq::empty())
                    == custom_qubits(*show, ts, self.pos as int, circuit.qregs@, keys_of(qs@)),
            decreases self.tokens@.len() - self.pos,
        {
            let is_ident = match self.peek() {
                Token::Ident(_) => true,
                _ => false,
            };
            if !is_ident {
                return Ok(qs);
            }
            let q = match self.parse_qubit_ref(circuit, show) {
                Ok(q) => q,
                Err(e) => return Err(e),
            };
            let ghost before = qs@;
            qs.push(q);
            proof { assert(keys_of(qs@) =~= keys_of(before).push(qs@.last()@)); }
            if self.peek().same_as(&Token::Comma) {
                self.advance();
            } else {
                return Ok(qs);
            }
        }
    }

    fn parse_gate_call<A: Fn(FloatOp, Angle, Angle) -> Angle, S: Fn(Angle) -> String>(
        &mut self,
        name: &String,
        circuit: &Circuit,
        arith: &A,
        show: &S,
    ) -> (r: Result<Gate, ParseError>)
        requires
            old(self).wf(),
            arith_ok(*arith),
            shower_ok(*show),
        ensures
            final(self).wf(),
            final(self).tokens == old(self).tokens,
            old(self).pos <= final(self).pos,
            match gate_call(*arith, *show, old(self).toks(), old(self).pos as int, name@, circuit.qregs@) {
                Ok((g, q)) => r matches Ok(x) && x@ == g && final(self).pos == q,
                Err(e) => r matches Err(x) && x@ == e,
            },
    {
        let params = match self.parse_params(arith, show) {
            Ok(ps) => ps,
            Err(e) => return Err(e),
        };
        let n = gate_arity(name);
        if n > 0 {
            match self.parse_operands(circuit, n, show) {
                Ok(qs) => Ok(standard_gate_of(name, &params, qs)),
                Err(e) => Err(e),
            }
        } else {
            match self.parse_custom_qubits(circuit, show) {
                Ok(qs) => Ok(Gate::Custom { name: name.clone(), params, qubits: qs }),
                Err(e) => Err(e),
            }
        }
    }
}

/// Whether `s` is the text `lit`.
fn is_word(s: &String, lit: &str) -> (b: bool)
    ensures
        b == (s@ == lit@),
{
    *s == String::from_str(lit)
}

/// The number of qubits the standard gate `name` takes, or 0.
fn gate_arity(name: &String) -> (n: usize)
    ensures
        n == arity(name@),
{
    if is_word(name, "h") || is_word(name, "x") || is_word(name, "y") || is_word(name, "z") || is_word(name, "s")
        || is_word(name, "sdg") || is_word(name, "t") || is_word(name, "tdg") || is_word(name, "rx")
        || is_word(name, "ry") || is_word(name, "rz") || is_word(name, "u1") || is_word(name, "u2")
        || is_word(name, "u3") {
        1
    } else if is_word(name, "cx") || is_word(name, "cnot") || is_word(name, "cz") || is_word(name, "swap") {
        2
    } else if is_word(name, "ccx") || is_word(name, "toffoli") {
        3
    } else {
        0
    }
}

/// The `i`-th parameter, or 0.
fn param(ps: &Vec<Angle>, i: usize) -> (x: Angle)
    ensures
        x == param_or_zero(ps@, i as int),
{
    if i < ps.len() { ps[i] } else { 0 }
}

/// The standard gate `name` with parameters `ps` on qubits `qs`.
fn standard_gate_of(name: &String, ps: &Vec<Angle>, qs: Vec<QubitRef>) -> (g: Gate)
    requires
        arity(name@) > 0,
        qs@.len() == arity(name@),
    ensures
        g@ == standard_gate(name@, ps@, keys_of(qs@)),
{
    let a = qs[0].clone();
    if is_word(name, "h") {
        Gate::H(a)
    } else if is_word(name, "x") {
        Gate::X(a)
    } else if is_word(name, "y") {
        Gate::Y(a)
    } else if is_word(name, "z") {
        Gate::Z(a)
    } else if is_word(name, "s") {
        Gate::S(a)
    } else if is_word(name, "sdg") {
        Gate::Sdg(a)
    } else if is_word(name, "t") {
        Gate::T(a)
    } else if is_word(name, "tdg") {
        Gate::Tdg(a)
    } else if is_word(name, "rx") {
        Gate::Rx(param(ps, 0), a)
    } else if is_word(name, "ry") {
        Gate::Ry(param(ps, 0), a)
    } else if is_word(name, "rz") {
        Gate::Rz(param(ps, 0), a)
    } else if is_word(name, "u1") {
        Gate::U1(param(ps, 0), a)
    } else if is_word(name, "u2") {
        Gate::U2(param(ps, 0), param(ps, 1), a)
    } else if is_word(name, "u3") {
        Gate::U3(param(ps, 0), param(ps, 1), param(ps, 2), a)
    } else if is_word(name, "cx") || is_word(name, "cnot") {
        Gate::Cx(a, qs[1].clone())
    } else if is_word(name, "cz") {
        Gate::Cz(a, qs[1].clone())
    } else if is_word(name, "swap") {
        Gate::Swap(a, qs[1].clone())
    } else {
        Gate::Ccx(a, qs[1].clone(), qs[2].clone())
    }
}

/// The program state a circuit holds.
pub open spec fn program_of(c: Circuit) -> Program {
    (c.qregs@, c.cregs@, gates_view(c.gates@))
}

impl Parser {
    fn parse_statement<A: Fn(FloatOp, Angle, Angle) -> Angle, S: Fn(Angle) -> String>(
        &mut self,
        circuit: &mut Circuit,
        arith: &A,
        show: &S,
    ) -> (r: Result<(), ParseError>)
        requires
            old(self).wf(),
            !(tok(old(self).toks(), old(self).pos as int) is Eof),
            arith_ok(*arith),
            shower_ok(*show),
        ensures
            final(self).wf(),
            final(self).tokens == old(self).tokens,
            final(circuit).name == old(circuit).name,
            final(circuit).metadata == old(circuit).metadata,
            match statement(*arith, *show, old(self).toks(), old(self).pos as int, program_of(*old(circuit))) {
                Ok((prog, q)) => r is Ok && program_of(*final(circuit)) == prog && final(self).pos == q,
                Err(e) => r matches Err(x) && x@ == e,
            },
            r is Ok ==> old(self).pos < final(self).pos,
    {
        let ghost ts = self.toks();
        let ghost prog = program_of(*circuit);
        let t = self.advance();
        match t {
            Token::Include => {
                self.advance();
                self.expect(&Token::Semicolon, show)
            },
            Token::Qreg => {
                let name = match self.expect_ident(show) { Ok(s) => s, Err(e) => return Err(e) };
                match self.expect(&Token::LBracket, show) { Ok(()) => {}, Err(e) => return Err(e) }
                let size = match self.expect_int(show) { Ok(n) => n, Err(e) => return Err(e) };
                match self.expect(&Token::RBracket, show) { Ok(()) => {}, Err(e) => return Err(e) }
                match self.expect(&Token::Semicolon, show) { Ok(()) => {}, Err(e) => return Err(e) }
                circuit.qregs.insert(name.as_str(), size);
                Ok(())
            },
            Token::Creg => {
                let name = match self.expect_ident(show) { Ok(s) => s, Err(e) => return Err(e) };
                match self.expect(&Token::LBracket, show) { Ok(()) => {}, Err(e) => return Err(e) }
                let size = match self.expect_int(show) { Ok(n) => n, Err(e) => return Err(e) };
                match self.expect(&Token::RBracket, show) { Ok(()) => {}, Err(e) => return Err(e) }
                match self.expect(&Token::Semicolon, show) { Ok(()) => {}, Err(e) => return Err(e) }
                circuit.cregs.insert(name.as_str(), size);
                Ok(())
            },
            Token::Gate => {
                loop
                    invariant
                        self.wf(),
                        self.tokens == old(self).tokens,
                        ts == self.toks(),
                        skip_to_brace(ts, adv(ts, old(self).pos as int)) == skip_to_brace(ts, self.pos as int),
                        old(self).pos < self.pos,
                    ensures
                        self.wf(),
                        self.tokens == old(self).tokens,
                        skip_to_brace(ts, adv(ts, old(self).pos as int)) == self.pos,
                        old(self).pos < self.pos,
                    decreases self.tokens@.len() - self.pos,
                {
                    let stop = match self.peek() {
                        Token::RBrace => true,
                        Token::Eof => true,
                        _ => false,
                    };
                    if stop {
                        break;
                    }
                    self.advance();
                }
                if self.peek().same_as(&Token::RBrace) {
                    self.advance();
                }
                Ok(())
            },
            Token::Opaque => {
                loop
                    invariant
                        self.wf(),
                        self.tokens == old(self).tokens,
                        ts == self.toks(),
                        skip_to_semicolon(ts, adv(ts, old(self).pos as int)) == skip_to_semicolon(ts, self.pos as int),
                        old(self).pos < self.pos,
                    ensures
                        self.wf(),
                        self.tokens == old(self).tokens,
                        skip_to_semicolon(ts, adv(ts, old(self).pos as int)) == self.pos,
                        old(self).pos < self.pos,
                    decreases self.tokens@.len() - self.pos,
                {
                    let stop = match self.peek() {
                        Token::Semicolon => true,
                        Token::Eof => true,
                        _ => false,
                    };
                    if stop {
                        break;
                    }
                    self.advance();
                }
                if self.peek().same_as(&Token::Semicolon) {
                    self.advance();
                }
                Ok(())
            },
            Token::Barrier => {
                let ghost p1 = self.pos as int;
                let mut qubits: Vec<QubitRef> = Vec::new();
                proof { assert(keys_of(qubits@) =~= Seq::<BitKey>::empty()); }
                loop
                    invariant_except_break
                        qubit_list(*show, ts, p1, circuit.qregs@, Seq::empty())
                            == qubit_list(*show, ts, self.pos as int, circuit.qregs@, keys_of(qubits@)),
                    invariant
                        self.wf(),
                        self.tokens == old(self).tokens,
                        ts == self.toks(),
                        p1 <= self.pos,
                        old(self).pos < p1,
                        p1 == adv(ts, old(self).pos as int),
                        ts == old(self).toks(),
                        tok(ts, old(self).pos as int) is Barrier,
                        shower_ok(*show),
                        program_of(*circuit) == prog,
                        circuit.name == old(circuit).name,
                        circuit.metadata == old(circuit).metadata,
                    ensures
                        qubit_list(*show, ts, p1, circuit.qregs@, Seq::empty())
                            == Ok::<(Seq<BitKey>, int), SpecParseError>((keys_of(qubits@), self.pos as int)),
                    decreases self.tokens@.len() - self.pos,
                {
                    let q = match self.parse_qubit_ref(circuit, show) {
                        Ok(q) => q,
                        Err(e) => {
                            proof {
                                assert(qubit_list(*show, ts, p1, circuit.qregs@, Seq::empty())
                                    == Err::<(Seq<BitKey>, int), SpecParseError>(e@));
                                assert(p1 == adv(ts, old(self).pos as int));
                                assert(prog.0 == circuit.qregs@);
                            }
                            return Err(e);
                        },
                    };
                    let ghost before = qubits@;
                    qubits.push(q);
                    proof { assert(keys_of(qubits@) =~= keys_of(before).push(qubits@.last()@)); }
                    if self.peek().same_as(&Token::Comma) {
                        self.advance();
                    } else {
                        break;
                    }
                }
                match self.expect(&Token::Semicolon, show) { Ok(()) => {}, Err(e) => return Err(e) }
                let ghost gs = circuit.gates@;
                circuit.push(Gate::Barrier(qubits));
                proof { assert(gates_view(circuit.gates@) =~= gates_view(gs).push(circuit.gates@.last()@)); }
                Ok(())
            },
            Token::Measure => {
                let q = match self.parse_qubit_ref(circuit, show) { Ok(q) => q, Err(e) => return Err(e) };
                match self.expect(&Token::Arrow, show) { Ok(()) => {}, Err(e) => return Err(e) }
                let c = match self.parse_cbit_ref(circuit, show) { Ok(c) => c, Err(e) => return Err(e) };
                match self.expect(&Token::Semicolon, show) { Ok(()) => {}, Err(e) => return Err(e) }
                let ghost gs = circuit.gates@;
                circuit.push(Gate::Measure(q, c));
                proof { assert(gates_view(circuit.gates@) =~= gates_view(gs).push(circuit.gates@.last()@)); }
                Ok(())
            },
            Token::Reset => {
                let q = match self.parse_qubit_ref(circuit, show) { Ok(q) => q, Err(e) => return Err(e) };
                match self.expect(&Token::Semicolon, show) { Ok(()) => {}, Err(e) => return Err(e) }
                let ghost gs = circuit.gates@;
                circuit.push(Gate::Reset(q));
                proof { assert(gates_view(circuit.gates@) =~= gates_view(gs).push(circuit.gates@.last()@)); }
                Ok(())
            },
            Token::Ident(name) => {
                let gate = match self.parse_gate_call(&name, circuit, arith, show) { Ok(g) => g, Err(e) => return Err(e) };
                match self.expect(&Token::Semicolon, show) { Ok(()) => {}, Err(e) => return Err(e) }
                let ghost gs = circuit.gates@;
                circuit.push(gate);
                proof { assert(gates_view(circuit.gates@) =~= gates_view(gs).push(circuit.gates@.last()@)); }
                Ok(())
            },
            _ => Ok(()),
        }
    }
}

impl Parser {
    fn parse_program<A: Fn(FloatOp, Angle, Angle) -> Angle, S: Fn(Angle) -> String>(&mut self, arith: &A, show: &S) -> (r: Result<Circuit, ParseError>)
        requires
            old(self).wf(),
            old(self).pos == 0,
            arith_ok(*arith),
            shower_ok(*show),
        ensures
            match program(*arith, *show, old(self).toks()) {
                Ok(prog) => r matches Ok(c) && program_of(c) == prog && c.name@ == "circuit"@
                    && c.metadata.source is None && c.metadata.version is None,
                Err(e) => r matches Err(x) && x@ == e,
            },
    {
        let ghost ts = self.toks();
        if self.peek().same_as(&Token::OpenQasm) {
            self.advance();
            self.advance();
            match self.expect(&Token::Semicolon, show) {
                Ok(()) => {},
                Err(e) => return Err(e),
            }
        }
        let mut circuit = Circuit::new("circuit");
        proof {
            assert(program_of(circuit) == (Seq::<(Seq<char>, usize)>::empty(), Seq::<(Seq<char>, usize)>::empty(), Seq::<SpecGate>::empty())) by {
                assert(circuit.qregs@ =~= Seq::<(Seq<char>, usize)>::empty());
                assert(circuit.cregs@ =~= Seq::<(Seq<char>, usize)>::empty());
                assert(gates_view(circuit.gates@) =~= Seq::<SpecGate>::empty());
            }
        }
        let ghost start = statements(*arith, *show, ts, self.pos as int, program_of(circuit));
        loop
            invariant
                self.wf(),
                ts == self.toks(),
                ts == old(self).toks(),
                arith_ok(*arith),
                shower_ok(*show),
                start == program(*arith, *show, ts),
                start == statements(*arith, *show, ts, self.pos as int, program_of(circuit)),
                circuit.name@ == "circuit"@,
                circuit.metadata.source is None,
                circuit.metadata.version is None,
            decreases self.tokens@.len() - self.pos,
        {
            if self.peek().same_as(&Token::Eof) {
                return Ok(circuit);
            }
            match self.parse_statement(&mut circuit, arith, show) {
                Ok(()) => {},
                Err(e) => return Err(e),
            }
        }
    }
}

/// A token list read from text ends with `Eof`.
proof fn lemma_lex_ends<R: Fn(&String) -> Angle>(read: R, input: Seq<char>, p: int, line: int)
    ensures
        lex_from(read, input, p, line) matches Ok(ts) ==> ts.len() >= 1 && ts.last() is Eof,
    decreases input.len() - p,
{
    if 0 <= p <= input.len() {
        let (q, l) = skip(input, p, line, false);
        if q < input.len() {
            if let Ok((t, q2, l2)) = scan_token(read, input, q, l) {
                lemma_skip(input, p, line, false);
                lemma_scan_token(read, input, q, l);
                lemma_lex_ends(read, input, q2, l2);
                if let Ok(rest) = lex_from(read, input, q2, l2) {
                    assert((seq![t] + rest).last() == rest.last());
                }
            }
        }
    }
}

/// Reads OpenQASM 2.0 text into a circuit named "circuit": its quantum and classical
/// registers and its gates, in order. `arith` performs the floating-point operations of
/// parameter expressions, `read` gives the values of real numerals, and `show` renders a
/// real in messages.
pub fn parse<A: Fn(FloatOp, Angle, Angle) -> Angle, R: Fn(&String) -> Angle, S: Fn(Angle) -> String>(
    source: &str,
    arith: &A,
    read: &R,
    show: &S,
) -> (r: Result<Circuit, ParseError>)
    requires
        source@.len() < usize::MAX,
        arith_ok(*arith),
        reader_ok(*read),
        shower_ok(*show),
    ensures
        match parse_text(*arith, *read, *show, source@) {
            Ok(prog) => r matches Ok(c) && program_of(c) == prog && c.name@ == "circuit"@
                && c.metadata.source is None && c.metadata.version is None,
            Err(e) => r matches Err(x) && x@ == e,
        },
{
    let mut lexer = Lexer::new(source);
    let tokens = match lexer.tokenise(read) {
        Ok(ts) => ts,
        Err(e) => return Err(e),
    };
    proof {
        lemma_lex_ends(*read, source@, 0, 1);
    }
    let mut parser = Parser { tokens, pos: 0 };
    parser.parse_program(arith, show)
}

} // verus!
