//! Recursive-descent parser from tokens to a program of syntax-tree nodes.
use vstd::prelude::*;
use crate::ast::{kind_of, models, strings_view, AstType, Node, NodeModel, Number, NumberModel};
use crate::ast::{entry_models, keys_unique, lemma_entry_models, lemma_entry_models_push, lemma_models_push};
use crate::lexer::{to_chars, token_views, Token, TokenModel, TokenType};

verus! {

/// A fatal parse error, with the index of the token at which it was detected.
#[derive(Clone, Copy, Debug, PartialEq, Eq)]
pub enum ParseError {
    /// The token at `position` is not of the `expected` kind (`None`: not the
    /// start of an expression).
    UnexpectedToken { expected: Option<TokenType>, found: TokenType, position: usize },
    /// A token was needed past the end of the sequence.
    UnexpectedEndOfInput { position: usize },
    /// A number token whose text is not a valid literal.
    InvalidNumericLiteral { position: usize },
    /// Unary minus before something other than a number.
    OperandTypeMismatch { position: usize },
}

// ---------------------------------------------------------------------------
// Literals

pub open spec fn is_digit(c: char) -> bool {
    '0' <= c <= '9'
}

pub open spec fn all_digits(t: Seq<char>) -> bool {
    forall|i: int| 0 <= i < t.len() ==> is_digit(#[trigger] t[i])
}

/// The value of a string of decimal digits.
pub open spec fn decimal_value(t: Seq<char>) -> int
    decreases t.len(),
{
    if t.len() == 0 {
        0
    } else {
        decimal_value(t.drop_last()) * 10 + (t.last() as int - '0' as int)
    }
}

/// Number of `.` characters in `t`.
pub open spec fn dot_count(t: Seq<char>) -> nat
    decreases t.len(),
{
    if t.len() == 0 {
        0
    } else {
        dot_count(t.drop_last()) + if t.last() == '.' { 1nat } else { 0nat }
    }
}

/// Decimal digits with exactly one point and at least one digit.
pub open spec fn float_literal(t: Seq<char>) -> bool {
    &&& t.len() >= 2
    &&& dot_count(t) == 1
    &&& forall|i: int| 0 <= i < t.len() ==> is_digit(#[trigger] t[i]) || t[i] == '.'
}

/// The number a literal denotes: with a point, a decimal; without, an
/// integer that fits in `isize`; `None` when the text is not such a literal.
pub open spec fn number_value(t: Seq<char>) -> Option<NumberModel> {
    if dot_count(t) > 0 {
        if float_literal(t) {
            Some(NumberModel::Float { negative: false, literal: t })
        } else {
            None
        }
    } else if t.len() > 0 && all_digits(t) && decimal_value(t) <= isize::MAX {
        Some(NumberModel::Int(decimal_value(t)))
    } else {
        None
    }
}

/// Unary minus on a node: defined on numbers only.
pub open spec fn negate(n: NodeModel) -> Option<NodeModel> {
    match n {
        NodeModel::Number { value: NumberModel::Int(v) } => Some(
            NodeModel::Number { value: NumberModel::Int(-v) },
        ),
        NodeModel::Number { value: NumberModel::Float { negative, literal } } => Some(
            NodeModel::Number { value: NumberModel::Float { negative: !negative, literal } },
        ),
        _ => None,
    }
}

/// The binary operators.
pub open spec fn is_op_kind(k: TokenType) -> bool {
    ||| k == TokenType::Plus
    ||| k == TokenType::Minus
    ||| k == TokenType::Times
    ||| k == TokenType::Divide
    ||| k == TokenType::Modulo
    ||| k == TokenType::LessThan
    ||| k == TokenType::LessThanOrEqual
    ||| k == TokenType::GreaterThan
    ||| k == TokenType::GreaterThanOrEqual
    ||| k == TokenType::Equality
    ||| k == TokenType::Equal
    ||| k == TokenType::And
    ||| k == TokenType::Or
}

/// A dictionary with `v` under `k`: replaces the value of an existing key,
/// or adds the key at the end.
pub open spec fn dict_put(e: Seq<(Seq<char>, NodeModel)>, k: Seq<char>, v: NodeModel) -> Seq<
    (Seq<char>, NodeModel),
> {
    if exists|j: int| 0 <= j < e.len() && e[j].0 == k {
        let j = choose|j: int| 0 <= j < e.len() && e[j].0 == k;
        e.update(j, (k, v))
    } else {
        e.push((k, v))
    }
}

// ---------------------------------------------------------------------------
// The grammar

pub open spec fn eoi(pos: int) -> ParseError {
    ParseError::UnexpectedEndOfInput { position: pos as usize }
}

/// Whether `pos` indexes a token.
pub open spec fn in_bounds(toks: Seq<TokenModel>, pos: int) -> bool {
    0 <= pos < toks.len()
}

/// Whether `toks[pos]` exists and is of kind `k`.
pub open spec fn at(toks: Seq<TokenModel>, pos: int, k: TokenType) -> bool {
    in_bounds(toks, pos) && toks[pos].kind == k
}

/// Whether a production that started at `pos` and stopped at `q` moved
/// forward. Every production does (`lemma_adv_stmt` and its companions), so
/// the branches below where it does not are never taken.
pub open spec fn adv(toks: Seq<TokenModel>, pos: int, q: int) -> bool {
    pos < q <= toks.len()
}

/// Consuming a token of kind `k` at `pos`: the next position, or the error.
pub open spec fn eat_at(toks: Seq<TokenModel>, pos: int, k: TokenType) -> Result<int, ParseError> {
    if !in_bounds(toks, pos) {
        Err(eoi(pos))
    } else if toks[pos].kind == k {
        Ok(pos + 1)
    } else {
        Err(ParseError::UnexpectedToken { expected: Some(k), found: toks[pos].kind, position: pos as usize })
    }
}

/// A primary expression at `pos`, and the position after it.
pub open spec fn p_simple(toks: Seq<TokenModel>, pos: int) -> Result<(NodeModel, int), ParseError>
    decreases toks.len() - pos, 1int,
{
    if !in_bounds(toks, pos) {
        Err(eoi(pos))
    } else {
        let t = toks[pos];
        let p = pos + 1;
        match t.kind {
            TokenType::Word => Ok((
                NodeModel::Var { name: t.value, value: Box::new(NodeModel::String { value: seq![] }) },
                p,
            )),
            TokenType::Minus => match p_simple(toks, p) {
                Ok((n, q)) => match negate(n) {
                    Some(m) => Ok((m, q)),
                    None => Err(ParseError::OperandTypeMismatch { position: pos as usize }),
                },
                Err(e) => Err(e),
            },
            TokenType::Number => match number_value(t.value) {
                Some(v) => Ok((NodeModel::Number { value: v }, p)),
                None => Err(ParseError::InvalidNumericLiteral { position: pos as usize }),
            },
            TokenType::String => Ok((NodeModel::String { value: t.value }, p)),
            TokenType::True => Ok((NodeModel::Bool { value: true }, p)),
            TokenType::False => Ok((NodeModel::Bool { value: false }, p)),
            TokenType::LeftParen => match p_expr(toks, p, true) {
                Ok((n, q)) => match eat_at(toks, q, TokenType::RightParen) {
                    Ok(r) => Ok((n, r)),
                    Err(e) => Err(e),
                },
                Err(e) => Err(e),
            },
            TokenType::LeftBracket => {
                if !in_bounds(toks, p) {
                    Err(eoi(p))
                } else {
                    let items = if at(toks, p, TokenType::RightBracket) {
                        Ok((seq![], p))
                    } else {
                        p_expr_seq(toks, p, seq![])
                    };
                    match items {
                        Ok((xs, q)) => match eat_at(toks, q, TokenType::RightBracket) {
                            Ok(r) => Ok((NodeModel::Array { items: xs }, r)),
                            Err(e) => Err(e),
                        },
                        Err(e) => Err(e),
                    }
                }
            },
            TokenType::LeftBrace => match p_dict(toks, p, seq![]) {
                Ok((es, q)) => match eat_at(toks, q, TokenType::RightBrace) {
                    Ok(r) => Ok((NodeModel::Dict { items: es }, r)),
                    Err(e) => Err(e),
                },
                Err(e) => Err(e),
            },
            _ => Err(ParseError::UnexpectedToken { expected: None, found: t.kind, position: pos as usize }),
        }
    }
}

/// Dictionary entries `"key": expr`, separated by commas, up to `}`; `acc`
/// holds the entries read so far.
pub open spec fn p_dict(toks: Seq<TokenModel>, pos: int, acc: Seq<(Seq<char>, NodeModel)>) -> Result<
    (Seq<(Seq<char>, NodeModel)>, int),
    ParseError,
>
    decreases toks.len() - pos, 2int,
{
    if !in_bounds(toks, pos) {
        Err(eoi(pos))
    } else if at(toks, pos, TokenType::RightBrace) {
        Ok((acc, pos))
    } else {
        match eat_at(toks, pos, TokenType::String) {
            Err(e) => Err(e),
            Ok(p1) => match eat_at(toks, p1, TokenType::Colon) {
                Err(e) => Err(e),
                Ok(p2) => match p_expr(toks, p2, false) {
                    Err(e) => Err(e),
                    Ok((v, q)) => {
                        let acc2 = dict_put(acc, toks[pos].value, v);
                        if !adv(toks, pos, q) {
                            Err(eoi(q))
                        } else if !in_bounds(toks, q) {
                            Err(eoi(q))
                        } else if at(toks, q, TokenType::RightBrace) {
                            p_dict(toks, q, acc2)
                        } else {
                            match eat_at(toks, q, TokenType::Comma) {
                                Ok(r) => p_dict(toks, r, acc2),
                                Err(e) => Err(e),
                            }
                        }
                    },
                },
            },
        }
    }
}

/// Trailers after a primary expression: `(args)`, `[expr]` and `[.name]`;
/// `acc` holds the trailers read so far.
pub open spec fn p_trailers(toks: Seq<TokenModel>, pos: int, acc: Seq<NodeModel>) -> Result<
    (Seq<NodeModel>, int),
    ParseError,
>
    decreases toks.len() - pos, 2int,
{
    if !in_bounds(toks, pos) {
        Err(eoi(pos))
    } else if at(toks, pos, TokenType::LeftParen) {
        match p_expr_list(toks, pos + 1) {
            Err(e) => Err(e),
            Ok((args, q)) => match eat_at(toks, q, TokenType::RightParen) {
                Err(e) => Err(e),
                Ok(r) => if adv(toks, pos, r) {
                    p_trailers(toks, r, acc.push(NodeModel::Call { args }))
                } else {
                    Err(eoi(r))
                },
            },
        }
    } else if at(toks, pos, TokenType::LeftBracket) {
        let p = pos + 1;
        if !in_bounds(toks, p) {
            Err(eoi(p))
        } else if at(toks, p, TokenType::Period) {
            if !in_bounds(toks, p + 1) {
                Err(eoi(p + 1))
            } else {
                match eat_at(toks, p + 2, TokenType::RightBracket) {
                    Err(e) => Err(e),
                    Ok(r) => p_trailers(toks, r, acc.push(NodeModel::Attr { attr: toks[p + 1].value })),
                }
            }
        } else {
            match p_expr(toks, p, false) {
                Err(e) => Err(e),
                Ok((n, q)) => match eat_at(toks, q, TokenType::RightBracket) {
                    Err(e) => Err(e),
                    Ok(r) => if adv(toks, pos, r) {
                        p_trailers(toks, r, acc.push(n))
                    } else {
                        Err(eoi(r))
                    },
                },
            }
        }
    } else {
        Ok((acc, pos))
    }
}

/// A primary expression with its trailers, wrapped in a `Chain` when there
/// is at least one.
pub open spec fn p_call(toks: Seq<TokenModel>, pos: int) -> Result<(NodeModel, int), ParseError>
    decreases toks.len() - pos, 3int,
{
    match p_simple(toks, pos) {
        Err(e) => Err(e),
        Ok((n, q)) => if !adv(toks, pos, q) || !in_bounds(toks, q) {
            Err(eoi(q))
        } else if at(toks, q, TokenType::LeftParen) || at(toks, q, TokenType::LeftBracket) {
            match p_trailers(toks, q, seq![]) {
                Ok((chain, r)) => Ok((NodeModel::Chain { name: Box::new(n), chain }, r)),
                Err(e) => Err(e),
            }
        } else {
            Ok((n, q))
        },
    }
}

/// An expression: an operand, then optionally an operator and the whole rest
/// of the expression (every operator binds to the right, with no precedence).
pub open spec fn p_expr(toks: Seq<TokenModel>, pos: int, wrapped: bool) -> Result<(NodeModel, int), ParseError>
    decreases toks.len() - pos, 4int,
{
    match p_call(toks, pos) {
        Err(e) => Err(e),
        Ok((left, q)) => if !adv(toks, pos, q) || !in_bounds(toks, q) {
            Err(eoi(q))
        } else if is_op_kind(toks[q].kind) {
            match p_expr(toks, q + 1, false) {
                Ok((right, r)) => Ok((
                    NodeModel::BinOp {
                        left: Box::new(left),
                        right: Box::new(right),
                        op: toks[q].value,
                        wrapped,
                    },
                    r,
                )),
                Err(e) => Err(e),
            }
        } else {
            Ok((left, q))
        },
    }
}

/// One or more expressions separated by commas; `acc` holds those read so far.
pub open spec fn p_expr_seq(toks: Seq<TokenModel>, pos: int, acc: Seq<NodeModel>) -> Result<
    (Seq<NodeModel>, int),
    ParseError,
>
    decreases toks.len() - pos, 5int,
{
    match p_expr(toks, pos, false) {
        Err(e) => Err(e),
        Ok((n, q)) => if !adv(toks, pos, q) || !in_bounds(toks, q) {
            Err(eoi(q))
        } else if at(toks, q, TokenType::Comma) {
            p_expr_seq(toks, q + 1, acc.push(n))
        } else {
            Ok((acc.push(n), q))
        },
    }
}

/// Zero or more expressions separated by commas, before a `)`.
pub open spec fn p_expr_list(toks: Seq<TokenModel>, pos: int) -> Result<(Seq<NodeModel>, int), ParseError>
    decreases toks.len() - pos, 6int,
{
    if !in_bounds(toks, pos) {
        Err(eoi(pos))
    } else if at(toks, pos, TokenType::RightParen) {
        Ok((seq![], pos))
    } else {
        p_expr_seq(toks, pos, seq![])
    }
}

/// Identifiers separated by commas after the first; `acc` holds those read so far.
pub open spec fn p_ids_more(toks: Seq<TokenModel>, pos: int, acc: Seq<Seq<char>>) -> Result<
    (Seq<Seq<char>>, int),
    ParseError,
>
    decreases toks.len() - pos,
{
    if !in_bounds(toks, pos) {
        Err(eoi(pos))
    } else if at(toks, pos, TokenType::Comma) {
        match eat_at(toks, pos + 1, TokenType::Word) {
            Ok(q) => p_ids_more(toks, q, acc.push(toks[pos + 1].value)),
            Err(e) => Err(e),
        }
    } else {
        Ok((acc, pos))
    }
}

/// Zero or more identifiers separated by commas.
pub open spec fn p_ids(toks: Seq<TokenModel>, pos: int) -> Result<(Seq<Seq<char>>, int), ParseError> {
    if !in_bounds(toks, pos) {
        Err(eoi(pos))
    } else if at(toks, pos, TokenType::Word) {
        p_ids_more(toks, pos + 1, seq![toks[pos].value])
    } else {
        Ok((seq![], pos))
    }
}

/// Statements up to a `}`; `acc` holds those read so far.
pub open spec fn p_stmts(toks: Seq<TokenModel>, pos: int, acc: Seq<NodeModel>) -> Result<
    (Seq<NodeModel>, int),
    ParseError,
>
    decreases toks.len() - pos, 11int,
{
    if !in_bounds(toks, pos) {
        Err(eoi(pos))
    } else if at(toks, pos, TokenType::RightBrace) {
        Ok((acc, pos))
    } else {
        match p_stmt(toks, pos) {
            Err(e) => Err(e),
            Ok((n, q)) => if adv(toks, pos, q) {
                p_stmts(toks, q, acc.push(n))
            } else {
                Err(eoi(q))
            },
        }
    }
}

/// `{`, statements, `}`.
pub open spec fn p_block(toks: Seq<TokenModel>, pos: int) -> Result<(Seq<NodeModel>, int), ParseError>
    decreases toks.len() - pos, 12int,
{
    match eat_at(toks, pos, TokenType::LeftBrace) {
        Err(e) => Err(e),
        Ok(p) => match p_stmts(toks, p, seq![]) {
            Err(e) => Err(e),
            Ok((body, q)) => match eat_at(toks, q, TokenType::RightBrace) {
                Ok(r) => Ok((body, r)),
                Err(e) => Err(e),
            },
        },
    }
}

/// `burn name = expr`.
pub open spec fn p_var(toks: Seq<TokenModel>, pos: int) -> Result<(NodeModel, int), ParseError>
    decreases toks.len() - pos, 9int,
{
    match eat_at(toks, pos, TokenType::Var) {
        Err(e) => Err(e),
        Ok(p1) => match eat_at(toks, p1, TokenType::Word) {
            Err(e) => Err(e),
            Ok(p2) => match eat_at(toks, p2, TokenType::Equal) {
                Err(e) => Err(e),
                Ok(p3) => match p_expr(toks, p3, false) {
                    Ok((v, q)) => Ok((NodeModel::Var { name: toks[p1].value, value: Box::new(v) }, q)),
                    Err(e) => Err(e),
                },
            },
        },
    }
}

/// `prepmatch name(params) { body }`.
pub open spec fn p_func(toks: Seq<TokenModel>, pos: int) -> Result<(NodeModel, int), ParseError>
    decreases toks.len() - pos, 9int,
{
    match eat_at(toks, pos, TokenType::Func) {
        Err(e) => Err(e),
        Ok(p1) => match eat_at(toks, p1, TokenType::Word) {
            Err(e) => Err(e),
            Ok(p2) => match eat_at(toks, p2, TokenType::LeftParen) {
                Err(e) => Err(e),
                Ok(p3) => match p_ids(toks, p3) {
                    Err(e) => Err(e),
                    Ok((params, q)) => match eat_at(toks, q, TokenType::RightParen) {
                        Err(e) => Err(e),
                        Ok(r) => if adv(toks, pos, r) {
                            match p_block(toks, r) {
                                Ok((body, s)) => Ok((NodeModel::Func { name: toks[p1].value, params, body }, s)),
                                Err(e) => Err(e),
                            }
                        } else {
                            Err(eoi(r))
                        },
                    },
                },
            },
        },
    }
}

/// Method declarations up to something else; `acc` holds those read so far.
pub open spec fn p_methods(toks: Seq<TokenModel>, pos: int, acc: Seq<NodeModel>) -> Result<
    (Seq<NodeModel>, int),
    ParseError,
>
    decreases toks.len() - pos, 10int,
{
    if !in_bounds(toks, pos) {
        Err(eoi(pos))
    } else if at(toks, pos, TokenType::Func) {
        match p_func(toks, pos) {
            Err(e) => Err(e),
            Ok((m, q)) => if adv(toks, pos, q) {
                p_methods(toks, q, acc.push(m))
            } else {
                Err(eoi(q))
            },
        }
    } else {
        Ok((acc, pos))
    }
}

/// `lightertype name { methods }`.
pub open spec fn p_class(toks: Seq<TokenModel>, pos: int) -> Result<(NodeModel, int), ParseError>
    decreases toks.len() - pos, 9int,
{
    match eat_at(toks, pos, TokenType::Class) {
        Err(e) => Err(e),
        Ok(p1) => match eat_at(toks, p1, TokenType::Word) {
            Err(e) => Err(e),
            Ok(p2) => match eat_at(toks, p2, TokenType::LeftBrace) {
                Err(e) => Err(e),
                Ok(p3) => match p_methods(toks, p3, seq![]) {
                    Err(e) => Err(e),
                    Ok((methods, q)) => match eat_at(toks, q, TokenType::RightBrace) {
                        Ok(r) => Ok((NodeModel::Class { name: toks[p1].value, methods }, r)),
                        Err(e) => Err(e),
                    },
                },
            },
        },
    }
}

/// `return expr`.
pub open spec fn p_return(toks: Seq<TokenModel>, pos: int) -> Result<(NodeModel, int), ParseError>
    decreases toks.len() - pos, 9int,
{
    match eat_at(toks, pos, TokenType::Return) {
        Err(e) => Err(e),
        Ok(p) => match p_expr(toks, p, false) {
            Ok((v, q)) => Ok((NodeModel::Return { value: Box::new(v) }, q)),
            Err(e) => Err(e),
        },
    }
}

/// `kw (statement) { body }`, for `if` and `elif`: an `If` with no other branches.
pub open spec fn p_guarded(toks: Seq<TokenModel>, pos: int, kw: TokenType) -> Result<(NodeModel, int), ParseError>
    decreases toks.len() - pos, 8int,
{
    match eat_at(toks, pos, kw) {
        Err(e) => Err(e),
        Ok(p1) => match eat_at(toks, p1, TokenType::LeftParen) {
            Err(e) => Err(e),
            Ok(p2) => match p_stmt(toks, p2) {
                Err(e) => Err(e),
                Ok((c, q)) => match eat_at(toks, q, TokenType::RightParen) {
                    Err(e) => Err(e),
                    Ok(r) => if adv(toks, pos, r) {
                        match p_block(toks, r) {
                            Ok((body, s)) => Ok((
                                NodeModel::If { condition: Box::new(c), body, otherwise: seq![] },
                                s,
                            )),
                            Err(e) => Err(e),
                        }
                    } else {
                        Err(eoi(r))
                    },
                },
            },
        },
    }
}

/// `else { body }`.
pub open spec fn p_else(toks: Seq<TokenModel>, pos: int) -> Result<(NodeModel, int), ParseError>
    decreases toks.len() - pos, 9int,
{
    match eat_at(toks, pos, TokenType::Else) {
        Err(e) => Err(e),
        Ok(p) => match p_block(toks, p) {
            Ok((body, q)) => Ok((NodeModel::Else { body }, q)),
            Err(e) => Err(e),
        },
    }
}

/// `elif` clauses; `acc` holds the clauses read so far.
pub open spec fn p_elifs(toks: Seq<TokenModel>, pos: int, acc: Seq<NodeModel>) -> Result<
    (Seq<NodeModel>, int),
    ParseError,
>
    decreases toks.len() - pos, 10int,
{
    if !in_bounds(toks, pos) {
        Err(eoi(pos))
    } else if at(toks, pos, TokenType::Elif) {
        match p_guarded(toks, pos, TokenType::Elif) {
            Err(e) => Err(e),
            Ok((n, q)) => if adv(toks, pos, q) {
                p_elifs(toks, q, acc.push(n))
            } else {
                Err(eoi(q))
            },
        }
    } else {
        Ok((acc, pos))
    }
}

/// An optional `else`, then `elif` clauses, then an optional `else`: the
/// other branches of an `if`, in that order.
pub open spec fn p_otherwise(toks: Seq<TokenModel>, pos: int) -> Result<(Seq<NodeModel>, int), ParseError>
    decreases toks.len() - pos, 11int,
{
    if !in_bounds(toks, pos) {
        Err(eoi(pos))
    } else {
        let first = if at(toks, pos, TokenType::Else) {
            match p_else(toks, pos) {
                Ok((e, q)) => Ok((seq![e], q)),
                Err(e) => Err(e),
            }
        } else {
            Ok((seq![], pos))
        };
        match first {
            Err(e) => Err(e),
            Ok((acc, q)) => if !(pos <= q <= toks.len()) {
                Err(eoi(q))
            } else {
                match p_elifs(toks, q, acc) {
                    Err(e) => Err(e),
                    Ok((acc2, r)) => if !(pos <= r <= toks.len()) || !in_bounds(toks, r) {
                        Err(eoi(r))
                    } else if at(toks, r, TokenType::Else) {
                        match p_else(toks, r) {
                            Ok((e, s)) => Ok((acc2.push(e), s)),
                            Err(e) => Err(e),
                        }
                    } else {
                        Ok((acc2, r))
                    },
                }
            },
        }
    }
}

/// `if (statement) { body }` and its other branches.
pub open spec fn p_if(toks: Seq<TokenModel>, pos: int) -> Result<(NodeModel, int), ParseError>
    decreases toks.len() - pos, 9int,
{
    match p_guarded(toks, pos, TokenType::If) {
        Err(e) => Err(e),
        Ok((n, q)) => if adv(toks, pos, q) {
            match p_otherwise(toks, q) {
                Ok((other, r)) => Ok((
                    NodeModel::If {
                        condition: n->If_condition,
                        body: n->If_body,
                        otherwise: other,
                    },
                    r,
                )),
                Err(e) => Err(e),
            }
        } else {
            Err(eoi(q))
        },
    }
}

/// `for name through (exprs) { body }`.
pub open spec fn p_for(toks: Seq<TokenModel>, pos: int) -> Result<(NodeModel, int), ParseError>
    decreases toks.len() - pos, 9int,
{
    match eat_at(toks, pos, TokenType::For) {
        Err(e) => Err(e),
        Ok(p1) => match eat_at(toks, p1, TokenType::Word) {
            Err(e) => Err(e),
            Ok(p2) => match eat_at(toks, p2, TokenType::Range) {
                Err(e) => Err(e),
                Ok(p3) => match eat_at(toks, p3, TokenType::LeftParen) {
                    Err(e) => Err(e),
                    Ok(p4) => match p_expr_list(toks, p4) {
                        Err(e) => Err(e),
                        Ok((through, q)) => match eat_at(toks, q, TokenType::RightParen) {
                            Err(e) => Err(e),
                            Ok(r) => if adv(toks, pos, r) {
                                match p_block(toks, r) {
                                    Ok((body, s)) => Ok((NodeModel::For { var: toks[p1].value, through, body }, s)),
                                    Err(e) => Err(e),
                                }
                            } else {
                                Err(eoi(r))
                            },
                        },
                    },
                },
            },
        },
    }
}

/// `while (expr) { body }`.
pub open spec fn p_while(toks: Seq<TokenModel>, pos: int) -> Result<(NodeModel, int), ParseError>
    decreases toks.len() - pos, 9int,
{
    match eat_at(toks, pos, TokenType::While) {
        Err(e) => Err(e),
        Ok(p1) => match eat_at(toks, p1, TokenType::LeftParen) {
            Err(e) => Err(e),
            Ok(p2) => match p_expr(toks, p2, false) {
                Err(e) => Err(e),
                Ok((c, q)) => match eat_at(toks, q, TokenType::RightParen) {
                    Err(e) => Err(e),
                    Ok(r) => if adv(toks, pos, r) {
                        match p_block(toks, r) {
                            Ok((body, s)) => Ok((NodeModel::While { condition: Box::new(c), body }, s)),
                            Err(e) => Err(e),
                        }
                    } else {
                        Err(eoi(r))
                    },
                },
            },
        },
    }
}

/// A statement, chosen by the kind of its first token; an expression otherwise.
pub open spec fn p_stmt(toks: Seq<TokenModel>, pos: int) -> Result<(NodeModel, int), ParseError>
    decreases toks.len() - pos, 10int,
{
    if !in_bounds(toks, pos) {
        Err(eoi(pos))
    } else {
        match toks[pos].kind {
            TokenType::Var => p_var(toks, pos),
            TokenType::Call => p_call(toks, pos),
            TokenType::Func => p_func(toks, pos),
            TokenType::Class => p_class(toks, pos),
            TokenType::Return => p_return(toks, pos),
            TokenType::For => p_for(toks, pos),
            TokenType::While => p_while(toks, pos),
            TokenType::If => p_if(toks, pos),
            _ => p_expr(toks, pos, false),
        }
    }
}

/// Top-level statements up to the end-of-input token; `acc` holds those read so far.
pub open spec fn p_program(toks: Seq<TokenModel>, pos: int, acc: Seq<NodeModel>) -> Result<
    Seq<NodeModel>,
    ParseError,
>
    decreases toks.len() - pos,
{
    if !in_bounds(toks, pos) {
        Err(eoi(pos))
    } else if at(toks, pos, TokenType::Eof) {
        Ok(acc)
    } else {
        match p_stmt(toks, pos) {
            Err(e) => Err(e),
            Ok((n, q)) => if adv(toks, pos, q) {
                p_program(toks, q, acc.push(n))
            } else {
                Err(eoi(q))
            },
        }
    }
}

/// The program that a token sequence denotes.
pub open spec fn parse_program(toks: Seq<TokenModel>) -> Result<Seq<NodeModel>, ParseError> {
    p_program(toks, 0, seq![])
}

// ---------------------------------------------------------------------------
// The parser

/// A single forward cursor over a token sequence.
pub struct Parser {
    tokens: Vec<Token>,
    current: usize,
}

/// What a production that read `s` from the parser's old position means for
/// its outcome `r` and the parser after it.
pub open spec fn node_outcome(s: Result<(NodeModel, int), ParseError>, r: Result<Node, ParseError>, after: Parser) -> bool {
    match s {
        Ok((m, q)) => match r {
            Ok(n) => n.model() == m && after.pos() == q,
            Err(_) => false,
        },
        Err(e) => r == Err::<Node, ParseError>(e),
    }
}

/// The same for productions that read a sequence of nodes.
pub open spec fn nodes_outcome(
    s: Result<(Seq<NodeModel>, int), ParseError>,
    r: Result<Vec<Node>, ParseError>,
    after: Parser,
) -> bool {
    match s {
        Ok((m, q)) => match r {
            Ok(v) => models(v@) == m && after.pos() == q,
            Err(_) => false,
        },
        Err(e) => r == Err::<Vec<Node>, ParseError>(e),
    }
}

/// A node that unary minus can negate without overflow when it is an integer.
pub open spec fn negatable(m: NodeModel) -> bool {
    m matches NodeModel::Number { value: NumberModel::Int(v) } ==> v > isize::MIN
}

pub open spec fn ok_negatable(r: Result<Node, ParseError>) -> bool {
    r matches Ok(n) ==> negatable(n.model())
}

impl Parser {
    /// The tokens.
    pub closed spec fn toks(&self) -> Seq<TokenModel> {
        token_views(self.tokens@)
    }

    /// The cursor, as an index into `toks()`.
    pub closed spec fn pos(&self) -> int {
        self.current as int
    }

    pub closed spec fn wf(&self) -> bool {
        self.current <= self.tokens.len()
    }

    pub fn new(tokens: Vec<Token>) -> (r: Parser)
        ensures
            r.wf(),
            r.toks() == token_views(tokens@),
            r.pos() == 0,
    {
        Parser { tokens, current: 0 }
    }

    /// The token under the cursor, if any.
    pub fn peek_token(&self) -> (r: Option<&Token>)
        requires
            self.wf(),
        ensures
            match r {
                Some(t) => in_bounds(self.toks(), self.pos()) && t@ == self.toks()[self.pos()],
                None => !in_bounds(self.toks(), self.pos()),
            },
    {
        if self.current >= self.tokens.len() {
            return None;
        }
        Some(&self.tokens[self.current])
    }

    /// The kind of the token under the cursor, if any.
    pub fn peek_token_type(&self) -> (r: Option<&TokenType>)
        requires
            self.wf(),
        ensures
            match r {
                Some(k) => in_bounds(self.toks(), self.pos()) && *k == self.toks()[self.pos()].kind,
                None => !in_bounds(self.toks(), self.pos()),
            },
    {
        if self.current >= self.tokens.len() {
            return None;
        }
        Some(&self.tokens[self.current].kind)
    }

    /// The kind of the token under the cursor, or the end-of-input error.
    fn peek_kind(&self) -> (r: Result<TokenType, ParseError>)
        requires
            self.wf(),
        ensures
            match r {
                Ok(k) => in_bounds(self.toks(), self.pos()) && k == self.toks()[self.pos()].kind,
                Err(e) => !in_bounds(self.toks(), self.pos()) && e == eoi(self.pos()),
            },
    {
        if self.current >= self.tokens.len() {
            return Err(ParseError::UnexpectedEndOfInput { position: self.current });
        }
        Ok(self.tokens[self.current].kind)
    }

    /// Consumes the token under the cursor when it is of kind `kind`, and
    /// returns a copy of it.
    pub fn eat(&mut self, kind: TokenType) -> (r: Result<Token, ParseError>)
        requires
            old(self).wf(),
        ensures
            final(self).wf(),
            final(self).toks() == old(self).toks(),
            match eat_at(old(self).toks(), old(self).pos(), kind) {
                Ok(p) => match r {
                    Ok(t) => t@ == old(self).toks()[old(self).pos()] && final(self).pos() == p,
                    Err(_) => false,
                },
                Err(e) => r == Err::<Token, ParseError>(e),
            },
    {
        if self.current >= self.tokens.len() {
            return Err(ParseError::UnexpectedEndOfInput { position: self.current });
        }
        let t = &self.tokens[self.current];
        if t.kind != kind {
            return Err(ParseError::UnexpectedToken { expected: Some(kind), found: t.kind, position: self.current });
        }
        let copy = Token::new(t.kind, t.value.clone(), t.content.clone());
        self.current = self.current + 1;
        Ok(copy)
    }
}

/// Whether `kind` is a binary operator.
fn is_op(kind: TokenType) -> (r: bool)
    ensures
        r == is_op_kind(kind),
{
    match kind {
        TokenType::Plus | TokenType::Minus | TokenType::Times | TokenType::Divide | TokenType::Modulo
        | TokenType::LessThan | TokenType::LessThanOrEqual | TokenType::GreaterThan
        | TokenType::GreaterThanOrEqual | TokenType::Equality | TokenType::Equal | TokenType::And
        | TokenType::Or => true,
        _ => false,
    }
}

proof fn lemma_decimal_grows(t: Seq<char>, i: int)
    requires
        all_digits(t),
        0 <= i <= t.len(),
    ensures
        0 <= decimal_value(t.take(i)) <= decimal_value(t),
    decreases t.len(),
{
    if i == t.len() {
        assert(t.take(i) =~= t);
        if t.len() > 0 {
            lemma_decimal_grows(t.drop_last(), 0);
            assert(is_digit(t[t.len() - 1]));
        }
    } else {
        lemma_decimal_grows(t.drop_last(), i);
        assert(t.drop_last().take(i) =~= t.take(i));
        assert(t.drop_last().take(t.len() - 1) =~= t.drop_last());
        assert(is_digit(t[t.len() - 1]));
    }
}

/// The value of a string of decimal digits, when it fits in `isize`.
fn parse_decimal(cs: &Vec<char>) -> (r: Option<isize>)
    requires
        all_digits(cs@),
    ensures
        match r {
            Some(v) => decimal_value(cs@) <= isize::MAX && v as int == decimal_value(cs@) && v >= 0,
            None => decimal_value(cs@) > isize::MAX,
        },
{
    let mut acc: isize = 0;
    let mut i: usize = 0;
    assert(cs@.take(0) =~= Seq::<char>::empty());
    while i < cs.len()
        invariant
            i <= cs.len(),
            all_digits(cs@),
            acc as int == decimal_value(cs@.take(i as int)),
            acc >= 0,
        decreases cs.len() - i,
    {
        proof {
            assert(cs@.take(i + 1).drop_last() =~= cs@.take(i as int));
            assert(is_digit(cs@[i as int]));
            lemma_decimal_grows(cs@, i + 1);
        }
        let d = (cs[i] as u32 - '0' as u32) as isize;
        let m = match acc.checked_mul(10) {
            Some(m) => m,
            None => {
                proof {
                    lemma_decimal_grows(cs@, i as int);
                }
                return None;
            },
        };
        acc = match m.checked_add(d) {
            Some(v) => v,
            None => return None,
        };
        i = i + 1;
    }
    assert(cs@.take(cs.len() as int) =~= cs@);
    Some(acc)
}

/// The number that a number token's text denotes.
fn number_literal(text: &String) -> (r: Option<Number>)
    ensures
        match number_value(text@) {
            Some(v) => match r {
                Some(x) => x@ == v,
                None => false,
            },
            None => r is None,
        },
        r matches Some(Number::Int(v)) ==> v >= 0,
{
    let cs = to_chars(text);
    let mut dots: usize = 0;
    let mut digits_only = true;
    let mut digits_or_dots = true;
    let mut i: usize = 0;
    assert(cs@.take(0) =~= Seq::<char>::empty());
    while i < cs.len()
        invariant
            i <= cs.len(),
            cs@ == text@,
            dots as int == dot_count(cs@.take(i as int)),
            dots <= i,
            digits_only == (forall|j: int| 0 <= j < i ==> is_digit(#[trigger] cs@[j])),
            digits_or_dots == (forall|j: int| 0 <= j < i ==> is_digit(#[trigger] cs@[j]) || cs@[j] == '.'),
        decreases cs.len() - i,
    {
        assert(cs@.take(i + 1).drop_last() =~= cs@.take(i as int));
        let c = cs[i];
        if c == '.' {
            dots = dots + 1;
        }
        if !('0' <= c && c <= '9') {
            digits_only = false;
            if c != '.' {
                digits_or_dots = false;
            }
        }
        i = i + 1;
    }
    assert(cs@.take(cs.len() as int) =~= cs@);
    if dots > 0 {
        if cs.len() >= 2 && dots == 1 && digits_or_dots {
            Some(Number::Float { negative: false, literal: text.clone() })
        } else {
            None
        }
    } else if cs.len() > 0 && digits_only {
        match parse_decimal(&cs) {
            Some(v) => Some(Number::Int(v)),
            None => None,
        }
    } else {
        None
    }
}

/// Unary minus on a node, defined on numbers only.
fn negative(n: Node) -> (r: Option<Node>)
    requires
        negatable(n.model()),
    ensures
        match negate(n.model()) {
            Some(m) => match r {
                Some(x) => x.model() == m && negatable(m),
                None => false,
            },
            None => r is None,
        },
{
    match n {
        Node::Number { value: Number::Int(v) } => Some(Node::Number { value: Number::Int(-v) }),
        Node::Number { value: Number::Float { negative, literal } } => Some(
            Node::Number { value: Number::Float { negative: !negative, literal } },
        ),
        _ => None,
    }
}

/// Puts `v` under `key`, replacing the value of an existing entry.
fn dict_insert(items: &mut Vec<(String, Node)>, key: String, v: Node)
    requires
        keys_unique(entry_models(old(items)@)),
    ensures
        keys_unique(entry_models(final(items)@)),
        entry_models(final(items)@) == dict_put(entry_models(old(items)@), key@, v.model()),
{
    let ghost e = entry_models(items@);
    proof {
        lemma_entry_models(items@);
    }
    let mut i: usize = 0;
    while i < items.len()
        invariant
            i <= items.len(),
            items@ == old(items)@,
            e == entry_models(items@),
            e.len() == items.len(),
            keys_unique(e),
            forall|j: int| 0 <= j < e.len() ==> #[trigger] e[j] == (items@[j].0@, items@[j].1.model()),
            forall|j: int| 0 <= j < i ==> e[j].0 != key@,
        decreases items.len() - i,
    {
        assert(e[i as int] == (items@[i as int].0@, items@[i as int].1.model()));
        if items[i].0 == key {
            let ghost x = (key, v);
            let ghost before = items@;
            items.set(i, (key, v));
            proof {
                lemma_entry_models(items@);
                let y = (x.0@, x.1.model());
                assert(entry_models(items@).len() == e.update(i as int, y).len());
                assert forall|k: int| 0 <= k < e.len() implies entry_models(items@)[k] == e.update(
                    i as int,
                    y,
                )[k] by {
                    if k != i {
                        assert(items@[k] == before[k]);
                        assert(e[k] == (before[k].0@, before[k].1.model()));
                    }
                }
                assert(entry_models(items@) =~= e.update(i as int, y));
                assert(e[i as int].0 == x.0@);
                let j = choose|j: int| 0 <= j < e.len() && e[j].0 == x.0@;
                assert(j == i);
            }
            return;
        }
        i = i + 1;
    }
    let ghost x = (key, v);
    items.push((key, v));
    proof {
        lemma_entry_models_push(old(items)@, x);
    }
}

/// A primary expression.
fn simple(parser: &mut Parser) -> (r: Result<Node, ParseError>)
    requires
        old(parser).wf(),
    ensures
        final(parser).wf(),
        final(parser).toks() == old(parser).toks(),
        node_outcome(p_simple(old(parser).toks(), old(parser).pos()), r, *final(parser)),
        r is Ok ==> adv(old(parser).toks(), old(parser).pos(), final(parser).pos()),
        ok_negatable(r),
    decreases old(parser).toks().len() - old(parser).pos(), 1int,
{
    let pos = parser.current;
    let kind = match parser.peek_kind() {
        Ok(k) => k,
        Err(e) => return Err(e),
    };
    let token = match parser.eat(kind) {
        Ok(t) => t,
        Err(e) => return Err(e),
    };
    match kind {
        TokenType::Word => {
            let inner = Node::String { value: String::new() };
            assert(inner.model() == NodeModel::String { value: seq![] });
            Ok(Node::Var { name: token.value, value: Box::new(inner) })
        },
        TokenType::Minus => {
            let inner = match simple(parser) {
                Ok(n) => n,
                Err(e) => return Err(e),
            };
            match negative(inner) {
                Some(n) => Ok(n),
                None => Err(ParseError::OperandTypeMismatch { position: pos }),
            }
        },
        TokenType::Number => match number_literal(&token.value) {
            Some(v) => Ok(Node::Number { value: v }),
            None => Err(ParseError::InvalidNumericLiteral { position: pos }),
        },
        TokenType::String => Ok(Node::String { value: token.value }),
        TokenType::True => Ok(Node::Bool { value: true }),
        TokenType::False => Ok(Node::Bool { value: false }),
        TokenType::LeftParen => {
            let inner = match expr(parser, true) {
                Ok(n) => n,
                Err(e) => return Err(e),
            };
            match parser.eat(TokenType::RightParen) {
                Ok(_) => Ok(inner),
                Err(e) => Err(e),
            }
        },
        TokenType::LeftBracket => {
            let next = match parser.peek_kind() {
                Ok(k) => k,
                Err(e) => return Err(e),
            };
            let items = if next == TokenType::RightBracket {
                let v: Vec<Node> = Vec::new();
                assert(models(v@) =~= seq![]);
                v
            } else {
                match expr_seq(parser) {
                    Ok(v) => v,
                    Err(e) => return Err(e),
                }
            };
            match parser.eat(TokenType::RightBracket) {
                Ok(_) => Ok(Node::Array { items }),
                Err(e) => Err(e),
            }
        },
        TokenType::LeftBrace => {
            let items = match dict_entries(parser) {
                Ok(v) => v,
                Err(e) => return Err(e),
            };
            match parser.eat(TokenType::RightBrace) {
                Ok(_) => Ok(Node::Dict { items }),
                Err(e) => Err(e),
            }
        },
        _ => Err(ParseError::UnexpectedToken { expected: None, found: kind, position: pos }),
    }
}

/// Dictionary entries up to a `}`.
fn dict_entries(parser: &mut Parser) -> (r: Result<Vec<(String, Node)>, ParseError>)
    requires
        old(parser).wf(),
    ensures
        final(parser).wf(),
        final(parser).toks() == old(parser).toks(),
        match p_dict(old(parser).toks(), old(parser).pos(), seq![]) {
            Ok((m, q)) => match r {
                Ok(v) => entry_models(v@) == m && final(parser).pos() == q,
                Err(_) => false,
            },
            Err(e) => r == Err::<Vec<(String, Node)>, ParseError>(e),
        },
        r is Ok ==> old(parser).pos() <= final(parser).pos(),
    decreases old(parser).toks().len() - old(parser).pos(), 2int,
{
    let ghost toks = parser.toks();
    let ghost start = parser.pos();
    let mut items: Vec<(String, Node)> = Vec::new();
    loop
        invariant
            parser.wf(),
            parser.toks() == toks,
            toks == old(parser).toks(),
            start == old(parser).pos(),
            start <= parser.pos(),
            keys_unique(entry_models(items@)),
            p_dict(toks, start, seq![]) == p_dict(toks, parser.pos(), entry_models(items@)),
        decreases toks.len() - parser.pos(),
    {
        let k = match parser.peek_kind() {
            Ok(k) => k,
            Err(e) => return Err(e),
        };
        if k == TokenType::RightBrace {
            return Ok(items);
        }
        let key = match parser.eat(TokenType::String) {
            Ok(t) => t.value,
            Err(e) => return Err(e),
        };
        match parser.eat(TokenType::Colon) {
            Ok(_) => {},
            Err(e) => return Err(e),
        }
        let v = match expr(parser, false) {
            Ok(n) => n,
            Err(e) => return Err(e),
        };
        dict_insert(&mut items, key, v);
        let k = match parser.peek_kind() {
            Ok(k) => k,
            Err(e) => return Err(e),
        };
        if k != TokenType::RightBrace {
            match parser.eat(TokenType::Comma) {
                Ok(_) => {},
                Err(e) => return Err(e),
            }
        }
    }
}

/// A primary expression followed by its trailers.
fn call(parser: &mut Parser) -> (r: Result<Node, ParseError>)
    requires
        old(parser).wf(),
    ensures
        final(parser).wf(),
        final(parser).toks() == old(parser).toks(),
        node_outcome(p_call(old(parser).toks(), old(parser).pos()), r, *final(parser)),
        r is Ok ==> adv(old(parser).toks(), old(parser).pos(), final(parser).pos()),
        ok_negatable(r),
    decreases old(parser).toks().len() - old(parser).pos(), 3int,
{
    let ghost toks = parser.toks();
    let ghost start = parser.pos();
    let res = match simple(parser) {
        Ok(n) => n,
        Err(e) => return Err(e),
    };
    let k = match parser.peek_kind() {
        Ok(k) => k,
        Err(e) => return Err(e),
    };
    if k != TokenType::LeftParen && k != TokenType::LeftBracket {
        return Ok(res);
    }
    let ghost q = parser.pos();
    let mut chain: Vec<Node> = Vec::new();
    loop
        invariant
            parser.wf(),
            parser.toks() == toks,
            toks == old(parser).toks(),
            start == old(parser).pos(),
            start < q <= parser.pos(),
            p_call(toks, start) == (match p_trailers(toks, q, seq![]) {
                Ok((chain, r)) => Ok((NodeModel::Chain { name: Box::new(res.model()), chain }, r)),
                Err(e) => Err(e),
            }),
            p_trailers(toks, q, seq![]) == p_trailers(toks, parser.pos(), models(chain@)),
        decreases toks.len() - parser.pos(),
    {
        let k = match parser.peek_kind() {
            Ok(k) => k,
            Err(e) => return Err(e),
        };
        if k == TokenType::LeftParen {
            match parser.eat(TokenType::LeftParen) {
                Ok(_) => {},
                Err(e) => return Err(e),
            }
            let args = match expr_list(parser) {
                Ok(v) => v,
                Err(e) => return Err(e),
            };
            match parser.eat(TokenType::RightParen) {
                Ok(_) => {},
                Err(e) => return Err(e),
            }
            let node = Node::Call { args };
            proof {
                lemma_models_push(chain@, node);
            }
            chain.push(node);
        } else if k == TokenType::LeftBracket {
            match parser.eat(TokenType::LeftBracket) {
                Ok(_) => {},
                Err(e) => return Err(e),
            }
            let k2 = match parser.peek_kind() {
                Ok(k) => k,
                Err(e) => return Err(e),
            };
            let node = if k2 == TokenType::Period {
                match parser.eat(TokenType::Period) {
                    Ok(_) => {},
                    Err(e) => return Err(e),
                }
                let k3 = match parser.peek_kind() {
                    Ok(k) => k,
                    Err(e) => return Err(e),
                };
                let id = match parser.eat(k3) {
                    Ok(t) => t,
                    Err(e) => return Err(e),
                };
                Node::Attr { attr: id.value }
            } else {
                match expr(parser, false) {
                    Ok(n) => n,
                    Err(e) => return Err(e),
                }
            };
            match parser.eat(TokenType::RightBracket) {
                Ok(_) => {},
                Err(e) => return Err(e),
            }
            proof {
                lemma_models_push(chain@, node);
            }
            chain.push(node);
        } else {
            return Ok(Node::Chain { name: Box::new(res), chain });
        }
    }
}

/// An operand, then optionally an operator and the rest of the expression.
fn expr(parser: &mut Parser, wrapped: bool) -> (r: Result<Node, ParseError>)
    requires
        old(parser).wf(),
    ensures
        final(parser).wf(),
        final(parser).toks() == old(parser).toks(),
        node_outcome(p_expr(old(parser).toks(), old(parser).pos(), wrapped), r, *final(parser)),
        r is Ok ==> adv(old(parser).toks(), old(parser).pos(), final(parser).pos()),
        ok_negatable(r),
    decreases old(parser).toks().len() - old(parser).pos(), 4int,
{
    let left = match call(parser) {
        Ok(n) => n,
        Err(e) => return Err(e),
    };
    let k = match parser.peek_kind() {
        Ok(k) => k,
        Err(e) => return Err(e),
    };
    if is_op(k) {
        let op = match parser.eat(k) {
            Ok(t) => t.value,
            Err(e) => return Err(e),
        };
        let right = match expr(parser, false) {
            Ok(n) => n,
            Err(e) => return Err(e),
        };
        Ok(Node::BinOp { left: Box::new(left), right: Box::new(right), op, wrapped })
    } else {
        Ok(left)
    }
}

/// One or more expressions separated by commas.
fn expr_seq(parser: &mut Parser) -> (r: Result<Vec<Node>, ParseError>)
    requires
        old(parser).wf(),
    ensures
        final(parser).wf(),
        final(parser).toks() == old(parser).toks(),
        nodes_outcome(p_expr_seq(old(parser).toks(), old(parser).pos(), seq![]), r, *final(parser)),
        r is Ok ==> adv(old(parser).toks(), old(parser).pos(), final(parser).pos()),
    decreases old(parser).toks().len() - old(parser).pos(), 5int,
{
    let ghost toks = parser.toks();
    let ghost start = parser.pos();
    let mut items: Vec<Node> = Vec::new();
    loop
        invariant
            parser.wf(),
            parser.toks() == toks,
            toks == old(parser).toks(),
            start == old(parser).pos(),
            start <= parser.pos(),
            items.len() > 0 ==> start < parser.pos(),
            p_expr_seq(toks, start, seq![]) == p_expr_seq(toks, parser.pos(), models(items@)),
        decreases toks.len() - parser.pos(),
    {
        let n = match expr(parser, false) {
            Ok(n) => n,
            Err(e) => return Err(e),
        };
        let k = match parser.peek_kind() {
            Ok(k) => k,
            Err(e) => return Err(e),
        };
        proof {
            lemma_models_push(items@, n);
        }
        items.push(n);
        if k == TokenType::Comma {
            match parser.eat(TokenType::Comma) {
                Ok(_) => {},
                Err(e) => return Err(e),
            }
        } else {
            return Ok(items);
        }
    }
}

/// Zero or more expressions separated by commas, before a `)`.
fn expr_list(parser: &mut Parser) -> (r: Result<Vec<Node>, ParseError>)
    requires
        old(parser).wf(),
    ensures
        final(parser).wf(),
        final(parser).toks() == old(parser).toks(),
        nodes_outcome(p_expr_list(old(parser).toks(), old(parser).pos()), r, *final(parser)),
        r is Ok ==> old(parser).pos() <= final(parser).pos(),
    decreases old(parser).toks().len() - old(parser).pos(), 6int,
{
    let k = match parser.peek_kind() {
        Ok(k) => k,
        Err(e) => return Err(e),
    };
    if k == TokenType::RightParen {
        Ok(Vec::new())
    } else {
        expr_seq(parser)
    }
}

/// Zero or more identifiers separated by commas.
fn id_list(parser: &mut Parser) -> (r: Result<Vec<String>, ParseError>)
    requires
        old(parser).wf(),
    ensures
        final(parser).wf(),
        final(parser).toks() == old(parser).toks(),
        match p_ids(old(parser).toks(), old(parser).pos()) {
            Ok((ids, q)) => match r {
                Ok(v) => strings_view(v@) == ids && final(parser).pos() == q,
                Err(_) => false,
            },
            Err(e) => r == Err::<Vec<String>, ParseError>(e),
        },
        r is Ok ==> old(parser).pos() <= final(parser).pos(),
{
    let ghost toks = parser.toks();
    let ghost start = parser.pos();
    let mut values: Vec<String> = Vec::new();
    let k = match parser.peek_kind() {
        Ok(k) => k,
        Err(e) => return Err(e),
    };
    if k != TokenType::Word {
        assert(strings_view(values@) =~= seq![]);
        return Ok(values);
    }
    match parser.eat(TokenType::Word) {
        Ok(t) => values.push(t.value),
        Err(e) => return Err(e),
    }
    assert(strings_view(values@) =~= seq![toks[start].value]);
    loop
        invariant
            parser.wf(),
            parser.toks() == toks,
            toks == old(parser).toks(),
            start == old(parser).pos(),
            start < parser.pos(),
            p_ids(toks, start) == p_ids_more(toks, parser.pos(), strings_view(values@)),
        decreases toks.len() - parser.pos(),
    {
        let k = match parser.peek_kind() {
            Ok(k) => k,
            Err(e) => return Err(e),
        };
        if k != TokenType::Comma {
            return Ok(values);
        }
        match parser.eat(TokenType::Comma) {
            Ok(_) => {},
            Err(e) => return Err(e),
        }
        let ghost before = values@;
        match parser.eat(TokenType::Word) {
            Ok(t) => values.push(t.value),
            Err(e) => return Err(e),
        }
        assert(strings_view(values@) =~= strings_view(before).push(values@.last()@));
    }
}

/// `{`, statements, `}`.
fn block(parser: &mut Parser) -> (r: Result<Vec<Node>, ParseError>)
    requires
        old(parser).wf(),
    ensures
        final(parser).wf(),
        final(parser).toks() == old(parser).toks(),
        nodes_outcome(p_block(old(parser).toks(), old(parser).pos()), r, *final(parser)),
        r is Ok ==> adv(old(parser).toks(), old(parser).pos(), final(parser).pos()),
    decreases old(parser).toks().len() - old(parser).pos(), 12int,
{
    let ghost toks = parser.toks();
    let ghost start = parser.pos();
    match parser.eat(TokenType::LeftBrace) {
        Ok(_) => {},
        Err(e) => return Err(e),
    }
    let ghost q0 = parser.pos();
    let mut body: Vec<Node> = Vec::new();
    assert(models(body@) =~= seq![]);
    loop
        invariant
            parser.wf(),
            parser.toks() == toks,
            toks == old(parser).toks(),
            start == old(parser).pos(),
            start < q0 <= parser.pos(),
            p_block(toks, start) == (match p_stmts(toks, q0, seq![]) {
                Err(e) => Err(e),
                Ok((body, q)) => match eat_at(toks, q, TokenType::RightBrace) {
                    Ok(r) => Ok((body, r)),
                    Err(e) => Err(e),
                },
            }),
            p_stmts(toks, q0, seq![]) == p_stmts(toks, parser.pos(), models(body@)),
        decreases toks.len() - parser.pos(),
    {
        let k = match parser.peek_kind() {
            Ok(k) => k,
            Err(e) => return Err(e),
        };
        if k == TokenType::RightBrace {
            match parser.eat(TokenType::RightBrace) {
                Ok(_) => {},
                Err(e) => return Err(e),
            }
            return Ok(body);
        }
        let n = match stmt(parser) {
            Ok(n) => n,
            Err(e) => return Err(e),
        };
        proof {
            lemma_models_push(body@, n);
        }
        body.push(n);
    }
}

/// `burn name = expr`.
fn var_stmt(parser: &mut Parser) -> (r: Result<Node, ParseError>)
    requires
        old(parser).wf(),
    ensures
        final(parser).wf(),
        final(parser).toks() == old(parser).toks(),
        node_outcome(p_var(old(parser).toks(), old(parser).pos()), r, *final(parser)),
        r is Ok ==> adv(old(parser).toks(), old(parser).pos(), final(parser).pos()),
    decreases old(parser).toks().len() - old(parser).pos(), 9int,
{
    match parser.eat(TokenType::Var) {
        Ok(_) => {},
        Err(e) => return Err(e),
    }
    let id = match parser.eat(TokenType::Word) {
        Ok(t) => t.value,
        Err(e) => return Err(e),
    };
    match parser.eat(TokenType::Equal) {
        Ok(_) => {},
        Err(e) => return Err(e),
    }
    let value = match expr(parser, false) {
        Ok(n) => n,
        Err(e) => return Err(e),
    };
    Ok(Node::Var { name: id, value: Box::new(value) })
}

/// `prepmatch name(params) { body }`.
fn func_stmt(parser: &mut Parser) -> (r: Result<Node, ParseError>)
    requires
        old(parser).wf(),
    ensures
        final(parser).wf(),
        final(parser).toks() == old(parser).toks(),
        node_outcome(p_func(old(parser).toks(), old(parser).pos()), r, *final(parser)),
        r is Ok ==> adv(old(parser).toks(), old(parser).pos(), final(parser).pos()),
    decreases old(parser).toks().len() - old(parser).pos(), 9int,
{
    match parser.eat(TokenType::Func) {
        Ok(_) => {},
        Err(e) => return Err(e),
    }
    let id = match parser.eat(TokenType::Word) {
        Ok(t) => t.value,
        Err(e) => return Err(e),
    };
    match parser.eat(TokenType::LeftParen) {
        Ok(_) => {},
        Err(e) => return Err(e),
    }
    let params = match id_list(parser) {
        Ok(v) => v,
        Err(e) => return Err(e),
    };
    match parser.eat(TokenType::RightParen) {
        Ok(_) => {},
        Err(e) => return Err(e),
    }
    let body = match block(parser) {
        Ok(v) => v,
        Err(e) => return Err(e),
    };
    Ok(Node::Func { name: id, params, body })
}

/// `lightertype name { methods }`.
fn class_stmt(parser: &mut Parser) -> (r: Result<Node, ParseError>)
    requires
        old(parser).wf(),
    ensures
        final(parser).wf(),
        final(parser).toks() == old(parser).toks(),
        node_outcome(p_class(old(parser).toks(), old(parser).pos()), r, *final(parser)),
        r is Ok ==> adv(old(parser).toks(), old(parser).pos(), final(parser).pos()),
    decreases old(parser).toks().len() - old(parser).pos(), 9int,
{
    let ghost toks = parser.toks();
    let ghost start = parser.pos();
    match parser.eat(TokenType::Class) {
        Ok(_) => {},
        Err(e) => return Err(e),
    }
    let id = match parser.eat(TokenType::Word) {
        Ok(t) => t.value,
        Err(e) => return Err(e),
    };
    match parser.eat(TokenType::LeftBrace) {
        Ok(_) => {},
        Err(e) => return Err(e),
    }
    let ghost q0 = parser.pos();
    let mut methods: Vec<Node> = Vec::new();
    assert(models(methods@) =~= seq![]);
    loop
        invariant
            parser.wf(),
            parser.toks() == toks,
            toks == old(parser).toks(),
            start == old(parser).pos(),
            start + 3 == q0,
            q0 <= parser.pos(),
            id@ == toks[start + 1].value,
            p_class(toks, start) == (match p_methods(toks, q0, seq![]) {
                Err(e) => Err(e),
                Ok((methods, q)) => match eat_at(toks, q, TokenType::RightBrace) {
                    Ok(r) => Ok((NodeModel::Class { name: toks[start + 1].value, methods }, r)),
                    Err(e) => Err(e),
                },
            }),
            p_methods(toks, q0, seq![]) == p_methods(toks, parser.pos(), models(methods@)),
        decreases toks.len() - parser.pos(),
    {
        let k = match parser.peek_kind() {
            Ok(k) => k,
            Err(e) => return Err(e),
        };
        if k != TokenType::Func {
            match parser.eat(TokenType::RightBrace) {
                Ok(_) => {},
                Err(e) => return Err(e),
            }
            return Ok(Node::Class { name: id, methods });
        }
        let m = match func_stmt(parser) {
            Ok(n) => n,
            Err(e) => return Err(e),
        };
        proof {
            lemma_models_push(methods@, m);
        }
        methods.push(m);
    }
}

/// `return expr`.
fn return_stmt(parser: &mut Parser) -> (r: Result<Node, ParseError>)
    requires
        old(parser).wf(),
    ensures
        final(parser).wf(),
        final(parser).toks() == old(parser).toks(),
        node_outcome(p_return(old(parser).toks(), old(parser).pos()), r, *final(parser)),
        r is Ok ==> adv(old(parser).toks(), old(parser).pos(), final(parser).pos()),
    decreases old(parser).toks().len() - old(parser).pos(), 9int,
{
    match parser.eat(TokenType::Return) {
        Ok(_) => {},
        Err(e) => return Err(e),
    }
    let value = match expr(parser, false) {
        Ok(n) => n,
        Err(e) => return Err(e),
    };
    Ok(Node::Return { value: Box::new(value) })
}

/// `if` or `elif`, `(statement) { body }`: an `If` node with no other branches.
fn conditional(parser: &mut Parser, kw: TokenType) -> (r: Result<Node, ParseError>)
    requires
        old(parser).wf(),
    ensures
        final(parser).wf(),
        final(parser).toks() == old(parser).toks(),
        node_outcome(p_guarded(old(parser).toks(), old(parser).pos(), kw), r, *final(parser)),
        r is Ok ==> adv(old(parser).toks(), old(parser).pos(), final(parser).pos()),
    decreases old(parser).toks().len() - old(parser).pos(), 8int,
{
    match parser.eat(kw) {
        Ok(_) => {},
        Err(e) => return Err(e),
    }
    match parser.eat(TokenType::LeftParen) {
        Ok(_) => {},
        Err(e) => return Err(e),
    }
    let condition = match stmt(parser) {
        Ok(n) => n,
        Err(e) => return Err(e),
    };
    match parser.eat(TokenType::RightParen) {
        Ok(_) => {},
        Err(e) => return Err(e),
    }
    let body = match block(parser) {
        Ok(v) => v,
        Err(e) => return Err(e),
    };
    let otherwise: Vec<Node> = Vec::new();
    assert(models(otherwise@) =~= seq![]);
    Ok(Node::If { condition: Box::new(condition), body, otherwise })
}

/// `else { body }`.
fn else_stmt(parser: &mut Parser) -> (r: Result<Node, ParseError>)
    requires
        old(parser).wf(),
    ensures
        final(parser).wf(),
        final(parser).toks() == old(parser).toks(),
        node_outcome(p_else(old(parser).toks(), old(parser).pos()), r, *final(parser)),
        r is Ok ==> adv(old(parser).toks(), old(parser).pos(), final(parser).pos()),
    decreases old(parser).toks().len() - old(parser).pos(), 9int,
{
    match parser.eat(TokenType::Else) {
        Ok(_) => {},
        Err(e) => return Err(e),
    }
    let body = match block(parser) {
        Ok(v) => v,
        Err(e) => return Err(e),
    };
    Ok(Node::Else { body })
}

/// `if (statement) { body }`, then an optional `else`, `elif` clauses, and
/// an optional `else`, all kept in that order as the other branches.
fn if_stmt(parser: &mut Parser) -> (r: Result<Node, ParseError>)
    requires
        old(parser).wf(),
    ensures
        final(parser).wf(),
        final(parser).toks() == old(parser).toks(),
        node_outcome(p_if(old(parser).toks(), old(parser).pos()), r, *final(parser)),
        r is Ok ==> adv(old(parser).toks(), old(parser).pos(), final(parser).pos()),
    decreases old(parser).toks().len() - old(parser).pos(), 9int,
{
    let ghost toks = parser.toks();
    let ghost start = parser.pos();
    let head = match conditional(parser, TokenType::If) {
        Ok(n) => n,
        Err(e) => return Err(e),
    };
    let (condition, body) = match head {
        Node::If { condition, body, otherwise: _ } => (condition, body),
        _ => {
            assert(false);
            return Err(ParseError::UnexpectedEndOfInput { position: parser.current });
        },
    };
    let ghost q = parser.pos();
    let mut otherwise: Vec<Node> = Vec::new();
    assert(models(otherwise@) =~= seq![]);
    let k = match parser.peek_kind() {
        Ok(k) => k,
        Err(e) => return Err(e),
    };
    if k == TokenType::Else {
        let e = match else_stmt(parser) {
            Ok(n) => n,
            Err(e) => return Err(e),
        };
        proof {
            lemma_models_push(otherwise@, e);
        }
        otherwise.push(e);
        assert(models(otherwise@) =~= seq![e.model()]);
    }
    let ghost q1 = parser.pos();
    let ghost acc1 = models(otherwise@);
    loop
        invariant
            parser.wf(),
            parser.toks() == toks,
            toks == old(parser).toks(),
            start == old(parser).pos(),
            start < q <= q1 <= parser.pos(),
            in_bounds(toks, q),
            p_otherwise(toks, q) == (match p_elifs(toks, q1, acc1) {
                Err(e) => Err(e),
                Ok((acc2, r)) => if !(q <= r <= toks.len()) || !in_bounds(toks, r) {
                    Err(eoi(r))
                } else if at(toks, r, TokenType::Else) {
                    match p_else(toks, r) {
                        Ok((e, s)) => Ok((acc2.push(e), s)),
                        Err(e) => Err(e),
                    }
                } else {
                    Ok((acc2, r))
                },
            }),
            p_if(toks, start) == (match p_otherwise(toks, q) {
                Ok((other, r)) => Ok((
                    NodeModel::If { condition: Box::new(condition.model()), body: models(body@), otherwise: other },
                    r,
                )),
                Err(e) => Err(e),
            }),
            p_elifs(toks, q1, acc1) == p_elifs(toks, parser.pos(), models(otherwise@)),
        decreases toks.len() - parser.pos(),
    {
        let k = match parser.peek_kind() {
            Ok(k) => k,
            Err(e) => return Err(e),
        };
        if k != TokenType::Elif {
            if k == TokenType::Else {
                let e = match else_stmt(parser) {
                    Ok(n) => n,
                    Err(e) => return Err(e),
                };
                proof {
                    lemma_models_push(otherwise@, e);
                }
                otherwise.push(e);
            }
            return Ok(Node::If { condition, body, otherwise });
        }
        let n = match conditional(parser, TokenType::Elif) {
            Ok(n) => n,
            Err(e) => return Err(e),
        };
        proof {
            lemma_models_push(otherwise@, n);
        }
        otherwise.push(n);
    }
}

/// `for name through (exprs) { body }`.
fn for_stmt(parser: &mut Parser) -> (r: Result<Node, ParseError>)
    requires
        old(parser).wf(),
    ensures
        final(parser).wf(),
        final(parser).toks() == old(parser).toks(),
        node_outcome(p_for(old(parser).toks(), old(parser).pos()), r, *final(parser)),
        r is Ok ==> adv(old(parser).toks(), old(parser).pos(), final(parser).pos()),
    decreases old(parser).toks().len() - old(parser).pos(), 9int,
{
    match parser.eat(TokenType::For) {
        Ok(_) => {},
        Err(e) => return Err(e),
    }
    let id = match parser.eat(TokenType::Word) {
        Ok(t) => t.value,
        Err(e) => return Err(e),
    };
    match parser.eat(TokenType::Range) {
        Ok(_) => {},
        Err(e) => return Err(e),
    }
    match parser.eat(TokenType::LeftParen) {
        Ok(_) => {},
        Err(e) => return Err(e),
    }
    let through = match expr_list(parser) {
        Ok(v) => v,
        Err(e) => return Err(e),
    };
    match parser.eat(TokenType::RightParen) {
        Ok(_) => {},
        Err(e) => return Err(e),
    }
    let body = match block(parser) {
        Ok(v) => v,
        Err(e) => return Err(e),
    };
    Ok(Node::For { var: id, through, body })
}

/// `while (expr) { body }`.
fn while_stmt(parser: &mut Parser) -> (r: Result<Node, ParseError>)
    requires
        old(parser).wf(),
    ensures
        final(parser).wf(),
        final(parser).toks() == old(parser).toks(),
        node_outcome(p_while(old(parser).toks(), old(parser).pos()), r, *final(parser)),
        r is Ok ==> adv(old(parser).toks(), old(parser).pos(), final(parser).pos()),
    decreases old(parser).toks().len() - old(parser).pos(), 9int,
{
    match parser.eat(TokenType::While) {
        Ok(_) => {},
        Err(e) => return Err(e),
    }
    match parser.eat(TokenType::LeftParen) {
        Ok(_) => {},
        Err(e) => return Err(e),
    }
    let condition = match expr(parser, false) {
        Ok(n) => n,
        Err(e) => return Err(e),
    };
    match parser.eat(TokenType::RightParen) {
        Ok(_) => {},
        Err(e) => return Err(e),
    }
    let body = match block(parser) {
        Ok(v) => v,
        Err(e) => return Err(e),
    };
    Ok(Node::While { condition: Box::new(condition), body })
}

/// A statement, chosen by the kind of its first token.
fn stmt(parser: &mut Parser) -> (r: Result<Node, ParseError>)
    requires
        old(parser).wf(),
    ensures
        final(parser).wf(),
        final(parser).toks() == old(parser).toks(),
        node_outcome(p_stmt(old(parser).toks(), old(parser).pos()), r, *final(parser)),
        r is Ok ==> adv(old(parser).toks(), old(parser).pos(), final(parser).pos()),
    decreases old(parser).toks().len() - old(parser).pos(), 10int,
{
    let k = match parser.peek_kind() {
        Ok(k) => k,
        Err(e) => return Err(e),
    };
    match k {
        TokenType::Var => var_stmt(parser),
        TokenType::Call => call(parser),
        TokenType::Func => func_stmt(parser),
        TokenType::Class => class_stmt(parser),
        TokenType::Return => return_stmt(parser),
        TokenType::For => for_stmt(parser),
        TokenType::While => while_stmt(parser),
        TokenType::If => if_stmt(parser),
        _ => expr(parser, false),
    }
}

/// The statements from the cursor up to the end-of-input token.
pub fn program(parser: &mut Parser) -> (r: Result<Vec<Node>, ParseError>)
    requires
        old(parser).wf(),
    ensures
        final(parser).wf(),
        final(parser).toks() == old(parser).toks(),
        match p_program(old(parser).toks(), old(parser).pos(), seq![]) {
            Ok(ns) => match r {
                Ok(v) => models(v@) == ns,
                Err(_) => false,
            },
            Err(e) => r == Err::<Vec<Node>, ParseError>(e),
        },
{
    let ghost toks = parser.toks();
    let ghost start = parser.pos();
    let mut parsed: Vec<Node> = Vec::new();
    assert(models(parsed@) =~= seq![]);
    loop
        invariant
            parser.wf(),
            parser.toks() == toks,
            toks == old(parser).toks(),
            p_program(toks, start, seq![]) == p_program(toks, parser.pos(), models(parsed@)),
            start == old(parser).pos(),
        decreases toks.len() - parser.pos(),
    {
        let k = match parser.peek_kind() {
            Ok(k) => k,
            Err(e) => return Err(e),
        };
        if k == TokenType::Eof {
            return Ok(parsed);
        }
        let n = match stmt(parser) {
            Ok(n) => n,
            Err(e) => return Err(e),
        };
        proof {
            lemma_models_push(parsed@, n);
        }
        parsed.push(n);
    }
}

/// The program that a token sequence denotes.
pub fn parse(tokens: Vec<Token>) -> (r: Result<Vec<Node>, ParseError>)
    ensures
        match parse_program(token_views(tokens@)) {
            Ok(ns) => match r {
                Ok(v) => models(v@) == ns,
                Err(_) => false,
            },
            Err(e) => r == Err::<Vec<Node>, ParseError>(e),
        },
{
    let mut parser = Parser::new(tokens);
    program(&mut parser)
}

// ---------------------------------------------------------------------------
// Laws

/// A reference to the variable `name`, as a primary expression reads it.
pub open spec fn var_ref(name: Seq<char>) -> NodeModel {
    NodeModel::Var { name, value: Box::new(NodeModel::String { value: seq![] }) }
}

/// Binary operators group to the right: for words `a`, `b`, `c` and
/// operators `op1`, `op2`, the tokens `a op1 b op2 c` parse as one node,
/// `a op1 (b op2 c)`.
pub proof fn lemma_operators_group_right(toks: Seq<TokenModel>)
    requires
        toks.len() == 6,
        toks[0].kind == TokenType::Word,
        toks[2].kind == TokenType::Word,
        toks[4].kind == TokenType::Word,
        is_op_kind(toks[1].kind),
        is_op_kind(toks[3].kind),
        toks[5].kind == TokenType::Eof,
    ensures
        parse_program(toks) == Ok::<Seq<NodeModel>, ParseError>(
            seq![
                NodeModel::BinOp {
                    left: Box::new(var_ref(toks[0].value)),
                    right: Box::new(
                        NodeModel::BinOp {
                            left: Box::new(var_ref(toks[2].value)),
                            right: Box::new(var_ref(toks[4].value)),
                            op: toks[3].value,
                            wrapped: false,
                        },
                    ),
                    op: toks[1].value,
                    wrapped: false,
                },
            ],
        ),
{
    let c = var_ref(toks[4].value);
    assert(p_simple(toks, 4) == Ok::<(NodeModel, int), ParseError>((c, 5)));
    assert(p_call(toks, 4) == Ok::<(NodeModel, int), ParseError>((c, 5)));
    assert(p_expr(toks, 4, false) == Ok::<(NodeModel, int), ParseError>((c, 5)));
    let b = var_ref(toks[2].value);
    let bc = NodeModel::BinOp { left: Box::new(b), right: Box::new(c), op: toks[3].value, wrapped: false };
    assert(p_simple(toks, 2) == Ok::<(NodeModel, int), ParseError>((b, 3)));
    assert(p_call(toks, 2) == Ok::<(NodeModel, int), ParseError>((b, 3)));
    assert(p_expr(toks, 2, false) == Ok::<(NodeModel, int), ParseError>((bc, 5)));
    let a = var_ref(toks[0].value);
    let abc = NodeModel::BinOp { left: Box::new(a), right: Box::new(bc), op: toks[1].value, wrapped: false };
    assert(p_simple(toks, 0) == Ok::<(NodeModel, int), ParseError>((a, 1)));
    assert(p_call(toks, 0) == Ok::<(NodeModel, int), ParseError>((a, 1)));
    assert(p_expr(toks, 0, false) == Ok::<(NodeModel, int), ParseError>((abc, 5)));
    assert(p_stmt(toks, 0) == Ok::<(NodeModel, int), ParseError>((abc, 5)));
    assert(p_program(toks, 5, seq![abc]) == Ok::<Seq<NodeModel>, ParseError>(seq![abc]));
    assert(seq![].push(abc) == seq![abc]);
}

/// A token sequence that holds a single statement followed by the end of
/// input parses to exactly one top-level node, and that node has the kind
/// named by the statement's first token.
pub proof fn lemma_single_statement(toks: Seq<TokenModel>, n: NodeModel, q: int)
    requires
        p_stmt(toks, 0) == Ok::<(NodeModel, int), ParseError>((n, q)),
        at(toks, q, TokenType::Eof),
    ensures
        parse_program(toks) == Ok::<Seq<NodeModel>, ParseError>(seq![n]),
        toks[0].kind == TokenType::Var ==> kind_of(n) == AstType::Var,
        toks[0].kind == TokenType::Func ==> kind_of(n) == AstType::Func,
        toks[0].kind == TokenType::Class ==> kind_of(n) == AstType::Class,
        toks[0].kind == TokenType::Return ==> kind_of(n) == AstType::Return,
        toks[0].kind == TokenType::For ==> kind_of(n) == AstType::For,
        toks[0].kind == TokenType::While ==> kind_of(n) == AstType::While,
        toks[0].kind == TokenType::If ==> kind_of(n) == AstType::If,
{
    assert(in_bounds(toks, 0));
    assert(!at(toks, 0, TokenType::Eof)) by {
        if at(toks, 0, TokenType::Eof) {
            assert(p_stmt(toks, 0) == p_expr(toks, 0, false));
        }
    }
    lemma_adv_stmt(toks, 0);
    assert(p_program(toks, q, seq![n]) == Ok::<Seq<NodeModel>, ParseError>(seq![n]));
    assert(seq![].push(n) == seq![n]);
}

// Every production that succeeds moves the cursor forward (or, for the
// lists, not back), and never past the end.

proof fn lemma_adv_simple(toks: Seq<TokenModel>, pos: int)
    ensures
        p_simple(toks, pos) matches Ok((_, q)) ==> pos < q <= toks.len(),
    decreases toks.len() - pos, 1int,
{
    if in_bounds(toks, pos) {
        match toks[pos].kind {
            TokenType::Minus => lemma_adv_simple(toks, pos + 1),
            TokenType::LeftParen => lemma_adv_expr(toks, pos + 1, true),
            TokenType::LeftBracket => lemma_adv_expr_seq(toks, pos + 1, seq![]),
            TokenType::LeftBrace => lemma_adv_dict(toks, pos + 1, seq![]),
            _ => {},
        }
    }
}

proof fn lemma_adv_dict(toks: Seq<TokenModel>, pos: int, acc: Seq<(Seq<char>, NodeModel)>)
    ensures
        p_dict(toks, pos, acc) matches Ok((_, q)) ==> pos <= q <= toks.len(),
    decreases toks.len() - pos, 2int,
{
    if in_bounds(toks, pos) && !at(toks, pos, TokenType::RightBrace) {
        if let Ok((v, q)) = p_expr(toks, pos + 2, false) {
            let acc2 = dict_put(acc, toks[pos].value, v);
            if adv(toks, pos, q) && in_bounds(toks, q) {
                if at(toks, q, TokenType::RightBrace) {
                    lemma_adv_dict(toks, q, acc2);
                } else {
                    lemma_adv_dict(toks, q + 1, acc2);
                }
            }
        }
    }
}

proof fn lemma_adv_trailers(toks: Seq<TokenModel>, pos: int, acc: Seq<NodeModel>)
    ensures
        p_trailers(toks, pos, acc) matches Ok((_, q)) ==> pos <= q <= toks.len(),
    decreases toks.len() - pos, 2int,
{
    if in_bounds(toks, pos) {
        if at(toks, pos, TokenType::LeftParen) {
            if let Ok((args, q)) = p_expr_list(toks, pos + 1) {
                if adv(toks, pos, q + 1) {
                    lemma_adv_trailers(toks, q + 1, acc.push(NodeModel::Call { args }));
                }
            }
        } else if at(toks, pos, TokenType::LeftBracket) {
            let p = pos + 1;
            if in_bounds(toks, p) && at(toks, p, TokenType::Period) {
                if in_bounds(toks, p + 1) && in_bounds(toks, p + 2) {
                    lemma_adv_trailers(toks, p + 3, acc.push(NodeModel::Attr { attr: toks[p + 1].value }));
                }
            } else if in_bounds(toks, p) {
                if let Ok((n, q)) = p_expr(toks, p, false) {
                    if adv(toks, pos, q + 1) {
                        lemma_adv_trailers(toks, q + 1, acc.push(n));
                    }
                }
            }
        }
    }
}

proof fn lemma_adv_call(toks: Seq<TokenModel>, pos: int)
    ensures
        p_call(toks, pos) matches Ok((_, q)) ==> pos < q <= toks.len(),
    decreases toks.len() - pos, 3int,
{
    if let Ok((n, q)) = p_simple(toks, pos) {
        if adv(toks, pos, q) {
            lemma_adv_trailers(toks, q, seq![]);
        }
    }
}

proof fn lemma_adv_expr(toks: Seq<TokenModel>, pos: int, wrapped: bool)
    ensures
        p_expr(toks, pos, wrapped) matches Ok((_, q)) ==> pos < q <= toks.len(),
    decreases toks.len() - pos, 4int,
{
    if let Ok((left, q)) = p_call(toks, pos) {
        if adv(toks, pos, q) && in_bounds(toks, q) {
            lemma_adv_expr(toks, q + 1, false);
        }
    }
}

proof fn lemma_adv_expr_seq(toks: Seq<TokenModel>, pos: int, acc: Seq<NodeModel>)
    ensures
        p_expr_seq(toks, pos, acc) matches Ok((_, q)) ==> pos < q <= toks.len(),
    decreases toks.len() - pos, 5int,
{
    lemma_adv_expr(toks, pos, false);
    if let Ok((n, q)) = p_expr(toks, pos, false) {
        if adv(toks, pos, q) && in_bounds(toks, q) {
            lemma_adv_expr_seq(toks, q + 1, acc.push(n));
        }
    }
}

proof fn lemma_adv_expr_list(toks: Seq<TokenModel>, pos: int)
    ensures
        p_expr_list(toks, pos) matches Ok((_, q)) ==> pos <= q <= toks.len(),
    decreases toks.len() - pos, 6int,
{
    lemma_adv_expr_seq(toks, pos, seq![]);
}

proof fn lemma_adv_stmts(toks: Seq<TokenModel>, pos: int, acc: Seq<NodeModel>)
    ensures
        p_stmts(toks, pos, acc) matches Ok((_, q)) ==> pos <= q <= toks.len(),
    decreases toks.len() - pos, 11int,
{
    if in_bounds(toks, pos) && !at(toks, pos, TokenType::RightBrace) {
        if let Ok((n, q)) = p_stmt(toks, pos) {
            if adv(toks, pos, q) {
                lemma_adv_stmts(toks, q, acc.push(n));
            }
        }
    }
}

proof fn lemma_adv_block(toks: Seq<TokenModel>, pos: int)
    ensures
        p_block(toks, pos) matches Ok((_, q)) ==> pos < q <= toks.len(),
    decreases toks.len() - pos, 12int,
{
    lemma_adv_stmts(toks, pos + 1, seq![]);
}

proof fn lemma_adv_var(toks: Seq<TokenModel>, pos: int)
    ensures
        p_var(toks, pos) matches Ok((_, q)) ==> pos < q <= toks.len(),
    decreases toks.len() - pos, 9int,
{
    lemma_adv_expr(toks, pos + 3, false);
}

proof fn lemma_adv_func(toks: Seq<TokenModel>, pos: int)
    ensures
        p_func(toks, pos) matches Ok((_, q)) ==> pos < q <= toks.len(),
    decreases toks.len() - pos, 9int,
{
    if let Ok((params, q)) = p_ids(toks, pos + 3) {
        if adv(toks, pos, q + 1) {
            lemma_adv_block(toks, q + 1);
        }
    }
}

proof fn lemma_adv_methods(toks: Seq<TokenModel>, pos: int, acc: Seq<NodeModel>)
    ensures
        p_methods(toks, pos, acc) matches Ok((_, q)) ==> pos <= q <= toks.len(),
    decreases toks.len() - pos, 10int,
{
    if in_bounds(toks, pos) && at(toks, pos, TokenType::Func) {
        if let Ok((m, q)) = p_func(toks, pos) {
            if adv(toks, pos, q) {
                lemma_adv_methods(toks, q, acc.push(m));
            }
        }
    }
}

proof fn lemma_adv_class(toks: Seq<TokenModel>, pos: int)
    ensures
        p_class(toks, pos) matches Ok((_, q)) ==> pos < q <= toks.len(),
    decreases toks.len() - pos, 9int,
{
    lemma_adv_methods(toks, pos + 3, seq![]);
}

proof fn lemma_adv_return(toks: Seq<TokenModel>, pos: int)
    ensures
        p_return(toks, pos) matches Ok((_, q)) ==> pos < q <= toks.len(),
    decreases toks.len() - pos, 9int,
{
    lemma_adv_expr(toks, pos + 1, false);
}

proof fn lemma_adv_guarded(toks: Seq<TokenModel>, pos: int, kw: TokenType)
    ensures
        p_guarded(toks, pos, kw) matches Ok((_, q)) ==> pos < q <= toks.len(),
    decreases toks.len() - pos, 8int,
{
    if let Ok((c, q)) = p_stmt(toks, pos + 2) {
        if adv(toks, pos, q + 1) {
            lemma_adv_block(toks, q + 1);
        }
    }
}

proof fn lemma_adv_else(toks: Seq<TokenModel>, pos: int)
    ensures
        p_else(toks, pos) matches Ok((_, q)) ==> pos < q <= toks.len(),
    decreases toks.len() - pos, 9int,
{
    lemma_adv_block(toks, pos + 1);
}

proof fn lemma_adv_elifs(toks: Seq<TokenModel>, pos: int, acc: Seq<NodeModel>)
    ensures
        p_elifs(toks, pos, acc) matches Ok((_, q)) ==> pos <= q <= toks.len(),
    decreases toks.len() - pos, 10int,
{
    if in_bounds(toks, pos) && at(toks, pos, TokenType::Elif) {
        if let Ok((n, q)) = p_guarded(toks, pos, TokenType::Elif) {
            if adv(toks, pos, q) {
                lemma_adv_elifs(toks, q, acc.push(n));
            }
        }
    }
}

proof fn lemma_adv_otherwise(toks: Seq<TokenModel>, pos: int)
    ensures
        p_otherwise(toks, pos) matches Ok((_, q)) ==> pos <= q <= toks.len(),
    decreases toks.len() - pos, 11int,
{
    if in_bounds(toks, pos) {
        lemma_adv_else(toks, pos);
        let first = if at(toks, pos, TokenType::Else) {
            match p_else(toks, pos) {
                Ok((e, q)) => Ok((seq![e], q)),
                Err(e) => Err(e),
            }
        } else {
            Ok((seq![], pos))
        };
        if let Ok((acc, q)) = first {
            if pos <= q <= toks.len() {
                lemma_adv_elifs(toks, q, acc);
                if let Ok((acc2, r)) = p_elifs(toks, q, acc) {
                    if pos <= r <= toks.len() {
                        lemma_adv_else(toks, r);
                    }
                }
            }
        }
    }
}

proof fn lemma_adv_if(toks: Seq<TokenModel>, pos: int)
    ensures
        p_if(toks, pos) matches Ok((_, q)) ==> pos < q <= toks.len(),
    decreases toks.len() - pos, 9int,
{
    lemma_adv_guarded(toks, pos, TokenType::If);
    if let Ok((n, q)) = p_guarded(toks, pos, TokenType::If) {
        if adv(toks, pos, q) {
            lemma_adv_otherwise(toks, q);
        }
    }
}

proof fn lemma_adv_for(toks: Seq<TokenModel>, pos: int)
    ensures
        p_for(toks, pos) matches Ok((_, q)) ==> pos < q <= toks.len(),
    decreases toks.len() - pos, 9int,
{
    if let Ok((through, q)) = p_expr_list(toks, pos + 4) {
        if adv(toks, pos, q + 1) {
            lemma_adv_block(toks, q + 1);
        }
    }
}

proof fn lemma_adv_while(toks: Seq<TokenModel>, pos: int)
    ensures
        p_while(toks, pos) matches Ok((_, q)) ==> pos < q <= toks.len(),
    decreases toks.len() - pos, 9int,
{
    if let Ok((c, q)) = p_expr(toks, pos + 2, false) {
        if adv(toks, pos, q + 1) {
            lemma_adv_block(toks, q + 1);
        }
    }
}

proof fn lemma_adv_stmt(toks: Seq<TokenModel>, pos: int)
    ensures
        p_stmt(toks, pos) matches Ok((_, q)) ==> pos < q <= toks.len(),
    decreases toks.len() - pos, 10int,
{
    if in_bounds(toks, pos) {
        match toks[pos].kind {
            TokenType::Var => lemma_adv_var(toks, pos),
            TokenType::Call => lemma_adv_call(toks, pos),
            TokenType::Func => lemma_adv_func(toks, pos),
            TokenType::Class => lemma_adv_class(toks, pos),
            TokenType::Return => lemma_adv_return(toks, pos),
            TokenType::For => lemma_adv_for(toks, pos),
            TokenType::While => lemma_adv_while(toks, pos),
            TokenType::If => lemma_adv_if(toks, pos),
            _ => lemma_adv_expr(toks, pos, false),
        }
    }
}

/// A number token without a point whose digits fit in `isize` is an integer
/// literal; one with exactly one point among its digits is a decimal literal.
pub proof fn lemma_number_literals(toks: Seq<TokenModel>, pos: int)
    requires
        at(toks, pos, TokenType::Number),
    ensures
        ({
            let t = toks[pos].value;
            &&& (dot_count(t) == 0 && t.len() > 0 && all_digits(t) && decimal_value(t) <= isize::MAX)
                ==> p_simple(toks, pos) == Ok::<(NodeModel, int), ParseError>(
                (NodeModel::Number { value: NumberModel::Int(decimal_value(t)) }, pos + 1),
            )
            &&& float_literal(t) ==> p_simple(toks, pos) == Ok::<(NodeModel, int), ParseError>(
                (NodeModel::Number { value: NumberModel::Float { negative: false, literal: t } }, pos + 1),
            )
        }),
{
}

/// Parsing is a function of the tokens: equal token sequences give equal
/// outcomes.
pub proof fn lemma_parse_deterministic(a: Seq<TokenModel>, b: Seq<TokenModel>)
    requires
        a == b,
    ensures
        parse_program(a) == parse_program(b),
{
}

} // verus!
