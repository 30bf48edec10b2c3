//! Token kinds and the lookahead decisions that the parser makes on them.

use vstd::prelude::*;

verus! {

/// The kind of a token, without its payload; `Invalid` stands for input that
/// the lexer could not recognise.
#[derive(Debug, Clone, Copy, PartialEq, Eq, Structural)]
pub enum TokenKind {
    Float,
    Integer,
    String,
    Print,
    For,
    While,
    If,
    Else,
    Def,
    Return,
    Break,
    Nonlocal,
    True,
    False,
    In,
    EqualEqual,
    Identifier,
    Assign,
    PlusEqual,
    StarEqual,
    Plus,
    Minus,
    Star,
    Slash,
    Percent,
    Less,
    Semicolon,
    Comma,
    Dot,
    LParen,
    RParen,
    LBracket,
    RBracket,
    LBrace,
    RBrace,
    Colon,
    Unknown,
    Invalid,
}

/// Represents the kind of assignment operation being performed.
#[derive(Debug, Clone, Copy, PartialEq, Eq, Structural)]
pub enum AssignmentKind {
    /// Simple assignment: `x = value`
    Simple,
    /// Add-assign: `x += value`
    AddAssign,
    /// Multiply-assign: `x *= value`
    MultiplyAssign,
}

/// Scanning the tokens from `i` at bracket depth `depth`: a `for` at the top
/// level makes a comprehension; a closing bracket at the top level, invalid
/// input or the end of the tokens makes none.
pub open spec fn comprehension_from(tokens: Seq<TokenKind>, i: int, depth: int) -> bool
    decreases tokens.len() - i,
{
    if i < 0 || i >= tokens.len() {
        false
    } else {
        let t = tokens[i];
        if t == TokenKind::For && depth == 0 {
            true
        } else if t == TokenKind::RBracket {
            if depth == 0 {
                false
            } else {
                comprehension_from(tokens, i + 1, depth - 1)
            }
        } else if t == TokenKind::LBracket {
            comprehension_from(tokens, i + 1, depth + 1)
        } else if t == TokenKind::Invalid {
            false
        } else {
            comprehension_from(tokens, i + 1, depth)
        }
    }
}

/// Checks whether the tokens after an opening bracket start a list
/// comprehension: a `for` keyword at the top level before the closing bracket.
pub fn is_list_comprehension(lookahead: &Vec<TokenKind>) -> (comprehension: bool)
    ensures
        comprehension == comprehension_from(lookahead@, 0, 0),
{
    is_list_comprehension_at(lookahead, 0)
}

/// Checks whether the tokens from position `start` on start a list
/// comprehension, as [`is_list_comprehension`] does for a whole lookahead.
pub fn is_list_comprehension_at(tokens: &Vec<TokenKind>, start: usize) -> (comprehension: bool)
    ensures
        comprehension == comprehension_from(tokens@, start as int, 0),
{
    let mut depth: usize = 0;
    let mut i: usize = start;
    while i < tokens.len()
        invariant
            start <= i,
            i <= tokens@.len() || i == start,
            depth <= i - start,
            comprehension_from(tokens@, i as int, depth as int) == comprehension_from(
                tokens@,
                start as int,
                0,
            ),
        decreases tokens@.len() - i,
    {
        let t = tokens[i];
        if t == TokenKind::For && depth == 0 {
            return true;
        } else if t == TokenKind::RBracket {
            if depth == 0 {
                return false;
            }
            depth -= 1;
        } else if t == TokenKind::LBracket {
            depth += 1;
        } else if t == TokenKind::Invalid {
            return false;
        }
        i += 1;
    }
    false
}

/// Whether a token ends the search for an assignment operator at the top
/// level: a call, attribute, separator, operator, closing parenthesis or colon.
pub open spec fn ends_assignment_search(t: TokenKind) -> bool {
    t == TokenKind::LParen || t == TokenKind::Dot || t == TokenKind::Comma || t
        == TokenKind::Semicolon || t == TokenKind::Plus || t == TokenKind::Slash || t
        == TokenKind::Star || t == TokenKind::Minus || t == TokenKind::In || t == TokenKind::RParen
        || t == TokenKind::Colon
}

/// Scanning the tokens from `i` at bracket depth `depth` for the assignment
/// operator of a statement.
pub open spec fn assignment_from(tokens: Seq<TokenKind>, i: int, depth: int) -> Option<
    AssignmentKind,
>
    decreases tokens.len() - i,
{
    if i < 0 || i >= tokens.len() {
        None
    } else {
        let t = tokens[i];
        if t == TokenKind::LBracket {
            assignment_from(tokens, i + 1, depth + 1)
        } else if t == TokenKind::RBracket {
            if depth == 0 {
                None
            } else {
                assignment_from(tokens, i + 1, depth - 1)
            }
        } else if depth == 0 && t == TokenKind::Assign {
            Some(AssignmentKind::Simple)
        } else if depth == 0 && t == TokenKind::PlusEqual {
            Some(AssignmentKind::AddAssign)
        } else if depth == 0 && t == TokenKind::StarEqual {
            Some(AssignmentKind::MultiplyAssign)
        } else if depth == 0 && ends_assignment_search(t) {
            None
        } else if t == TokenKind::Invalid {
            None
        } else {
            assignment_from(tokens, i + 1, depth)
        }
    }
}

/// The kind of assignment that a statement starting at position `start`
/// makes: an identifier, possibly indexed, followed at the top level by `=`,
/// `+=` or `*=`.
pub open spec fn assignment_at(tokens: Seq<TokenKind>, start: int) -> Option<AssignmentKind> {
    if 0 <= start < tokens.len() && tokens[start] == TokenKind::Identifier {
        assignment_from(tokens, start + 1, 0)
    } else {
        None
    }
}

/// The kind of assignment that a statement starting with these tokens makes.
pub open spec fn spec_assignment_kind(tokens: Seq<TokenKind>) -> Option<AssignmentKind> {
    assignment_at(tokens, 0)
}

/// Decides whether the statement that starts with the lookahead tokens is an
/// assignment, and of which kind.
pub fn detect_assignment_kind(lookahead: &Vec<TokenKind>) -> (kind: Option<AssignmentKind>)
    ensures
        kind == spec_assignment_kind(lookahead@),
{
    detect_assignment_kind_at(lookahead, 0)
}

/// Decides whether the statement that starts at position `start` of the
/// tokens is an assignment, and of which kind.
pub fn detect_assignment_kind_at(tokens: &Vec<TokenKind>, start: usize) -> (kind: Option<AssignmentKind>)
    ensures
        kind == assignment_at(tokens@, start as int),
{
    if start >= tokens.len() || tokens[start] != TokenKind::Identifier {
        return None;
    }
    let mut depth: usize = 0;
    let mut i: usize = start + 1;
    while i < tokens.len()
        invariant
            start < i <= tokens@.len(),
            tokens@[start as int] == TokenKind::Identifier,
            depth <= i - start,
            assignment_from(tokens@, i as int, depth as int) == assignment_at(tokens@, start as int),
        decreases tokens@.len() - i,
    {
        let t = tokens[i];
        if t == TokenKind::LBracket {
            depth += 1;
        } else if t == TokenKind::RBracket {
            if depth == 0 {
                return None;
            }
            depth -= 1;
        } else if depth == 0 && t == TokenKind::Assign {
            return Some(AssignmentKind::Simple);
        } else if depth == 0 && t == TokenKind::PlusEqual {
            return Some(AssignmentKind::AddAssign);
        } else if depth == 0 && t == TokenKind::StarEqual {
            return Some(AssignmentKind::MultiplyAssign);
        } else if depth == 0 && (t == TokenKind::LParen || t == TokenKind::Dot || t
            == TokenKind::Comma || t == TokenKind::Semicolon || t == TokenKind::Plus || t
            == TokenKind::Slash || t == TokenKind::Star || t == TokenKind::Minus || t
            == TokenKind::In || t == TokenKind::RParen || t == TokenKind::Colon) {
            return None;
        } else if t == TokenKind::Invalid {
            return None;
        }
        i += 1;
    }
    None
}

} // verus!
