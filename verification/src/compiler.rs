//! The compiler: a single pass over the tokens of a program that parses
//! statements and expressions and emits bytecode with its constant pool.
//!
//! Blocks are delimited by indentation, measured on the source text at the
//! start of each statement's first token.

use crate::assoc::{entry_keys, lemma_store_keeps_keys_distinct, set_entry};
use crate::bytecode::{
    lemma_opcode_byte_roundtrip, opcode_byte, opcode_of_byte, spec_operand_width, OpCode,
};
use crate::codegen::{
    emit_define_variable, emit_get_variable, emit_jump, emit_loop, emit_set_variable,
    decode_u16, operand_byte, patch_jump, rewrite_globals_to_local, rewritten_from, VariableTarget,
};
use crate::object::{string_equals_literal, UpvalueDescriptor};
use crate::scope::{declared_in_enclosing, FunctionScope, LoopContext, ScopeChain};
use crate::text::{
    chars_of, f_string_segments, has_newline_between, indent_at, indent_width, line_start,
    string_from_chars, FStringSegment,
};
use crate::tokens::{
    assignment_at, comprehension_from, detect_assignment_kind_at, is_list_comprehension_at,
    AssignmentKind, TokenKind,
};
use crate::jumps::{
    is_jump, jump_target, jumps_above, jumps_land, lemma_above_compose, lemma_append_jumps,
    lemma_cut_jumps, lemma_decode_at_most, lemma_instruction_jumps, lemma_loop_jumps,
    lemma_patch_jumps, lemma_rewrite_jumps, no_jump_crosses, lemma_append_above,
    lemma_above_append, lemma_above_loop, lemma_above_patch, lemma_above_prefix, lemma_cut_ready,
};
use crate::walk::{
    is_boundary, is_whole, jump_at, keeps, lemma_append_keeps, lemma_instruction_whole,
    lemma_end_boundary, lemma_patch_keeps, lemma_rewrite_whole, lemma_split, lemma_whole_well_formed,
};
use vstd::prelude::*;
use vstd::string::StringSliceAdditionalSpecFns;

verus! {

/// A token with its payload. A float literal is carried as the bit pattern of
/// its IEEE 754 double value; `Invalid` stands for input that the lexer could
/// not recognise.
#[derive(Debug)]
pub enum Token {
    Float(u64),
    Integer(i64),
    String(String),
    Print,
    For,
    While,
    If,
    Else,
    Def,
    Return,
    Break,
    Nonlocal,
    True,
    False,
    In,
    EqualEqual,
    Identifier(String),
    Assign,
    PlusEqual,
    StarEqual,
    Plus,
    Minus,
    Star,
    Slash,
    Percent,
    Less,
    Semicolon,
    Comma,
    Dot,
    LParen,
    RParen,
    LBracket,
    RBracket,
    LBrace,
    RBrace,
    Colon,
    Unknown,
    Invalid,
}

/// The kind of a token, without its payload.
pub open spec fn token_kind(t: Token) -> TokenKind {
    match t {
        Token::Float(_) => TokenKind::Float,
        Token::Integer(_) => TokenKind::Integer,
        Token::String(_) => TokenKind::String,
        Token::Print => TokenKind::Print,
        Token::For => TokenKind::For,
        Token::While => TokenKind::While,
        Token::If => TokenKind::If,
        Token::Else => TokenKind::Else,
        Token::Def => TokenKind::Def,
        Token::Return => TokenKind::Return,
        Token::Break => TokenKind::Break,
        Token::Nonlocal => TokenKind::Nonlocal,
        Token::True => TokenKind::True,
        Token::False => TokenKind::False,
        Token::In => TokenKind::In,
        Token::EqualEqual => TokenKind::EqualEqual,
        Token::Identifier(_) => TokenKind::Identifier,
        Token::Assign => TokenKind::Assign,
        Token::PlusEqual => TokenKind::PlusEqual,
        Token::StarEqual => TokenKind::StarEqual,
        Token::Plus => TokenKind::Plus,
        Token::Minus => TokenKind::Minus,
        Token::Star => TokenKind::Star,
        Token::Slash => TokenKind::Slash,
        Token::Percent => TokenKind::Percent,
        Token::Less => TokenKind::Less,
        Token::Semicolon => TokenKind::Semicolon,
        Token::Comma => TokenKind::Comma,
        Token::Dot => TokenKind::Dot,
        Token::LParen => TokenKind::LParen,
        Token::RParen => TokenKind::RParen,
        Token::LBracket => TokenKind::LBracket,
        Token::RBracket => TokenKind::RBracket,
        Token::LBrace => TokenKind::LBrace,
        Token::RBrace => TokenKind::RBrace,
        Token::Colon => TokenKind::Colon,
        Token::Unknown => TokenKind::Unknown,
        Token::Invalid => TokenKind::Invalid,
    }
}

impl Token {
    /// The kind of this token, without its payload.
    pub fn kind(&self) -> (k: TokenKind)
        ensures
            k == token_kind(*self),
    {
        match self {
            Token::Float(_) => TokenKind::Float,
            Token::Integer(_) => TokenKind::Integer,
            Token::String(_) => TokenKind::String,
            Token::Print => TokenKind::Print,
            Token::For => TokenKind::For,
            Token::While => TokenKind::While,
            Token::If => TokenKind::If,
            Token::Else => TokenKind::Else,
            Token::Def => TokenKind::Def,
            Token::Return => TokenKind::Return,
            Token::Break => TokenKind::Break,
            Token::Nonlocal => TokenKind::Nonlocal,
            Token::True => TokenKind::True,
            Token::False => TokenKind::False,
            Token::In => TokenKind::In,
            Token::EqualEqual => TokenKind::EqualEqual,
            Token::Identifier(_) => TokenKind::Identifier,
            Token::Assign => TokenKind::Assign,
            Token::PlusEqual => TokenKind::PlusEqual,
            Token::StarEqual => TokenKind::StarEqual,
            Token::Plus => TokenKind::Plus,
            Token::Minus => TokenKind::Minus,
            Token::Star => TokenKind::Star,
            Token::Slash => TokenKind::Slash,
            Token::Percent => TokenKind::Percent,
            Token::Less => TokenKind::Less,
            Token::Semicolon => TokenKind::Semicolon,
            Token::Comma => TokenKind::Comma,
            Token::Dot => TokenKind::Dot,
            Token::LParen => TokenKind::LParen,
            Token::RParen => TokenKind::RParen,
            Token::LBracket => TokenKind::LBracket,
            Token::RBracket => TokenKind::RBracket,
            Token::LBrace => TokenKind::LBrace,
            Token::RBrace => TokenKind::RBrace,
            Token::Colon => TokenKind::Colon,
            Token::Unknown => TokenKind::Unknown,
            Token::Invalid => TokenKind::Invalid,
        }
    }
}

/// A token and the byte span of the source text it was read from.
#[derive(Debug)]
pub struct Lexeme {
    pub token: Token,
    pub start: usize,
    pub end: usize,
}

/// A value of the constant pool. A float is carried as the bit pattern of its
/// IEEE 754 double value.
#[derive(Debug)]
pub enum Constant {
    Nil,
    Integer(i64),
    Float(u64),
    Boolean(bool),
    String(String),
    List(Vec<Constant>),
    Dict(Vec<(String, Constant)>),
    Function(Box<Prototype>),
}

/// A compiled function: its name, its number of parameters, its code and the
/// variables it captures from enclosing functions.
#[derive(Debug)]
pub struct Prototype {
    pub name: String,
    pub arity: usize,
    pub chunk: Chunk,
    pub upvalues: Vec<UpvalueDescriptor>,
}

/// Compiled bytecode and the constants that its instructions refer to.
#[derive(Debug)]
pub struct Chunk {
    pub code: Vec<u8>,
    pub constants: Vec<Constant>,
}

impl Chunk {
    /// An empty chunk.
    pub fn new() -> (chunk: Self)
        ensures
            chunk.code@.len() == 0,
            chunk.constants@.len() == 0,
    {
        Chunk { code: Vec::new(), constants: Vec::new() }
    }
}

/// The code of `chunk`, and that of every function among its constants and
/// theirs, is a sequence of complete instructions, and, where it is shorter
/// than 65536 bytes (the reach of a jump's offset), its jumps lead to
/// instruction starts.
pub open spec fn chunk_sound(chunk: Chunk) -> bool
    decreases chunk,
{
    &&& is_whole(chunk.code@)
    &&& chunk.code@.len() < 65536 ==> jumps_land(chunk.code@)
    &&& forall|i: int|
        0 <= i < chunk.constants@.len() ==> match #[trigger] chunk.constants@[i] {
            Constant::Function(p) => chunk_sound(p.chunk),
            _ => true,
        }
}

/// The jump whose operand is at `operand_index` leads to the end of `code`.
#[verifier::opaque]
pub open spec fn lands_at_end(code: Seq<u8>, operand_index: int) -> bool {
    operand_index + 2 + decode_u16(code, operand_index) == code.len()
}

/// The constant that a literal token pushes, if it is one: a number, a
/// boolean or a string.
pub open spec fn literal_constant(t: Token) -> Option<Constant> {
    match t {
        Token::Integer(v) => Some(Constant::Integer(v)),
        Token::String(s) => Some(Constant::String(s)),
        Token::Float(bits) => Some(Constant::Float(bits)),
        Token::True => Some(Constant::Boolean(true)),
        Token::False => Some(Constant::Boolean(false)),
        _ => None,
    }
}

/// The instruction that a binary operator compiles to, if the kind is one.
pub open spec fn binary_opcode(k: TokenKind) -> Option<OpCode> {
    match k {
        TokenKind::Plus => Some(OpCode::OpAdd),
        TokenKind::Slash => Some(OpCode::OpDivide),
        TokenKind::Star => Some(OpCode::OpMultiply),
        TokenKind::Minus => Some(OpCode::OpSubtract),
        TokenKind::Less => Some(OpCode::OpLess),
        TokenKind::In => Some(OpCode::OpContains),
        TokenKind::Percent => Some(OpCode::OpModulo),
        TokenKind::EqualEqual => Some(OpCode::OpEqual),
        _ => None,
    }
}

/// The tokens from `p` on are `n + 1` literals joined by `n` binary
/// operators.
pub open spec fn operator_chain(tokens: Seq<Lexeme>, p: int, n: nat) -> bool
    decreases n,
{
    &&& 0 <= p
    &&& p + 2 * n < tokens.len()
    &&& literal_constant(tokens[p + 2 * n].token) is Some
    &&& n > 0 ==> binary_opcode(token_kind(tokens[p + 2 * n - 1].token)) is Some && operator_chain(
        tokens,
        p,
        (n - 1) as nat,
    )
}

/// No binary operator, and no call, indexing or method call, follows the
/// chain of `n` operators from `p`.
pub open spec fn chain_ends(tokens: Seq<Lexeme>, p: int, n: nat) -> bool {
    !(p + 2 * n + 1 < tokens.len() && {
        let k = token_kind(tokens[p + 2 * n + 1].token);
        ||| binary_opcode(k) is Some
        ||| k == TokenKind::LParen
        ||| k == TokenKind::LBracket
        ||| k == TokenKind::Dot
    })
}

/// The code of a chain of `n` operators from `p`, folded from the left: each
/// literal is pushed as the next constant (the pool held `k0` before), and
/// each operator follows its right operand.
pub open spec fn chain_code(tokens: Seq<Lexeme>, p: int, n: nat, k0: nat) -> Seq<u8>
    decreases n,
{
    if n == 0 {
        seq![opcode_byte(OpCode::OpConstant), (k0 % 256) as u8]
    } else {
        chain_code(tokens, p, (n - 1) as nat, k0) + seq![
            opcode_byte(OpCode::OpConstant),
            ((k0 + n) % 256) as u8,
            opcode_byte(binary_opcode(token_kind(tokens[p + 2 * n - 1].token)).unwrap()),
        ]
    }
}

/// The constants of a chain of `n` operators from `p`: its literals in order.
pub open spec fn chain_constants(tokens: Seq<Lexeme>, p: int, n: nat) -> Seq<Constant>
    decreases n,
{
    if n == 0 {
        seq![literal_constant(tokens[p].token).unwrap()]
    } else {
        chain_constants(tokens, p, (n - 1) as nat).push(literal_constant(tokens[p + 2 * n].token).unwrap())
    }
}

/// A chain is made of shorter chains, each followed by an operator and a
/// literal.
pub proof fn lemma_chain_prefix(tokens: Seq<Lexeme>, p: int, m: nat, k: nat)
    requires
        operator_chain(tokens, p, m),
        k <= m,
    ensures
        operator_chain(tokens, p, k),
        k < m ==> binary_opcode(token_kind(tokens[p + 2 * k + 1].token)) is Some
            && literal_constant(tokens[p + 2 * k + 2].token) is Some,
    decreases m,
{
    if k < m {
        lemma_chain_prefix(tokens, p, (m - 1) as nat, k);
        if k == m - 1 {
            assert(p + 2 * k + 1 == p + 2 * m - 1);
            assert(p + 2 * k + 2 == p + 2 * m);
        }
    }
}

/// A range of bytes that a change leaves alone (it changes at most the two
/// bytes from `x`) reads the same afterwards.
pub proof fn lemma_range_kept(c1: Seq<u8>, c2: Seq<u8>, a: int, b: int, x: int)
    requires
        0 <= a <= b <= c1.len() <= c2.len(),
        forall|k: int| 0 <= k < c1.len() && k != x && k != x + 1 ==> #[trigger] c2[k] == c1[k],
        !(a <= x < b),
        !(a <= x + 1 < b),
    ensures
        c2.subrange(a, b) == c1.subrange(a, b),
{
    assert(c2.subrange(a, b) =~= c1.subrange(a, b));
}

/// The code of a chain of `n` operators has `3 * n + 2` bytes.
pub proof fn lemma_chain_code_len(tokens: Seq<Lexeme>, p: int, n: nat, k0: nat)
    ensures
        chain_code(tokens, p, n, k0).len() == 3 * n + 2,
    decreases n,
{
    if n > 0 {
        lemma_chain_code_len(tokens, p, (n - 1) as nat, k0);
    }
}

/// A chain of `n` operators has `n + 1` constants.
pub proof fn lemma_chain_constants_len(tokens: Seq<Lexeme>, p: int, n: nat)
    ensures
        chain_constants(tokens, p, n).len() == n + 1,
    decreases n,
{
    if n > 0 {
        lemma_chain_constants_len(tokens, p, (n - 1) as nat);
    }
}

/// A chain that no operator follows has one length.
pub proof fn lemma_chain_unique(tokens: Seq<Lexeme>, p: int, m: nat, n: nat)
    requires
        operator_chain(tokens, p, m),
        chain_ends(tokens, p, m),
        operator_chain(tokens, p, n),
        chain_ends(tokens, p, n),
    ensures
        m == n,
{
    if m < n {
        lemma_chain_prefix(tokens, p, n, m);
    } else if n < m {
        lemma_chain_prefix(tokens, p, m, n);
    }
}

/// The kinds from `start` on are `k` identifiers separated by commas and
/// then `)`.
pub open spec fn param_list(kinds: Seq<TokenKind>, start: int, k: nat) -> bool {
    &&& 0 <= start
    &&& start + 2 * k - (if k > 0 { 1int } else { 0int }) < kinds.len()
    &&& kinds[start + 2 * k - (if k > 0 { 1int } else { 0int })] == TokenKind::RParen
    &&& forall|j: int| 0 <= j < k ==> #[trigger] kinds[start + 2 * j] == TokenKind::Identifier
    &&& forall|j: int| 0 <= j < k - 1 ==> #[trigger] kinds[start + 2 * j + 1] == TokenKind::Comma
}

/// The tokens from `p` on are a chain of `n` operators that no operator
/// follows, and then a token of kind `close`.
pub open spec fn closed_chain(tokens: Seq<Lexeme>, p: int, n: nat, close: TokenKind) -> bool {
    &&& operator_chain(tokens, p, n)
    &&& chain_ends(tokens, p, n)
    &&& p + 2 * n + 1 < tokens.len()
    &&& token_kind(tokens[p + 2 * n + 1].token) == close
}

/// The tokens from `p` on are two chains separated by a comma, of `n` and
/// `m` operators, and then `)`.
pub open spec fn two_chain_args(tokens: Seq<Lexeme>, p: int, n: nat, m: nat) -> bool {
    &&& closed_chain(tokens, p, n, TokenKind::Comma)
    &&& closed_chain(tokens, p + 2 * n + 2, m, TokenKind::RParen)
}

/// At `q` stand `.` and the name of a method that no value has: one other
/// than `append`, `lower`, `isalnum` and `join`.
pub open spec fn unknown_method(tokens: Seq<Lexeme>, q: int) -> bool {
    &&& 0 <= q
    &&& q + 1 < tokens.len()
    &&& token_kind(tokens[q].token) == TokenKind::Dot
    &&& match tokens[q + 1].token {
        Token::Identifier(m) => m@ != "append"@ && m@ != "lower"@ && m@ != "isalnum"@ && m@ != "join"@,
        _ => false,
    }
}

/// A `-` at `q` that no valid token follows: a negation without operand.
pub open spec fn bare_minus(tokens: Seq<Lexeme>, q: int) -> bool {
    &&& 0 <= q < tokens.len()
    &&& token_kind(tokens[q].token) == TokenKind::Minus
    &&& !(q + 1 < tokens.len() && token_kind(tokens[q + 1].token) != TokenKind::Invalid)
}

/// The expression statement at `q` is refused whatever follows: a bare `-`,
/// or a name followed by an unknown method.
pub open spec fn expression_refused(tokens: Seq<Lexeme>, q: int) -> bool {
    ||| bare_minus(tokens, q)
    ||| 0 <= q < tokens.len() && token_kind(tokens[q].token) == TokenKind::Identifier && unknown_method(
        tokens,
        q + 1,
    )
}

/// The first statement of the tokens is refused whatever follows: it starts
/// with a character the lexer did not recognise, or it is `return` outside a
/// function, or it is a `def` with at most five tokens, which leaves no room
/// for a body after `def name():`, or it is an expression with a bare `-` or
/// an unknown method right after a name.
pub open spec fn first_statement_refused(tokens: Seq<Lexeme>) -> bool {
    &&& tokens.len() > 0
    &&& {
        let k = token_kind(tokens[0].token);
        ||| k == TokenKind::Invalid
        ||| k == TokenKind::Return
        ||| k == TokenKind::Def && tokens.len() <= 5
        ||| expression_refused(tokens, 0)
    }
}

/// The position of the `)` that closes `k` parameters starting at `start`.
pub open spec fn params_close(start: int, k: nat) -> int {
    if k > 0 {
        start + 2 * k - 1
    } else {
        start
    }
}

/// From `p` on stands `def name(p1, ..., pk): body`, with `k` at most 255, and
/// a body on the colon's line that is a chain of `n` operators.
pub open spec fn inline_chain_def(
    tokens: Seq<Lexeme>,
    kinds: Seq<TokenKind>,
    source: Seq<u8>,
    p: int,
    k: nat,
    n: nat,
) -> bool {
    let close = params_close(p + 3, k);
    &&& 0 <= p
    &&& p + 2 < tokens.len()
    &&& tokens[p + 1].token is Identifier
    &&& kinds[p + 2] == TokenKind::LParen
    &&& param_list(kinds, p + 3, k)
    &&& k <= 255
    &&& close + 2 < tokens.len()
    &&& kinds[close + 1] == TokenKind::Colon
    &&& !(exists|b: int| tokens[close + 1].end <= b < tokens[close + 2].start && source[b] == 10)
    &&& operator_chain(tokens, close + 2, n)
    &&& chain_ends(tokens, close + 2, n)
}

/// From `p` on stand a name, `[`, an index that is a chain of `n` operators,
/// `]`, `=` and a value that is a chain of `m` operators.
pub open spec fn subscript_assignment(tokens: Seq<Lexeme>, p: int, n: nat, m: nat) -> bool {
    &&& 0 <= p
    &&& p + 1 < tokens.len()
    &&& tokens[p].token is Identifier
    &&& token_kind(tokens[p + 1].token) == TokenKind::LBracket
    &&& closed_chain(tokens, p + 2, n, TokenKind::RBracket)
    &&& p + 2 * n + 4 < tokens.len()
    &&& token_kind(tokens[p + 2 * n + 4].token) == TokenKind::Assign
    &&& operator_chain(tokens, p + 2 * n + 5, m)
    &&& chain_ends(tokens, p + 2 * n + 5, m)
}

/// From `p` on stands `if cond: body` on one line, where the condition is a
/// chain of `n` operators and the body a chain of `m`, and no `else`
/// follows.
pub open spec fn simple_if(tokens: Seq<Lexeme>, source: Seq<u8>, p: int, n: nat, m: nat) -> bool {
    let colon = p + 2 * n + 2;
    let after = colon + 2 * m + 2;
    &&& 0 <= p < tokens.len()
    &&& token_kind(tokens[p].token) == TokenKind::If
    &&& closed_chain(tokens, p + 1, n, TokenKind::Colon)
    &&& colon + 1 < tokens.len()
    &&& !(exists|b: int| tokens[colon].end <= b < tokens[colon + 1].start && source[b] == 10)
    &&& operator_chain(tokens, colon + 1, m)
    &&& chain_ends(tokens, colon + 1, m)
    &&& !(after < tokens.len() && token_kind(tokens[after].token) == TokenKind::Else)
}

/// Every token is a semicolon (there may be none).
pub open spec fn only_semicolons(tokens: Seq<Lexeme>) -> bool {
    forall|i: int| 0 <= i < tokens.len() ==> #[trigger] tokens[i].token == Token::Semicolon
}

/// A constant that, if it is a function, has sound code.
pub open spec fn constant_sound(c: Constant) -> bool {
    match c {
        Constant::Function(p) => chunk_sound(p.chunk),
        _ => true,
    }
}

/// The spans of the tokens lie within the source, each starts before it ends,
/// and each ends before the next one starts.
pub open spec fn spans_fit(source: Seq<u8>, tokens: Seq<Lexeme>) -> bool {
    &&& forall|i: int|
        0 <= i < tokens.len() ==> #[trigger] tokens[i].start <= tokens[i].end && tokens[i].end
            <= source.len()
    &&& forall|i: int|
        0 <= i && i + 1 < tokens.len() ==> #[trigger] tokens[i].end <= tokens[i + 1].start
}

/// Checks that the spans of the tokens fit the source, as [`spans_fit`] says.
pub fn check_spans(source: &str, tokens: &Vec<Lexeme>) -> (fit: bool)
    ensures
        fit == spans_fit(source.spec_bytes(), tokens@),
{
    let n = source.as_bytes().len();
    let mut i: usize = 0;
    while i < tokens.len()
        invariant
            i <= tokens@.len(),
            n == source.spec_bytes().len(),
            forall|k: int|
                0 <= k < i ==> #[trigger] tokens@[k].start <= tokens@[k].end && tokens@[k].end
                    <= source.spec_bytes().len(),
            forall|k: int| 0 <= k && k + 1 < tokens@.len() && k + 1 <= i ==> #[trigger] tokens@[k].end <= tokens@[k + 1].start,
        decreases tokens@.len() - i,
    {
        let t = &tokens[i];
        if t.start > t.end || t.end > n {
            return false;
        }
        if i + 1 < tokens.len() && t.end > tokens[i + 1].start {
            return false;
        }
        i += 1;
    }
    true
}

/// The kinds of the tokens, in order.
fn kinds_of(tokens: &Vec<Lexeme>) -> (kinds: Vec<TokenKind>)
    ensures
        kinds@.len() == tokens@.len(),
        forall|i: int| 0 <= i < tokens@.len() ==> kinds@[i] == token_kind(#[trigger] tokens@[i].token),
{
    let mut kinds: Vec<TokenKind> = Vec::new();
    let mut i: usize = 0;
    while i < tokens.len()
        invariant
            i <= tokens@.len(),
            kinds@.len() == i,
            forall|k: int| 0 <= k < i ==> kinds@[k] == token_kind(#[trigger] tokens@[k].token),
        decreases tokens@.len() - i,
    {
        kinds.push(tokens[i].token.kind());
        i += 1;
    }
    kinds
}

/// The decimal digit for `d`.
pub open spec fn digit_char(d: nat) -> char {
    if d == 0 {
        '0'
    } else if d == 1 {
        '1'
    } else if d == 2 {
        '2'
    } else if d == 3 {
        '3'
    } else if d == 4 {
        '4'
    } else if d == 5 {
        '5'
    } else if d == 6 {
        '6'
    } else if d == 7 {
        '7'
    } else if d == 8 {
        '8'
    } else {
        '9'
    }
}

/// The decimal notation of `n`, without leading zeros.
pub open spec fn decimal(n: nat) -> Seq<char>
    decreases n,
{
    if n < 10 {
        seq![digit_char(n)]
    } else {
        decimal(n / 10).push(digit_char(n % 10))
    }
}

fn push_digit(out: &mut Vec<char>, d: usize)
    requires
        d < 10,
    ensures
        final(out)@ == old(out)@.push(digit_char(d as nat)),
{
    let c = if d == 0 {
        '0'
    } else if d == 1 {
        '1'
    } else if d == 2 {
        '2'
    } else if d == 3 {
        '3'
    } else if d == 4 {
        '4'
    } else if d == 5 {
        '5'
    } else if d == 6 {
        '6'
    } else if d == 7 {
        '7'
    } else if d == 8 {
        '8'
    } else {
        '9'
    };
    out.push(c);
}

/// Appends the decimal notation of `n`.
fn push_decimal(out: &mut Vec<char>, n: usize)
    ensures
        final(out)@ == old(out)@ + decimal(n as nat),
    decreases n,
{
    if n >= 10 {
        push_decimal(out, n / 10);
        push_digit(out, n % 10);
        assert(final(out)@ =~= old(out)@ + decimal(n as nat));
    } else {
        push_digit(out, n);
        assert(final(out)@ =~= old(out)@ + decimal(n as nat));
    }
}

/// The name of the hidden variable that collects the results of the
/// `counter`-th list comprehension.
pub fn comprehension_result_name(counter: usize) -> (name: String)
    ensures
        name@ == "__list_comp_result_"@ + decimal(counter as nat),
{
    let mut chars = chars_of("__list_comp_result_");
    push_decimal(&mut chars, counter);
    string_from_chars(&chars)
}


/// Whether `c` is the string constant `name`.
pub open spec fn is_string_constant(c: Constant, name: Seq<char>) -> bool {
    match c {
        Constant::String(s) => s@ == name,
        _ => false,
    }
}

/// The offset of every break recorded in `loops`, and the byte after it,
/// lie below `n`.
pub open spec fn loops_below(loops: Seq<LoopContext>, n: int) -> bool {
    forall|k: int, j: int|
        0 <= k < loops.len() && 0 <= j < loops[k].break_jumps@.len() ==> #[trigger] loops[k].break_jumps@[j]
            + 2 <= n
}

/// Where a comprehension keeps its loop variable and its result list: the
/// name constants, and the local slots inside functions; and the constants
/// that name the loop variable.
struct ComprehensionVars {
    loop_var_idx: usize,
    loop_var_local: Option<usize>,
    target_indices: Vec<usize>,
    result_local: Option<usize>,
    result_name_idx: usize,
}

/// Every break recorded in `loops` is a jump of `code`.
pub open spec fn breaks_ok(loops: Seq<LoopContext>, code: Seq<u8>) -> bool {
    forall|k: int, j: int|
        0 <= k < loops.len() && 0 <= j < loops[k].break_jumps@.len() ==> jump_at(
            code,
            #[trigger] loops[k].break_jumps@[j] as int,
        )
}

/// Appending one instruction to whole code keeps it whole and keeps what it
/// was; the instruction starts at the old end.
pub proof fn lemma_emit(code: Seq<u8>, op: OpCode, operands: Seq<u8>)
    requires
        is_whole(code),
        operands.len() == spec_operand_width(op),
        op != OpCode::OpLoop,
        spec_operand_width(op) == 2 ==> operands == seq![0u8, 0u8],
    ensures
        is_whole(code + (seq![opcode_byte(op)] + operands)),
        keeps(code, code + (seq![opcode_byte(op)] + operands)),
        is_boundary(code + (seq![opcode_byte(op)] + operands), code.len()),
        (code + (seq![opcode_byte(op)] + operands))[code.len() as int] == opcode_byte(op),
        jumps_land(code) ==> jumps_land(code + (seq![opcode_byte(op)] + operands)),
        jumps_above(code + (seq![opcode_byte(op)] + operands), code.len()),
{
    lemma_instruction_whole(op, operands);
    lemma_instruction_jumps(op, operands);
    lemma_append_keeps(code, seq![opcode_byte(op)] + operands);
    lemma_opcode_byte_roundtrip(op);
    lemma_append_above(code, seq![opcode_byte(op)] + operands);
    if jumps_land(code) {
        lemma_append_jumps(code, seq![opcode_byte(op)] + operands);
    }
}

/// Appending whole code whose jumps land keeps, for each position within
/// the old code, the jumps above it above it.
pub proof fn lemma_extends_append(a: Seq<u8>, b: Seq<u8>)
    requires
        is_whole(a),
        is_whole(b),
        jumps_land(b),
    ensures
        forall|s: nat| s <= a.len() && jumps_above(a, s) ==> #[trigger] jumps_above(a + b, s),
{
    assert forall|s: nat| s <= a.len() && jumps_above(a, s) implies #[trigger] jumps_above(a + b, s) by {
        lemma_above_append(a, b, s);
    }
}

/// The peak length of code after it has reached `len`.
pub open spec fn raised(peak: nat, len: nat) -> nat {
    if len > peak {
        len
    } else {
        peak
    }
}

/// A jump of code stays a jump of the code that keeps it.
pub proof fn lemma_jump_kept(old: Seq<u8>, new: Seq<u8>, x: int)
    requires
        jump_at(old, x),
        keeps(old, new),
    ensures
        jump_at(new, x),
{
    assert(is_boundary(old, (x - 1) as nat));
}

/// The breaks recorded for code stay jumps of the code that keeps it.
pub proof fn lemma_breaks_kept(loops: Seq<LoopContext>, old: Seq<u8>, new: Seq<u8>)
    requires
        breaks_ok(loops, old),
        loops_below(loops, old.len() as int),
        keeps(old, new),
    ensures
        breaks_ok(loops, new),
        loops_below(loops, new.len() as int),
{
    assert forall|k: int, j: int|
        0 <= k < loops.len() && 0 <= j < loops[k].break_jumps@.len() implies jump_at(
        new,
        #[trigger] loops[k].break_jumps@[j] as int,
    ) by {
        lemma_jump_kept(old, new, loops[k].break_jumps@[j] as int);
    }
}

/// Whether a token of this kind begins a term: a negation, a literal, a
/// name, a dict, or a list or comprehension.
pub open spec fn starts_term(k: TokenKind) -> bool {
    ||| k == TokenKind::Minus
    ||| k == TokenKind::Integer
    ||| k == TokenKind::Float
    ||| k == TokenKind::String
    ||| k == TokenKind::True
    ||| k == TokenKind::False
    ||| k == TokenKind::Identifier
    ||| k == TokenKind::LBrace
    ||| k == TokenKind::LBracket
}

/// Which bracket closes a comprehension.
enum ComprehensionEnd {
    RBracket,
    RParen,
}

/// The state of a compilation: the tokens and the source they were read
/// from, the position of the next token, the chunk being filled and the
/// context of the enclosing loops and functions.
pub struct Compiler<'a> {
    tokens: &'a Vec<Lexeme>,
    kinds: Vec<TokenKind>,
    source: &'a str,
    pos: usize,
    chunk: Chunk,
    had_error: bool,
    list_comp_counter: usize,
    loop_stack: Vec<LoopContext>,
    current_indent: usize,
    function_depth: usize,
    scopes: ScopeChain<()>,
    /// The greatest length the code has had.
    peak: Ghost<nat>,
}

impl<'a> Compiler<'a> {
    /// Compiles a program, given its source text and the tokens read from it,
    /// into a chunk that ends with `OpReturn`. Gives `None` when the program has
    /// an error, and when the tokens' spans do not fit the source. The code it
    /// gives is a sequence of complete instructions, each with a valid opcode.
    pub fn compile(source: &'a str, tokens: &'a Vec<Lexeme>) -> (chunk: Option<Chunk>)
        requires
            4 * source.spec_bytes().len() <= usize::MAX,
        ensures
            !spans_fit(source.spec_bytes(), tokens@) ==> chunk is None,
            chunk matches Some(c) ==> c.code@.len() > 0 && c.code@.last() == opcode_byte(
                OpCode::OpReturn,
            ),
            chunk matches Some(c) ==> chunk_sound(c),
            spans_fit(source.spec_bytes(), tokens@) && tokens@.len() == 0 ==> (chunk matches Some(c)
                && c.code@ == seq![opcode_byte(OpCode::OpReturn)] && c.constants@.len() == 0),
            spans_fit(source.spec_bytes(), tokens@) && only_semicolons(tokens@) ==> (chunk matches Some(c)
                && c.code@ == seq![opcode_byte(OpCode::OpReturn)] && c.constants@.len() == 0),
            first_statement_refused(tokens@) ==> chunk is None,
            forall|n: nat|
                #[trigger] operator_chain(tokens@, 0, n) && tokens@.len() == 2 * n + 1 && spans_fit(
                    source.spec_bytes(),
                    tokens@,
                ) ==> (chunk matches Some(c) && c.code@ == chain_code(tokens@, 0, n, 0) + seq![
                    opcode_byte(OpCode::OpPop),
                    opcode_byte(OpCode::OpReturn),
                ] && c.constants@ == chain_constants(tokens@, 0, n)),
    {
        if !check_spans(source, tokens) {
            return None;
        }
        let kinds = kinds_of(tokens);
        let mut compiler = Compiler {
            tokens,
            kinds,
            source,
            pos: 0,
            chunk: Chunk::new(),
            had_error: false,
            list_comp_counter: 0,
            loop_stack: Vec::new(),
            current_indent: 0,
            function_depth: 0,
            scopes: ScopeChain::new(),
            peak: Ghost(0),
        };
        let ghost has_run = exists|n: nat| operator_chain(tokens@, 0, n) && tokens@.len() == 2 * n + 1;
        let ghost n1: nat = choose|n: nat| operator_chain(tokens@, 0, n) && tokens@.len() == 2 * n + 1;
        proof {
            reveal(Compiler::inner_inv);
        }
        while compiler.pos < compiler.tokens.len()
            invariant
                compiler.inv(),
                compiler.tokens == tokens,
                tokens@.len() == 0 ==> compiler.chunk.code@.len() == 0 && !compiler.had_error
                    && compiler.chunk.constants@.len() == 0,
                only_semicolons(tokens@) ==> compiler.chunk.code@.len() == 0 && !compiler.had_error
                    && compiler.chunk.constants@.len() == 0,
                compiler.pos > 0 && first_statement_refused(tokens@) ==> compiler.had_error,
                compiler.function_depth == 0,
                !compiler.had_error ==> compiler.peak@ <= compiler.chunk.code@.len(),
                has_run ==> operator_chain(tokens@, 0, n1) && tokens@.len() == 2 * n1 + 1 && !compiler.had_error && ((
                    compiler.pos == 0 && compiler.chunk.code@.len() == 0 && compiler.chunk.constants@.len() == 0)
                    || (compiler.pos == tokens@.len() && compiler.chunk.code@ == chain_code(tokens@, 0, n1, 0)
                    + seq![opcode_byte(OpCode::OpPop)] && compiler.chunk.constants@ == chain_constants(tokens@, 0, n1))),
            decreases compiler.remaining(),
        {
            let ghost start_pos = compiler.pos;
            proof {
                compiler.lemma_inv();
                if compiler.pos < tokens@.len() {
                    compiler.lemma_kind(compiler.pos as int);
                }
                if has_run && compiler.pos == 0 {
                    lemma_chain_prefix(tokens@, 0, n1, 0);
                    assert(chain_ends(tokens@, 0, n1));
                    assert(operator_chain(compiler.tokens@, compiler.pos as int, n1));
                    assert(chain_ends(compiler.tokens@, compiler.pos as int, n1));
                }
            }
            if compiler.peek_valid() {
                compiler.parse_statement();
                while compiler.peek_is(TokenKind::Semicolon)
                    invariant
                        compiler.inv(),
                        compiler.tokens == tokens,
                        compiler.pos > start_pos,
                        !compiler.had_error ==> compiler.peak@ <= compiler.chunk.code@.len(),
                        only_semicolons(tokens@) ==> compiler.chunk.code@.len() == 0 && !compiler.had_error
                            && compiler.chunk.constants@.len() == 0,
                        compiler.pos > 0 && first_statement_refused(tokens@) ==> compiler.had_error,
                        compiler.function_depth == 0,
                        has_run ==> operator_chain(tokens@, 0, n1) && tokens@.len() == 2 * n1 + 1 && !compiler.had_error && ((
                    compiler.pos == 0 && compiler.chunk.code@.len() == 0 && compiler.chunk.constants@.len() == 0)
                    || (compiler.pos == tokens@.len() && compiler.chunk.code@ == chain_code(tokens@, 0, n1, 0)
                    + seq![opcode_byte(OpCode::OpPop)] && compiler.chunk.constants@ == chain_constants(tokens@, 0, n1))),
                    decreases compiler.remaining(),
                {
                    compiler.advance();
                }
            } else {
                compiler.advance();
                compiler.fail();
            }
        }
        if compiler.had_error {
            return None;
        }
        compiler.emit_op(OpCode::OpReturn);
        proof {
            compiler.lemma_inv();
        }
        Some(compiler.chunk)
    }

    /// Whether the next token begins a call, an indexing or a method call.
    spec fn at_postfix(&self) -> bool {
        &&& self.pos < self.tokens@.len()
        &&& {
            let k = self.kind_at(self.pos as int);
            k == TokenKind::LParen || k == TokenKind::LBracket || k == TokenKind::Dot
        }
    }

    /// No call, indexing or method call starts at token `q`.
    spec fn no_postfix_at(&self, q: int) -> bool {
        !(0 <= q < self.tokens@.len() && {
            let k = self.kind_at(q);
            k == TokenKind::LParen || k == TokenKind::LBracket || k == TokenKind::Dot
        })
    }

    /// What one postfix operation at the next token does, for the forms whose
    /// operands are literal chains: the number of tokens it spans, the code it
    /// appends and the constants it adds. `.lower()` and `.isalnum()` emit
    /// their instruction; `()` and `(chain)` emit the argument's code and a
    /// call with 0 or 1 argument; `[chain]` indexes; `.append(chain)` on a
    /// value read from the global `base` appends and stores the list back.
    spec fn postfix_effect(&self, base: Option<usize>) -> Option<(int, Seq<u8>, Seq<Constant>)> {
        let toks = self.tokens@;
        let p = self.pos as int;
        let k = self.chunk.constants@.len();
        if p + 3 < toks.len() && self.kind_at(p) == TokenKind::Dot && self.kind_at(p + 2) == TokenKind::LParen
            && self.kind_at(p + 3) == TokenKind::RParen && (match toks[p + 1].token {
            Token::Identifier(m) => m@ == "lower"@ || m@ == "isalnum"@,
            _ => false,
        }) {
            let op = match toks[p + 1].token {
                Token::Identifier(m) => if m@ == "lower"@ {
                    OpCode::OpStrLower
                } else {
                    OpCode::OpStrIsAlnum
                },
                _ => OpCode::OpStrIsAlnum,
            };
            Some((4, seq![opcode_byte(op)], Seq::empty()))
        } else if p + 1 < toks.len() && self.kind_at(p) == TokenKind::LParen && self.kind_at(p + 1)
            == TokenKind::RParen {
            Some((2, seq![opcode_byte(OpCode::OpCall), 0u8], Seq::empty()))
        } else if p < toks.len() && self.kind_at(p) == TokenKind::LParen && (exists|n: nat|
            #[trigger] closed_chain(toks, p + 1, n, TokenKind::RParen)) {
            let n = choose|n: nat| #[trigger] closed_chain(toks, p + 1, n, TokenKind::RParen);
            Some((
                (2 * n + 3) as int,
                chain_code(toks, p + 1, n, k) + seq![opcode_byte(OpCode::OpCall), 1u8],
                chain_constants(toks, p + 1, n),
            ))
        } else if p < toks.len() && self.kind_at(p) == TokenKind::LBracket && (exists|n: nat|
            #[trigger] closed_chain(toks, p + 1, n, TokenKind::RBracket)) {
            let n = choose|n: nat| #[trigger] closed_chain(toks, p + 1, n, TokenKind::RBracket);
            Some((
                (2 * n + 3) as int,
                chain_code(toks, p + 1, n, k) + seq![opcode_byte(OpCode::OpIndex)],
                chain_constants(toks, p + 1, n),
            ))
        } else if base is Some && p + 2 < toks.len() && self.kind_at(p) == TokenKind::Dot && self.kind_at(p + 2)
            == TokenKind::LParen && (match toks[p + 1].token {
            Token::Identifier(m) => m@ == "append"@,
            _ => false,
        }) && (exists|n: nat| #[trigger] closed_chain(toks, p + 3, n, TokenKind::RParen)) {
            let n = choose|n: nat| #[trigger] closed_chain(toks, p + 3, n, TokenKind::RParen);
            Some((
                (2 * n + 5) as int,
                chain_code(toks, p + 3, n, k) + seq![
                    opcode_byte(OpCode::OpAppend),
                    opcode_byte(OpCode::OpSetGlobal),
                    operand_byte(base.unwrap() as nat),
                ],
                chain_constants(toks, p + 3, n),
            ))
        } else {
            None
        }
    }

    /// The next tokens are `.` and a method name that no value here has: one
    /// other than `append`, `lower`, `isalnum` and `join`, or `append` on a
    /// value that was not read from a global variable (`base` is `None`).
    spec fn postfix_refused(&self, base: Option<usize>) -> bool {
        &&& self.pos + 1 < self.tokens@.len()
        &&& self.kind_at(self.pos as int) == TokenKind::Dot
        &&& self.tokens@[self.pos + 1].token matches Token::Identifier(m) && {
            ||| m@ != "append"@ && m@ != "lower"@ && m@ != "isalnum"@ && m@ != "join"@
            ||| base is None && m@ == "append"@
        }
    }

    /// The last consumed token exists and has the given kind.
    spec fn closed_by(&self, kind: TokenKind) -> bool {
        &&& 0 < self.pos <= self.tokens@.len()
        &&& self.kind_at(self.pos - 1) == kind
    }

    /// The kinds recorded for the tokens are theirs.
    proof fn lemma_kind(&self, i: int)
        requires
            self.inv(),
            0 <= i < self.tokens@.len(),
        ensures
            self.kind_at(i) == token_kind(self.tokens@[i].token),
    {
        reveal(Compiler::inner_inv);
    }

    /// The number of tokens not consumed yet.
    spec fn remaining(&self) -> int {
        self.tokens@.len() - self.pos
    }

    /// The kind of the token at `i`.
    spec fn kind_at(&self, i: int) -> TokenKind {
        self.kinds@[i]
    }

    /// What holds of the state between any two steps of a compilation.
    spec fn inv(&self) -> bool {
        &&& self.pos <= self.tokens@.len()
        &&& self.inner_inv()
    }

    /// The part of [`Compiler::inv`] that proofs only look into on demand.
    #[verifier::opaque]
    spec fn inner_inv(&self) -> bool {
        &&& self.pos <= self.tokens@.len()
        &&& self.kinds@.len() == self.tokens@.len()
        &&& forall|i: int|
            0 <= i < self.tokens@.len() ==> self.kinds@[i] == token_kind(
                #[trigger] self.tokens@[i].token,
            )
        &&& spans_fit(self.source.spec_bytes(), self.tokens@)
        &&& 4 * self.source.spec_bytes().len() <= usize::MAX
        &&& self.scopes.well_formed()
        &&& self.function_depth == self.scopes.scopes@.len()
        &&& self.function_depth <= self.pos
        &&& self.list_comp_counter <= self.pos
        &&& loops_below(self.loop_stack@, self.chunk.code@.len() as int)
        &&& is_whole(self.chunk.code@)
        &&& breaks_ok(self.loop_stack@, self.chunk.code@)
        &&& self.chunk.code@.len() <= self.peak@
        &&& self.peak@ < 65536 ==> jumps_land(self.chunk.code@)
        &&& forall|i: int| 0 <= i < self.chunk.constants@.len() ==> match #[trigger] self.chunk.constants@[i] {
            Constant::Function(p) => chunk_sound(p.chunk),
            _ => true,
        }
    }

    /// `next` is a later state of the same compilation, at the same nesting of
    /// loops and functions.
    spec fn follows(&self, next: &Self) -> bool {
        &&& next.tokens == self.tokens
        &&& next.kinds@ == self.kinds@
        &&& next.source == self.source
        &&& next.pos >= self.pos
        &&& next.chunk.code@.len() >= self.chunk.code@.len()
        &&& keeps(self.chunk.code@, next.chunk.code@)
        &&& next.loop_stack@.len() == self.loop_stack@.len()
        &&& next.function_depth == self.function_depth
        &&& self.had_error ==> next.had_error
        &&& next.peak@ >= self.peak@
        &&& !next.had_error ==> next.peak@ <= raised(self.peak@, next.chunk.code@.len())
        &&& next.chunk.constants@.len() >= self.chunk.constants@.len()
        &&& forall|i: int|
            0 <= i < self.chunk.constants@.len() ==> #[trigger] next.chunk.constants@[i] == self.chunk.constants@[i]
    }

    /// `next` keeps the code of this state as it is, and the jumps that
    /// stayed at or above a position within it still do, while the code is
    /// short enough for their offsets.
    spec fn extends(&self, next: &Self) -> bool {
        &&& forall|k: int| 0 <= k < self.chunk.code@.len() ==> next.chunk.code@[k] == self.chunk.code@[k]
        &&& forall|s: nat|
            s <= self.chunk.code@.len() && jumps_above(self.chunk.code@, s) && next.peak@ < 65536
                ==> #[trigger] jumps_above(next.chunk.code@, s)
    }

    /// `next` differs from this state in the code only.
    spec fn code_step(&self, next: &Self) -> bool {
        &&& next.tokens == self.tokens
        &&& next.kinds == self.kinds
        &&& next.source == self.source
        &&& next.pos == self.pos
        &&& next.chunk.constants == self.chunk.constants
        &&& next.had_error == self.had_error
        &&& next.list_comp_counter == self.list_comp_counter
        &&& next.loop_stack == self.loop_stack
        &&& next.current_indent == self.current_indent
        &&& next.function_depth == self.function_depth
        &&& next.scopes == self.scopes
        &&& next.peak@ == raised(self.peak@, next.chunk.code@.len())
    }

    /// `next` differs from this state in the position only.
    spec fn pos_step(&self, next: &Self) -> bool {
        &&& next.tokens == self.tokens
        &&& next.kinds == self.kinds
        &&& next.source == self.source
        &&& next.chunk == self.chunk
        &&& next.had_error == self.had_error
        &&& next.list_comp_counter == self.list_comp_counter
        &&& next.loop_stack == self.loop_stack
        &&& next.current_indent == self.current_indent
        &&& next.function_depth == self.function_depth
        &&& next.scopes == self.scopes
        &&& next.peak == self.peak
    }

    /// The basic facts that the state keeps.
    proof fn lemma_inv(&self)
        requires
            self.inv(),
        ensures
            self.pos <= self.tokens@.len(),
            self.kinds@.len() == self.tokens@.len(),
            self.function_depth == self.scopes.scopes@.len(),
            self.function_depth <= self.pos,
            self.list_comp_counter <= self.pos,
            self.breaks_below(self.chunk.code@.len() as int),
            is_whole(self.chunk.code@),
            breaks_ok(self.loop_stack@, self.chunk.code@),
            is_boundary(self.chunk.code@, self.chunk.code@.len()),
            self.chunk.code@.len() <= self.peak@,
            self.peak@ < 65536 ==> jumps_land(self.chunk.code@),
            self.peak@ <= self.chunk.code@.len() ==> chunk_sound(self.chunk),
            forall|i: int| 0 <= i < self.chunk.constants@.len() ==> constant_sound(#[trigger] self.chunk.constants@[i]),
    {
        reveal(Compiler::inner_inv);
        lemma_end_boundary(self.chunk.code@, 0);
    }

    /// Every pending break's offset, and the byte after it, lies below `n`.
    spec fn breaks_below(&self, n: int) -> bool {
        loops_below(self.loop_stack@, n)
    }

    /// Records an error.
    fn fail(&mut self)
        requires
            old(self).inv(),
        ensures
            final(self).inv(),
            final(self).had_error,
            *final(self) == (Compiler { had_error: true, ..*old(self) }),
    {
        proof {
            reveal(Compiler::inner_inv);
        }
        self.had_error = true;
    }

    /// Sets the indentation of the statement being compiled.
    fn set_indent(&mut self, indent: usize)
        requires
            old(self).inv(),
        ensures
            final(self).inv(),
            *final(self) == (Compiler { current_indent: indent, ..*old(self) }),
    {
        proof {
            reveal(Compiler::inner_inv);
        }
        self.current_indent = indent;
    }

    /// The kind of the next token, if there is one.
    fn peek_kind(&self) -> (kind: Option<TokenKind>)
        requires
            self.inv(),
        ensures
            kind == if self.pos < self.tokens@.len() {
                Some(self.kind_at(self.pos as int))
            } else {
                None::<TokenKind>
            },
    {
        proof {
            reveal(Compiler::inner_inv);
        }
        if self.pos < self.kinds.len() {
            Some(self.kinds[self.pos])
        } else {
            None
        }
    }

    /// Where the last consumed token ends, which is no later than where the
    /// next one starts.
    fn previous_end(&self) -> (end: usize)
        requires
            self.inv(),
            0 < self.pos,
        ensures
            end == self.tokens@[self.pos - 1].end,
            self.pos < self.tokens@.len() ==> end <= self.tokens@[self.pos as int].start,
    {
        proof {
            reveal(Compiler::inner_inv);
            assert(self.tokens@[self.pos - 1].end <= self.tokens@[self.pos - 1].end);
        }
        self.tokens[self.pos - 1].end
    }

    /// Whether a line break lies between byte `after` and the next token.
    fn on_new_line(&self, after: usize) -> (found: bool)
        requires
            self.inv(),
            self.pos < self.tokens@.len(),
            after <= self.tokens@[self.pos as int].start,
        ensures
            found == exists|k: int|
                after <= k < self.tokens@[self.pos as int].start && self.source.spec_bytes()[k] == 10,
    {
        proof {
            reveal(Compiler::inner_inv);
            assert(self.tokens@[self.pos as int].start <= self.tokens@[self.pos as int].end);
        }
        has_newline_between(self.source, after, self.tokens[self.pos].start)
    }

    /// The kind of assignment that the statement starting at the next token
    /// makes, if it is one.
    fn assignment_ahead(&self) -> (kind: Option<AssignmentKind>)
        requires
            self.inv(),
        ensures
            kind == assignment_at(self.kinds@, self.pos as int),
    {
        detect_assignment_kind_at(&self.kinds, self.pos)
    }

    /// Whether a list comprehension follows the opening bracket just consumed.
    fn comprehension_ahead(&self) -> (found: bool)
        requires
            self.inv(),
        ensures
            found == comprehension_from(self.kinds@, self.pos as int, 0),
    {
        is_list_comprehension_at(&self.kinds, self.pos)
    }

    /// Resolves a name in the scopes.
    fn resolve_variable(&mut self, name: &String) -> (target: VariableTarget)
        requires
            old(self).inv(),
        ensures
            final(self).inv(),
            final(self).tokens == old(self).tokens,
            final(self).kinds == old(self).kinds,
            final(self).source == old(self).source,
            final(self).pos == old(self).pos,
            final(self).chunk == old(self).chunk,
            final(self).had_error == old(self).had_error,
            final(self).list_comp_counter == old(self).list_comp_counter,
            final(self).loop_stack == old(self).loop_stack,
            final(self).current_indent == old(self).current_indent,
            final(self).function_depth == old(self).function_depth,
            final(self).peak == old(self).peak,
            final(self).scopes.scopes@.len() == old(self).scopes.scopes@.len(),
            match target {
                VariableTarget::Local(slot) => old(self).scopes.scopes@.len() > 0
                    && old(self).scopes.views().last().resolve(name@) == Some(slot as int)
                    && final(self).scopes.views() == old(self).scopes.views(),
                VariableTarget::Upvalue(index) => old(self).scopes.scopes@.len() >= 2
                    && old(self).scopes.views().last().resolve(name@) is None
                    && final(self).scopes.views()[old(self).scopes.scopes@.len() - 1].upvalue_index(name@)
                    == Some(index as int),
                VariableTarget::Global => (old(self).scopes.scopes@.len() == 0
                    || old(self).scopes.views().last().resolve(name@) is None)
                    && !(old(self).scopes.scopes@.len() >= 2 && declared_in_enclosing(
                    old(self).scopes.views(),
                    old(self).scopes.scopes@.len() - 1,
                    name@,
                ) && old(self).scopes.views().last().upvalue_index(name@) is None),
            },
    {
        proof {
            reveal(Compiler::inner_inv);
        }
        self.scopes.resolve_variable(name)
    }

    /// Declares a local of the current function.
    fn declare_local(&mut self, name: String) -> (r: Option<(usize, bool)>)
        requires
            old(self).inv(),
        ensures
            final(self).inv(),
            final(self).tokens == old(self).tokens,
            final(self).kinds == old(self).kinds,
            final(self).source == old(self).source,
            final(self).pos == old(self).pos,
            final(self).chunk == old(self).chunk,
            old(self).had_error ==> final(self).had_error,
            final(self).list_comp_counter == old(self).list_comp_counter,
            final(self).loop_stack == old(self).loop_stack,
            final(self).current_indent == old(self).current_indent,
            final(self).function_depth == old(self).function_depth,
            final(self).peak == old(self).peak,
            final(self).scopes.scopes@.len() == old(self).scopes.scopes@.len(),
            old(self).scopes.scopes@.len() == 0 ==> r is None && final(self).scopes.views()
                == old(self).scopes.views() && final(self).had_error == old(self).had_error,
            old(self).scopes.scopes@.len() > 0 ==> {
                let current = old(self).scopes.scopes@.len() - 1;
                let view = old(self).scopes.views()[current];
                if view.params.len() + view.locals.len() + 1 >= 255 {
                    r is None && final(self).had_error && final(self).scopes.views() == old(self).scopes.views()
                } else {
                    &&& r == Some(((view.declare_result(name@).0) as usize, view.declare_result(name@).1))
                    &&& final(self).scopes.views() == old(self).scopes.views().update(current, view.declare(name@))
                    &&& final(self).had_error == old(self).had_error
                }
            },
    {
        proof {
            reveal(Compiler::inner_inv);
        }
        self.scopes.declare_local(name, &mut self.had_error)
    }

    /// The name of the hidden list of the next comprehension.
    fn next_comprehension_name(&mut self) -> (name: String)
        requires
            old(self).inv(),
            old(self).list_comp_counter < old(self).pos,
        ensures
            final(self).inv(),
            *final(self) == (Compiler { list_comp_counter: (old(self).list_comp_counter + 1) as usize, ..*old(self) }),
            name@ == "__list_comp_result_"@ + decimal(old(self).list_comp_counter as nat),
    {
        proof {
            reveal(Compiler::inner_inv);
        }
        let name = comprehension_result_name(self.list_comp_counter);
        self.list_comp_counter = self.list_comp_counter + 1;
        name
    }

    /// The number of enclosing loops.
    fn loop_depth(&self) -> (n: usize)
        ensures
            n == self.loop_stack@.len(),
    {
        self.loop_stack.len()
    }

    /// Enters a loop whose breaks pop `cleanup_depth` values first.
    fn push_loop(&mut self, cleanup_depth: usize)
        requires
            old(self).inv(),
        ensures
            final(self).inv(),
            final(self).loop_stack@.len() == old(self).loop_stack@.len() + 1,
            *final(self) == (Compiler { loop_stack: final(self).loop_stack, ..*old(self) }),
    {
        proof {
            reveal(Compiler::inner_inv);
        }
        self.loop_stack.push(LoopContext::new(cleanup_depth));
    }

    /// Leaves the innermost loop and gives its context.
    fn pop_loop(&mut self) -> (context: LoopContext)
        requires
            old(self).inv(),
            old(self).loop_stack@.len() > 0,
        ensures
            final(self).inv(),
            final(self).loop_stack@.len() == old(self).loop_stack@.len() - 1,
            *final(self) == (Compiler { loop_stack: final(self).loop_stack, ..*old(self) }),
            forall|j: int|
                0 <= j < context.break_jumps@.len() ==> jump_at(final(self).chunk.code@, #[trigger] context.break_jumps@[j] as int),
    {
        proof {
            reveal(Compiler::inner_inv);
        }
        let ghost n = self.loop_stack@.len();
        let context = match self.loop_stack.pop() {
            Some(c) => c,
            None => LoopContext::new(0),
        };
        proof {
            assert forall|j: int| 0 <= j < context.break_jumps@.len() implies jump_at(self.chunk.code@, #[trigger] context.break_jumps@[j] as int) by {
                assert(old(self).loop_stack@[n - 1].break_jumps@[j] == context.break_jumps@[j]);
            }
        }
        context
    }

    /// The number of values that a break out of the innermost loop pops.
    fn innermost_cleanup(&self) -> (depth: usize)
        requires
            self.loop_stack@.len() > 0,
        ensures
            depth == self.loop_stack@.last().cleanup_depth,
    {
        self.loop_stack[self.loop_stack.len() - 1].cleanup_depth
    }

    /// Records a jump out of the innermost loop whose offset is at `jump_pos`.
    fn record_break(&mut self, jump_pos: usize)
        requires
            old(self).inv(),
            old(self).loop_stack@.len() > 0,
            jump_at(old(self).chunk.code@, jump_pos as int),
        ensures
            final(self).inv(),
            final(self).loop_stack@.len() == old(self).loop_stack@.len(),
            final(self).loop_stack@.last().break_jumps@ == old(self).loop_stack@.last().break_jumps@.push(jump_pos),
            final(self).loop_stack@.last().cleanup_depth == old(self).loop_stack@.last().cleanup_depth,
            forall|k: int| 0 <= k < old(self).loop_stack@.len() - 1 ==> #[trigger] final(self).loop_stack@[k] == old(self).loop_stack@[k],
            *final(self) == (Compiler { loop_stack: final(self).loop_stack, ..*old(self) }),
    {
        proof {
            reveal(Compiler::inner_inv);
        }
        let ghost before = self.loop_stack@;
        let mut context = match self.loop_stack.pop() {
            Some(c) => c,
            None => LoopContext::new(0),
        };
        context.break_jumps.push(jump_pos);
        self.loop_stack.push(context);
        proof {
            assert forall|k: int, j: int|
                0 <= k < self.loop_stack@.len() && 0 <= j < self.loop_stack@[k].break_jumps@.len()
                    implies #[trigger] self.loop_stack@[k].break_jumps@[j] + 2 <= self.chunk.code@.len()
                    && jump_at(self.chunk.code@, self.loop_stack@[k].break_jumps@[j] as int) by {
                if k < before.len() - 1 {
                    assert(self.loop_stack@[k] == before[k]);
                } else if j < before[k].break_jumps@.len() {
                    assert(self.loop_stack@[k].break_jumps@[j] == before[k].break_jumps@[j]);
                }
            }
        }
    }

    /// Enters the body of a function with the given parameters: a fresh
    /// chunk, no enclosing loops, and a new scope. Gives the chunk and loops
    /// of the code around the function.
    fn enter_function(&mut self, parameters: Vec<String>) -> (outer: (Chunk, Vec<LoopContext>))
        requires
            old(self).inv(),
            parameters@.len() <= 255,
            old(self).function_depth < old(self).pos,
        ensures
            final(self).inv(),
            final(self).tokens == old(self).tokens,
            final(self).kinds == old(self).kinds,
            final(self).source == old(self).source,
            final(self).pos == old(self).pos,
            final(self).had_error == old(self).had_error,
            final(self).list_comp_counter == old(self).list_comp_counter,
            final(self).current_indent == old(self).current_indent,
            final(self).function_depth == old(self).function_depth + 1,
            final(self).chunk.code@.len() == 0,
            final(self).chunk.constants@.len() == 0,
            final(self).loop_stack@.len() == 0,
            final(self).peak@ == 0,
            outer.0 == old(self).chunk,
            outer.1 == old(self).loop_stack,
            is_whole(outer.0.code@),
            breaks_ok(outer.1@, outer.0.code@),
            loops_below(outer.1@, outer.0.code@.len() as int),
            outer.0.code@.len() <= old(self).peak@,
            old(self).peak@ < 65536 ==> jumps_land(outer.0.code@),
            forall|i: int| 0 <= i < outer.0.constants@.len() ==> constant_sound(#[trigger] outer.0.constants@[i]),
            final(self).scopes.scopes@.len() == old(self).scopes.scopes@.len() + 1,
            forall|k: int| 0 <= k < old(self).scopes.scopes@.len() ==> final(self).scopes.scopes@[k] == old(self).scopes.scopes@[k],
    {
        proof {
            reveal(Compiler::inner_inv);
            assert(is_whole(Seq::<u8>::empty()));
            assert(jumps_land(Seq::<u8>::empty()));
        }
        let mut outer_chunk = Chunk::new();
        std::mem::swap(&mut outer_chunk, &mut self.chunk);
        let mut outer_loops: Vec<LoopContext> = Vec::new();
        std::mem::swap(&mut outer_loops, &mut self.loop_stack);
        self.scopes.scopes.push(FunctionScope::new(parameters));
        self.function_depth = self.function_depth + 1;
        self.peak = Ghost(0);
        (outer_chunk, outer_loops)
    }

    /// Leaves a function body: restores the chunk and loops of the code
    /// around it, and gives the function's chunk and captured variables.
    fn leave_function(&mut self, outer_chunk: Chunk, outer_loops: Vec<LoopContext>, Ghost(outer_peak): Ghost<nat>) -> (inner: (Chunk, Vec<UpvalueDescriptor>))
        requires
            old(self).inv(),
            old(self).function_depth > 0,
            loops_below(outer_loops@, outer_chunk.code@.len() as int),
            is_whole(outer_chunk.code@),
            breaks_ok(outer_loops@, outer_chunk.code@),
            outer_chunk.code@.len() <= outer_peak,
            outer_peak < 65536 ==> jumps_land(outer_chunk.code@),
            forall|i: int| 0 <= i < outer_chunk.constants@.len() ==> constant_sound(#[trigger] outer_chunk.constants@[i]),
        ensures
            final(self).inv(),
            final(self).tokens == old(self).tokens,
            final(self).kinds == old(self).kinds,
            final(self).source == old(self).source,
            final(self).pos == old(self).pos,
            final(self).had_error == old(self).had_error,
            final(self).list_comp_counter == old(self).list_comp_counter,
            final(self).current_indent == old(self).current_indent,
            final(self).function_depth == old(self).function_depth - 1,
            final(self).chunk == outer_chunk,
            final(self).loop_stack == outer_loops,
            final(self).peak@ == outer_peak,
            inner.0 == old(self).chunk,
            is_whole(inner.0.code@),
            old(self).peak@ <= old(self).chunk.code@.len() ==> chunk_sound(inner.0),
    {
        proof {
            reveal(Compiler::inner_inv);
            self.lemma_inv();
        }
        let captured = match self.scopes.scopes.pop() {
            Some(scope) => scope.upvalues,
            None => Vec::new(),
        };
        proof {
            assert forall|k: int| 0 <= k < self.scopes.scopes@.len() implies (
            #[trigger] self.scopes.scopes@[k])@.well_formed() by {
                assert(self.scopes.scopes@[k] == old(self).scopes.scopes@[k]);
            }
        }
        self.function_depth = self.function_depth - 1;
        let mut function_chunk = outer_chunk;
        std::mem::swap(&mut function_chunk, &mut self.chunk);
        let mut inner_loops = outer_loops;
        std::mem::swap(&mut inner_loops, &mut self.loop_stack);
        self.peak = Ghost(outer_peak);
        (function_chunk, captured)
    }

    /// Whether the next token exists and has the given kind.
    fn peek_is(&self, kind: TokenKind) -> (b: bool)
        requires
            self.inv(),
        ensures
            b == (self.pos < self.tokens@.len() && self.kind_at(self.pos as int) == kind),
    {
        proof {
            reveal(Compiler::inner_inv);
        }
        self.pos < self.kinds.len() && self.kinds[self.pos] == kind
    }

    /// Whether the next token exists and was recognised by the lexer.
    fn peek_valid(&self) -> (b: bool)
        requires
            self.inv(),
        ensures
            b == (self.pos < self.tokens@.len() && self.kind_at(self.pos as int)
                != TokenKind::Invalid),
    {
        proof {
            reveal(Compiler::inner_inv);
        }
        self.pos < self.kinds.len() && self.kinds[self.pos] != TokenKind::Invalid
    }

    /// Consumes the next token, if there is one.
    fn advance(&mut self)
        requires
            old(self).inv(),
        ensures
            final(self).inv(),
            old(self).pos_step(final(self)),
            final(self).pos == if old(self).pos < old(self).tokens@.len() {
                old(self).pos + 1
            } else {
                old(self).pos as int
            },
    {
        proof {
            reveal(Compiler::inner_inv);
        }
        if self.pos < self.tokens.len() {
            self.pos = self.pos + 1;
        }
    }

    /// Consumes the next token, if there is one, and tells whether it had the
    /// given kind.
    fn next_is(&mut self, kind: TokenKind) -> (b: bool)
        requires
            old(self).inv(),
        ensures
            final(self).inv(),
            old(self).pos_step(final(self)),
            b == (old(self).pos < old(self).tokens@.len() && old(self).kind_at(old(self).pos as int)
                == kind),
            final(self).pos == if old(self).pos < old(self).tokens@.len() {
                old(self).pos + 1
            } else {
                old(self).pos as int
            },
    {
        let b = self.peek_is(kind);
        self.advance();
        b
    }

    /// Consumes the next token, if there is one, and gives its name when it
    /// is an identifier.
    fn next_identifier(&mut self) -> (name: Option<String>)
        requires
            old(self).inv(),
        ensures
            final(self).inv(),
            old(self).pos_step(final(self)),
            name matches Some(n) ==> old(self).pos < old(self).tokens@.len() && old(self).tokens@[old(
                self,
            ).pos as int].token == Token::Identifier(n),
            name is None ==> !(old(self).pos < old(self).tokens@.len() && old(self).tokens@[old(
                self,
            ).pos as int].token is Identifier),
            final(self).pos == if old(self).pos < old(self).tokens@.len() {
                old(self).pos + 1
            } else {
                old(self).pos as int
            },
    {
        if self.pos >= self.tokens.len() {
            return None;
        }
        let tokens = self.tokens;
        let name = match &tokens[self.pos].token {
            Token::Identifier(n) => Some(n.clone()),
            _ => None,
        };
        self.advance();
        name
    }

    /// Consumes the next token and, when it is a colon, gives the byte
    /// position where it ends.
    fn take_colon(&mut self) -> (colon_end: Option<usize>)
        requires
            old(self).inv(),
        ensures
            final(self).inv(),
            old(self).pos_step(final(self)),
            final(self).pos == if old(self).pos < old(self).tokens@.len() {
                old(self).pos + 1
            } else {
                old(self).pos as int
            },
            colon_end is Some <==> old(self).pos < old(self).tokens@.len() && old(self).kind_at(
                old(self).pos as int,
            ) == TokenKind::Colon,
            colon_end matches Some(e) ==> old(self).pos < old(self).tokens@.len() && e
                == old(self).tokens@[old(self).pos as int].end && (final(self).pos
                < final(self).tokens@.len() ==> e <= final(self).tokens@[final(self).pos as int].start),
    {
        proof {
            reveal(Compiler::inner_inv);
        }
        if self.peek_is(TokenKind::Colon) {
            let end = self.tokens[self.pos].end;
            self.advance();
            Some(end)
        } else {
            self.advance();
            None
        }
    }

    /// The indentation of the line of the token at `i`, up to the token.
    fn indent_of(&self, i: usize) -> (indent: usize)
        requires
            self.inv(),
            i < self.tokens@.len(),
        ensures
            indent == indent_width(
                self.source.spec_bytes(),
                line_start(self.source.spec_bytes(), self.tokens@[i as int].start as int),
                self.tokens@[i as int].start as int,
            ),
    {
        proof {
            reveal(Compiler::inner_inv);
        }
        let start = self.tokens[i].start;
        indent_at(self.source, start)
    }

    /// Appends an instruction without operands.
    fn emit_op(&mut self, op: OpCode)
        requires
            old(self).inv(),
            spec_operand_width(op) == 0,
        ensures
            final(self).inv(),
            old(self).code_step(final(self)),
            final(self).chunk.code@ == old(self).chunk.code@.push(opcode_byte(op)),
            keeps(old(self).chunk.code@, final(self).chunk.code@),
            old(self).extends(final(self)),
    {
        proof {
            reveal(Compiler::inner_inv);
            lemma_emit(self.chunk.code@, op, seq![]);
            lemma_instruction_whole(op, seq![]);
            lemma_instruction_jumps(op, seq![]);
            lemma_extends_append(self.chunk.code@, seq![opcode_byte(op)] + seq![]);
            assert(self.chunk.code@ + (seq![opcode_byte(op)] + seq![]) =~= self.chunk.code@.push(opcode_byte(op)));
            lemma_breaks_kept(self.loop_stack@, self.chunk.code@, self.chunk.code@.push(opcode_byte(op)));
        }
        self.chunk.code.push(op.to_byte());
        self.peak = Ghost(raised(self.peak@, self.chunk.code@.len()));
    }

    /// Appends an instruction with a one-byte operand.
    fn emit_op_arg(&mut self, op: OpCode, arg: u8)
        requires
            old(self).inv(),
            spec_operand_width(op) == 1,
        ensures
            final(self).inv(),
            old(self).code_step(final(self)),
            final(self).chunk.code@ == old(self).chunk.code@.push(opcode_byte(op)).push(arg),
            keeps(old(self).chunk.code@, final(self).chunk.code@),
            old(self).extends(final(self)),
    {
        proof {
            reveal(Compiler::inner_inv);
            lemma_emit(self.chunk.code@, op, seq![arg]);
            lemma_instruction_whole(op, seq![arg]);
            lemma_instruction_jumps(op, seq![arg]);
            lemma_extends_append(self.chunk.code@, seq![opcode_byte(op)] + seq![arg]);
            assert(self.chunk.code@ + (seq![opcode_byte(op)] + seq![arg]) =~= self.chunk.code@.push(opcode_byte(op)).push(arg));
            lemma_breaks_kept(self.loop_stack@, self.chunk.code@, self.chunk.code@.push(opcode_byte(op)).push(arg));
        }
        self.chunk.code.push(op.to_byte());
        self.chunk.code.push(arg);
        self.peak = Ghost(raised(self.peak@, self.chunk.code@.len()));
    }

    /// Adds a value to the constant pool and gives its index.
    fn add_constant(&mut self, value: Constant) -> (index: usize)
        requires
            old(self).inv(),
            constant_sound(value),
        ensures
            final(self).inv(),
            final(self).chunk.code == old(self).chunk.code,
            final(self).chunk.constants@ == old(self).chunk.constants@.push(value),
            index == old(self).chunk.constants@.len(),
            final(self).tokens == old(self).tokens,
            final(self).kinds == old(self).kinds,
            final(self).source == old(self).source,
            final(self).pos == old(self).pos,
            final(self).had_error == old(self).had_error,
            final(self).list_comp_counter == old(self).list_comp_counter,
            final(self).loop_stack == old(self).loop_stack,
            final(self).current_indent == old(self).current_indent,
            final(self).function_depth == old(self).function_depth,
            final(self).scopes == old(self).scopes,
            final(self).peak == old(self).peak,
    {
        proof {
            reveal(Compiler::inner_inv);
        }
        self.chunk.constants.push(value);
        self.chunk.constants.len() - 1
    }

    /// Adds a constant and emits the instruction that pushes it.
    fn emit_constant(&mut self, value: Constant)
        requires
            old(self).inv(),
            constant_sound(value),
        ensures
            old(self).extends(final(self)),
            final(self).inv(),
            old(self).follows(final(self)),
            final(self).pos == old(self).pos,
            final(self).loop_stack == old(self).loop_stack,
            final(self).list_comp_counter == old(self).list_comp_counter,
            final(self).chunk.constants@ == old(self).chunk.constants@.push(value),
            final(self).chunk.code@ == old(self).chunk.code@.push(opcode_byte(OpCode::OpConstant)).push(
                (old(self).chunk.constants@.len() % 256) as u8,
            ),
            final(self).had_error == old(self).had_error,
            final(self).scopes == old(self).scopes,
    {
        let index = self.add_constant(value);
        self.emit_op_arg(OpCode::OpConstant, (index % 256) as u8);
    }

    /// Emits the instruction that pushes nil.
    fn emit_nil(&mut self)
        requires
            old(self).inv(),
        ensures
            old(self).extends(final(self)),
            final(self).inv(),
            old(self).follows(final(self)),
            final(self).pos == old(self).pos,
            final(self).loop_stack == old(self).loop_stack,
            final(self).list_comp_counter == old(self).list_comp_counter,
            final(self).chunk.constants@ == old(self).chunk.constants@.push(Constant::Nil),
            final(self).chunk.code@ == old(self).chunk.code@.push(opcode_byte(OpCode::OpConstant)).push(
                (old(self).chunk.constants@.len() % 256) as u8,
            ),
            final(self).had_error == old(self).had_error,
            final(self).scopes == old(self).scopes,
    {
        self.emit_constant(Constant::Nil);
    }

    /// Emits a forward jump with a placeholder offset and gives the position
    /// of the offset.
    fn emit_jump(&mut self, op: OpCode) -> (operand_index: usize)
        requires
            old(self).inv(),
            spec_operand_width(op) == 2,
            op != OpCode::OpLoop,
        ensures
            final(self).inv(),
            old(self).code_step(final(self)),
            final(self).chunk.code@ == old(self).chunk.code@ + seq![opcode_byte(op), 0u8, 0u8],
            operand_index == old(self).chunk.code@.len() + 1,
            keeps(old(self).chunk.code@, final(self).chunk.code@),
            jump_at(final(self).chunk.code@, operand_index as int),
            old(self).extends(final(self)),
    {
        proof {
            reveal(Compiler::inner_inv);
            lemma_emit(self.chunk.code@, op, seq![0u8, 0u8]);
            lemma_instruction_whole(op, seq![0u8, 0u8]);
            lemma_instruction_jumps(op, seq![0u8, 0u8]);
            lemma_extends_append(self.chunk.code@, seq![opcode_byte(op)] + seq![0u8, 0u8]);
            assert(self.chunk.code@ + (seq![opcode_byte(op)] + seq![0u8, 0u8]) =~= self.chunk.code@ + seq![opcode_byte(op), 0u8, 0u8]);
            lemma_breaks_kept(self.loop_stack@, self.chunk.code@, self.chunk.code@ + seq![opcode_byte(op), 0u8, 0u8]);
        }
        let operand_index = emit_jump(&mut self.chunk.code, op);
        self.peak = Ghost(raised(self.peak@, self.chunk.code@.len()));
        operand_index
    }

    /// Makes the forward jump whose offset is at `operand_index` land on the
    /// end of the code.
    fn patch_jump(&mut self, operand_index: usize)
        requires
            old(self).inv(),
            jump_at(old(self).chunk.code@, operand_index as int),
        ensures
            final(self).inv(),
            old(self).code_step(final(self)),
            final(self).chunk.code@.len() == old(self).chunk.code@.len(),
            keeps(old(self).chunk.code@, final(self).chunk.code@),
            forall|k: int|
                0 <= k < old(self).chunk.code@.len() && k != operand_index && k != operand_index + 1
                    ==> final(self).chunk.code@[k] == old(self).chunk.code@[k],
            forall|s: nat|
                s <= old(self).chunk.code@.len() && jumps_above(old(self).chunk.code@, s) && final(self).peak@ < 65536
                    ==> #[trigger] jumps_above(final(self).chunk.code@, s),
    {
        self.patch_jump_to_end(operand_index);
    }

    /// Patches the forward jump whose offset is at `operand_index` to lead
    /// to the end of the code, and says where it then leads.
    fn patch_jump_to_end(&mut self, operand_index: usize)
        requires
            old(self).inv(),
            jump_at(old(self).chunk.code@, operand_index as int),
        ensures
            final(self).inv(),
            old(self).code_step(final(self)),
            final(self).chunk.code@.len() == old(self).chunk.code@.len(),
            keeps(old(self).chunk.code@, final(self).chunk.code@),
            forall|k: int|
                0 <= k < old(self).chunk.code@.len() && k != operand_index && k != operand_index + 1
                    ==> final(self).chunk.code@[k] == old(self).chunk.code@[k],
            forall|s: nat|
                s <= old(self).chunk.code@.len() && jumps_above(old(self).chunk.code@, s) && final(self).peak@ < 65536
                    ==> #[trigger] jumps_above(final(self).chunk.code@, s),
            old(self).chunk.code@.len() - (operand_index + 2) < 65536 ==> lands_at_end(
                final(self).chunk.code@,
                operand_index as int,
            ),
    {
        proof {
            reveal(Compiler::inner_inv);
        }
        let ghost before = self.chunk.code@;
        patch_jump(&mut self.chunk.code, operand_index);
        proof {
            reveal(lands_at_end);
            let x = self.chunk.code@[operand_index as int];
            let y = self.chunk.code@[operand_index + 1];
            assert(self.chunk.code@ =~= before.update(operand_index as int, x).update(operand_index + 1, y));
            lemma_patch_keeps(before, operand_index as int, x, y);
            lemma_breaks_kept(self.loop_stack@, before, self.chunk.code@);
            if self.peak@ < 65536 {
                lemma_patch_jumps(before, operand_index as int, x, y);
                assert forall|s: nat| s <= before.len() && jumps_above(before, s) implies #[trigger] jumps_above(self.chunk.code@, s) by {
                    lemma_above_patch(before, operand_index as int, x, y, s);
                }
            }
        }
    }

    /// Emits a jump back to `loop_start`.
    fn emit_loop(&mut self, loop_start: usize)
        requires
            old(self).inv(),
            loop_start <= old(self).chunk.code@.len(),
            is_boundary(old(self).chunk.code@, loop_start as nat),
        ensures
            final(self).inv(),
            old(self).code_step(final(self)),
            final(self).chunk.code@.len() == old(self).chunk.code@.len() + 3,
            final(self).chunk.code@[old(self).chunk.code@.len() as int] == opcode_byte(OpCode::OpLoop),
            keeps(old(self).chunk.code@, final(self).chunk.code@),
            forall|k: int| 0 <= k < old(self).chunk.code@.len() ==> final(self).chunk.code@[k] == old(self).chunk.code@[k],
            forall|s: nat|
                s <= loop_start && jumps_above(old(self).chunk.code@, s) && final(self).peak@ < 65536
                    ==> #[trigger] jumps_above(final(self).chunk.code@, s),
    {
        proof {
            reveal(Compiler::inner_inv);
        }
        let ghost before = self.chunk.code@;
        emit_loop(&mut self.chunk.code, loop_start);
        proof {
            let hi = self.chunk.code@[before.len() + 1int];
            let lo = self.chunk.code@[before.len() + 2int];
            lemma_instruction_whole(OpCode::OpLoop, seq![hi, lo]);
            lemma_append_keeps(before, seq![opcode_byte(OpCode::OpLoop)] + seq![hi, lo]);
            assert(self.chunk.code@ =~= before + (seq![opcode_byte(OpCode::OpLoop)] + seq![hi, lo]));
            assert(self.chunk.code@ =~= before + seq![opcode_byte(OpCode::OpLoop), hi, lo]);
            lemma_breaks_kept(self.loop_stack@, before, self.chunk.code@);
        }
        self.peak = Ghost(raised(self.peak@, self.chunk.code@.len()));
        proof {
            let hi = self.chunk.code@[before.len() + 1int];
            let lo = self.chunk.code@[before.len() + 2int];
            if self.peak@ < 65536 {
                lemma_loop_jumps(before, hi, lo, loop_start as nat);
                assert forall|s: nat| s <= loop_start && jumps_above(before, s) implies #[trigger] jumps_above(self.chunk.code@, s) by {
                    lemma_above_loop(before, hi, lo, loop_start as nat, s);
                }
            }
        }
    }

    /// Emits the read of a variable whose name is the constant `name_idx`.
    fn emit_get_variable(&mut self, name_idx: usize, target: VariableTarget)
        requires
            old(self).inv(),
        ensures
            final(self).inv(),
            old(self).code_step(final(self)),
            final(self).chunk.code@.len() == old(self).chunk.code@.len() + 2,
            target == VariableTarget::Global ==> final(self).chunk.code@ == old(self).chunk.code@ + seq![
                opcode_byte(OpCode::OpGetGlobal),
                operand_byte(name_idx as nat),
            ],
            keeps(old(self).chunk.code@, final(self).chunk.code@),
            old(self).extends(final(self)),
    {
        proof {
            reveal(Compiler::inner_inv);
        }
        let ghost before = self.chunk.code@;
        emit_get_variable(&mut self.chunk.code, name_idx, target);
        self.peak = Ghost(raised(self.peak@, self.chunk.code@.len()));
        proof {
            let op = opcode_of_byte(self.chunk.code@[before.len() as int]);
            let arg = self.chunk.code@[before.len() + 1int];
            lemma_opcode_byte_roundtrip(OpCode::OpGetLocal);
            lemma_opcode_byte_roundtrip(OpCode::OpGetUpvalue);
            lemma_opcode_byte_roundtrip(OpCode::OpGetGlobal);
            lemma_emit(before, op, seq![arg]);
            lemma_instruction_whole(op, seq![arg]);
            lemma_instruction_jumps(op, seq![arg]);
            lemma_extends_append(before, seq![opcode_byte(op)] + seq![arg]);
            assert(self.chunk.code@ =~= before + (seq![opcode_byte(op)] + seq![arg]));
            lemma_breaks_kept(self.loop_stack@, before, self.chunk.code@);
        }
    }

    /// Emits the write of a variable whose name is the constant `name_idx`.
    fn emit_set_variable(&mut self, name_idx: usize, target: VariableTarget)
        requires
            old(self).inv(),
        ensures
            final(self).inv(),
            old(self).code_step(final(self)),
            final(self).chunk.code@.len() == old(self).chunk.code@.len() + 2,
            target == VariableTarget::Global ==> final(self).chunk.code@ == old(self).chunk.code@ + seq![
                opcode_byte(OpCode::OpSetGlobal),
                operand_byte(name_idx as nat),
            ],
            keeps(old(self).chunk.code@, final(self).chunk.code@),
            old(self).extends(final(self)),
    {
        proof {
            reveal(Compiler::inner_inv);
        }
        let ghost before = self.chunk.code@;
        emit_set_variable(&mut self.chunk.code, name_idx, target);
        self.peak = Ghost(raised(self.peak@, self.chunk.code@.len()));
        proof {
            let op = opcode_of_byte(self.chunk.code@[before.len() as int]);
            let arg = self.chunk.code@[before.len() + 1int];
            lemma_opcode_byte_roundtrip(OpCode::OpSetLocal);
            lemma_opcode_byte_roundtrip(OpCode::OpSetUpvalue);
            lemma_opcode_byte_roundtrip(OpCode::OpSetGlobal);
            lemma_emit(before, op, seq![arg]);
            lemma_instruction_whole(op, seq![arg]);
            lemma_instruction_jumps(op, seq![arg]);
            lemma_extends_append(before, seq![opcode_byte(op)] + seq![arg]);
            assert(self.chunk.code@ =~= before + (seq![opcode_byte(op)] + seq![arg]));
            lemma_breaks_kept(self.loop_stack@, before, self.chunk.code@);
        }
    }

    /// Emits the definition of a variable whose name is the constant `name_idx`.
    fn emit_define_variable(&mut self, name_idx: usize, target: VariableTarget)
        requires
            old(self).inv(),
        ensures
            final(self).inv(),
            old(self).code_step(final(self)),
            final(self).chunk.code@.len() >= old(self).chunk.code@.len(),
            target == VariableTarget::Global ==> final(self).chunk.code@ == old(self).chunk.code@ + seq![
                opcode_byte(OpCode::OpDefineGlobal),
                operand_byte(name_idx as nat),
            ],
            keeps(old(self).chunk.code@, final(self).chunk.code@),
            old(self).extends(final(self)),
    {
        proof {
            reveal(Compiler::inner_inv);
        }
        let ghost before = self.chunk.code@;
        emit_define_variable(&mut self.chunk.code, name_idx, target);
        self.peak = Ghost(raised(self.peak@, self.chunk.code@.len()));
        proof {
            let op = opcode_of_byte(self.chunk.code@[before.len() as int]);
            let arg = self.chunk.code@[before.len() + 1int];
            let first = before + (seq![opcode_byte(op)] + seq![arg]);
            lemma_opcode_byte_roundtrip(OpCode::OpSetLocal);
            lemma_opcode_byte_roundtrip(OpCode::OpSetUpvalue);
            lemma_opcode_byte_roundtrip(OpCode::OpDefineGlobal);
            lemma_opcode_byte_roundtrip(OpCode::OpPop);
            lemma_emit(before, op, seq![arg]);
            lemma_instruction_whole(op, seq![arg]);
            lemma_instruction_jumps(op, seq![arg]);
            lemma_extends_append(before, seq![opcode_byte(op)] + seq![arg]);
            match target {
                VariableTarget::Global => {
                    assert(self.chunk.code@ =~= first);
                },
                _ => {
                    lemma_emit(first, OpCode::OpPop, seq![]);
                    lemma_instruction_whole(OpCode::OpPop, seq![]);
                    lemma_instruction_jumps(OpCode::OpPop, seq![]);
                    lemma_extends_append(first, seq![opcode_byte(OpCode::OpPop)] + seq![]);
                    assert(self.chunk.code@ =~= first + (seq![opcode_byte(OpCode::OpPop)] + seq![]));
                },
            }
            lemma_breaks_kept(self.loop_stack@, before, self.chunk.code@);
        }
    }

    /// The indices of the string constants equal to `name`.
    fn constant_indices_for_string(&self, name: &String) -> (indices: Vec<usize>)
        ensures
            forall|k: int|
                0 <= k < indices@.len() ==> #[trigger] indices@[k] < self.chunk.constants@.len()
                    && is_string_constant(self.chunk.constants@[indices@[k] as int], name@),
            forall|i: int|
                0 <= i < self.chunk.constants@.len() && is_string_constant(#[trigger] self.chunk.constants@[i], name@)
                    ==> indices@.contains(i as usize),
    {
        let mut indices: Vec<usize> = Vec::new();
        let mut i: usize = 0;
        while i < self.chunk.constants.len()
            invariant
                i <= self.chunk.constants@.len(),
                forall|k: int|
                    0 <= k < indices@.len() ==> #[trigger] indices@[k] < i
                        && is_string_constant(self.chunk.constants@[indices@[k] as int], name@),
                forall|m: int|
                    0 <= m < i && is_string_constant(#[trigger] self.chunk.constants@[m], name@)
                        ==> indices@.contains(m as usize),
            decreases self.chunk.constants@.len() - i,
        {
            let ghost before = indices@;
            match &self.chunk.constants[i] {
                Constant::String(existing) => {
                    if *existing == *name {
                        indices.push(i);
                        assert(indices@.last() == i);
                    }
                },
                _ => {},
            }
            assert forall|x: usize| before.contains(x) implies indices@.contains(x) by {
                let k = choose|k: int| 0 <= k < before.len() && before[k] == x;
                assert(indices@[k] == x);
            }
            i += 1;
        }
        indices
    }

    /// Rewrites the reads and writes of the globals named by `target_indices`
    /// in `code` into reads and writes of the local `local_slot`.
    fn rewrite_to_local(code: &mut Vec<u8>, target_indices: &Vec<usize>, local_slot: usize)
        requires
            is_whole(old(code)@),
        ensures
            is_whole(final(code)@),
            jumps_land(old(code)@) ==> jumps_land(final(code)@),
            final(code)@.len() == old(code)@.len(),
            target_indices@.len() == 0 ==> final(code)@ == old(code)@,
            target_indices@.len() > 0 ==> final(code)@ == rewritten_from(
                old(code)@,
                target_indices@,
                operand_byte(local_slot as nat),
                0,
            ),
    {
        proof {
            lemma_whole_well_formed(code@, 0);
            lemma_rewrite_whole(code@, target_indices@, (local_slot % 256) as u8, 0);
            if jumps_land(code@) {
                lemma_rewrite_jumps(code@, target_indices@, (local_slot % 256) as u8);
            }
        }
        rewrite_globals_to_local(code, target_indices.as_slice(), local_slot);
    }

    /// Moves the code from `start` on out of the chunk.
    fn take_code_from(&mut self, start: usize) -> (taken: Vec<u8>)
        requires
            old(self).inv(),
            start <= old(self).chunk.code@.len(),
            old(self).breaks_below(start as int),
            is_boundary(old(self).chunk.code@, start as nat),
            old(self).peak@ < 65536 ==> no_jump_crosses(old(self).chunk.code@, start as nat),
        ensures
            old(self).peak@ < 65536 ==> jumps_land(taken@),
            final(self).peak == old(self).peak,
            forall|s: nat| s <= start && jumps_above(old(self).chunk.code@, s) ==> #[trigger] jumps_above(final(self).chunk.code@, s),
            final(self).inv(),
            final(self).chunk.code@ == old(self).chunk.code@.subrange(0, start as int),
            taken@ == old(self).chunk.code@.subrange(start as int, old(self).chunk.code@.len() as int),
            is_whole(taken@),
            forall|p: nat| p <= start && #[trigger] is_boundary(old(self).chunk.code@, p) ==> is_boundary(final(self).chunk.code@, p),
            final(self).chunk.constants == old(self).chunk.constants,
            final(self).tokens == old(self).tokens,
            final(self).kinds == old(self).kinds,
            final(self).source == old(self).source,
            final(self).pos == old(self).pos,
            final(self).had_error == old(self).had_error,
            final(self).list_comp_counter == old(self).list_comp_counter,
            final(self).loop_stack == old(self).loop_stack,
            final(self).current_indent == old(self).current_indent,
            final(self).function_depth == old(self).function_depth,
            final(self).scopes == old(self).scopes,
    {
        proof {
            reveal(Compiler::inner_inv);
            lemma_split(self.chunk.code@, start as nat);
            if self.peak@ < 65536 {
                lemma_cut_jumps(self.chunk.code@, start as nat);
            }
            assert forall|s: nat| s <= start && jumps_above(self.chunk.code@, s) implies #[trigger] jumps_above(self.chunk.code@.subrange(0, start as int), s) by {
                lemma_above_prefix(self.chunk.code@, s, start as nat);
            }
        }
        let ghost before = self.chunk.code@;
        let taken = self.chunk.code.split_off(start);
        proof {
            let loops = self.loop_stack@;
            assert forall|k: int, j: int|
                0 <= k < loops.len() && 0 <= j < loops[k].break_jumps@.len() implies jump_at(
                self.chunk.code@,
                #[trigger] loops[k].break_jumps@[j] as int,
            ) by {
                let b = loops[k].break_jumps@[j] as int;
                assert(jump_at(before, b));
                assert(is_boundary(before, (b - 1) as nat));
            }
        }
        taken
    }

    /// Appends `code` to the chunk.
    #[verifier::rlimit(80)]
    fn append_code(&mut self, code: &mut Vec<u8>)
        requires
            old(self).inv(),
            is_whole(old(code)@),
            raised(old(self).peak@, old(self).chunk.code@.len() + old(code)@.len()) < 65536 ==> jumps_land(old(code)@),
        ensures
            final(self).inv(),
            old(self).code_step(final(self)),
            final(self).chunk.code@ == old(self).chunk.code@ + old(code)@,
            keeps(old(self).chunk.code@, final(self).chunk.code@),
            old(self).extends(final(self)),
    {
        proof {
            reveal(Compiler::inner_inv);
            lemma_append_keeps(self.chunk.code@, code@);
            lemma_breaks_kept(self.loop_stack@, self.chunk.code@, self.chunk.code@ + code@);
            if raised(self.peak@, self.chunk.code@.len() + code@.len()) < 65536 {
                lemma_append_jumps(self.chunk.code@, code@);
                lemma_extends_append(self.chunk.code@, code@);
            }
        }
        self.chunk.code.append(code);
        self.peak = Ghost(raised(self.peak@, self.chunk.code@.len()));
    }

    // ---- statements ----

    /// Parses one statement.
    fn parse_statement(&mut self)
        requires
            old(self).inv(),
        ensures
            final(self).inv(),
            old(self).follows(final(self)),
            old(self).pos < old(self).tokens@.len() ==> final(self).pos > old(self).pos,
            old(self).pos < old(self).tokens@.len() && old(self).kind_at(old(self).pos as int)
                == TokenKind::Invalid ==> final(self).had_error,
            old(self).pos < old(self).tokens@.len() && old(self).kind_at(old(self).pos as int)
                == TokenKind::Return && old(self).function_depth == 0 ==> final(self).had_error,
            old(self).pos < old(self).tokens@.len() && old(self).kind_at(old(self).pos as int)
                == TokenKind::Def && !final(self).had_error ==> final(self).pos >= old(self).pos + 6,
            expression_refused(old(self).tokens@, old(self).pos as int) ==> final(self).had_error,
            old(self).pos < old(self).tokens@.len() && old(self).kind_at(old(self).pos as int)
                == TokenKind::Semicolon ==> final(self).pos == old(self).pos + 1 && final(self).chunk
                == old(self).chunk && final(self).had_error == old(self).had_error,
            forall|n: nat|
                #[trigger] operator_chain(old(self).tokens@, old(self).pos as int, n) && chain_ends(
                    old(self).tokens@,
                    old(self).pos as int,
                    n,
                ) ==> {
                    &&& final(self).had_error == old(self).had_error
                    &&& final(self).pos == old(self).pos + 2 * n + 1
                    &&& final(self).chunk.code@ == old(self).chunk.code@ + chain_code(
                        old(self).tokens@,
                        old(self).pos as int,
                        n,
                        old(self).chunk.constants@.len(),
                    ) + seq![opcode_byte(OpCode::OpPop)]
                    &&& final(self).chunk.constants@ == old(self).chunk.constants@ + chain_constants(
                        old(self).tokens@,
                        old(self).pos as int,
                        n,
                    )
                },
        decreases old(self).remaining(), 29int,
    {
        if self.pos >= self.tokens.len() {
            return ;
        }
        proof {
            self.lemma_kind(self.pos as int);
            if self.pos + 1 < self.tokens@.len() {
                self.lemma_kind(self.pos + 1);
            }
            assert forall|n: nat| #[trigger] operator_chain(self.tokens@, self.pos as int, n) implies literal_constant(
                self.tokens@[self.pos as int].token,
            ) is Some by {
                lemma_chain_prefix(self.tokens@, self.pos as int, n, 0);
            }
        }
        let indent = self.indent_of(self.pos);
        self.set_indent(indent);
        let kind = match self.peek_kind() {
            Some(k) => k,
            None => return ,
        };
        match kind {
            TokenKind::Invalid => {
                self.advance();
                self.fail();
            },
            TokenKind::Print => self.parse_print_statement(),
            TokenKind::For => self.parse_for_statement(),
            TokenKind::While => self.parse_while_statement(),
            TokenKind::If => self.parse_if_statement(),
            TokenKind::Def => self.parse_function_statement(),
            TokenKind::Return => self.parse_return_statement(),
            TokenKind::Break => self.parse_break_statement(),
            TokenKind::Semicolon => self.advance(),
            TokenKind::Unknown => {
                self.advance();
                self.fail();
            },
            TokenKind::Identifier => {
                match self.assignment_ahead() {
                    Some(assignment) => self.parse_assignment_statement(assignment),
                    None => self.parse_expression_statement(true),
                }
            },
            _ => self.parse_expression_statement(true),
        }
    }

    /// Parses the body of a compound statement whose colon ends at byte
    /// `colon_end`: a statement on the same line, or the following lines that
    /// are indented deeper than `parent_indent`. Tells whether the body holds
    /// a statement (for a body on the same line: whether no error occurred).
    fn parse_suite(&mut self, parent_indent: usize, colon_end: usize) -> (had_statement: bool)
        requires
            old(self).inv(),
            old(self).pos < old(self).tokens@.len() ==> colon_end <= old(self).tokens@[old(
                self,
            ).pos as int].start,
        ensures
            final(self).inv(),
            old(self).follows(final(self)),
            had_statement ==> final(self).pos > old(self).pos,
            !had_statement ==> final(self).had_error || old(self).pos >= old(self).tokens@.len(),
            old(self).pos < old(self).tokens@.len() && !(exists|k: int|
                colon_end <= k < old(self).tokens@[old(self).pos as int].start && old(self).source.spec_bytes()[k]
                    == 10) ==> (had_statement <==> !final(self).had_error),
            forall|n: nat|
                old(self).pos < old(self).tokens@.len() && !(exists|k: int|
                    colon_end <= k < old(self).tokens@[old(self).pos as int].start
                        && old(self).source.spec_bytes()[k] == 10) && #[trigger] operator_chain(
                    old(self).tokens@,
                    old(self).pos as int,
                    n,
                ) && chain_ends(old(self).tokens@, old(self).pos as int, n) ==> {
                    &&& final(self).had_error == old(self).had_error
                    &&& final(self).pos == old(self).pos + 2 * n + 1
                    &&& final(self).chunk.code@ == old(self).chunk.code@ + chain_code(
                        old(self).tokens@,
                        old(self).pos as int,
                        n,
                        old(self).chunk.constants@.len(),
                    ) + seq![opcode_byte(OpCode::OpPop)]
                    &&& final(self).chunk.constants@ == old(self).chunk.constants@ + chain_constants(
                        old(self).tokens@,
                        old(self).pos as int,
                        n,
                    )
                },
        decreases old(self).remaining(), 30int,
    {
        proof {
            if self.pos < self.tokens@.len() {
                self.lemma_kind(self.pos as int);
                assert forall|n: nat| #[trigger] operator_chain(self.tokens@, self.pos as int, n) implies literal_constant(
                    self.tokens@[self.pos as int].token,
                ) is Some by {
                    lemma_chain_prefix(self.tokens@, self.pos as int, n, 0);
                }
            }
        }
        if self.pos >= self.tokens.len() {
            return false;
        }
        let indent = self.indent_of(self.pos);
        let inline = !self.on_new_line(colon_end);
        if inline {
            if self.peek_valid() {
                self.parse_statement();
                !self.had_error
            } else {
                self.advance();
                self.fail();
                false
            }
        } else {
            if indent <= parent_indent {
                self.fail();
                return false;
            }
            let mut had_statement = false;
            while self.pos < self.tokens.len()
                invariant_except_break
                    !had_statement ==> self.pos == old(self).pos,
                invariant
                    self.inv(),
                    old(self).follows(self),
                    had_statement ==> self.pos > old(self).pos,
                    old(self).pos < old(self).tokens@.len(),
                    indent > parent_indent,
                    indent == indent_width(
                        old(self).source.spec_bytes(),
                        line_start(old(self).source.spec_bytes(), old(self).tokens@[old(self).pos as int].start as int),
                        old(self).tokens@[old(self).pos as int].start as int,
                    ),
                ensures
                    !had_statement ==> self.had_error,
                decreases self.remaining(),
            {
                if self.indent_of(self.pos) <= parent_indent {
                    break;
                }
                if self.peek_valid() {
                    self.parse_statement();
                    had_statement = true;
                    if self.had_error {
                        break;
                    }
                } else {
                    self.advance();
                    self.fail();
                    break;
                }
                if self.had_error {
                    break;
                }
            }
            had_statement
        }
    }

    /// Parses `def name(params): body`.
    #[verifier::rlimit(80)]
    fn parse_function_statement(&mut self)
        requires
            old(self).inv(),
            old(self).pos < old(self).tokens@.len(),
        ensures
            final(self).inv(),
            old(self).follows(final(self)),
            final(self).pos > old(self).pos,
            forall|n: nat|
                !old(self).had_error && old(self).pos + 5 < old(self).tokens@.len() && old(self).tokens@[old(
                    self,
                ).pos + 1].token is Identifier && old(self).kind_at(old(self).pos + 2) == TokenKind::LParen
                    && old(self).kind_at(old(self).pos + 3) == TokenKind::RParen && old(self).kind_at(
                    old(self).pos + 4,
                ) == TokenKind::Colon && !(exists|k: int|
                    old(self).tokens@[old(self).pos + 4].end <= k < old(self).tokens@[old(self).pos + 5].start
                        && old(self).source.spec_bytes()[k] == 10) && #[trigger] operator_chain(
                    old(self).tokens@,
                    old(self).pos + 5,
                    n,
                ) && chain_ends(old(self).tokens@, old(self).pos + 5, n) ==> {
                    &&& !final(self).had_error
                    &&& final(self).chunk.constants@[old(self).chunk.constants@.len() as int] matches Constant::Function(
                        proto,
                    ) && {
                        &&& proto.arity == 0
                        &&& proto.chunk.code@ == chain_code(old(self).tokens@, old(self).pos + 5, n, 0) + seq![
                            opcode_byte(OpCode::OpPop),
                            opcode_byte(OpCode::OpReturn),
                        ]
                        &&& proto.chunk.constants@ == chain_constants(old(self).tokens@, old(self).pos + 5, n)
                    }
                },
            forall|k: nat, n: nat|
                !old(self).had_error && #[trigger] inline_chain_def(
                    old(self).tokens@,
                    old(self).kinds@,
                    old(self).source.spec_bytes(),
                    old(self).pos as int,
                    k,
                    n,
                ) ==> !final(self).had_error,
            !final(self).had_error ==> {
                let k = old(self).chunk.constants@.len();
                &&& final(self).pos >= old(self).pos + 6
                &&& final(self).chunk.code@ == old(self).chunk.code@ + seq![
                    opcode_byte(OpCode::OpMakeFunction),
                    (k % 256) as u8,
                    opcode_byte(OpCode::OpDefineGlobal),
                    ((k + 1) % 256) as u8,
                ]
                &&& final(self).chunk.constants@.len() == k + 2
                &&& final(self).chunk.constants@.subrange(0, k as int) == old(self).chunk.constants@
                &&& final(self).chunk.constants@[k as int] matches Constant::Function(proto) && {
                    &&& old(self).tokens@[old(self).pos + 1].token == Token::Identifier(proto.name)
                    &&& final(self).chunk.constants@[k + 1int] == Constant::String(proto.name)
                    &&& old(self).kind_at(old(self).pos + 2) == TokenKind::LParen
                    &&& param_list(old(self).kinds@, old(self).pos + 3, proto.arity as nat)
                    &&& proto.chunk.code@.len() > 0
                    &&& proto.chunk.code@.last() == opcode_byte(OpCode::OpReturn)
                    &&& chunk_sound(proto.chunk)
                }
            },
        decreases old(self).remaining(), 28int,
    {
        proof {
            self.lemma_inv();
        }
        self.advance();
        let name = match self.next_identifier() {
            Some(n) => n,
            None => {
                self.fail();
                return ;
            },
        };
        if !self.next_is(TokenKind::LParen) {
            self.fail();
            return ;
        }
        let mut parameters: Vec<String> = Vec::new();
        let ghost params_start = self.pos as int;
        let ghost src = old(self).source.spec_bytes();
        let ghost hyp = !old(self).had_error && exists|k: nat, n: nat| #[trigger] inline_chain_def(
            old(self).tokens@,
            old(self).kinds@,
            src,
            old(self).pos as int,
            k,
            n,
        );
        let ghost (k0, n0): (nat, nat) = choose|k: nat, n: nat| #[trigger] inline_chain_def(
            old(self).tokens@,
            old(self).kinds@,
            src,
            old(self).pos as int,
            k,
            n,
        );
        proof {
            assert forall|k: nat, n: nat|
                !old(self).had_error && #[trigger] inline_chain_def(
                    old(self).tokens@,
                    old(self).kinds@,
                    old(self).source.spec_bytes(),
                    old(self).pos as int,
                    k,
                    n,
                ) implies hyp by {}
            if hyp {
                assert(params_start == old(self).pos + 3);
                assert(!self.had_error);
                if k0 > 0 {
                    assert(old(self).kinds@[params_start + 2 * 0] == TokenKind::Identifier);
                }
            }
        }
        if !self.peek_is(TokenKind::RParen) {
            let ghost entry = *self;
            loop
                invariant_except_break
                    self.pos == entry.pos + 2 * parameters@.len(),
                    hyp ==> parameters@.len() < k0,
                    forall|j: int| 0 <= j < parameters@.len() ==> #[trigger] self.kinds@[params_start + 2 * j + 1]
                        == TokenKind::Comma,
                invariant
                    self.inv(),
                    entry.inv(),
                    entry.pos_step(self),
                    self.pos >= entry.pos,
                    entry.pos > old(self).pos,
                    old(self).follows(&entry),
                    entry.function_depth <= old(self).pos,
                    params_start == entry.pos,
                    !(entry.pos < entry.tokens@.len() && entry.kind_at(entry.pos as int) == TokenKind::RParen),
                    old(self).pos + 5 < old(self).tokens@.len() ==> entry.pos == old(self).pos + 3,
                    forall|j: int| 0 <= j < parameters@.len() ==> #[trigger] self.kinds@[params_start + 2 * j]
                        == TokenKind::Identifier,
                    hyp ==> inline_chain_def(old(self).tokens@, old(self).kinds@, src, old(self).pos as int, k0, n0)
                        && params_start == old(self).pos + 3 && !self.had_error && k0 > 0,
                    self.kinds@ == old(self).kinds@,
                    self.tokens@ == old(self).tokens@,
                    forall|k: nat, n: nat|
                        !old(self).had_error && #[trigger] inline_chain_def(
                            old(self).tokens@,
                            old(self).kinds@,
                            old(self).source.spec_bytes(),
                            old(self).pos as int,
                            k,
                            n,
                        ) ==> hyp,
                ensures
                    hyp ==> parameters@.len() == k0 && !self.had_error,
                    parameters@.len() > 0,
                    self.pos == entry.pos + 2 * parameters@.len() - 1,
                    self.pos < self.tokens@.len() && self.kind_at(self.pos as int) == TokenKind::RParen,
                    forall|j: int| 0 <= j < parameters@.len() ==> #[trigger] self.kinds@[params_start + 2 * j]
                        == TokenKind::Identifier,
                    forall|j: int| 0 <= j < parameters@.len() - 1 ==> #[trigger] self.kinds@[params_start + 2 * j + 1]
                        == TokenKind::Comma,
                decreases self.remaining(),
            {
                proof {
                    if self.pos < self.tokens@.len() {
                        self.lemma_kind(self.pos as int);
                    }
                }
                match self.next_identifier() {
                    Some(param) => parameters.push(param),
                    None => {
                        self.fail();
                        return ;
                    },
                }
                if self.peek_is(TokenKind::Comma) {
                    self.advance();
                } else if self.peek_is(TokenKind::RParen) {
                    break;
                } else {
                    self.fail();
                    return ;
                }
            }
        }
        proof {
            if hyp {
                assert(parameters@.len() == k0);
                assert(self.pos == params_close(params_start, k0));
                assert(!self.had_error);
            }
        }
        if !self.next_is(TokenKind::RParen) {
            self.fail();
            return ;
        }
        if parameters.len() > 255 {
            self.fail();
            return ;
        }
        let colon_end = match self.take_colon() {
            Some(e) => e,
            None => {
                self.fail();
                return ;
            },
        };
        let parent_indent = self.current_indent;
        let arity = parameters.len();
        proof {
            self.lemma_inv();
        }
        let ghost outer_peak = self.peak@;
        proof {
            if hyp {
                let close = params_close(params_start, k0);
                assert(self.pos == close + 2);
                assert(colon_end == self.tokens@[close + 1].end);
                assert(!self.had_error);
            }
        }
        let (outer_chunk, outer_loops) = self.enter_function(parameters);
        proof {
            if hyp {
                assert(operator_chain(self.tokens@, self.pos as int, n0));
                assert(chain_ends(self.tokens@, self.pos as int, n0));
                assert(!(exists|b: int|
                    colon_end <= b < self.tokens@[self.pos as int].start && self.source.spec_bytes()[b] == 10));
            }
        }
        let body_had_statement = self.parse_suite(parent_indent, colon_end);
        proof {
            if hyp {
                assert(!self.had_error);
                assert(body_had_statement);
            }
        }
        if !body_had_statement && !self.had_error {
            self.fail();
        }
        if !self.had_error {
            let n = self.chunk.code.len();
            if n == 0 || self.chunk.code[n - 1] != OpCode::OpReturn.to_byte() {
                self.emit_op(OpCode::OpReturn);
            }
        }
        proof {
            self.lemma_inv();
        }
        let (function_chunk, captured_upvalues) = self.leave_function(outer_chunk, outer_loops, Ghost(outer_peak));
        self.set_indent(parent_indent);
        if self.had_error {
            return ;
        }
        let prototype = Prototype {
            name: name.clone(),
            arity,
            chunk: function_chunk,
            upvalues: captured_upvalues,
        };
        let prototype_idx = self.add_constant(Constant::Function(Box::new(prototype)));
        self.emit_op_arg(OpCode::OpMakeFunction, (prototype_idx % 256) as u8);
        let name_idx = self.add_constant(Constant::String(name));
        self.emit_op_arg(OpCode::OpDefineGlobal, (name_idx % 256) as u8);
    }

    /// Parses `return` with an optional value on the same line.
    fn parse_return_statement(&mut self)
        requires
            old(self).inv(),
            old(self).pos < old(self).tokens@.len(),
        ensures
            final(self).inv(),
            old(self).follows(final(self)),
            final(self).pos > old(self).pos,
            old(self).function_depth == 0 ==> final(self).had_error,
        decreases old(self).remaining(), 28int,
    {
        self.advance();
        if self.function_depth == 0 {
            self.fail();
            return ;
        }
        let return_end = self.previous_end();
        let mut has_expression = false;
        if self.pos < self.tokens.len() {
            if !self.on_new_line(return_end) {
                if self.peek_valid() && !self.peek_is(TokenKind::Semicolon) {
                    has_expression = true;
                }
            }
        }
        if has_expression {
            if !self.parse_expression() {
                self.fail();
                return ;
            }
        } else {
            self.emit_nil();
        }
        self.emit_op(OpCode::OpReturn);
    }

    /// Parses `print(args)`: the arguments are printed separated by spaces,
    /// then a newline.
    fn parse_print_statement(&mut self)
        requires
            old(self).inv(),
            old(self).pos < old(self).tokens@.len(),
        ensures
            final(self).inv(),
            old(self).follows(final(self)),
            final(self).pos > old(self).pos,
            forall|n: nat|
                #[trigger] closed_chain(old(self).tokens@, old(self).pos + 2, n, TokenKind::RParen) ==> {
                    &&& final(self).had_error == old(self).had_error
                    &&& final(self).pos == old(self).pos + 2 * n + 4
                    &&& final(self).chunk.code@ == old(self).chunk.code@ + chain_code(
                        old(self).tokens@,
                        old(self).pos + 2,
                        n,
                        old(self).chunk.constants@.len(),
                    ) + seq![opcode_byte(OpCode::OpPrint), opcode_byte(OpCode::OpPrintln)]
                    &&& final(self).chunk.constants@ == old(self).chunk.constants@ + chain_constants(
                        old(self).tokens@,
                        old(self).pos + 2,
                        n,
                    )
                },
            forall|n: nat, m: nat|
                #[trigger] two_chain_args(old(self).tokens@, old(self).pos + 2, n, m) ==> {
                    let k = old(self).chunk.constants@.len();
                    &&& final(self).had_error == old(self).had_error
                    &&& final(self).pos == old(self).pos + 2 * n + 2 * m + 6
                    &&& final(self).chunk.code@ == old(self).chunk.code@ + chain_code(
                        old(self).tokens@,
                        old(self).pos + 2,
                        n,
                        k,
                    ) + seq![opcode_byte(OpCode::OpPrintSpaced)] + chain_code(
                        old(self).tokens@,
                        old(self).pos + 2 * n + 4,
                        m,
                        k + n + 1,
                    ) + seq![opcode_byte(OpCode::OpPrint), opcode_byte(OpCode::OpPrintln)]
                    &&& final(self).chunk.constants@ == old(self).chunk.constants@ + chain_constants(
                        old(self).tokens@,
                        old(self).pos + 2,
                        n,
                    ) + chain_constants(old(self).tokens@, old(self).pos + 2 * n + 4, m)
                },
        decreases old(self).remaining(), 28int,
    {
        let ghost toks = self.tokens@;
        let ghost p = self.pos as int + 2;
        let ghost code0 = self.chunk.code@;
        let ghost consts0 = self.chunk.constants@;
        let ghost k0 = consts0.len();
        let ghost has1 = exists|n: nat| closed_chain(toks, p, n, TokenKind::RParen);
        let ghost n1: nat = choose|n: nat| closed_chain(toks, p, n, TokenKind::RParen);
        let ghost has2 = exists|n: nat, m: nat| #[trigger] two_chain_args(toks, p, n, m);
        let ghost (a2, b2): (nat, nat) = choose|n: nat, m: nat| #[trigger] two_chain_args(toks, p, n, m);
        proof {
            if has1 {
                lemma_chain_prefix(toks, p, n1, 0);
                self.lemma_kind(p);
                self.lemma_kind(p + 2 * n1 + 1);
                lemma_chain_constants_len(toks, p, n1);
            }
            if has2 {
                lemma_chain_prefix(toks, p, a2, 0);
                lemma_chain_prefix(toks, p + 2 * a2 + 2, b2, 0);
                self.lemma_kind(p);
                self.lemma_kind(p + 2 * a2 + 1);
                self.lemma_kind(p + 2 * a2 + 2);
                self.lemma_kind(p + 2 * a2 + 2 * b2 + 3);
                lemma_chain_constants_len(toks, p, a2);
            }
        }
        self.advance();
        self.advance();
        let mut first = true;
        while !self.peek_is(TokenKind::RParen)
            invariant_except_break
                has1 ==> first && self.pos == p && self.chunk.code@ == code0 && self.chunk.constants@ == consts0
                    && self.had_error == old(self).had_error,
                has2 ==> (first && self.pos == p && self.chunk.code@ == code0 && self.chunk.constants@ == consts0
                    && self.had_error == old(self).had_error) || (!first && self.pos == p + 2 * a2 + 1
                    && self.chunk.code@ == code0 + chain_code(toks, p, a2, k0) + seq![
                    opcode_byte(OpCode::OpPrintSpaced),
                ] && self.chunk.constants@ == consts0 + chain_constants(toks, p, a2) && self.had_error == old(
                    self,
                ).had_error),
            invariant
                self.inv(),
                old(self).follows(self),
                self.pos > old(self).pos,
                toks == self.tokens@,
                self.kinds@ == old(self).kinds@,
                k0 == consts0.len(),
                p == old(self).pos + 2,
                toks == old(self).tokens@,
                code0 == old(self).chunk.code@,
                consts0 == old(self).chunk.constants@,
                forall|n: nat| #[trigger] closed_chain(toks, p, n, TokenKind::RParen) ==> has1,
                forall|n: nat, m: nat| #[trigger] two_chain_args(toks, p, n, m) ==> has2,
                has1 ==> closed_chain(toks, p, n1, TokenKind::RParen) && old(self).kind_at(p) != TokenKind::RParen
                    && old(self).kind_at(p + 2 * n1 + 1) == TokenKind::RParen && chain_constants(toks, p, n1).len()
                    == n1 + 1,
                has2 ==> closed_chain(toks, p, a2, TokenKind::Comma) && closed_chain(
                    toks,
                    p + 2 * a2 + 2,
                    b2,
                    TokenKind::RParen,
                ) && old(self).kind_at(p) != TokenKind::RParen && old(self).kind_at(p + 2 * a2 + 1)
                    == TokenKind::Comma && old(self).kind_at(p + 2 * a2 + 2) != TokenKind::RParen
                    && old(self).kind_at(p + 2 * a2 + 2 * b2 + 3) == TokenKind::RParen && chain_constants(
                    toks,
                    p,
                    a2,
                ).len() == a2 + 1,
            ensures
                has1 ==> self.pos == p + 2 * n1 + 1 && self.chunk.code@ == code0 + chain_code(toks, p, n1, k0)
                    + seq![opcode_byte(OpCode::OpPrint)] && self.chunk.constants@ == consts0 + chain_constants(
                    toks,
                    p,
                    n1,
                ) && self.had_error == old(self).had_error,
                has2 ==> self.pos == p + 2 * a2 + 2 * b2 + 3 && self.chunk.code@ == code0 + chain_code(
                    toks,
                    p,
                    a2,
                    k0,
                ) + seq![opcode_byte(OpCode::OpPrintSpaced)] + chain_code(toks, p + 2 * a2 + 2, b2, k0 + a2 + 1)
                    + seq![opcode_byte(OpCode::OpPrint)] && self.chunk.constants@ == consts0 + chain_constants(
                    toks,
                    p,
                    a2,
                ) + chain_constants(toks, p + 2 * a2 + 2, b2) && self.had_error == old(self).had_error,
            decreases self.remaining(),
        {
            if !first {
                if self.peek_is(TokenKind::Comma) {
                    self.advance();
                } else {
                    break;
                }
            }
            proof {
                if has1 && first {
                    assert(operator_chain(self.tokens@, self.pos as int, n1));
                    assert(chain_ends(self.tokens@, self.pos as int, n1));
                }
                if has2 && first {
                    assert(operator_chain(self.tokens@, self.pos as int, a2));
                    assert(chain_ends(self.tokens@, self.pos as int, a2));
                }
                if has2 && !first {
                    assert(self.pos == p + 2 * a2 + 2);
                    assert(operator_chain(self.tokens@, self.pos as int, b2));
                    assert(chain_ends(self.tokens@, self.pos as int, b2));
                }
            }
            if !self.parse_expression() {
                self.fail();
                return ;
            }
            if self.peek_is(TokenKind::Comma) {
                self.emit_op(OpCode::OpPrintSpaced);
            } else {
                self.emit_op(OpCode::OpPrint);
                break;
            }
            first = false;
        }
        self.advance();
        self.emit_op(OpCode::OpPrintln);
        proof {
            assert forall|n: nat| #[trigger] closed_chain(toks, p, n, TokenKind::RParen) implies n == n1 by {
                lemma_chain_unique(toks, p, n, n1);
            }
            assert forall|n: nat, m: nat| #[trigger] two_chain_args(toks, p, n, m) implies n == a2 && m == b2 by {
                lemma_chain_unique(toks, p, n, a2);
                lemma_chain_unique(toks, p + 2 * n + 2, m, b2);
            }
        }
    }

    /// Parses `for name in iterable: body`.
    #[verifier::rlimit(80)]
    fn parse_for_statement(&mut self)
        requires
            old(self).inv(),
            old(self).pos < old(self).tokens@.len(),
        ensures
            final(self).inv(),
            old(self).follows(final(self)),
            final(self).pos > old(self).pos,
            forall|n: nat|
                old(self).function_depth == 0 && old(self).pos + 2 < old(self).tokens@.len() && old(
                    self,
                ).tokens@[old(self).pos + 1].token is Identifier && old(self).kind_at(old(self).pos + 2)
                    == TokenKind::In && #[trigger] closed_chain(
                    old(self).tokens@,
                    old(self).pos + 3,
                    n,
                    TokenKind::Colon,
                ) && !final(self).had_error ==> {
                    let index_constant = (old(self).chunk.constants@.len() + n + 3) as int;
                    let header = (old(self).chunk.code@.len() + 3 * n + 6) as int;
                    &&& index_constant < final(self).chunk.constants@.len()
                    &&& final(self).chunk.constants@[index_constant] == Constant::Integer(0)
                    &&& header + 2 < final(self).chunk.code@.len()
                    &&& final(self).chunk.code@[header] == opcode_byte(OpCode::OpConstant)
                    &&& final(self).chunk.code@[header + 2] == opcode_byte(OpCode::OpIterNext)
                },
        decreases old(self).remaining(), 28int,
    {
        let ghost toks = self.tokens@;
        let ghost p = self.pos as int;
        let ghost has = self.function_depth == 0 && p + 2 < toks.len() && toks[p + 1].token is Identifier
            && self.kind_at(p + 2) == TokenKind::In && exists|n: nat| #[trigger] closed_chain(toks, p + 3, n, TokenKind::Colon);
        let ghost n0: nat = choose|n: nat| #[trigger] closed_chain(toks, p + 3, n, TokenKind::Colon);
        let ghost k = self.chunk.constants@.len();
        let ghost start = self.chunk.code@.len();
        proof {
            self.lemma_inv();
            if has {
                lemma_chain_code_len(toks, p + 3, n0, k + 2);
                lemma_chain_constants_len(toks, p + 3, n0);
                self.lemma_kind(p + 3 + 2 * n0 + 1);
            }
        }
        self.advance();
        let loop_indent = self.current_indent;
        let loop_var = match self.next_identifier() {
            Some(n) => n,
            None => {
                self.fail();
                return ;
            },
        };
        if !self.next_is(TokenKind::In) {
            self.fail();
            return ;
        }
        let mut loop_var_local: Option<usize> = None;
        let mut loop_var_const_idx: usize = 0;
        if self.function_depth > 0 {
            let declared = self.declare_local(loop_var.clone());
            if let Some((idx, is_new)) = declared {
                loop_var_local = Some(idx);
                if is_new {
                    self.emit_nil();
                }
            }
            if self.had_error {
                return ;
            }
        }
        if loop_var_local.is_none() {
            loop_var_const_idx = self.add_constant(Constant::String(loop_var));
        }
        self.emit_nil();
        match loop_var_local {
            Some(local_idx) => {
                self.emit_op_arg(OpCode::OpSetLocal, (local_idx % 256) as u8);
                self.emit_op(OpCode::OpPop);
            },
            None => {
                self.emit_op_arg(OpCode::OpDefineGlobal, (loop_var_const_idx % 256) as u8);
            },
        }
        if !self.parse_expression() {
            self.fail();
            return ;
        }
        let colon_end = match self.take_colon() {
            Some(e) => e,
            None => {
                self.fail();
                return ;
            },
        };
        proof {
            self.lemma_inv();
            if has && !self.had_error {
                assert(self.chunk.code@.len() == start + 3 * n0 + 6);
                assert(self.chunk.constants@.len() == k + n0 + 3);
            }
        }
        let ghost header = self.chunk.code@.len() as int;
        self.emit_constant(Constant::Integer(0));
        let loop_start = self.chunk.code.len();
        proof {
            self.lemma_inv();
        }
        let iter_jump_pos = self.emit_jump(OpCode::OpIterNext);
        let ghost c1 = self.chunk.code@;
        proof {
            assert(is_boundary(c1, header as nat));
            assert(is_boundary(c1, (header + 2) as nat));
        }
        match loop_var_local {
            Some(local_idx) => {
                self.emit_op_arg(OpCode::OpSetLocal, (local_idx % 256) as u8);
            },
            None => {
                self.emit_op_arg(OpCode::OpSetGlobal, (loop_var_const_idx % 256) as u8);
            },
        }
        self.emit_op(OpCode::OpPop);
        self.push_loop(2);
        let body_had_statement = self.parse_suite(loop_indent, colon_end);
        let context = self.pop_loop();
        if !body_had_statement && !self.had_error {
            self.fail();
        }
        self.emit_loop(loop_start);
        self.patch_jump(iter_jump_pos);
        self.patch_breaks(&context);
        proof {
            assert(self.chunk.code@[header] == c1[header]);
            assert(self.chunk.code@[header + 2] == c1[header + 2]);
            assert forall|n: nat| #[trigger] closed_chain(toks, p + 3, n, TokenKind::Colon) implies n == n0 by {
                lemma_chain_unique(toks, p + 3, n, n0);
            }
        }
    }

    /// Makes each break of a loop jump to the end of the code.
    fn patch_breaks(&mut self, context: &LoopContext)
        requires
            old(self).inv(),
            forall|j: int|
                0 <= j < context.break_jumps@.len() ==> jump_at(old(self).chunk.code@, #[trigger] context.break_jumps@[j] as int),
        ensures
            final(self).inv(),
            old(self).code_step(final(self)),
            final(self).chunk.code@.len() == old(self).chunk.code@.len(),
            keeps(old(self).chunk.code@, final(self).chunk.code@),
    {
        proof {
            self.lemma_inv();
        }
        let mut k: usize = 0;
        while k < context.break_jumps.len()
            invariant
                self.inv(),
                old(self).code_step(self),
                self.chunk.code@.len() == old(self).chunk.code@.len(),
                keeps(old(self).chunk.code@, self.chunk.code@),
                forall|j: int|
                    0 <= j < context.break_jumps@.len() ==> jump_at(self.chunk.code@, #[trigger] context.break_jumps@[j] as int),
            decreases context.break_jumps@.len() - k,
        {
            let ghost before = self.chunk.code@;
            self.patch_jump(context.break_jumps[k]);
            proof {
                assert forall|j: int|
                    0 <= j < context.break_jumps@.len() implies jump_at(self.chunk.code@, #[trigger] context.break_jumps@[j] as int) by {
                    lemma_jump_kept(before, self.chunk.code@, context.break_jumps@[j] as int);
                }
            }
            k += 1;
        }
    }

    /// Parses `if condition: body`, with an `else: body` at the same
    /// indentation.
    #[verifier::rlimit(80)]
    fn parse_if_statement(&mut self)
        requires
            old(self).inv(),
            old(self).pos < old(self).tokens@.len(),
        ensures
            final(self).inv(),
            old(self).follows(final(self)),
            final(self).pos > old(self).pos,
            forall|n: nat|
                #[trigger] closed_chain(old(self).tokens@, old(self).pos + 1, n, TokenKind::Colon)
                    && !final(self).had_error && final(self).chunk.code@.len() < 65536 ==> {
                    let start = old(self).chunk.code@.len() as int;
                    let cond = chain_code(old(self).tokens@, old(self).pos + 1, n, old(self).chunk.constants@.len());
                    let c = start + cond.len();
                    let code = final(self).chunk.code@;
                    &&& code[c] == opcode_byte(OpCode::OpJumpIfFalse)
                    &&& code[c + 3] == opcode_byte(OpCode::OpPop)
                },
            forall|n: nat, m: nat|
                #[trigger] simple_if(old(self).tokens@, old(self).source.spec_bytes(), old(self).pos as int, n, m)
                    && !old(self).had_error && final(self).chunk.code@.len() < 65536 ==> {
                    let k = old(self).chunk.constants@.len();
                    let start = old(self).chunk.code@.len() as int;
                    let cond = chain_code(old(self).tokens@, old(self).pos + 1, n, k);
                    let body = chain_code(old(self).tokens@, old(self).pos + 2 * n + 3, m, k + n + 1);
                    let c = start + cond.len();
                    let e = c + 4 + body.len();
                    let code = final(self).chunk.code@;
                    &&& !final(self).had_error
                    &&& code.len() == e + 5
                    &&& code.subrange(start, c) == cond
                    &&& code[c] == opcode_byte(OpCode::OpJumpIfFalse)
                    &&& code[c + 3] == opcode_byte(OpCode::OpPop)
                    &&& code.subrange(c + 4, e) == body
                    &&& code[e] == opcode_byte(OpCode::OpPop)
                    &&& code[e + 1] == opcode_byte(OpCode::OpJump)
                    &&& code[e + 4] == opcode_byte(OpCode::OpPop)
                    &&& c + 3 + decode_u16(code, c + 1) == e + 4
                    &&& e + 4 + decode_u16(code, e + 2) == code.len()
                },
        decreases old(self).remaining(), 28int,
    {
        let ghost toks = self.tokens@;
        let ghost p = self.pos as int + 1;
        let ghost start = self.chunk.code@.len() as int;
        let ghost has = exists|n: nat| #[trigger] closed_chain(toks, p, n, TokenKind::Colon);
        let ghost n0: nat = choose|n: nat| #[trigger] closed_chain(toks, p, n, TokenKind::Colon);
        let ghost cond = chain_code(toks, p, n0, self.chunk.constants@.len());
        let ghost c = start + cond.len();
        proof {
            if has {
                self.lemma_kind(p + 2 * n0 + 1);
            }
        }
        let ghost src = self.source.spec_bytes();
        let ghost k = self.chunk.constants@.len();
        let ghost has2 = !self.had_error && exists|n: nat, m: nat| #[trigger] simple_if(toks, src, p - 1, n, m);
        let ghost (n2, m2): (nat, nat) = choose|n: nat, m: nat| #[trigger] simple_if(toks, src, p - 1, n, m);
        let ghost colon = p + 2 * n2 + 1;
        let ghost after = colon + 2 * m2 + 2;
        proof {
            if has2 {
                assert(has);
                lemma_chain_unique(toks, p, n2, n0);
                lemma_chain_constants_len(toks, p, n0);
                self.lemma_kind(colon);
                if after < toks.len() {
                    self.lemma_kind(after);
                }
            }
        }
        self.advance();
        let if_indent = self.current_indent;
        proof {
            if has {
                assert(operator_chain(self.tokens@, self.pos as int, n0));
                assert(chain_ends(self.tokens@, self.pos as int, n0));
            }
        }
        if !self.parse_expression() {
            self.fail();
            return ;
        }
        let colon_end = match self.take_colon() {
            Some(e) => e,
            None => {
                self.fail();
                return ;
            },
        };
        proof {
            self.lemma_inv();
        }
        let then_jump = self.emit_jump(OpCode::OpJumpIfFalse);
        proof {
            self.lemma_inv();
        }
        self.emit_op(OpCode::OpPop);
        let ghost c1 = self.chunk.code@;
        proof {
            if has && !self.had_error {
                assert(then_jump == c + 1);
                assert(is_boundary(c1, c as nat));
                assert(is_boundary(c1, (c + 3) as nat));
            }
        }
        proof {
            if has2 {
                assert(self.pos == colon + 1);
                assert(colon_end == toks[colon].end);
                assert(self.chunk.constants@.len() == k + n0 + 1);
                assert(operator_chain(self.tokens@, self.pos as int, m2));
                assert(chain_ends(self.tokens@, self.pos as int, m2));
            }
        }
        let then_had_statement = self.parse_suite(if_indent, colon_end);
        proof {
            if has2 {
                assert(!self.had_error);
                assert(then_had_statement);
                assert(self.pos == after);
            }
        }
        if !then_had_statement && !self.had_error {
            self.fail();
            return ;
        }
        let else_is_next = self.peek_is(TokenKind::Else) && self.indent_of(self.pos) == if_indent;
        let ghost c2 = self.chunk.code@;
        proof {
            if has && !self.had_error {
                assert(c2[c] == c1[c]);
                assert(c2[c + 3] == c1[c + 3]);
            }
        }
        if else_is_next {
            let else_jump = self.emit_jump(OpCode::OpJump);
            let ghost t = self.chunk.code@.len() as int;
            self.patch_jump_to_end(then_jump);
            self.emit_op(OpCode::OpPop);
            let ghost c3 = self.chunk.code@;
            self.advance();
            let else_colon_end = match self.take_colon() {
                Some(e) => e,
                None => {
                    self.fail();
                    return ;
                },
            };
            let else_had_statement = self.parse_suite(if_indent, else_colon_end);
            if !else_had_statement && !self.had_error {
                self.fail();
            }
            let ghost c4 = self.chunk.code@;
            self.patch_jump(else_jump);
            proof {
                if has && !self.had_error && self.chunk.code@.len() < 65536 {
                    reveal(lands_at_end);
                    let code = self.chunk.code@;
                    assert(code[c] == c3[c] && code[c + 3] == c3[c + 3]);
                }
            }
        } else {
            let end_jump = self.emit_jump(OpCode::OpJump);
            let ghost t = self.chunk.code@.len() as int;
            self.patch_jump_to_end(then_jump);
            self.emit_op(OpCode::OpPop);
            let ghost c3 = self.chunk.code@;
            self.patch_jump_to_end(end_jump);
            proof {
                if has && !self.had_error && self.chunk.code@.len() < 65536 {
                    reveal(lands_at_end);
                    let code = self.chunk.code@;
                    assert(code[t] == c3[t]);
                    assert(code[c] == c3[c] && code[c + 3] == c3[c + 3]);
                    assert(code[c + 1] == c3[c + 1] && code[c + 2] == c3[c + 2]);
                    assert(code[t - 3] == opcode_byte(OpCode::OpJump));
                }
            }
        }
        proof {
            assert forall|n: nat| #[trigger] closed_chain(toks, p, n, TokenKind::Colon) implies n == n0 by {
                lemma_chain_unique(toks, p, n, n0);
            }
            assert forall|n: nat, m: nat| #[trigger] simple_if(toks, src, p - 1, n, m) implies n == n2 && m == m2 by {
                lemma_chain_unique(toks, p, n, n2);
                lemma_chain_unique(toks, p + 2 * n + 2, m, m2);
            }
        }
    }

    /// Parses `while condition: body`.
    fn parse_while_statement(&mut self)
        requires
            old(self).inv(),
            old(self).pos < old(self).tokens@.len(),
        ensures
            final(self).inv(),
            old(self).follows(final(self)),
            final(self).pos > old(self).pos,
        decreases old(self).remaining(), 28int,
    {
        self.advance();
        let loop_indent = self.current_indent;
        let loop_start = self.chunk.code.len();
        proof {
            self.lemma_inv();
        }
        if !self.parse_expression() {
            self.fail();
            return ;
        }
        assert(is_boundary(self.chunk.code@, loop_start as nat));
        let colon_end = match self.take_colon() {
            Some(e) => e,
            None => {
                self.fail();
                return ;
            },
        };
        let exit_jump = self.emit_jump(OpCode::OpJumpIfFalse);
        self.emit_op(OpCode::OpPop);
        assert(is_boundary(self.chunk.code@, loop_start as nat));
        self.push_loop(0);
        let body_had_statement = self.parse_suite(loop_indent, colon_end);
        assert(is_boundary(self.chunk.code@, loop_start as nat));
        let context = self.pop_loop();
        if !body_had_statement && !self.had_error {
            self.fail();
        }
        assert(is_boundary(self.chunk.code@, loop_start as nat));
        self.emit_loop(loop_start);
        self.patch_jump(exit_jump);
        self.emit_op(OpCode::OpPop);
        self.patch_breaks(&context);
    }

    /// Parses `break`: pops what the loop keeps on the stack and jumps past
    /// the loop's end once that is known.
    fn parse_break_statement(&mut self)
        requires
            old(self).inv(),
            old(self).pos < old(self).tokens@.len(),
        ensures
            final(self).inv(),
            old(self).follows(final(self)),
            final(self).pos > old(self).pos,
        decreases old(self).remaining(), 28int,
    {
        self.advance();
        let n = self.loop_depth();
        if n == 0 {
            self.fail();
            return ;
        }
        let cleanup_depth = self.innermost_cleanup();
        let mut k: usize = 0;
        while k < cleanup_depth
            invariant
                self.inv(),
                old(self).follows(self),
                self.pos > old(self).pos,
                self.loop_stack@.len() == n,
            decreases cleanup_depth - k,
        {
            self.emit_op(OpCode::OpPop);
            k += 1;
        }
        let jump_pos = self.emit_jump(OpCode::OpJump);
        self.record_break(jump_pos);
    }

    /// Parses an assignment `name = value`, `name[index] = value`, or the
    /// same with `+=` or `*=`.
    #[verifier::rlimit(80)]
    fn parse_assignment_statement(&mut self, kind: AssignmentKind)
        requires
            old(self).inv(),
            old(self).pos < old(self).tokens@.len(),
        ensures
            final(self).inv(),
            old(self).follows(final(self)),
            final(self).pos > old(self).pos,
            forall|n: nat|
                kind == AssignmentKind::Simple && old(self).function_depth == 0 && old(self).pos + 1
                    < old(self).tokens@.len() && old(self).kind_at(old(self).pos + 1) == TokenKind::Assign
                    && #[trigger] operator_chain(old(self).tokens@, old(self).pos + 2, n) && chain_ends(
                    old(self).tokens@,
                    old(self).pos + 2,
                    n,
                ) ==> (old(self).tokens@[old(self).pos as int].token matches Token::Identifier(name) ==> {
                    let k = old(self).chunk.constants@.len();
                    &&& final(self).had_error == old(self).had_error
                    &&& final(self).pos == old(self).pos + 2 * n + 3
                    &&& final(self).chunk.code@ == old(self).chunk.code@ + chain_code(
                        old(self).tokens@,
                        old(self).pos + 2,
                        n,
                        k + 1,
                    ) + seq![opcode_byte(OpCode::OpDefineGlobal), operand_byte(k)]
                    &&& final(self).chunk.constants@ == old(self).chunk.constants@.push(Constant::String(name))
                        + chain_constants(old(self).tokens@, old(self).pos + 2, n)
                }),
            forall|n: nat|
                kind != AssignmentKind::Simple && old(self).function_depth == 0 && old(self).pos + 1
                    < old(self).tokens@.len() && old(self).kind_at(old(self).pos + 1) == (if kind
                    == AssignmentKind::AddAssign {
                    TokenKind::PlusEqual
                } else {
                    TokenKind::StarEqual
                }) && #[trigger] operator_chain(old(self).tokens@, old(self).pos + 2, n) && chain_ends(
                    old(self).tokens@,
                    old(self).pos + 2,
                    n,
                ) ==> (old(self).tokens@[old(self).pos as int].token matches Token::Identifier(name) ==> {
                    let k = old(self).chunk.constants@.len();
                    &&& final(self).had_error == old(self).had_error
                    &&& final(self).pos == old(self).pos + 2 * n + 3
                    &&& final(self).chunk.code@ == old(self).chunk.code@ + seq![
                        opcode_byte(OpCode::OpGetGlobal),
                        operand_byte(k),
                    ] + chain_code(old(self).tokens@, old(self).pos + 2, n, k + 1) + seq![
                        opcode_byte(
                            if kind == AssignmentKind::AddAssign {
                                OpCode::OpAdd
                            } else {
                                OpCode::OpMultiply
                            },
                        ),
                        opcode_byte(OpCode::OpSetGlobal),
                        operand_byte(k),
                        opcode_byte(OpCode::OpPop),
                    ]
                    &&& final(self).chunk.constants@ == old(self).chunk.constants@.push(Constant::String(name))
                        + chain_constants(old(self).tokens@, old(self).pos + 2, n)
                }),
            forall|n: nat, m: nat|
                kind == AssignmentKind::Simple && old(self).function_depth == 0 && #[trigger] subscript_assignment(
                    old(self).tokens@,
                    old(self).pos as int,
                    n,
                    m,
                ) ==> (old(self).tokens@[old(self).pos as int].token matches Token::Identifier(name) ==> {
                    let k = old(self).chunk.constants@.len();
                    let p = old(self).pos as int;
                    &&& final(self).had_error == old(self).had_error
                    &&& final(self).pos == p + 2 * n + 2 * m + 6
                    &&& final(self).chunk.code@ == old(self).chunk.code@ + seq![
                        opcode_byte(OpCode::OpGetGlobal),
                        operand_byte(k),
                    ] + chain_code(old(self).tokens@, p + 2, n, k + 1) + chain_code(
                        old(self).tokens@,
                        p + 2 * n + 5,
                        m,
                        k + n + 2,
                    ) + seq![
                        opcode_byte(OpCode::OpSetIndex),
                        opcode_byte(OpCode::OpSetGlobal),
                        operand_byte(k),
                        opcode_byte(OpCode::OpPop),
                    ]
                    &&& final(self).chunk.constants@ == old(self).chunk.constants@.push(Constant::String(name))
                        + chain_constants(old(self).tokens@, p + 2, n) + chain_constants(
                        old(self).tokens@,
                        p + 2 * n + 5,
                        m,
                    )
                }),
            kind != AssignmentKind::Simple && !final(self).had_error && old(self).tokens@[old(
                self,
            ).pos as int].token is Identifier && old(self).pos + 1 < old(self).tokens@.len() && old(
                self,
            ).kind_at(old(self).pos + 1) == TokenKind::LBracket ==> {
                let code = final(self).chunk.code@;
                &&& code.len() >= old(self).chunk.code@.len() + 5
                &&& code[code.len() - 5] == opcode_byte(OpCode::OpSwap)
                &&& code[code.len() - 4] == opcode_byte(OpCode::OpSetIndex)
                &&& code.last() == opcode_byte(OpCode::OpPop)
            },
        decreases old(self).remaining(), 28int,
    {
        let ghost toks = self.tokens@;
        let ghost p = self.pos as int;
        let ghost k = self.chunk.constants@.len();
        let ghost code0 = self.chunk.code@;
        let ghost sub = kind == AssignmentKind::Simple && self.function_depth == 0 && exists|n: nat, m: nat|
            #[trigger] subscript_assignment(toks, p, n, m);
        let ghost (sn, sm): (nat, nat) = choose|n: nat, m: nat| #[trigger] subscript_assignment(toks, p, n, m);
        proof {
            self.lemma_inv();
            if sub {
                lemma_chain_prefix(toks, p + 2, sn, 0);
                self.lemma_kind(p + 1);
                self.lemma_kind(p + 2 * sn + 3);
                self.lemma_kind(p + 2 * sn + 4);
            }
        }
        let name = match self.next_identifier() {
            Some(n) => n,
            None => return ,
        };
        let mut target = self.resolve_variable(&name);
        let name_idx = self.add_constant(Constant::String(name.clone()));
        proof {
            if sub {
                assert(target == VariableTarget::Global);
                assert(self.pos == p + 1);
                assert(self.chunk.code@ == code0);
            }
        }
        let mut has_subscript = false;
        let mut index_expression_code: Vec<u8> = Vec::new();
        if self.peek_is(TokenKind::LBracket) {
            has_subscript = true;
            self.advance();
            match kind {
                AssignmentKind::Simple => {
                    self.emit_get_variable(name_idx, target);
                },
                _ => {
                    self.emit_get_variable(name_idx, target);
                    self.emit_get_variable(name_idx, target);
                },
            }
            proof {
                if sub {
                    assert(self.pos == p + 2);
                    assert(operator_chain(self.tokens@, self.pos as int, sn));
                    assert(chain_ends(self.tokens@, self.pos as int, sn));
                }
            }
            let expr_start = self.chunk.code.len();
            proof {
                self.lemma_inv();
            }
            let ghost start_code = self.chunk.code@;
            proof {
                assert(jumps_above(start_code, start_code.len()));
            }
            if !self.parse_expression() {
                self.fail();
                return ;
            }
            proof {
                self.lemma_inv();
                if self.peak@ < 65536 {
                    lemma_cut_ready(start_code, self.chunk.code@);
                }
            }
            index_expression_code = self.copy_code(expr_start);
            if !self.next_is(TokenKind::RBracket) {
                self.fail();
                return ;
            }
        }
        match kind {
            AssignmentKind::Simple => {
                if !self.next_is(TokenKind::Assign) {
                    self.fail();
                    return ;
                }
                if has_subscript {
                    proof {
                        if sub {
                            lemma_chain_constants_len(toks, p + 2, sn);
                            assert(self.chunk.constants@.len() == k + sn + 2);
                            assert(self.pos == p + 2 * sn + 5);
                            assert(operator_chain(self.tokens@, self.pos as int, sm));
                            assert(chain_ends(self.tokens@, self.pos as int, sm));
                        }
                    }
                    if !self.parse_expression() {
                        self.fail();
                        return ;
                    }
                    self.emit_op(OpCode::OpSetIndex);
                    self.emit_set_variable(name_idx, target);
                    self.emit_op(OpCode::OpPop);
                    proof {
                        if sub {
                            assert(self.chunk.code@ == code0 + seq![
                                opcode_byte(OpCode::OpGetGlobal),
                                operand_byte(k),
                            ] + chain_code(toks, p + 2, sn, k + 1) + chain_code(toks, p + 2 * sn + 5, sm, k + sn + 2)
                                + seq![
                                opcode_byte(OpCode::OpSetIndex),
                                opcode_byte(OpCode::OpSetGlobal),
                                operand_byte(k),
                                opcode_byte(OpCode::OpPop),
                            ]);
                            assert forall|n: nat, m: nat| #[trigger] subscript_assignment(toks, p, n, m) implies n
                                == sn && m == sm by {
                                lemma_chain_unique(toks, p + 2, n, sn);
                                lemma_chain_unique(toks, p + 2 * n + 5, m, sm);
                            }
                        }
                    }
                } else {
                    if self.function_depth > 0 && target == VariableTarget::Global {
                        let declared = self.declare_local(name);
                        if let Some((idx, is_new)) = declared {
                            target = VariableTarget::Local(idx);
                            if is_new {
                                self.emit_nil();
                            }
                        }
                        if self.had_error {
                            return ;
                        }
                    }
                    let ghost mid = *self;
                    proof {
                        if old(self).function_depth == 0 {
                            assert(mid.pos == old(self).pos + 2);
                            assert(mid.chunk.code@ == old(self).chunk.code@);
                            assert(mid.chunk.constants@ == old(self).chunk.constants@.push(Constant::String(name)));
                            assert(target == VariableTarget::Global);
                            assert(name_idx == old(self).chunk.constants@.len());
                        }
                    }
                    if !self.parse_expression() {
                        self.fail();
                        return ;
                    }
                    self.emit_define_variable(name_idx, target);
                    proof {
                        if old(self).function_depth == 0 {
                            assert forall|n: nat|
                                #[trigger] operator_chain(old(self).tokens@, old(self).pos + 2, n) && chain_ends(
                                    old(self).tokens@,
                                    old(self).pos + 2,
                                    n,
                                ) implies {
                                    let k = old(self).chunk.constants@.len();
                                    &&& self.had_error == old(self).had_error
                                    &&& self.pos == old(self).pos + 2 * n + 3
                                    &&& self.chunk.code@ == old(self).chunk.code@ + chain_code(
                                        old(self).tokens@,
                                        old(self).pos + 2,
                                        n,
                                        k + 1,
                                    ) + seq![opcode_byte(OpCode::OpDefineGlobal), operand_byte(k)]
                                    &&& self.chunk.constants@ == old(self).chunk.constants@.push(Constant::String(name))
                                        + chain_constants(old(self).tokens@, old(self).pos + 2, n)
                                } by {
                                assert(operator_chain(mid.tokens@, mid.pos as int, n));
                                assert(old(self).chunk.constants@.push(Constant::String(name)) + chain_constants(
                                    old(self).tokens@,
                                    old(self).pos + 2,
                                    n,
                                ) == mid.chunk.constants@ + chain_constants(mid.tokens@, mid.pos as int, n));
                            }
                        }
                    }
                }
            },
            _ => {
                if self.function_depth > 0 && target == VariableTarget::Global && !has_subscript {
                    self.fail();
                    return ;
                }
                let is_add = kind == AssignmentKind::AddAssign;
                let expected = if is_add {
                    TokenKind::PlusEqual
                } else {
                    TokenKind::StarEqual
                };
                if !self.next_is(expected) {
                    self.fail();
                    return ;
                }
                let arithmetic = if is_add {
                    OpCode::OpAdd
                } else {
                    OpCode::OpMultiply
                };
                if has_subscript {
                    self.emit_op(OpCode::OpIndex);
                    if !self.parse_expression() {
                        self.fail();
                        return ;
                    }
                    self.emit_op(arithmetic);
                    self.append_code(&mut index_expression_code);
                    self.emit_op(OpCode::OpSwap);
                    self.emit_op(OpCode::OpSetIndex);
                    self.emit_set_variable(name_idx, target);
                    self.emit_op(OpCode::OpPop);
                } else {
                    self.emit_get_variable(name_idx, target);
                    if !self.parse_expression() {
                        self.fail();
                        return ;
                    }
                    self.emit_op(arithmetic);
                    self.emit_set_variable(name_idx, target);
                    self.emit_op(OpCode::OpPop);
                }
            },
        }
    }

    /// Parses an expression used as a statement; its value is discarded when
    /// `discard_result` holds.
    fn parse_expression_statement(&mut self, discard_result: bool)
        requires
            old(self).inv(),
            old(self).pos < old(self).tokens@.len(),
        ensures
            final(self).inv(),
            old(self).follows(final(self)),
            final(self).pos > old(self).pos,
            expression_refused(old(self).tokens@, old(self).pos as int) ==> final(self).had_error,
            discard_result ==> forall|n: nat|
                #[trigger] operator_chain(old(self).tokens@, old(self).pos as int, n) && chain_ends(
                    old(self).tokens@,
                    old(self).pos as int,
                    n,
                ) ==> {
                    &&& final(self).had_error == old(self).had_error
                    &&& final(self).pos == old(self).pos + 2 * n + 1
                    &&& final(self).chunk.code@ == old(self).chunk.code@ + chain_code(
                        old(self).tokens@,
                        old(self).pos as int,
                        n,
                        old(self).chunk.constants@.len(),
                    ) + seq![opcode_byte(OpCode::OpPop)]
                    &&& final(self).chunk.constants@ == old(self).chunk.constants@ + chain_constants(
                        old(self).tokens@,
                        old(self).pos as int,
                        n,
                    )
                },
        decreases old(self).remaining(), 28int,
    {
        let produced = self.parse_expression();
        if discard_result && produced {
            self.emit_op(OpCode::OpPop);
        } else if !produced {
            self.fail();
        }
    }

    /// A copy of the code from `start` on.
    fn copy_code(&self, start: usize) -> (copy: Vec<u8>)
        requires
            start <= self.chunk.code@.len(),
            is_whole(self.chunk.code@),
            is_boundary(self.chunk.code@, start as nat),
        ensures
            copy@ == self.chunk.code@.subrange(start as int, self.chunk.code@.len() as int),
            is_whole(copy@),
            jumps_land(self.chunk.code@) && no_jump_crosses(self.chunk.code@, start as nat) ==> jumps_land(copy@),
    {
        proof {
            lemma_split(self.chunk.code@, start as nat);
            if jumps_land(self.chunk.code@) && no_jump_crosses(self.chunk.code@, start as nat) {
                lemma_cut_jumps(self.chunk.code@, start as nat);
            }
        }
        let mut copy: Vec<u8> = Vec::new();
        let mut i = start;
        while i < self.chunk.code.len()
            invariant
                start <= i <= self.chunk.code@.len(),
                copy@ == self.chunk.code@.subrange(start as int, i as int),
            decreases self.chunk.code@.len() - i,
        {
            copy.push(self.chunk.code[i]);
            i += 1;
            assert(copy@ =~= self.chunk.code@.subrange(start as int, i as int));
        }
        copy
    }

    // ---- expressions ----

    /// Parses terms joined by the binary operators `+ - * / % < == in`, left
    /// to right with no precedence. Tells whether a value was produced.
    fn parse_expression(&mut self) -> (produced: bool)
        requires
            old(self).inv(),
        ensures
            old(self).extends(final(self)),
            final(self).inv(),
            old(self).follows(final(self)),
            final(self).loop_stack == old(self).loop_stack,
            old(self).pos < old(self).tokens@.len() ==> final(self).pos > old(self).pos,
            produced ==> final(self).pos > old(self).pos,
            expression_refused(old(self).tokens@, old(self).pos as int) ==> final(self).had_error,
            forall|n: nat|
                #[trigger] operator_chain(old(self).tokens@, old(self).pos as int, n) && chain_ends(
                    old(self).tokens@,
                    old(self).pos as int,
                    n,
                ) ==> {
                    &&& produced
                    &&& final(self).had_error == old(self).had_error
                    &&& final(self).pos == old(self).pos + 2 * n + 1
                    &&& final(self).chunk.code@ == old(self).chunk.code@ + chain_code(
                        old(self).tokens@,
                        old(self).pos as int,
                        n,
                        old(self).chunk.constants@.len(),
                    )
                    &&& final(self).chunk.constants@ == old(self).chunk.constants@ + chain_constants(
                        old(self).tokens@,
                        old(self).pos as int,
                        n,
                    )
                },
        decreases old(self).remaining(), 10int,
    {
        let ghost toks = self.tokens@;
        let ghost p = self.pos as int;
        let ghost code0 = self.chunk.code@;
        let ghost k0 = self.chunk.constants@.len();
        let ghost consts0 = self.chunk.constants@;
        let ghost has_chain = exists|n: nat| operator_chain(toks, p, n) && chain_ends(toks, p, n);
        let ghost n0: nat = choose|n: nat| operator_chain(toks, p, n) && chain_ends(toks, p, n);
        proof {
            if p < toks.len() {
                self.lemma_kind(p);
            }
            if p + 1 < toks.len() {
                self.lemma_kind(p + 1);
            }
            if has_chain {
                lemma_chain_prefix(toks, p, n0, 0);
                self.lemma_kind(p);
                if p + 1 < toks.len() {
                    self.lemma_kind(p + 1);
                }
                if 0 < n0 {
                    lemma_chain_prefix(toks, p, n0, 1);
                }
            }
        }
        if !self.peek_valid() {
            self.advance();
            return false;
        }
        let first = self.pos;
        self.advance();
        if !self.parse_term(first) {
            self.fail();
            return false;
        }
        let ghost mut i: nat = 0;
        proof {
            if has_chain {
                assert(self.chunk.code@ =~= code0 + chain_code(toks, p, 0, k0));
                assert(self.chunk.constants@ =~= consts0 + chain_constants(toks, p, 0));
            }
        }
        loop
            invariant
                self.inv(),
                old(self).follows(self),
                old(self).extends(self),
                self.loop_stack == old(self).loop_stack,
                self.pos > old(self).pos,
                toks == self.tokens@,
                p == old(self).pos,
                k0 == consts0.len(),
                has_chain ==> {
                    &&& operator_chain(toks, p, n0)
                    &&& chain_ends(toks, p, n0)
                    &&& i <= n0
                    &&& self.pos == p + 2 * i + 1
                    &&& self.had_error == old(self).had_error
                    &&& self.chunk.code@ == code0 + chain_code(toks, p, i, k0)
                    &&& self.chunk.constants@ == consts0 + chain_constants(toks, p, i)
                },
            ensures
                has_chain ==> i == n0,
            decreases self.remaining(),
        {
            proof {
                if self.pos < toks.len() {
                    self.lemma_kind(self.pos as int);
                }
                if has_chain && i < n0 {
                    lemma_chain_prefix(toks, p, n0, i);
                    lemma_chain_constants_len(toks, p, i);
                    self.lemma_kind(p + 2 * i + 1);
                    self.lemma_kind(p + 2 * i + 2);
                    if p + 2 * i + 3 < toks.len() {
                        self.lemma_kind(p + 2 * i + 3);
                    }
                    if i + 1 < n0 {
                        lemma_chain_prefix(toks, p, n0, i + 1);
                    }
                }
            }
            if !self.peek_valid() {
                break;
            }
            let kind = match self.peek_kind() {
                Some(k) => k,
                None => {
                    break;
                },
            };
            let opcode = match kind {
                TokenKind::Plus => OpCode::OpAdd,
                TokenKind::Slash => OpCode::OpDivide,
                TokenKind::Star => OpCode::OpMultiply,
                TokenKind::Minus => OpCode::OpSubtract,
                TokenKind::Less => OpCode::OpLess,
                TokenKind::In => OpCode::OpContains,
                TokenKind::Percent => OpCode::OpModulo,
                TokenKind::EqualEqual => OpCode::OpEqual,
                _ => {
                    break;
                },
            };
            proof {
                assert(binary_opcode(kind) == Some(opcode));
            }
            self.advance();
            let ghost term_code = self.chunk.code@;
            let ghost term_consts = self.chunk.constants@;
            let mut term_produced = false;
            if self.peek_valid() {
                let idx = self.pos;
                self.advance();
                term_produced = self.parse_term(idx);
                proof {
                    if has_chain && i < n0 {
                        assert(idx == p + 2 * i + 2);
                        assert(literal_constant(toks[idx as int].token) is Some);
                        lemma_chain_constants_len(toks, p, i);
                        assert(self.chunk.code@ == term_code.push(opcode_byte(OpCode::OpConstant)).push(
                            ((k0 + i + 1) % 256) as u8,
                        ));
                    }
                }
            } else {
                self.advance();
            }
            if term_produced {
                self.emit_op(opcode);
                proof {
                    if has_chain {
                        assert(i < n0);
                        assert(token_kind(toks[p + 2 * (i + 1) - 1].token) == kind);
                        let code_i = chain_code(toks, p, i, k0);
                        assert(chain_code(toks, p, i + 1, k0) == code_i + seq![
                            opcode_byte(OpCode::OpConstant),
                            ((k0 + i + 1) % 256) as u8,
                            opcode_byte(opcode),
                        ]);
                        assert(self.chunk.code@ =~= code0 + chain_code(toks, p, i + 1, k0));
                        assert(self.chunk.constants@ =~= consts0 + chain_constants(toks, p, i + 1));
                    }
                    i = i + 1;
                }
            } else {
                self.fail();
                break;
            }
        }
        proof {
            assert forall|n: nat|
                #[trigger] operator_chain(toks, p, n) && chain_ends(toks, p, n) implies n == n0 by {
                lemma_chain_unique(toks, p, n, n0);
            }
        }
        true
    }

    /// Parses a term that starts with the already consumed token at `idx`:
    /// a literal, a name with its calls, indexing and methods, a built-in
    /// call, a negation, or a list, dict or comprehension.
    fn parse_term(&mut self, idx: usize) -> (produced: bool)
        requires
            old(self).inv(),
            idx < old(self).pos,
        ensures
            old(self).extends(final(self)),
            final(self).inv(),
            old(self).follows(final(self)),
            final(self).loop_stack == old(self).loop_stack,
            !produced ==> final(self).had_error || !starts_term(old(self).kind_at(idx as int)),
            produced ==> final(self).chunk.code@.len() > old(self).chunk.code@.len(),
            literal_constant(old(self).tokens@[idx as int].token) matches Some(c) ==> (
            (old(self).tokens@[idx as int].token is String ==> !old(self).at_postfix()) ==> {
                &&& produced
                &&& final(self).pos == old(self).pos
                &&& final(self).had_error == old(self).had_error
                &&& final(self).chunk.code@ == old(self).chunk.code@.push(opcode_byte(OpCode::OpConstant)).push(
                    (old(self).chunk.constants@.len() % 256) as u8,
                )
                &&& final(self).chunk.constants@ == old(self).chunk.constants@.push(c)
            }),
            old(self).kind_at(idx as int) == TokenKind::Minus && old(self).pos < old(self).tokens@.len() ==> (
            literal_constant(old(self).tokens@[old(self).pos as int].token) matches Some(c) ==> (
            (old(self).tokens@[old(self).pos as int].token is String ==> old(self).no_postfix_at(old(self).pos + 1))
                ==> {
                let k = old(self).chunk.constants@.len();
                &&& produced
                &&& final(self).pos == old(self).pos + 1
                &&& final(self).had_error == old(self).had_error
                &&& final(self).chunk.code@ == old(self).chunk.code@ + seq![
                    opcode_byte(OpCode::OpConstant),
                    operand_byte(k),
                    opcode_byte(OpCode::OpConstant),
                    operand_byte(k + 1),
                    opcode_byte(OpCode::OpSubtract),
                ]
                &&& final(self).chunk.constants@ == old(self).chunk.constants@.push(Constant::Integer(0)).push(c)
            })),
            old(self).kind_at(idx as int) == TokenKind::Minus && produced ==> {
                &&& final(self).chunk.code@[old(self).chunk.code@.len() as int] == opcode_byte(OpCode::OpConstant)
                &&& final(self).chunk.code@.last() == opcode_byte(OpCode::OpSubtract)
            },
            old(self).kind_at(idx as int) == TokenKind::Minus && !(old(self).pos < old(self).tokens@.len()
                && old(self).kind_at(old(self).pos as int) != TokenKind::Invalid) ==> !produced
                && final(self).had_error,
            old(self).kind_at(idx as int) == TokenKind::Identifier && unknown_method(
                old(self).tokens@,
                old(self).pos as int,
            ) ==> !produced && final(self).had_error,
            old(self).function_depth == 0 && old(self).no_postfix_at(old(self).pos as int) && !(old(self).pos
                < old(self).tokens@.len() && old(self).kind_at(old(self).pos as int) == TokenKind::String) ==> (
            old(self).tokens@[idx as int].token matches Token::Identifier(name) ==> {
                &&& produced
                &&& final(self).pos == old(self).pos
                &&& final(self).had_error == old(self).had_error
                &&& final(self).chunk.code@ == old(self).chunk.code@ + seq![
                    opcode_byte(OpCode::OpGetGlobal),
                    operand_byte(old(self).chunk.constants@.len()),
                ]
                &&& final(self).chunk.constants@ == old(self).chunk.constants@.push(Constant::String(name))
            }),
        decreases old(self).remaining(), 27int,
    {
        proof {
            self.lemma_inv();
            self.lemma_kind(idx as int);
            if self.pos < self.tokens@.len() {
                self.lemma_kind(self.pos as int);
            }
        }
        let tokens = self.tokens;
        match &tokens[idx].token {
            Token::Minus => {
                self.emit_constant(Constant::Integer(0));
                if self.peek_valid() {
                    let next = self.pos;
                    self.advance();
                    if self.parse_term(next) {
                        self.emit_op(OpCode::OpSubtract);
                        true
                    } else {
                        self.fail();
                        false
                    }
                } else {
                    self.advance();
                    self.fail();
                    false
                }
            },
            Token::Integer(value) => {
                self.emit_constant(Constant::Integer(*value));
                true
            },
            Token::True => {
                self.emit_constant(Constant::Boolean(true));
                true
            },
            Token::False => {
                self.emit_constant(Constant::Boolean(false));
                true
            },
            Token::Identifier(identifier) => {
                let name = identifier.clone();
                self.parse_name(name)
            },
            Token::String(value) => {
                self.emit_constant(Constant::String(value.clone()));
                self.parse_postfix(None)
            },
            Token::Float(bits) => {
                self.emit_constant(Constant::Float(*bits));
                true
            },
            Token::LBrace => {
                match self.parse_dict_literal() {
                    Some(dict) => {
                        self.emit_constant(dict);
                        true
                    },
                    None => false,
                }
            },
            Token::LBracket => {
                if self.comprehension_ahead() {
                    self.parse_list_comprehension()
                } else {
                    match self.parse_list_literal() {
                        Some(list) => {
                            self.emit_constant(list);
                            true
                        },
                        None => false,
                    }
                }
            },
            _ => false,
        }
    }

    /// Parses what follows a name: an f-string, a built-in call (`list`,
    /// `zip`, `len`, `round`, `range`), or a variable with its postfix
    /// operations.
    fn parse_name(&mut self, name: String) -> (produced: bool)
        requires
            old(self).inv(),
        ensures
            old(self).extends(final(self)),
            final(self).inv(),
            old(self).follows(final(self)),
            final(self).loop_stack == old(self).loop_stack,
            !produced ==> final(self).had_error,
            produced ==> final(self).chunk.code@.len() > old(self).chunk.code@.len(),
            unknown_method(old(self).tokens@, old(self).pos as int) ==> !produced && final(self).had_error,
            old(self).function_depth == 0 && old(self).no_postfix_at(old(self).pos as int) && !(old(self).pos
                < old(self).tokens@.len() && old(self).kind_at(old(self).pos as int) == TokenKind::String) ==> {
                &&& produced
                &&& final(self).pos == old(self).pos
                &&& final(self).had_error == old(self).had_error
                &&& final(self).chunk.code@ == old(self).chunk.code@ + seq![
                    opcode_byte(OpCode::OpGetGlobal),
                    operand_byte(old(self).chunk.constants@.len()),
                ]
                &&& final(self).chunk.constants@ == old(self).chunk.constants@.push(Constant::String(name))
            },
        decreases old(self).remaining(), 26int,
    {
        proof {
            self.lemma_inv();
            if self.pos < self.tokens@.len() {
                self.lemma_kind(self.pos as int);
            }
        }
        if string_equals_literal(&name, "f") && self.peek_is(TokenKind::String) {
            return self.parse_f_string_literal();
        } else if string_equals_literal(&name, "list") && self.peek_is(TokenKind::LParen) {
            return self.parse_list_call();
        } else if string_equals_literal(&name, "zip") && self.peek_is(TokenKind::LParen) {
            return self.parse_zip_call();
        }
        if string_equals_literal(&name, "len") && self.peek_is(TokenKind::LParen) {
            self.advance();
            if !self.parse_expression() {
                self.fail();
                return false;
            }
            if !self.next_is(TokenKind::RParen) {
                self.fail();
                return false;
            }
            self.emit_op(OpCode::OpLen);
            true
        } else if string_equals_literal(&name, "round") && self.peek_is(TokenKind::LParen) {
            self.advance();
            self.parse_two_arguments(OpCode::OpRound)
        } else if string_equals_literal(&name, "range") && self.peek_is(TokenKind::LParen) {
            self.advance();
            self.parse_two_arguments(OpCode::OpRange)
        } else {
            match self.resolve_variable(&name) {
                VariableTarget::Local(local_index) => {
                    self.emit_op_arg(OpCode::OpGetLocal, (local_index % 256) as u8);
                    self.parse_postfix(None)
                },
                VariableTarget::Upvalue(upvalue_index) => {
                    self.emit_op_arg(OpCode::OpGetUpvalue, (upvalue_index % 256) as u8);
                    self.parse_postfix(None)
                },
                VariableTarget::Global => {
                    let const_idx = self.add_constant(Constant::String(name));
                    self.emit_op_arg(OpCode::OpGetGlobal, (const_idx % 256) as u8);
                    self.parse_postfix(Some(const_idx))
                },
            }
        }
    }

    /// Parses `first, second)` after a built-in's opening parenthesis and
    /// emits `op`.
    fn parse_two_arguments(&mut self, op: OpCode) -> (produced: bool)
        requires
            old(self).inv(),
            spec_operand_width(op) == 0,
        ensures
            old(self).extends(final(self)),
            final(self).inv(),
            old(self).follows(final(self)),
            final(self).loop_stack == old(self).loop_stack,
            !produced ==> final(self).had_error,
            produced ==> final(self).closed_by(TokenKind::RParen) && final(self).chunk.code@.len()
                > old(self).chunk.code@.len() && final(self).chunk.code@.last() == opcode_byte(op),
        decreases old(self).remaining(), 20int,
    {
        if !self.parse_expression() {
            self.fail();
            return false;
        }
        if !self.next_is(TokenKind::Comma) {
            self.fail();
            return false;
        }
        if !self.parse_expression() {
            self.fail();
            return false;
        }
        if !self.next_is(TokenKind::RParen) {
            self.fail();
            return false;
        }
        self.emit_op(op);
        true
    }

    /// Parses the calls, indexing, slicing and method calls that follow a
    /// value. `base_name_idx` is the name constant of the global variable the
    /// value was read from, which `append` writes back.
    #[verifier::rlimit(100)]
    fn parse_postfix(&mut self, base_name_idx: Option<usize>) -> (produced: bool)
        requires
            old(self).inv(),
        ensures
            old(self).extends(final(self)),
            final(self).inv(),
            old(self).follows(final(self)),
            final(self).loop_stack == old(self).loop_stack,
            !produced ==> final(self).had_error,
            produced ==> !final(self).at_postfix(),
            !old(self).at_postfix() ==> produced && final(self).pos == old(self).pos && final(self).chunk
                == old(self).chunk && final(self).had_error == old(self).had_error,
            old(self).postfix_refused(base_name_idx) ==> !produced && final(self).had_error,
            old(self).postfix_effect(base_name_idx) matches Some((c, code, consts)) ==> (old(self).no_postfix_at(
                old(self).pos + c,
            ) ==> {
                &&& produced
                &&& final(self).pos == old(self).pos + c
                &&& final(self).had_error == old(self).had_error
                &&& final(self).chunk.code@ == old(self).chunk.code@ + code
                &&& final(self).chunk.constants@ == old(self).chunk.constants@ + consts
            }),
        decreases old(self).remaining(), 20int,
    {
        let mut base = base_name_idx;
        loop
            invariant
                self.inv(),
                old(self).follows(self),
                old(self).extends(self),
                self.loop_stack == old(self).loop_stack,
                self.pos == old(self).pos ==> base == base_name_idx && self.chunk == old(self).chunk
                    && self.had_error == old(self).had_error,
                self.pos > old(self).pos ==> old(self).at_postfix() && !old(self).postfix_refused(
                    base_name_idx,
                ),
                old(self).postfix_effect(base_name_idx) matches Some((c, code, consts)) ==> (old(
                    self,
                ).no_postfix_at(old(self).pos + c) && self.pos > old(self).pos ==> {
                    &&& self.pos == old(self).pos + c
                    &&& self.had_error == old(self).had_error
                    &&& self.chunk.code@ == old(self).chunk.code@ + code
                    &&& self.chunk.constants@ == old(self).chunk.constants@ + consts
                }),
            ensures
                !self.at_postfix(),
                self.pos == old(self).pos ==> self.chunk == old(self).chunk && self.had_error == old(
                    self,
                ).had_error,
            decreases self.remaining(),
        {
            let ghost iter_pos = self.pos;
            proof {
                reveal_strlit("append");
                reveal_strlit("lower");
                reveal_strlit("isalnum");
                assert("append"@.len() == 6 && "lower"@.len() == 5 && "isalnum"@.len() == 7);
            }
            if self.peek_is(TokenKind::LParen) {
                self.advance();
                if !self.parse_call_arguments() {
                    return false;
                }
                base = None;
            } else if self.peek_is(TokenKind::LBracket) {
                self.advance();
                base = None;
                if !self.parse_subscript() {
                    return false;
                }
            } else if self.peek_is(TokenKind::Dot) {
                self.advance();
                let method = match self.next_identifier() {
                    Some(m) => m,
                    None => {
                        self.fail();
                        return false;
                    },
                };
                if string_equals_literal(&method, "append") {
                    proof {
                        if iter_pos == old(self).pos && old(self).postfix_effect(base_name_idx) is Some {
                            let p = old(self).pos as int;
                            assert(old(self).tokens@[p + 1].token == Token::Identifier(method));
                            assert(method@ == "append"@);
                            assert(method@ != "lower"@ && method@ != "isalnum"@);
                            assert(old(self).kind_at(p) == TokenKind::Dot);
                            assert(base_name_idx is Some);
                        }
                    }
                    let name_idx = match base {
                        Some(b) => b,
                        None => {
                            self.fail();
                            return false;
                        },
                    };
                    if !self.next_is(TokenKind::LParen) {
                        self.fail();
                        return false;
                    }
                    if !self.parse_expression() {
                        self.fail();
                        return false;
                    }
                    proof {
                        if self.pos < self.tokens@.len() {
                            self.lemma_kind(self.pos as int);
                        }
                    }
                    if !self.next_is(TokenKind::RParen) {
                        self.fail();
                        return false;
                    }
                    self.emit_op(OpCode::OpAppend);
                    self.emit_op_arg(OpCode::OpSetGlobal, (name_idx % 256) as u8);
                } else if string_equals_literal(&method, "lower") {
                    if !self.next_is(TokenKind::LParen) {
                        self.fail();
                        return false;
                    }
                    if !self.next_is(TokenKind::RParen) {
                        self.fail();
                        return false;
                    }
                    self.emit_op(OpCode::OpStrLower);
                    base = None;
                } else if string_equals_literal(&method, "isalnum") {
                    if !self.next_is(TokenKind::LParen) {
                        self.fail();
                        return false;
                    }
                    if !self.next_is(TokenKind::RParen) {
                        self.fail();
                        return false;
                    }
                    self.emit_op(OpCode::OpStrIsAlnum);
                    base = None;
                } else if string_equals_literal(&method, "join") {
                    if !self.parse_join_call() {
                        return false;
                    }
                    base = None;
                } else {
                    self.fail();
                    return false;
                }
            } else {
                break;
            }
        }
        true
    }

    /// Parses the arguments of a call after its opening parenthesis and emits
    /// the call.
    fn parse_call_arguments(&mut self) -> (produced: bool)
        requires
            old(self).inv(),
        ensures
            old(self).extends(final(self)),
            final(self).inv(),
            old(self).follows(final(self)),
            final(self).loop_stack == old(self).loop_stack,
            !produced ==> final(self).had_error,
            produced ==> final(self).closed_by(TokenKind::RParen) && final(self).chunk.code@.len()
                >= old(self).chunk.code@.len() + 2 && final(self).chunk.code@[final(self).chunk.code@.len()
                - 2] == opcode_byte(OpCode::OpCall),
            old(self).pos < old(self).tokens@.len() && old(self).kind_at(old(self).pos as int) == TokenKind::RParen
                ==> produced && final(self).pos == old(self).pos + 1 && final(self).had_error == old(self).had_error
                && final(self).chunk.code@ == old(self).chunk.code@ + seq![opcode_byte(OpCode::OpCall), 0u8]
                && final(self).chunk.constants@ == old(self).chunk.constants@,
            forall|n: nat|
                #[trigger] closed_chain(old(self).tokens@, old(self).pos as int, n, TokenKind::RParen) ==> {
                    &&& produced
                    &&& final(self).pos == old(self).pos + 2 * n + 2
                    &&& final(self).had_error == old(self).had_error
                    &&& final(self).chunk.code@ == old(self).chunk.code@ + chain_code(
                        old(self).tokens@,
                        old(self).pos as int,
                        n,
                        old(self).chunk.constants@.len(),
                    ) + seq![opcode_byte(OpCode::OpCall), 1u8]
                    &&& final(self).chunk.constants@ == old(self).chunk.constants@ + chain_constants(
                        old(self).tokens@,
                        old(self).pos as int,
                        n,
                    )
                },
        decreases old(self).remaining(), 19int,
    {
        let ghost toks = self.tokens@;
        let ghost p = self.pos as int;
        let ghost code0 = self.chunk.code@;
        let ghost consts0 = self.chunk.constants@;
        let ghost has = exists|n: nat| closed_chain(toks, p, n, TokenKind::RParen);
        let ghost n0: nat = choose|n: nat| closed_chain(toks, p, n, TokenKind::RParen);
        proof {
            if has {
                lemma_chain_prefix(toks, p, n0, 0);
                self.lemma_kind(p);
                self.lemma_kind(p + 2 * n0 + 1);
            }
        }
        let mut arg_count: u8 = 0;
        if !self.peek_is(TokenKind::RParen) {
            loop
                invariant_except_break
                    has ==> arg_count == 0 && self.pos == p && self.chunk.code@ == code0
                        && self.chunk.constants@ == consts0 && self.had_error == old(self).had_error,
                invariant
                    self.inv(),
                    old(self).follows(self),
                    old(self).extends(self),
                    self.loop_stack == old(self).loop_stack,
                    toks == self.tokens@,
                    p == old(self).pos,
                    has ==> closed_chain(toks, p, n0, TokenKind::RParen),
                    has ==> self.kind_at(p + 2 * n0 + 1) == TokenKind::RParen,
                    forall|n: nat| #[trigger] closed_chain(toks, p, n, TokenKind::RParen) ==> has,
                    !(p < toks.len() && old(self).kind_at(p) == TokenKind::RParen),
                    self.kinds@ == old(self).kinds@,
                ensures
                    has ==> arg_count == 1 && self.pos == p + 2 * n0 + 1 && self.had_error == old(self).had_error
                        && self.chunk.code@ == code0 + chain_code(toks, p, n0, consts0.len())
                        && self.chunk.constants@ == consts0 + chain_constants(toks, p, n0),
                decreases self.remaining(),
            {
                if !self.parse_expression() {
                    self.fail();
                    return false;
                }
                if arg_count == 255 {
                    self.fail();
                    return false;
                }
                arg_count = arg_count + 1;
                if self.peek_is(TokenKind::Comma) {
                    self.advance();
                } else if self.peek_is(TokenKind::RParen) {
                    break;
                } else {
                    self.fail();
                    return false;
                }
            }
        }
        if !self.next_is(TokenKind::RParen) {
            self.fail();
            return false;
        }
        self.emit_op_arg(OpCode::OpCall, arg_count);
        proof {
            assert forall|n: nat| #[trigger] closed_chain(toks, p, n, TokenKind::RParen) implies n == n0 by {
                lemma_chain_unique(toks, p, n, n0);
            }
        }
        true
    }

    /// Parses an index `[i]` or a slice `[start:end:step]` after its opening
    /// bracket; the parts left out of a slice are nil.
    #[verifier::rlimit(80)]
    fn parse_subscript(&mut self) -> (produced: bool)
        requires
            old(self).inv(),
        ensures
            old(self).extends(final(self)),
            final(self).inv(),
            old(self).follows(final(self)),
            final(self).loop_stack == old(self).loop_stack,
            !produced ==> final(self).had_error,
            produced ==> final(self).closed_by(TokenKind::RBracket) && final(self).chunk.code@.len()
                > old(self).chunk.code@.len() && (final(self).chunk.code@.last() == opcode_byte(
                OpCode::OpIndex) || final(self).chunk.code@.last() == opcode_byte(OpCode::OpSlice)),
            forall|n: nat|
                #[trigger] closed_chain(old(self).tokens@, old(self).pos as int, n, TokenKind::RBracket) ==> {
                    &&& produced
                    &&& final(self).pos == old(self).pos + 2 * n + 2
                    &&& final(self).had_error == old(self).had_error
                    &&& final(self).chunk.code@ == old(self).chunk.code@ + chain_code(
                        old(self).tokens@,
                        old(self).pos as int,
                        n,
                        old(self).chunk.constants@.len(),
                    ) + seq![opcode_byte(OpCode::OpIndex)]
                    &&& final(self).chunk.constants@ == old(self).chunk.constants@ + chain_constants(
                        old(self).tokens@,
                        old(self).pos as int,
                        n,
                    )
                },
        decreases old(self).remaining(), 19int,
    {
        proof {
            assert forall|n: nat| #[trigger] closed_chain(self.tokens@, self.pos as int, n, TokenKind::RBracket) implies {
                &&& literal_constant(self.tokens@[self.pos as int].token) is Some
                &&& self.kind_at(self.pos as int) == token_kind(self.tokens@[self.pos as int].token)
                &&& self.kind_at(self.pos + 2 * n + 1) == TokenKind::RBracket
            } by {
                lemma_chain_prefix(self.tokens@, self.pos as int, n, 0);
                self.lemma_kind(self.pos as int);
                self.lemma_kind(self.pos + 2 * n + 1);
            }
        }
        let mut start_pushed = false;
        if !self.peek_is(TokenKind::Colon) && !self.peek_is(TokenKind::RBracket) {
            if !self.parse_expression() {
                self.fail();
                return false;
            }
            start_pushed = true;
        }
        if self.peek_is(TokenKind::Colon) {
            self.advance();
            if !start_pushed {
                self.emit_nil();
            }
            let mut end_pushed = false;
            if !self.peek_is(TokenKind::RBracket) && !self.peek_is(TokenKind::Colon) {
                if !self.parse_expression() {
                    self.fail();
                    return false;
                }
                end_pushed = true;
            }
            if !end_pushed {
                self.emit_nil();
            }
            let mut step_pushed = false;
            if self.peek_is(TokenKind::Colon) {
                self.advance();
                if !self.peek_is(TokenKind::RBracket) {
                    if !self.parse_expression() {
                        self.fail();
                        return false;
                    }
                    step_pushed = true;
                }
            }
            if !step_pushed {
                self.emit_nil();
            }
            if !self.next_is(TokenKind::RBracket) {
                self.fail();
                return false;
            }
            self.emit_op(OpCode::OpSlice);
        } else {
            if !self.next_is(TokenKind::RBracket) {
                self.fail();
                return false;
            }
            self.emit_op(OpCode::OpIndex);
        }
        true
    }

    /// Parses the argument of `sep.join(...)`: a value, or a generator
    /// comprehension.
    fn parse_join_call(&mut self) -> (produced: bool)
        requires
            old(self).inv(),
        ensures
            old(self).extends(final(self)),
            final(self).inv(),
            old(self).follows(final(self)),
            final(self).loop_stack == old(self).loop_stack,
            !produced ==> final(self).had_error,
            produced ==> final(self).closed_by(TokenKind::RParen) && final(self).chunk.code@.len()
                > old(self).chunk.code@.len() && final(self).chunk.code@.last() == opcode_byte(
                OpCode::OpStrJoin),
        decreases old(self).remaining(), 20int,
    {
        if !self.next_is(TokenKind::LParen) {
            self.fail();
            return false;
        }
        let arg_start = self.chunk.code.len();
        proof {
            self.lemma_inv();
        }
        let ghost start_code = self.chunk.code@;
        let ghost start_peak = self.peak@;
        proof {
            assert(jumps_above(start_code, start_code.len()));
        }
        if !self.parse_expression() {
            self.fail();
            return false;
        }
        proof {
            if self.peak@ < 65536 {
                lemma_cut_ready(start_code, self.chunk.code@);
            }
        }
        let mut element_code = self.take_code_from(arg_start);
        if self.peek_is(TokenKind::For) {
            if !self.compile_comprehension(element_code, ComprehensionEnd::RParen) {
                return false;
            }
        } else {
            self.append_code(&mut element_code);
            if !self.next_is(TokenKind::RParen) {
                self.fail();
                return false;
            }
        }
        self.emit_op(OpCode::OpStrJoin);
        true
    }

    /// Parses an f-string into the concatenation of its literal parts and
    /// the global variables it interpolates.
    fn parse_f_string_literal(&mut self) -> (produced: bool)
        requires
            old(self).inv(),
        ensures
            old(self).extends(final(self)),
            final(self).inv(),
            old(self).follows(final(self)),
            final(self).loop_stack == old(self).loop_stack,
            !produced ==> final(self).had_error,
            produced ==> final(self).pos > old(self).pos && final(self).chunk.code@.len() > old(
                self,
            ).chunk.code@.len(),
        decreases old(self).remaining(), 20int,
    {
        if self.pos >= self.tokens.len() {
            self.fail();
            return false;
        }
        let tokens = self.tokens;
        let template = match &tokens[self.pos].token {
            Token::String(t) => t.clone(),
            _ => {
                self.advance();
                self.fail();
                return false;
            },
        };
        self.advance();
        let segments = match f_string_segments(template.as_str()) {
            Ok(segments) => segments,
            Err(_) => {
                self.fail();
                return false;
            },
        };
        if segments.len() == 0 {
            self.emit_constant(Constant::String(String::new()));
            return true;
        }
        let mut index: usize = 0;
        while index < segments.len()
            invariant
                self.inv(),
                old(self).follows(self),
                old(self).extends(self),
                self.loop_stack == old(self).loop_stack,
                self.pos > old(self).pos,
                index > 0 ==> self.chunk.code@.len() > old(self).chunk.code@.len(),
            decreases segments@.len() - index,
        {
            match &segments[index] {
                FStringSegment::Literal(text) => {
                    self.emit_constant(Constant::String(text.clone()));
                },
                FStringSegment::Identifier(identifier) => {
                    let name_idx = self.add_constant(Constant::String(identifier.clone()));
                    self.emit_op_arg(OpCode::OpGetGlobal, (name_idx % 256) as u8);
                },
            }
            if index > 0 {
                self.emit_op(OpCode::OpAdd);
            }
            index += 1;
        }
        true
    }

    /// Parses `list(...)` after the name: an empty list, or the conversion of
    /// one value.
    fn parse_list_call(&mut self) -> (produced: bool)
        requires
            old(self).inv(),
        ensures
            old(self).extends(final(self)),
            final(self).inv(),
            old(self).follows(final(self)),
            final(self).loop_stack == old(self).loop_stack,
            !produced ==> final(self).had_error,
            produced ==> final(self).closed_by(TokenKind::RParen) && final(self).chunk.code@.len()
                > old(self).chunk.code@.len(),
        decreases old(self).remaining(), 20int,
    {
        self.advance();
        if self.peek_is(TokenKind::RParen) {
            self.advance();
            self.emit_constant(Constant::List(Vec::new()));
            return true;
        }
        if !self.parse_expression() {
            self.fail();
            return false;
        }
        if self.peek_is(TokenKind::Comma) {
            self.fail();
            return false;
        }
        if !self.next_is(TokenKind::RParen) {
            self.fail();
            return false;
        }
        self.emit_op(OpCode::OpToList);
        true
    }

    /// Emits `OpZip` with its argument count and the two bytes of the mask of
    /// starred arguments.
    fn emit_zip(&mut self, count: u8, mask_high: u8, mask_low: u8)
        requires
            old(self).inv(),
        ensures
            final(self).inv(),
            old(self).code_step(final(self)),
            final(self).chunk.code@ == old(self).chunk.code@ + seq![
                opcode_byte(OpCode::OpZip),
                count,
                mask_high,
                mask_low,
            ],
            keeps(old(self).chunk.code@, final(self).chunk.code@),
            old(self).extends(final(self)),
    {
        proof {
            reveal(Compiler::inner_inv);
        }
        let ghost before = self.chunk.code@;
        self.chunk.code.push(OpCode::OpZip.to_byte());
        self.chunk.code.push(count);
        self.chunk.code.push(mask_high);
        self.chunk.code.push(mask_low);
        self.peak = Ghost(raised(self.peak@, self.chunk.code@.len()));
        proof {
            lemma_emit(before, OpCode::OpZip, seq![count, mask_high, mask_low]);
            lemma_instruction_whole(OpCode::OpZip, seq![count, mask_high, mask_low]);
            lemma_instruction_jumps(OpCode::OpZip, seq![count, mask_high, mask_low]);
            lemma_extends_append(before, seq![opcode_byte(OpCode::OpZip)] + seq![count, mask_high, mask_low]);
            assert(self.chunk.code@ =~= before + (seq![opcode_byte(OpCode::OpZip)] + seq![count, mask_high, mask_low]));
            assert(self.chunk.code@ =~= before + seq![
                opcode_byte(OpCode::OpZip),
                count,
                mask_high,
                mask_low,
            ]);
            lemma_breaks_kept(self.loop_stack@, before, self.chunk.code@);
        }
    }

    /// Parses `zip(...)` after the name: up to 16 arguments, each possibly
    /// starred.
    fn parse_zip_call(&mut self) -> (produced: bool)
        requires
            old(self).inv(),
        ensures
            old(self).extends(final(self)),
            final(self).inv(),
            old(self).follows(final(self)),
            final(self).loop_stack == old(self).loop_stack,
            !produced ==> final(self).had_error,
            produced ==> final(self).closed_by(TokenKind::RParen) && final(self).chunk.code@.len()
                > old(self).chunk.code@.len(),
        decreases old(self).remaining(), 20int,
    {
        self.advance();
        if self.peek_is(TokenKind::RParen) {
            self.advance();
            self.emit_constant(Constant::List(Vec::new()));
            return true;
        }
        let mut arg_count: u16 = 0;
        let mut star_mask: u16 = 0;
        loop
            invariant
                self.inv(),
                old(self).follows(self),
                old(self).extends(self),
                self.loop_stack == old(self).loop_stack,
                arg_count <= 16,
            decreases self.remaining(),
        {
            let is_star = self.peek_is(TokenKind::Star);
            if is_star {
                self.advance();
            }
            if !self.parse_expression() {
                self.fail();
                return false;
            }
            if arg_count >= 16 {
                self.fail();
                return false;
            }
            if is_star {
                star_mask = star_mask | (1u16 << arg_count);
            }
            arg_count = arg_count + 1;
            if self.peek_is(TokenKind::Comma) {
                self.advance();
                continue;
            }
            break;
        }
        if !self.next_is(TokenKind::RParen) {
            self.fail();
            return false;
        }
        self.emit_zip(arg_count as u8, ((star_mask >> 8u16) & 0xffu16) as u8, (star_mask & 0xffu16) as u8);
        true
    }

    /// Parses a list comprehension after its opening bracket.
    fn parse_list_comprehension(&mut self) -> (produced: bool)
        requires
            old(self).inv(),
        ensures
            old(self).extends(final(self)),
            final(self).inv(),
            old(self).follows(final(self)),
            final(self).loop_stack == old(self).loop_stack,
            !produced ==> final(self).had_error,
            produced ==> final(self).closed_by(TokenKind::RBracket) && final(self).chunk.code@.len()
                > old(self).chunk.code@.len(),
        decreases old(self).remaining(), 20int,
    {
        let element_start = self.chunk.code.len();
        proof {
            self.lemma_inv();
        }
        let ghost start_code = self.chunk.code@;
        proof {
            assert(jumps_above(start_code, start_code.len()));
        }
        if !self.parse_expression() {
            self.fail();
            return false;
        }
        proof {
            if self.peak@ < 65536 {
                lemma_cut_ready(start_code, self.chunk.code@);
            }
        }
        let element_code = self.take_code_from(element_start);
        self.compile_comprehension(element_code, ComprehensionEnd::RBracket)
    }

    /// Compiles `for name in iterable [if condition]` and its closing bracket
    /// into a loop that appends `element_code`'s value to a fresh hidden
    /// list, and leaves that list on the stack.
    fn compile_comprehension(&mut self, element_code: Vec<u8>, terminator: ComprehensionEnd) -> (produced: bool)
        requires
            old(self).inv(),
            is_whole(element_code@),
            old(self).peak@ < 65536 ==> jumps_land(element_code@),
        ensures
            old(self).extends(final(self)),
            final(self).inv(),
            old(self).follows(final(self)),
            final(self).loop_stack == old(self).loop_stack,
            !final(self).had_error ==> final(self).chunk.code@.len() >= old(self).chunk.code@.len()
                + element_code@.len(),
            !produced ==> final(self).had_error,
            forall|n: nat|
                !old(self).had_error && old(self).function_depth == 0 && old(self).pos + 2 < old(
                    self,
                ).tokens@.len() && old(self).kind_at(old(self).pos as int) == TokenKind::For && old(
                    self,
                ).tokens@[old(self).pos + 1].token is Identifier && old(self).kind_at(old(self).pos + 2)
                    == TokenKind::In && #[trigger] operator_chain(old(self).tokens@, old(self).pos + 3, n)
                    && chain_ends(old(self).tokens@, old(self).pos + 3, n) && old(self).pos + 2 * n + 4 < old(
                    self,
                ).tokens@.len() && old(self).kind_at(old(self).pos + 2 * n + 4) == match terminator {
                    ComprehensionEnd::RBracket => TokenKind::RBracket,
                    ComprehensionEnd::RParen => TokenKind::RParen,
                } ==> produced && !final(self).had_error,
            produced ==> final(self).closed_by(match terminator {
                ComprehensionEnd::RBracket => TokenKind::RBracket,
                ComprehensionEnd::RParen => TokenKind::RParen,
            }) && final(self).chunk.code@.len() > old(self).chunk.code@.len(),
            produced ==> {
                let code = final(self).chunk.code@;
                &&& code.len() >= old(self).chunk.code@.len() + 7
                &&& code[code.len() - 5] == opcode_byte(OpCode::OpLoop)
                &&& code[code.len() - 2] == opcode_byte(
                    if old(self).function_depth > 0 {
                        OpCode::OpGetLocal
                    } else {
                        OpCode::OpGetGlobal
                    },
                )
                &&& exists|j: int|
                    old(self).chunk.code@.len() <= j && j + 3 <= code.len() - 5 && code[j] == opcode_byte(
                        OpCode::OpConstant,
                    ) && #[trigger] code[j + 2] == opcode_byte(OpCode::OpIterNext)
            },
            produced && old(self).function_depth == 0 ==> exists|j: int|
                old(self).chunk.code@.len() <= j && j + element_code@.len() < final(self).chunk.code@.len()
                    && #[trigger] final(self).chunk.code@.subrange(j, j + element_code@.len()) == element_code@
                    && final(self).chunk.code@[j + element_code@.len()] == opcode_byte(OpCode::OpAppend),
        decreases old(self).remaining(), 15int,
    {
        let mut element_code = element_code;
        let vars = match self.comprehension_prologue(&mut element_code) {
            Some(v) => v,
            None => return false,
        };
        if !self.parse_expression() {
            self.fail();
            return false;
        }
        let mut filter_code: Option<Vec<u8>> = None;
        if self.peek_is(TokenKind::If) {
            self.advance();
            let filter_start = self.chunk.code.len();
            proof {
                self.lemma_inv();
            }
            let ghost start_code = self.chunk.code@;
            proof {
                assert(jumps_above(start_code, start_code.len()));
            }
            if !self.parse_expression() {
                self.fail();
                return false;
            }
            proof {
                if self.peak@ < 65536 {
                    lemma_cut_ready(start_code, self.chunk.code@);
                }
            }
            let mut code = self.take_code_from(filter_start);
            if let Some(local_idx) = vars.loop_var_local {
                Self::rewrite_to_local(&mut code, &vars.target_indices, local_idx);
            }
            filter_code = Some(code);
        }
        let expected = match terminator {
            ComprehensionEnd::RBracket => TokenKind::RBracket,
            ComprehensionEnd::RParen => TokenKind::RParen,
        };
        if !self.next_is(expected) {
            self.fail();
            return false;
        }
        let ghost s0 = self.chunk.code@.len() as int;
        let ghost j: int = if filter_code is Some {
            s0 + filter_code->0@.len() + 14
        } else {
            s0 + 10
        };
        let ghost elem = element_code@;
        self.emit_comprehension_loop(&vars, filter_code, element_code);
        proof {
            if old(self).function_depth == 0 {
                assert(elem == element_code@);
                assert(self.chunk.code@.subrange(j, j + elem.len()) == elem);
            }
        }
        true
    }

    /// Consumes `for name in` of a comprehension, declares its loop variable
    /// and hidden result list, rewrites the element's code to read the loop
    /// variable where it is a local, and emits the initial values of both.
    #[verifier::rlimit(80)]
    fn comprehension_prologue(&mut self, element_code: &mut Vec<u8>) -> (vars: Option<ComprehensionVars>)
        requires
            old(self).inv(),
            is_whole(old(element_code)@),
            old(self).peak@ < 65536 ==> jumps_land(old(element_code)@),
        ensures
            old(self).extends(final(self)),
            is_whole(final(element_code)@),
            final(self).peak@ < 65536 ==> jumps_land(final(element_code)@),
            final(element_code)@.len() == old(element_code)@.len(),
            final(self).inv(),
            old(self).follows(final(self)),
            final(self).loop_stack == old(self).loop_stack,
            vars is None ==> final(self).had_error,
            !old(self).had_error && old(self).function_depth == 0 && old(self).pos + 2 < old(self).tokens@.len()
                && old(self).kind_at(old(self).pos as int) == TokenKind::For && old(self).tokens@[old(self).pos
                + 1].token is Identifier && old(self).kind_at(old(self).pos + 2) == TokenKind::In ==> vars is Some,
            vars matches Some(v) ==> {
                &&& final(self).had_error == old(self).had_error
                &&& final(self).pos == old(self).pos + 3
                &&& old(self).kind_at(old(self).pos as int) == TokenKind::For
                &&& old(self).kind_at(old(self).pos + 2) == TokenKind::In
                &&& final(self).list_comp_counter == old(self).list_comp_counter + 1
                &&& old(self).tokens@[old(self).pos + 1].token matches Token::Identifier(n) && {
                    &&& v.loop_var_idx < final(self).chunk.constants@.len()
                    &&& is_string_constant(final(self).chunk.constants@[v.loop_var_idx as int], n@)
                    &&& forall|k: int|
                        0 <= k < v.target_indices@.len() ==> #[trigger] v.target_indices@[k]
                            < final(self).chunk.constants@.len() && is_string_constant(
                            final(self).chunk.constants@[v.target_indices@[k] as int],
                            n@,
                        )
                }
                &&& v.result_name_idx < final(self).chunk.constants@.len()
                &&& is_string_constant(
                    final(self).chunk.constants@[v.result_name_idx as int],
                    "__list_comp_result_"@ + decimal(old(self).list_comp_counter as nat),
                )
                &&& (v.loop_var_local is Some) == (old(self).function_depth > 0)
                &&& (v.result_local is Some) == (old(self).function_depth > 0)
                &&& v.loop_var_local is None ==> final(element_code)@ == old(element_code)@
                &&& v.loop_var_local matches Some(slot) ==> {
                    &&& v.target_indices@.len() == 0 ==> final(element_code)@ == old(element_code)@
                    &&& v.target_indices@.len() > 0 ==> final(element_code)@ == rewritten_from(
                        old(element_code)@,
                        v.target_indices@,
                        operand_byte(slot as nat),
                        0,
                    )
                }
            },
    {
        proof {
            self.lemma_inv();
        }
        if !self.next_is(TokenKind::For) {
            self.fail();
            return None;
        }
        let loop_var = match self.next_identifier() {
            Some(n) => n,
            None => {
                self.fail();
                return None;
            },
        };
        if !self.next_is(TokenKind::In) {
            self.fail();
            return None;
        }
        let loop_var_idx = self.add_constant(Constant::String(loop_var.clone()));
        let mut loop_var_local: Option<usize> = None;
        if self.function_depth > 0 {
            let declared = self.declare_local(loop_var.clone());
            if let Some((idx, is_new)) = declared {
                loop_var_local = Some(idx);
                if is_new {
                    self.emit_nil();
                }
            }
            if self.had_error {
                return None;
            }
        }
        let target_indices = self.constant_indices_for_string(&loop_var);
        let ghost c_t = self.chunk.constants@;
        proof {
            assert(self.chunk.constants@.subrange(0, c_t.len() as int) =~= c_t);
        }
        if let Some(local_idx) = loop_var_local {
            Self::rewrite_to_local(element_code, &target_indices, local_idx);
        }
        self.emit_nil();
        proof {
            assert(self.chunk.constants@.subrange(0, c_t.len() as int) =~= c_t);
        }
        match loop_var_local {
            Some(local_idx) => {
                self.emit_op_arg(OpCode::OpSetLocal, (local_idx % 256) as u8);
                self.emit_op(OpCode::OpPop);
            },
            None => {
                self.emit_op_arg(OpCode::OpDefineGlobal, (loop_var_idx % 256) as u8);
            },
        }
        proof {
            assert(self.chunk.constants@.subrange(0, c_t.len() as int) =~= c_t);
        }
        let result_name = self.next_comprehension_name();
        let result_name_idx = self.add_constant(Constant::String(result_name.clone()));
        let ghost c_r = self.chunk.constants@;
        proof {
            assert(self.chunk.constants@.subrange(0, c_t.len() as int) =~= c_t);
        }

        let mut result_local: Option<usize> = None;
        if self.function_depth > 0 {
            let declared = self.declare_local(result_name);
            if let Some((idx, is_new)) = declared {
                result_local = Some(idx);
                if is_new {
                    self.emit_nil();
                }
            }
            if self.had_error {
                return None;
            }
        }
        proof {
            assert(self.chunk.constants@.subrange(0, c_t.len() as int) =~= c_t);
            assert(self.chunk.constants@.subrange(0, c_r.len() as int) =~= c_r);
        }
        self.emit_constant(Constant::List(Vec::new()));
        proof {
            assert(self.chunk.constants@.subrange(0, c_t.len() as int) =~= c_t);
            assert(self.chunk.constants@.subrange(0, c_r.len() as int) =~= c_r);
        }
        match result_local {
            Some(local_idx) => {
                self.emit_op_arg(OpCode::OpSetLocal, (local_idx % 256) as u8);
                self.emit_op(OpCode::OpPop);
            },
            None => {
                self.emit_op_arg(OpCode::OpDefineGlobal, (result_name_idx % 256) as u8);
            },
        }
        proof {
            assert(self.chunk.constants@.subrange(0, c_t.len() as int) =~= c_t);
            assert(self.chunk.constants@.subrange(0, c_r.len() as int) =~= c_r);
            assert(self.chunk.constants@[loop_var_idx as int] == c_t[loop_var_idx as int]);
            assert(self.chunk.constants@[result_name_idx as int] == c_r[result_name_idx as int]);
            assert forall|k: int| 0 <= k < target_indices@.len() implies #[trigger] target_indices@[k]
                < self.chunk.constants@.len() && is_string_constant(
                self.chunk.constants@[target_indices@[k] as int],
                loop_var@,
            ) by {
                assert(self.chunk.constants@[target_indices@[k] as int] == c_t[target_indices@[k] as int]);
            }
        }
        Some(ComprehensionVars { loop_var_idx, loop_var_local, target_indices, result_local, result_name_idx })
    }

    /// Emits a comprehension's loop: each value of the iterable on the stack
    /// is stored in the loop variable, and the element's value is appended to
    /// the result list when the filter, if any, holds; then the list is
    /// pushed.
    #[verifier::rlimit(100)]
    #[verifier::spinoff_prover]
    fn emit_comprehension_loop(&mut self, vars: &ComprehensionVars, filter_code: Option<Vec<u8>>, element_code: Vec<u8>)
        requires
            old(self).inv(),
            is_whole(element_code@),
            filter_code matches Some(c) ==> is_whole(c@),
            old(self).peak@ < 65536 ==> jumps_land(element_code@),
            filter_code matches Some(c) ==> (old(self).peak@ < 65536 ==> jumps_land(c@)),
        ensures
            old(self).extends(final(self)),
            final(self).chunk.code@.len() >= old(self).chunk.code@.len() + element_code@.len() + match filter_code {
                Some(c) => c@.len(),
                None => 0,
            },
            final(self).chunk.code@.len() > old(self).chunk.code@.len() + 7,
            final(self).had_error == old(self).had_error,
            final(self).chunk.code@[old(self).chunk.code@.len() as int] == opcode_byte(OpCode::OpConstant),
            final(self).chunk.code@[old(self).chunk.code@.len() + 2int] == opcode_byte(OpCode::OpIterNext),
            final(self).chunk.code@[final(self).chunk.code@.len() - 5] == opcode_byte(OpCode::OpLoop),
            filter_code is None ==> {
                let s0 = old(self).chunk.code@.len() as int;
                &&& final(self).chunk.code@.len() >= s0 + 11 + element_code@.len()
                &&& final(self).chunk.code@.subrange(s0 + 10, s0 + 10 + element_code@.len()) == element_code@
                &&& final(self).chunk.code@[s0 + 10 + element_code@.len()] == opcode_byte(OpCode::OpAppend)
            },
            filter_code matches Some(f) ==> {
                let s0 = old(self).chunk.code@.len() as int;
                let e = s0 + f@.len() + 14;
                &&& final(self).chunk.code@.len() >= e + element_code@.len() + 1
                &&& final(self).chunk.code@.subrange(s0 + 8, s0 + 8 + f@.len()) == f@
                &&& final(self).chunk.code@[s0 + 8 + f@.len()] == opcode_byte(OpCode::OpJumpIfFalse)
                &&& final(self).chunk.code@.subrange(e, e + element_code@.len()) == element_code@
                &&& final(self).chunk.code@[e + element_code@.len()] == opcode_byte(OpCode::OpAppend)
            },
            final(self).chunk.code@[final(self).chunk.code@.len() - 2] == opcode_byte(
                if vars.result_local is Some {
                    OpCode::OpGetLocal
                } else {
                    OpCode::OpGetGlobal
                },
            ),
            final(self).inv(),
            old(self).follows(final(self)),
            final(self).pos == old(self).pos,
            final(self).loop_stack == old(self).loop_stack,
    {
        let mut element_code = element_code;
        self.emit_constant(Constant::Integer(0));
        let loop_start = self.chunk.code.len();
        let iter_jump_pos = self.emit_jump(OpCode::OpIterNext);
        match vars.loop_var_local {
            Some(local_idx) => {
                self.emit_op_arg(OpCode::OpSetLocal, (local_idx % 256) as u8);
            },
            None => {
                self.emit_op_arg(OpCode::OpSetGlobal, (vars.loop_var_idx % 256) as u8);
            },
        }
        self.emit_op(OpCode::OpPop);
        let ghost s0 = old(self).chunk.code@.len() as int;
        let ghost e_len = element_code@.len() as int;
        let ghost f_len: int = if filter_code is Some {
            filter_code->0@.len() as int
        } else {
            0
        };
        let ghost e_start: int = if filter_code is Some { s0 + f_len + 14 } else { s0 + 10 };
        let ghost element0 = element_code@;
        let ghost filter0: Seq<u8> = if filter_code is Some {
            filter_code->0@
        } else {
            Seq::empty()
        };
        assert(self.chunk.code@.len() == s0 + 8);
        match filter_code {
            Some(mut code) => {
                self.append_code(&mut code);
                let skip_append = self.emit_jump(OpCode::OpJumpIfFalse);
                self.emit_op(OpCode::OpPop);
                self.emit_result_append(vars.result_local, vars.result_name_idx, &mut element_code);
                let ghost c1 = self.chunk.code@;
                assert(c1.subrange(s0 + 8, s0 + 8 + f_len) =~= filter0);
                assert(c1.subrange(e_start, e_start + e_len) =~= element0);
                let after_append = self.emit_jump(OpCode::OpJump);
                self.patch_jump(skip_append);
                proof {
                    lemma_range_kept(c1, self.chunk.code@, s0 + 8, s0 + 8 + f_len, skip_append as int);
                    lemma_range_kept(c1, self.chunk.code@, e_start, e_start + e_len, skip_append as int);
                }
                self.emit_op(OpCode::OpPop);
                let ghost c2 = self.chunk.code@;
                self.patch_jump(after_append);
                proof {
                    lemma_range_kept(c2, self.chunk.code@, s0 + 8, s0 + 8 + f_len, after_append as int);
                    lemma_range_kept(c2, self.chunk.code@, e_start, e_start + e_len, after_append as int);
                }
            },
            None => {
                self.emit_result_append(vars.result_local, vars.result_name_idx, &mut element_code);
                assert(self.chunk.code@.subrange(e_start, e_start + e_len) =~= element0);
            },
        }
        let ghost loop_pos = self.chunk.code@.len() as int;
        let ghost c3 = self.chunk.code@;
        assert(c3.subrange(e_start, e_start + e_len) == element0);
        assert(filter_code is Some ==> c3.subrange(s0 + 8, s0 + 8 + f_len) == filter0);
        assert(c3[e_start + e_len] == opcode_byte(OpCode::OpAppend));
        assert(filter_code is Some ==> c3[s0 + 8 + f_len] == opcode_byte(OpCode::OpJumpIfFalse));
        self.emit_loop(loop_start);
        assert(iter_jump_pos + 1 < loop_pos);
        self.patch_jump(iter_jump_pos);
        proof {
            lemma_range_kept(c3, self.chunk.code@, e_start, e_start + e_len, iter_jump_pos as int);
            if filter_code is Some {
                lemma_range_kept(c3, self.chunk.code@, s0 + 8, s0 + 8 + f_len, iter_jump_pos as int);
            }
        }
        assert(self.chunk.code@[loop_pos] == opcode_byte(OpCode::OpLoop));
        assert(self.chunk.code@.len() == loop_pos + 3);
        match vars.result_local {
            Some(local_idx) => {
                self.emit_op_arg(OpCode::OpGetLocal, (local_idx % 256) as u8);
            },
            None => {
                self.emit_op_arg(OpCode::OpGetGlobal, (vars.result_name_idx % 256) as u8);
            },
        }
    }

    /// Emits the append of the element's value to a comprehension's result
    /// list, which lives in a local slot or in a global.
    fn emit_result_append(&mut self, result_local: Option<usize>, result_name_idx: usize, element_code: &mut Vec<u8>)
        requires
            old(self).inv(),
            is_whole(old(element_code)@),
            old(self).peak@ < 65536 ==> jumps_land(old(element_code)@),
        ensures
            old(self).extends(final(self)),
            final(self).inv(),
            old(self).code_step(final(self)),
            final(self).chunk.code@.len() >= old(self).chunk.code@.len() + old(element_code)@.len(),
            final(self).chunk.code@.len() >= old(self).chunk.code@.len(),
            keeps(old(self).chunk.code@, final(self).chunk.code@),
            final(self).chunk.code@ == old(self).chunk.code@ + seq![
                opcode_byte(if result_local is Some { OpCode::OpGetLocal } else { OpCode::OpGetGlobal }),
                operand_byte(match result_local { Some(l) => l as nat, None => result_name_idx as nat }),
            ] + old(element_code)@ + seq![
                opcode_byte(OpCode::OpAppend),
                opcode_byte(if result_local is Some { OpCode::OpSetLocal } else { OpCode::OpSetGlobal }),
                operand_byte(match result_local { Some(l) => l as nat, None => result_name_idx as nat }),
                opcode_byte(OpCode::OpPop),
            ],
    {
        match result_local {
            Some(local_idx) => {
                self.emit_op_arg(OpCode::OpGetLocal, (local_idx % 256) as u8);
            },
            None => {
                self.emit_op_arg(OpCode::OpGetGlobal, (result_name_idx % 256) as u8);
            },
        }
        self.append_code(element_code);
        self.emit_op(OpCode::OpAppend);
        match result_local {
            Some(local_idx) => {
                self.emit_op_arg(OpCode::OpSetLocal, (local_idx % 256) as u8);
            },
            None => {
                self.emit_op_arg(OpCode::OpSetGlobal, (result_name_idx % 256) as u8);
            },
        }
        self.emit_op(OpCode::OpPop);
    }

    /// Parses a list literal after its opening bracket: numbers, strings and
    /// nested lists and dicts, separated by commas.
    fn parse_list_literal(&mut self) -> (list: Option<Constant>)
        requires
            old(self).inv(),
        ensures
            old(self).extends(final(self)),
            final(self).inv(),
            old(self).follows(final(self)),
            final(self).loop_stack == old(self).loop_stack,
            final(self).chunk == old(self).chunk,
            list matches Some(c) ==> c is List,
            list is None ==> final(self).had_error,
            list is Some ==> final(self).had_error == old(self).had_error && final(self).pos > old(self).pos
                && final(self).closed_by(TokenKind::RBracket),
        decreases old(self).remaining(), 20int,
    {
        let mut elements: Vec<Constant> = Vec::new();
        let tokens = self.tokens;
        loop
            invariant
                self.inv(),
                old(self).follows(self),
                old(self).extends(self),
                self.loop_stack == old(self).loop_stack,
                self.chunk == old(self).chunk,
                tokens == self.tokens,
                self.had_error == old(self).had_error,
            ensures
                self.pos > old(self).pos,
                self.closed_by(TokenKind::RBracket),
            decreases self.remaining(),
        {
            if self.pos >= self.tokens.len() {
                self.fail();
                return None;
            }
            match &tokens[self.pos].token {
                Token::RBracket => {
                    proof {
                        self.lemma_kind(self.pos as int);
                    }
                    self.advance();
                    break;
                },
                Token::Comma => {
                    self.advance();
                },
                Token::Integer(value) => {
                    self.advance();
                    elements.push(Constant::Integer(*value));
                },
                Token::Float(bits) => {
                    self.advance();
                    elements.push(Constant::Float(*bits));
                },
                Token::String(value) => {
                    self.advance();
                    elements.push(Constant::String(value.clone()));
                },
                Token::LBracket => {
                    self.advance();
                    match self.parse_list_literal() {
                        Some(nested) => elements.push(nested),
                        None => return None,
                    }
                },
                Token::LBrace => {
                    self.advance();
                    match self.parse_dict_literal() {
                        Some(dict) => elements.push(dict),
                        None => return None,
                    }
                },
                _ => {
                    self.fail();
                    return None;
                },
            }
        }
        Some(Constant::List(elements))
    }

    /// Parses a dict literal after its opening brace: string keys mapped to
    /// numbers or strings; a repeated key keeps its first place and takes the
    /// last value.
    fn parse_dict_literal(&mut self) -> (dict: Option<Constant>)
        requires
            old(self).inv(),
        ensures
            old(self).extends(final(self)),
            final(self).inv(),
            old(self).follows(final(self)),
            final(self).loop_stack == old(self).loop_stack,
            final(self).chunk == old(self).chunk,
            dict matches Some(c) ==> c is Dict,
            dict matches Some(Constant::Dict(entries)) ==> entry_keys(entries@).no_duplicates(),
            dict is None ==> final(self).had_error,
            dict is Some ==> final(self).had_error == old(self).had_error && final(self).pos > old(self).pos
                && final(self).closed_by(TokenKind::RBrace),
        decreases old(self).remaining(), 19int,
    {
        let mut entries: Vec<(String, Constant)> = Vec::new();
        let tokens = self.tokens;
        loop
            invariant
                self.inv(),
                old(self).follows(self),
                old(self).extends(self),
                self.loop_stack == old(self).loop_stack,
                self.chunk == old(self).chunk,
                tokens == self.tokens,
                self.had_error == old(self).had_error,
                entry_keys(entries@).no_duplicates(),
            ensures
                self.pos > old(self).pos,
                self.closed_by(TokenKind::RBrace),
            decreases self.remaining(),
        {
            if self.pos >= self.tokens.len() {
                self.fail();
                return None;
            }
            match &tokens[self.pos].token {
                Token::RBrace => {
                    proof {
                        self.lemma_kind(self.pos as int);
                    }
                    self.advance();
                    break;
                },
                Token::Comma => {
                    self.advance();
                },
                Token::String(key) => {
                    self.advance();
                    if !self.next_is(TokenKind::Colon) {
                        self.fail();
                        return None;
                    }
                    if self.pos >= self.tokens.len() {
                        self.fail();
                        return None;
                    }
                    let value = match &tokens[self.pos].token {
                        Token::Integer(v) => Constant::Integer(*v),
                        Token::Float(bits) => Constant::Float(*bits),
                        Token::String(v) => Constant::String(v.clone()),
                        _ => {
                            self.advance();
                            self.fail();
                            return None;
                        },
                    };
                    self.advance();
                    proof {
                        lemma_store_keeps_keys_distinct(entries@, *key, value);
                    }
                    set_entry(&mut entries, key.clone(), value);
                },
                _ => {
                    self.fail();
                    return None;
                },
            }
        }
        Some(Constant::Dict(entries))
    }
}

} // verus!
