//! The lexer and the parser of Postfix programs.
use std::collections::VecDeque;
use vstd::prelude::*;

use crate::numbers::{parse_isize, spec_parse_isize};
use crate::postfix::{commands_model, lemma_commands_model_push, BinaryOp, Command, CommandModel};
use crate::text::{matches_at, to_chars};

verus! {

/// A token of a Postfix program.
#[derive(Clone, Debug, PartialEq)]
pub enum Token {
    LParen,
    RParen,
    Postfix,
    Number(isize),
    Command(String),
    EOF,
}

/// What a token stands for, with a command's name as its characters.
pub enum TokenModel {
    LParen,
    RParen,
    Postfix,
    Number(isize),
    Command(Seq<char>),
    Eof,
}

impl View for Token {
    type V = TokenModel;

    open spec fn view(&self) -> TokenModel {
        match self {
            Token::LParen => TokenModel::LParen,
            Token::RParen => TokenModel::RParen,
            Token::Postfix => TokenModel::Postfix,
            Token::Number(n) => TokenModel::Number(*n),
            Token::Command(s) => TokenModel::Command(s@),
            Token::EOF => TokenModel::Eof,
        }
    }
}

/// The models of a sequence of tokens.
pub open spec fn tokens_model(ts: Seq<Token>) -> Seq<TokenModel> {
    ts.map_values(|t: Token| t@)
}

/// Why a program could not be lexed or parsed.
#[derive(Clone, Copy, Debug, PartialEq, Eq, Structural)]
pub enum ParseError {
    InvalidCharacter,
    UnknownCommand,
    UnexpectedToken,
    UnexpectedEOF,
    InvalidNumber,
    InvalidSyntax,
    InvalidArgumentCount,
}

impl ParseError {
    /// The message that describes this error.
    pub fn message(&self) -> (r: &'static str)
        ensures
            r@ == spec_parse_error_message(*self),
    {
        proof {
            reveal_strlit("invalid character");
            reveal_strlit("unknown command");
            reveal_strlit("unexpected token");
            reveal_strlit("unexpected EOF");
            reveal_strlit("invalid number");
            reveal_strlit("invalid syntax");
            reveal_strlit("invalid argument count");
        }
        match self {
            ParseError::InvalidCharacter => "invalid character",
            ParseError::UnknownCommand => "unknown command",
            ParseError::UnexpectedToken => "unexpected token",
            ParseError::UnexpectedEOF => "unexpected EOF",
            ParseError::InvalidNumber => "invalid number",
            ParseError::InvalidSyntax => "invalid syntax",
            ParseError::InvalidArgumentCount => "invalid argument count",
        }
    }
}

/// The message of each parse error.
pub open spec fn spec_parse_error_message(e: ParseError) -> Seq<char> {
    match e {
        ParseError::InvalidCharacter => "invalid character"@,
        ParseError::UnknownCommand => "unknown command"@,
        ParseError::UnexpectedToken => "unexpected token"@,
        ParseError::UnexpectedEOF => "unexpected EOF"@,
        ParseError::InvalidNumber => "invalid number"@,
        ParseError::InvalidSyntax => "invalid syntax"@,
        ParseError::InvalidArgumentCount => "invalid argument count"@,
    }
}

/// The keyword that opens a program.
pub open spec fn postfix_keyword() -> Seq<char> {
    seq!['p', 'o', 's', 't', 'f', 'i', 'x']
}

/// Whether `c` is an ASCII lower-case letter.
pub open spec fn is_lower(c: char) -> bool {
    'a' <= c && c <= 'z'
}

/// The end of the run of ASCII lower-case letters that starts at `i`.
pub open spec fn lower_end(s: Seq<char>, i: int) -> int
    decreases s.len() - i,
{
    if 0 <= i < s.len() && is_lower(s[i]) {
        lower_end(s, i + 1)
    } else {
        i
    }
}

/// The end of the run of ASCII digits that starts at `i`.
pub open spec fn digit_end(s: Seq<char>, i: int) -> int
    decreases s.len() - i,
{
    if 0 <= i < s.len() && crate::numbers::is_digit(s[i]) {
        digit_end(s, i + 1)
    } else {
        i
    }
}

/// `t` put in front of the tokens of `r`, or the error of `r`.
pub open spec fn prepend_tokens(t: Seq<TokenModel>, r: Result<Seq<TokenModel>, ParseError>) -> Result<
    Seq<TokenModel>,
    ParseError,
> {
    match r {
        Ok(ts) => Ok(t + ts),
        Err(e) => Err(e),
    }
}

/// The tokens of `s[i..]`, ending with `Eof`, or the first error met.
///
/// `(` and `)` are tokens of their own; a lower-case letter starts a word
/// that runs over the following lower-case letters, the keyword `postfix`
/// or a command; a digit or `-` starts a number that runs over the
/// following digits and must read as an `isize`; a space separates tokens;
/// any other character is refused.
pub open spec fn lex_from(s: Seq<char>, i: int) -> Result<Seq<TokenModel>, ParseError>
    decreases s.len() - i,
{
    if i < 0 || i >= s.len() {
        Ok(seq![TokenModel::Eof])
    } else {
        let c = s[i];
        if c == '(' {
            prepend_tokens(seq![TokenModel::LParen], lex_from(s, i + 1))
        } else if c == ')' {
            prepend_tokens(seq![TokenModel::RParen], lex_from(s, i + 1))
        } else if is_lower(c) {
            let e = lower_end(s, i + 1);
            let word = s.subrange(i, e);
            let t = if word == postfix_keyword() {
                TokenModel::Postfix
            } else {
                TokenModel::Command(word)
            };
            proof {
                lemma_lower_end(s, i + 1);
            }
            prepend_tokens(seq![t], lex_from(s, e))
        } else if crate::numbers::is_digit(c) || c == '-' {
            let e = digit_end(s, i + 1);
            proof {
                lemma_digit_end(s, i + 1);
            }
            match spec_parse_isize(s.subrange(i, e)) {
                None => Err(ParseError::InvalidNumber),
                Some(n) => prepend_tokens(seq![TokenModel::Number(n)], lex_from(s, e)),
            }
        } else if c == ' ' {
            lex_from(s, i + 1)
        } else {
            Err(ParseError::InvalidCharacter)
        }
    }
}

/// The tokens of a whole program text.
pub open spec fn spec_lex(s: Seq<char>) -> Result<Seq<TokenModel>, ParseError> {
    lex_from(s, 0)
}

/// The run of lower-case letters from `i` ends within the text, holds only
/// lower-case letters, and stops before one that is not.
pub proof fn lemma_lower_end(s: Seq<char>, i: int)
    requires
        0 <= i <= s.len(),
    ensures
        i <= lower_end(s, i) <= s.len(),
        forall|j: int| i <= j < lower_end(s, i) ==> is_lower(#[trigger] s[j]),
        lower_end(s, i) < s.len() ==> !is_lower(s[lower_end(s, i)]),
    decreases s.len() - i,
{
    if i < s.len() && is_lower(s[i]) {
        lemma_lower_end(s, i + 1);
    }
}

/// The run of digits from `i` ends within the text, holds only digits, and
/// stops before a character that is not one.
pub proof fn lemma_digit_end(s: Seq<char>, i: int)
    requires
        0 <= i <= s.len(),
    ensures
        i <= digit_end(s, i) <= s.len(),
        forall|j: int| i <= j < digit_end(s, i) ==> crate::numbers::is_digit(#[trigger] s[j]),
        digit_end(s, i) < s.len() ==> !crate::numbers::is_digit(s[digit_end(s, i)]),
    decreases s.len() - i,
{
    if i < s.len() && crate::numbers::is_digit(s[i]) {
        lemma_digit_end(s, i + 1);
    }
}

/// Putting `p` and then `t` in front of a result is putting `p + t` there.
proof fn lemma_prepend_assoc(
    p: Seq<TokenModel>,
    t: Seq<TokenModel>,
    r: Result<Seq<TokenModel>, ParseError>,
)
    ensures
        prepend_tokens(p, prepend_tokens(t, r)) == prepend_tokens(p + t, r),
{
    match r {
        Ok(ts) => {
            assert(p + (t + ts) =~= (p + t) + ts);
        },
        Err(e) => {},
    }
}

/// Splits a program text into tokens, ending with `EOF`.
pub fn lexer(input: &str) -> (r: Result<VecDeque<Token>, ParseError>)
    ensures
        match r {
            Ok(q) => spec_lex(input@) == Ok::<Seq<TokenModel>, ParseError>(tokens_model(q@)),
            Err(e) => spec_lex(input@) == Err::<Seq<TokenModel>, ParseError>(e),
        },
{
    let s = to_chars(input);
    let n = s.len();
    let mut result: VecDeque<Token> = VecDeque::new();
    let mut i: usize = 0;
    let keyword = ['p', 'o', 's', 't', 'f', 'i', 'x'];
    assert(keyword@ =~= postfix_keyword());
    while i < n
        invariant
            s@ == input@,
            n == s.len(),
            i <= n,
            keyword@ == postfix_keyword(),
            spec_lex(input@) == prepend_tokens(tokens_model(result@), lex_from(s@, i as int)),
        decreases n - i,
    {
        let ghost before = tokens_model(result@);
        let c = s[i];
        if c == '(' {
            result.push_back(Token::LParen);
            proof {
                lemma_prepend_assoc(before, seq![TokenModel::LParen], lex_from(s@, i + 1));
                assert(tokens_model(result@) =~= before + seq![TokenModel::LParen]);
            }
            i = i + 1;
        } else if c == ')' {
            result.push_back(Token::RParen);
            proof {
                lemma_prepend_assoc(before, seq![TokenModel::RParen], lex_from(s@, i + 1));
                assert(tokens_model(result@) =~= before + seq![TokenModel::RParen]);
            }
            i = i + 1;
        } else if 'a' <= c && c <= 'z' {
            let mut e = i + 1;
            while e < n && 'a' <= s[e] && s[e] <= 'z'
                invariant
                    i < e <= n,
                    n == s.len(),
                    lower_end(s@, i + 1) == lower_end(s@, e as int),
                decreases n - e,
            {
                e = e + 1;
            }
            let ghost word = s@.subrange(i as int, e as int);
            let t = if matches_at(&s, i, e, &keyword) {
                Token::Postfix
            } else {
                Token::Command(String::from_str(input.substring_char(i, e)))
            };
            result.push_back(t);
            proof {
                let tm = if word == postfix_keyword() {
                    TokenModel::Postfix
                } else {
                    TokenModel::Command(word)
                };
                assert(t@ == tm);
                lemma_prepend_assoc(before, seq![tm], lex_from(s@, e as int));
                assert(tokens_model(result@) =~= before + seq![tm]);
            }
            i = e;
        } else if ('0' <= c && c <= '9') || c == '-' {
            let mut e = i + 1;
            while e < n && '0' <= s[e] && s[e] <= '9'
                invariant
                    i < e <= n,
                    n == s.len(),
                    digit_end(s@, i + 1) == digit_end(s@, e as int),
                decreases n - e,
            {
                e = e + 1;
            }
            match parse_isize(&s, i, e) {
                None => {
                    return Err(ParseError::InvalidNumber);
                },
                Some(v) => {
                    result.push_back(Token::Number(v));
                    proof {
                        lemma_prepend_assoc(
                            before,
                            seq![TokenModel::Number(v)],
                            lex_from(s@, e as int),
                        );
                        assert(tokens_model(result@) =~= before + seq![TokenModel::Number(v)]);
                    }
                    i = e;
                },
            }
        } else if c == ' ' {
            i = i + 1;
        } else {
            return Err(ParseError::InvalidCharacter);
        }
    }
    let ghost before = tokens_model(result@);
    result.push_back(Token::EOF);
    assert(tokens_model(result@) =~= before + seq![TokenModel::Eof]);
    Ok(result)
}

} // verus!

verus! {

/// The command that a command word names, if any.
pub open spec fn command_of_word(w: Seq<char>) -> Option<CommandModel> {
    if w == seq!['s', 'w', 'a', 'p'] {
        Some(CommandModel::Swap)
    } else if w == seq!['p', 'o', 'p'] {
        Some(CommandModel::Pop)
    } else if w == seq!['n', 'g', 'e', 't'] {
        Some(CommandModel::Nget)
    } else if w == seq!['e', 'x', 'e', 'c'] {
        Some(CommandModel::Exec)
    } else if w == seq!['s', 'e', 'l'] {
        Some(CommandModel::Sel)
    } else if w == seq!['a', 'd', 'd'] {
        Some(CommandModel::BinaryOp(BinaryOp::Add))
    } else if w == seq!['s', 'u', 'b'] {
        Some(CommandModel::BinaryOp(BinaryOp::Sub))
    } else if w == seq!['m', 'u', 'l'] {
        Some(CommandModel::BinaryOp(BinaryOp::Mul))
    } else if w == seq!['d', 'i', 'v'] {
        Some(CommandModel::BinaryOp(BinaryOp::Div))
    } else if w == seq!['r', 'e', 'm'] {
        Some(CommandModel::BinaryOp(BinaryOp::Rem))
    } else if w == seq!['l', 't'] {
        Some(CommandModel::BinaryOp(BinaryOp::LT))
    } else if w == seq!['g', 't'] {
        Some(CommandModel::BinaryOp(BinaryOp::GT))
    } else if w == seq!['e', 'q'] {
        Some(CommandModel::BinaryOp(BinaryOp::EQ))
    } else {
        None
    }
}

/// `c` put in front of the commands of `r`, or the error of `r`.
pub open spec fn prepend_command(c: CommandModel, r: Result<Seq<CommandModel>, ParseError>) -> Result<
    Seq<CommandModel>,
    ParseError,
> {
    match r {
        Ok(cs) => Ok(seq![c] + cs),
        Err(e) => Err(e),
    }
}

/// Reads commands from the front of `ts` up to the `)` that closes the
/// current level, or up to the end of `ts`: the result, and the tokens left
/// after the ones that were taken.
///
/// A `(` opens an executable sequence, read the same way; a number or a
/// known command word is a command; `postfix`, the end token and an unknown
/// word are refused.
pub open spec fn spec_parse_rec(ts: Seq<TokenModel>) -> (
    Result<Seq<CommandModel>, ParseError>,
    Seq<TokenModel>,
)
    decreases ts.len(),
{
    if ts.len() == 0 {
        (Ok(Seq::empty()), ts)
    } else {
        let tail = ts.drop_first();
        match ts[0] {
            TokenModel::LParen => {
                let (inner, rest) = spec_parse_rec(tail);
                match inner {
                    Err(e) => (Err(e), rest),
                    Ok(cs) => if rest.len() < ts.len() {
                        let (more, rest2) = spec_parse_rec(rest);
                        (prepend_command(CommandModel::ExecutableSequence(cs), more), rest2)
                    } else {
                        // never taken: what is left is never longer than what was given
                        (Err(ParseError::InvalidSyntax), rest)
                    },
                }
            },
            TokenModel::Number(n) => {
                let (more, rest) = spec_parse_rec(tail);
                (prepend_command(CommandModel::Number(n), more), rest)
            },
            TokenModel::RParen => (Ok(Seq::empty()), tail),
            TokenModel::Postfix => (Err(ParseError::UnexpectedToken), tail),
            TokenModel::Command(w) => match command_of_word(w) {
                None => (Err(ParseError::UnknownCommand), tail),
                Some(c) => {
                    let (more, rest) = spec_parse_rec(tail);
                    (prepend_command(c, more), rest)
                },
            },
            TokenModel::Eof => (Err(ParseError::UnexpectedEOF), tail),
        }
    }
}

/// What is left after reading commands is a suffix of what was given.
pub proof fn lemma_parse_rec_suffix(ts: Seq<TokenModel>)
    ensures
        spec_parse_rec(ts).1.len() <= ts.len(),
        spec_parse_rec(ts).1 == ts.subrange(
            ts.len() - spec_parse_rec(ts).1.len(),
            ts.len() as int,
        ),
    decreases ts.len(),
{
    if ts.len() > 0 {
        let tail = ts.drop_first();
        lemma_parse_rec_suffix(tail);
        let rest = spec_parse_rec(tail).1;
        assert(tail.subrange(tail.len() - rest.len(), tail.len() as int) =~= ts.subrange(
            ts.len() - rest.len(),
            ts.len() as int,
        ));
        match ts[0] {
            TokenModel::LParen => {
                if spec_parse_rec(tail).0 is Ok {
                    lemma_parse_rec_suffix(rest);
                    let rest2 = spec_parse_rec(rest).1;
                    assert(rest.subrange(rest.len() - rest2.len(), rest.len() as int)
                        =~= ts.subrange(ts.len() - rest2.len(), ts.len() as int));
                }
            },
            _ => {
                assert(tail =~= ts.subrange(ts.len() - tail.len(), ts.len() as int));
            },
        }
    } else {
        assert(ts =~= ts.subrange(0, 0));
    }
}

/// Takes the first token off `ts` and compares it with `t`: the result, and
/// the tokens left.
pub open spec fn spec_expect(ts: Seq<TokenModel>, t: TokenModel) -> (
    Result<(), ParseError>,
    Seq<TokenModel>,
) {
    if ts.len() == 0 {
        (Err(ParseError::InvalidSyntax), ts)
    } else if ts[0] == t {
        (Ok(()), ts.drop_first())
    } else {
        (Err(ParseError::UnexpectedToken), ts.drop_first())
    }
}

/// Takes the argument count off `ts`: a number that is not negative.
pub open spec fn spec_argc(ts: Seq<TokenModel>) -> (Result<usize, ParseError>, Seq<TokenModel>) {
    if ts.len() == 0 {
        (Err(ParseError::InvalidSyntax), ts)
    } else {
        match ts[0] {
            TokenModel::Number(n) => if n >= 0 {
                (Ok(n as usize), ts.drop_first())
            } else {
                (Err(ParseError::InvalidArgumentCount), ts.drop_first())
            },
            _ => (Err(ParseError::InvalidSyntax), ts.drop_first()),
        }
    }
}

/// Parses a whole program `( postfix <count> <commands> ) <end>`: the
/// argument count and the commands, or the first error met; and the tokens
/// left.
pub open spec fn spec_parse(ts: Seq<TokenModel>) -> (
    Result<(usize, Seq<CommandModel>), ParseError>,
    Seq<TokenModel>,
) {
    let (r1, ts1) = spec_expect(ts, TokenModel::LParen);
    if r1 is Err {
        (Err(r1->Err_0), ts1)
    } else {
        let (r2, ts2) = spec_expect(ts1, TokenModel::Postfix);
        if r2 is Err {
            (Err(r2->Err_0), ts2)
        } else {
            let (r3, ts3) = spec_argc(ts2);
            match r3 {
                Err(e) => (Err(e), ts3),
                Ok(argc) => {
                    let (r4, ts4) = spec_parse_rec(ts3);
                    match r4 {
                        Err(e) => (Err(e), ts4),
                        Ok(cs) => {
                            let (r5, ts5) = spec_expect(ts4, TokenModel::Eof);
                            match r5 {
                                Err(e) => (Err(e), ts5),
                                Ok(_) => (Ok((argc, cs)), ts5),
                            }
                        },
                    }
                },
            }
        }
    }
}

/// Whether two tokens are the same.
fn same_token(a: &Token, b: &Token) -> (r: bool)
    ensures
        r == (a@ == b@),
{
    match (a, b) {
        (Token::LParen, Token::LParen) => true,
        (Token::RParen, Token::RParen) => true,
        (Token::Postfix, Token::Postfix) => true,
        (Token::Number(x), Token::Number(y)) => *x == *y,
        (Token::Command(x), Token::Command(y)) => *x == *y,
        (Token::EOF, Token::EOF) => true,
        _ => false,
    }
}

/// Takes the first token off `input` and checks that it is `token`.
fn expect(input: &mut VecDeque<Token>, token: Token) -> (r: Result<(), ParseError>)
    ensures
        (r, tokens_model(final(input)@)) == spec_expect(tokens_model(old(input)@), token@),
{
    proof {
        if old(input)@.len() > 0 {
            assert(tokens_model(old(input)@.drop_first()) =~= tokens_model(
                old(input)@,
            ).drop_first());
        }
    }
    match input.pop_front() {
        None => Err(ParseError::InvalidSyntax),
        Some(t) => if same_token(&t, &token) {
            Ok(())
        } else {
            Err(ParseError::UnexpectedToken)
        },
    }
}

} // verus!

verus! {

/// The command that the word `s[start..end]` names, if any.
pub(crate) fn command_at(s: &Vec<char>, start: usize, end: usize) -> (r: Option<Command>)
    requires
        start <= end <= s.len(),
    ensures
        match r {
            None => command_of_word(s@.subrange(start as int, end as int)) is None,
            Some(c) => command_of_word(s@.subrange(start as int, end as int)) == Some(c.model()),
        },
{
    let w_swap = ['s', 'w', 'a', 'p'];
    assert(w_swap@ =~= seq!['s', 'w', 'a', 'p']);
    let w_pop = ['p', 'o', 'p'];
    assert(w_pop@ =~= seq!['p', 'o', 'p']);
    let w_nget = ['n', 'g', 'e', 't'];
    assert(w_nget@ =~= seq!['n', 'g', 'e', 't']);
    let w_exec = ['e', 'x', 'e', 'c'];
    assert(w_exec@ =~= seq!['e', 'x', 'e', 'c']);
    let w_sel = ['s', 'e', 'l'];
    assert(w_sel@ =~= seq!['s', 'e', 'l']);
    let w_add = ['a', 'd', 'd'];
    assert(w_add@ =~= seq!['a', 'd', 'd']);
    let w_sub = ['s', 'u', 'b'];
    assert(w_sub@ =~= seq!['s', 'u', 'b']);
    let w_mul = ['m', 'u', 'l'];
    assert(w_mul@ =~= seq!['m', 'u', 'l']);
    let w_div = ['d', 'i', 'v'];
    assert(w_div@ =~= seq!['d', 'i', 'v']);
    let w_rem = ['r', 'e', 'm'];
    assert(w_rem@ =~= seq!['r', 'e', 'm']);
    let w_lt = ['l', 't'];
    assert(w_lt@ =~= seq!['l', 't']);
    let w_gt = ['g', 't'];
    assert(w_gt@ =~= seq!['g', 't']);
    let w_eq = ['e', 'q'];
    assert(w_eq@ =~= seq!['e', 'q']);
    if matches_at(s, start, end, &w_swap) {
        Some(Command::Swap)
    } else if matches_at(s, start, end, &w_pop) {
        Some(Command::Pop)
    } else if matches_at(s, start, end, &w_nget) {
        Some(Command::Nget)
    } else if matches_at(s, start, end, &w_exec) {
        Some(Command::Exec)
    } else if matches_at(s, start, end, &w_sel) {
        Some(Command::Sel)
    } else if matches_at(s, start, end, &w_add) {
        Some(Command::BinaryOp(BinaryOp::Add))
    } else if matches_at(s, start, end, &w_sub) {
        Some(Command::BinaryOp(BinaryOp::Sub))
    } else if matches_at(s, start, end, &w_mul) {
        Some(Command::BinaryOp(BinaryOp::Mul))
    } else if matches_at(s, start, end, &w_div) {
        Some(Command::BinaryOp(BinaryOp::Div))
    } else if matches_at(s, start, end, &w_rem) {
        Some(Command::BinaryOp(BinaryOp::Rem))
    } else if matches_at(s, start, end, &w_lt) {
        Some(Command::BinaryOp(BinaryOp::LT))
    } else if matches_at(s, start, end, &w_gt) {
        Some(Command::BinaryOp(BinaryOp::GT))
    } else if matches_at(s, start, end, &w_eq) {
        Some(Command::BinaryOp(BinaryOp::EQ))
    } else {
        None
    }
}

/// `acc` put in front of the commands of `r`, or the error of `r`.
pub open spec fn prepend_commands(
    acc: Seq<CommandModel>,
    r: Result<Seq<CommandModel>, ParseError>,
) -> Result<Seq<CommandModel>, ParseError> {
    match r {
        Ok(cs) => Ok(acc + cs),
        Err(e) => Err(e),
    }
}

/// Putting `acc` and then `c` in front of a result is putting `acc` with `c`
/// after it there.
proof fn lemma_prepend_commands(
    acc: Seq<CommandModel>,
    c: CommandModel,
    r: Result<Seq<CommandModel>, ParseError>,
)
    ensures
        prepend_commands(acc, prepend_command(c, r)) == prepend_commands(acc.push(c), r),
{
    match r {
        Ok(cs) => {
            assert(acc + (seq![c] + cs) =~= acc.push(c) + cs);
        },
        Err(e) => {},
    }
}

/// Reads commands from the front of `input` up to the `)` that closes the
/// current level, or up to the end of `input`.
fn parse_rec(input: &mut VecDeque<Token>) -> (r: Result<Vec<Command>, ParseError>)
    ensures
        tokens_model(final(input)@) == spec_parse_rec(tokens_model(old(input)@)).1,
        match r {
            Ok(v) => spec_parse_rec(tokens_model(old(input)@)).0 == Ok::<
                Seq<CommandModel>,
                ParseError,
            >(commands_model(v@)),
            Err(e) => spec_parse_rec(tokens_model(old(input)@)).0 == Err::<
                Seq<CommandModel>,
                ParseError,
            >(e),
        },
    decreases old(input)@.len(),
{
    let ghost ts0 = tokens_model(input@);
    let mut result: Vec<Command> = Vec::new();
    loop
        invariant
            input@.len() <= old(input)@.len(),
            ts0 == tokens_model(old(input)@),
            spec_parse_rec(ts0).1 == spec_parse_rec(tokens_model(input@)).1,
            spec_parse_rec(ts0).0 == prepend_commands(
                commands_model(result@),
                spec_parse_rec(tokens_model(input@)).0,
            ),
        decreases input@.len(),
    {
        let ghost ts = tokens_model(input@);
        let ghost acc = commands_model(result@);
        let ghost v0 = result@;
        proof {
            if ts.len() > 0 {
                assert(tokens_model(input@.drop_first()) =~= ts.drop_first());
                lemma_parse_rec_suffix(ts.drop_first());
            }
        }
        match input.pop_front() {
            None => {
                assert(acc + Seq::<CommandModel>::empty() =~= acc);
                return Ok(result);
            },
            Some(token) => {
                match token {
                    Token::LParen => {
                        assert(ts[0] == TokenModel::LParen);
                        match parse_rec(input) {
                            Err(e) => {
                                return Err(e);
                            },
                            Ok(cs) => {
                                let ghost c = Command::ExecutableSequence(cs).model();
                                result.push(Command::ExecutableSequence(cs));
                                proof {
                                    assert(result@ == v0.push(Command::ExecutableSequence(cs)));
                                    lemma_commands_model_push(v0, Command::ExecutableSequence(cs));
                                    lemma_parse_rec_suffix(tokens_model(input@));
                                    lemma_prepend_commands(
                                        acc,
                                        c,
                                        spec_parse_rec(tokens_model(input@)).0,
                                    );
                                }
                            },
                        }
                    },
                    Token::Number(n) => {
                        assert(ts[0] == TokenModel::Number(n));
                        result.push(Command::Number(n));
                        proof {
                            assert(result@.drop_last() =~= v0);
                            lemma_commands_model_push(v0, Command::Number(n));
                            lemma_prepend_commands(
                                acc,
                                CommandModel::Number(n),
                                spec_parse_rec(tokens_model(input@)).0,
                            );
                        }
                    },
                    Token::RParen => {
                        assert(acc + Seq::<CommandModel>::empty() =~= acc);
                        return Ok(result);
                    },
                    Token::Postfix => {
                        return Err(ParseError::UnexpectedToken);
                    },
                    Token::Command(w) => {
                        let wc = to_chars(w.as_str());
                        assert(wc@.subrange(0, wc.len() as int) =~= w@);
                        match command_at(&wc, 0, wc.len()) {
                            None => {
                                return Err(ParseError::UnknownCommand);
                            },
                            Some(c) => {
                                assert(ts[0] == TokenModel::Command(w@));
                                let ghost cm = c.model();
                                result.push(c);
                                proof {
                                    lemma_commands_model_push(v0, c);
                                    lemma_prepend_commands(
                                        acc,
                                        cm,
                                        spec_parse_rec(tokens_model(input@)).0,
                                    );
                                }
                            },
                        }
                    },
                    Token::EOF => {
                        return Err(ParseError::UnexpectedEOF);
                    },
                }
            },
        }
    }
}

/// Parses the tokens of a program `( postfix <count> <commands> )` followed
/// by the end token: the argument count and the commands.
pub fn parse(input: &mut VecDeque<Token>) -> (r: Result<(usize, Vec<Command>), ParseError>)
    ensures
        tokens_model(final(input)@) == spec_parse(tokens_model(old(input)@)).1,
        match r {
            Ok((argc, v)) => spec_parse(tokens_model(old(input)@)).0 == Ok::<
                (usize, Seq<CommandModel>),
                ParseError,
            >((argc, commands_model(v@))),
            Err(e) => spec_parse(tokens_model(old(input)@)).0 == Err::<
                (usize, Seq<CommandModel>),
                ParseError,
            >(e),
        },
{
    expect(input, Token::LParen)?;
    expect(input, Token::Postfix)?;
    let ghost ts2 = tokens_model(input@);
    proof {
        if ts2.len() > 0 {
            assert(tokens_model(input@.drop_first()) =~= ts2.drop_first());
        }
    }
    let argc: usize = match input.pop_front() {
        None => {
            return Err(ParseError::InvalidSyntax);
        },
        Some(Token::Number(n)) => {
            if n >= 0 {
                n as usize
            } else {
                return Err(ParseError::InvalidArgumentCount);
            }
        },
        Some(_) => {
            return Err(ParseError::InvalidSyntax);
        },
    };
    let result = parse_rec(input)?;
    expect(input, Token::EOF)?;
    Ok((argc, result))
}

} // verus!

verus! {

/// Whenever lexing succeeds, the tokens end with the end token, and it
/// appears nowhere else.
pub proof fn lemma_lex_ends_with_eof(s: Seq<char>, i: int)
    requires
        0 <= i,
    ensures
        lex_from(s, i) matches Ok(ts) ==> {
            &&& ts.len() > 0
            &&& ts.last() == TokenModel::Eof
            &&& forall|k: int| 0 <= k < ts.len() - 1 ==> ts[k] != TokenModel::Eof
        },
    decreases s.len() - i,
{
    if i < s.len() {
        let c = s[i];
        if c == '(' || c == ')' || c == ' ' {
            lemma_lex_ends_with_eof(s, i + 1);
        } else if is_lower(c) {
            lemma_lower_end(s, i + 1);
            lemma_lex_ends_with_eof(s, lower_end(s, i + 1));
        } else if crate::numbers::is_digit(c) || c == '-' {
            lemma_digit_end(s, i + 1);
            lemma_lex_ends_with_eof(s, digit_end(s, i + 1));
        }
        if lex_from(s, i) is Ok {
            let ts = lex_from(s, i)->Ok_0;
            assert forall|k: int| 0 <= k < ts.len() - 1 implies ts[k] != TokenModel::Eof by {
                if k > 0 && (c == '(' || c == ')' || is_lower(c) || crate::numbers::is_digit(c)
                    || c == '-') {
                    if c == '(' || c == ')' {
                        assert(ts[k] == lex_from(s, i + 1)->Ok_0[k - 1]);
                    } else if is_lower(c) {
                        assert(ts[k] == lex_from(s, lower_end(s, i + 1))->Ok_0[k - 1]);
                    } else {
                        assert(ts[k] == lex_from(s, digit_end(s, i + 1))->Ok_0[k - 1]);
                    }
                }
            }
        }
    }
}

/// The text that is written for an integer lexes back as one number token
/// with the same value, then the end token.
pub proof fn lemma_lex_int_text(x: isize)
    ensures
        spec_lex(crate::numbers::int_text(x as int)) == Ok::<Seq<TokenModel>, ParseError>(
            seq![TokenModel::Number(x), TokenModel::Eof],
        ),
{
    let s = crate::numbers::int_text(x as int);
    crate::numbers::lemma_parse_isize_of_text(x);
    crate::numbers::lemma_int_text_shape(x as int);
    lemma_digits_to_end(s, 1);
    assert(s.subrange(0, s.len() as int) =~= s);
    assert(digit_end(s, 1) == s.len());
    assert(lex_from(s, s.len() as int) == Ok::<Seq<TokenModel>, ParseError>(seq![TokenModel::Eof]));
    assert(!is_lower(s[0]) && s[0] != '(' && s[0] != ')');
    assert(seq![TokenModel::Number(x)] + seq![TokenModel::Eof] =~= seq![
        TokenModel::Number(x),
        TokenModel::Eof,
    ]);
}

/// Where every character from `i` on is a digit, the run of digits from `i`
/// reaches the end of the text.
proof fn lemma_digits_to_end(s: Seq<char>, i: int)
    requires
        0 <= i,
        forall|j: int| i <= j < s.len() ==> crate::numbers::is_digit(#[trigger] s[j]),
    ensures
        i <= s.len() ==> digit_end(s, i) == s.len(),
    decreases s.len() - i,
{
    if i < s.len() {
        lemma_digits_to_end(s, i + 1);
    }
}

} // verus!

verus! {

/// Every command word ends with a lower-case ASCII letter.
pub proof fn lemma_command_word_last(w: Seq<char>)
    ensures
        command_of_word(w) is Some ==> w.len() > 0 && is_lower(w.last()),
{
}

} // verus!

verus! {

/// The tokens of two texts lexed one after the other: those of the first
/// without its end token, then those of the second; or the first error.
pub open spec fn join_tokens(
    r1: Result<Seq<TokenModel>, ParseError>,
    r2: Result<Seq<TokenModel>, ParseError>,
) -> Result<Seq<TokenModel>, ParseError> {
    match r1 {
        Err(e) => Err(e),
        Ok(ts) => match r2 {
            Err(e) => Err(e),
            Ok(tt) => Ok(ts.drop_last() + tt),
        },
    }
}

/// A run of lower-case letters in `y` is the same run, moved by `x.len()`,
/// in `x + y`.
proof fn lemma_lower_end_shift(x: Seq<char>, y: Seq<char>, j: int)
    requires
        0 <= j,
    ensures
        lower_end(x + y, x.len() + j) == x.len() + lower_end(y, j),
    decreases y.len() - j,
{
    if j < y.len() {
        assert((x + y)[x.len() + j] == y[j]);
        if is_lower(y[j]) {
            lemma_lower_end_shift(x, y, j + 1);
        }
    }
}

/// A run of digits in `y` is the same run, moved by `x.len()`, in `x + y`.
proof fn lemma_digit_end_shift(x: Seq<char>, y: Seq<char>, j: int)
    requires
        0 <= j,
    ensures
        digit_end(x + y, x.len() + j) == x.len() + digit_end(y, j),
    decreases y.len() - j,
{
    if j < y.len() {
        assert((x + y)[x.len() + j] == y[j]);
        if crate::numbers::is_digit(y[j]) {
            lemma_digit_end_shift(x, y, j + 1);
        }
    }
}

/// Lexing `x + y` from a position in `y` is lexing `y` from there.
proof fn lemma_lex_shift(x: Seq<char>, y: Seq<char>, j: int)
    requires
        0 <= j,
    ensures
        lex_from(x + y, x.len() + j) == lex_from(y, j),
    decreases y.len() - j,
{
    let u = x + y;
    let i = x.len() + j;
    if j < y.len() {
        assert(u[i] == y[j]);
        let c = y[j];
        if c == '(' || c == ')' || c == ' ' {
            lemma_lex_shift(x, y, j + 1);
        } else if is_lower(c) {
            lemma_lower_end(y, j + 1);
            lemma_lower_end_shift(x, y, j + 1);
            let e = lower_end(y, j + 1);
            assert(u.subrange(i, x.len() + e) =~= y.subrange(j, e));
            lemma_lex_shift(x, y, e);
        } else if crate::numbers::is_digit(c) || c == '-' {
            lemma_digit_end(y, j + 1);
            lemma_digit_end_shift(x, y, j + 1);
            let e = digit_end(y, j + 1);
            assert(u.subrange(i, x.len() + e) =~= y.subrange(j, e));
            lemma_lex_shift(x, y, e);
        }
    }
}

/// Where `u` extends `s` with a space, a run of lower-case letters that
/// starts in `s` is the same run in `u`.
proof fn lemma_lower_end_prefix(s: Seq<char>, u: Seq<char>, j: int)
    requires
        0 <= j <= s.len(),
        s.len() < u.len(),
        u[s.len() as int] == ' ',
        forall|k: int| 0 <= k < s.len() ==> u[k] == s[k],
    ensures
        lower_end(u, j) == lower_end(s, j),
    decreases s.len() - j,
{
    if j < s.len() {
        assert(u[j] == s[j]);
        if is_lower(s[j]) {
            lemma_lower_end_prefix(s, u, j + 1);
        }
    }
}

/// Where `u` extends `s` with a space, a run of digits that starts in `s`
/// is the same run in `u`.
proof fn lemma_digit_end_prefix(s: Seq<char>, u: Seq<char>, j: int)
    requires
        0 <= j <= s.len(),
        s.len() < u.len(),
        u[s.len() as int] == ' ',
        forall|k: int| 0 <= k < s.len() ==> u[k] == s[k],
    ensures
        digit_end(u, j) == digit_end(s, j),
    decreases s.len() - j,
{
    if j < s.len() {
        assert(u[j] == s[j]);
        if crate::numbers::is_digit(s[j]) {
            lemma_digit_end_prefix(s, u, j + 1);
        }
    }
}

/// Putting `x` in front of the first of two results commutes with joining
/// them, where the first lexes without error.
proof fn lemma_join_prepend(
    x: Seq<TokenModel>,
    r1: Result<Seq<TokenModel>, ParseError>,
    r2: Result<Seq<TokenModel>, ParseError>,
)
    requires
        r1 matches Ok(ts) ==> ts.len() > 0,
    ensures
        join_tokens(prepend_tokens(x, r1), r2) == prepend_tokens(x, join_tokens(r1, r2)),
{
    if let Ok(ts) = r1 {
        if let Ok(tt) = r2 {
            assert((x + ts).drop_last() + tt =~= x + (ts.drop_last() + tt));
        }
    }
}

/// Lexing `s + " " + t` from a position in `s`.
proof fn lemma_lex_join_from(s: Seq<char>, t: Seq<char>, i: int)
    requires
        0 <= i <= s.len(),
    ensures
        lex_from(s + seq![' '] + t, i) == join_tokens(lex_from(s, i), lex_from(t, 0)),
    decreases s.len() - i,
{
    let u = s + seq![' '] + t;
    let x = s + seq![' '];
    assert(u == x + t);
    assert(u[s.len() as int] == ' ');
    assert forall|k: int| 0 <= k < s.len() implies u[k] == s[k] by {}
    if i == s.len() {
        lemma_lex_shift(x, t, 0);
        assert(lex_from(u, i) == lex_from(u, i + 1));
        match lex_from(t, 0) {
            Ok(tt) => {
                assert(seq![TokenModel::Eof].drop_last() + tt =~= tt);
            },
            Err(_) => {},
        }
    } else {
        let c = s[i];
        assert(u[i] == c);
        if c == '(' || c == ')' {
            lemma_lex_join_from(s, t, i + 1);
            lemma_lex_ends_with_eof(s, i + 1);
            let tok = if c == '(' {
                TokenModel::LParen
            } else {
                TokenModel::RParen
            };
            lemma_join_prepend(seq![tok], lex_from(s, i + 1), lex_from(t, 0));
        } else if is_lower(c) {
            lemma_lower_end(s, i + 1);
            lemma_lower_end_prefix(s, u, i + 1);
            let e = lower_end(s, i + 1);
            assert(u.subrange(i, e) =~= s.subrange(i, e));
            lemma_lex_join_from(s, t, e);
            lemma_lex_ends_with_eof(s, e);
            let w = s.subrange(i, e);
            let tok = if w == postfix_keyword() {
                TokenModel::Postfix
            } else {
                TokenModel::Command(w)
            };
            lemma_join_prepend(seq![tok], lex_from(s, e), lex_from(t, 0));
        } else if crate::numbers::is_digit(c) || c == '-' {
            lemma_digit_end(s, i + 1);
            lemma_digit_end_prefix(s, u, i + 1);
            let e = digit_end(s, i + 1);
            assert(u.subrange(i, e) =~= s.subrange(i, e));
            lemma_lex_join_from(s, t, e);
            lemma_lex_ends_with_eof(s, e);
            if let Some(n) = spec_parse_isize(s.subrange(i, e)) {
                lemma_join_prepend(seq![TokenModel::Number(n)], lex_from(s, e), lex_from(t, 0));
            }
        } else if c == ' ' {
            lemma_lex_join_from(s, t, i + 1);
        }
    }
}

/// Lexing two texts joined by a space gives the tokens of the first without
/// its end token, then the tokens of the second; where either text fails to
/// lex, the first error met (that of the first text if it has one).
pub proof fn lemma_lex_join(s: Seq<char>, t: Seq<char>)
    ensures
        spec_lex(s + seq![' '] + t) == join_tokens(spec_lex(s), spec_lex(t)),
{
    lemma_lex_join_from(s, t, 0);
}

} // verus!

verus! {

/// Every command word is made of lower-case ASCII letters.
pub proof fn lemma_command_word_lower(w: Seq<char>)
    ensures
        command_of_word(w) is Some ==> w.len() > 0 && forall|j: int|
            0 <= j < w.len() ==> is_lower(#[trigger] w[j]),
{
}

} // verus!

verus! {

/// Reading commands never fails for the argument count.
proof fn lemma_parse_rec_not_count_error(ts: Seq<TokenModel>)
    ensures
        spec_parse_rec(ts).0 != Err::<Seq<CommandModel>, ParseError>(
            ParseError::InvalidArgumentCount,
        ),
    decreases ts.len(),
{
    if ts.len() > 0 {
        let tail = ts.drop_first();
        lemma_parse_rec_not_count_error(tail);
        lemma_parse_rec_suffix(tail);
        let rest = spec_parse_rec(tail).1;
        if rest.len() < ts.len() {
            lemma_parse_rec_not_count_error(rest);
        }
    }
}

/// The argument count decides nothing but itself: a program
/// `( postfix n ...` is refused for its count exactly where `n` is negative;
/// where `n` is not negative, whether the program parses does not depend on
/// `n`, and the count read is `n`.
pub proof fn law_parse_count(n: isize, ts: Seq<TokenModel>)
    ensures
        (spec_parse(seq![TokenModel::LParen, TokenModel::Postfix, TokenModel::Number(n)] + ts).0
            == Err::<(usize, Seq<CommandModel>), ParseError>(ParseError::InvalidArgumentCount))
            <==> n < 0,
        n >= 0 ==> (spec_parse(
            seq![TokenModel::LParen, TokenModel::Postfix, TokenModel::Number(n)] + ts,
        ).0 is Ok <==> spec_parse(
            seq![TokenModel::LParen, TokenModel::Postfix, TokenModel::Number(0)] + ts,
        ).0 is Ok),
        n >= 0 ==> (spec_parse(
            seq![TokenModel::LParen, TokenModel::Postfix, TokenModel::Number(n)] + ts,
        ).0 matches Ok((c, _)) ==> c == n as usize),
{
    let s1 = seq![TokenModel::LParen, TokenModel::Postfix, TokenModel::Number(n)] + ts;
    let s0 = seq![TokenModel::LParen, TokenModel::Postfix, TokenModel::Number(0)] + ts;
    assert(s1.drop_first() =~= seq![TokenModel::Postfix, TokenModel::Number(n)] + ts);
    assert(s1.drop_first().drop_first() =~= seq![TokenModel::Number(n)] + ts);
    assert(s1.drop_first().drop_first().drop_first() =~= ts);
    assert(s0.drop_first() =~= seq![TokenModel::Postfix, TokenModel::Number(0)] + ts);
    assert(s0.drop_first().drop_first() =~= seq![TokenModel::Number(0)] + ts);
    assert(s0.drop_first().drop_first().drop_first() =~= ts);
    lemma_parse_rec_not_count_error(ts);
}

/// A program with a count that is not negative and one number parses to
/// that count and that number, whatever the two numbers are.
pub proof fn law_parse_count_and_number(n: isize, x: isize)
    requires
        n >= 0,
    ensures
        spec_parse(
            seq![
                TokenModel::LParen,
                TokenModel::Postfix,
                TokenModel::Number(n),
                TokenModel::Number(x),
                TokenModel::RParen,
                TokenModel::Eof,
            ],
        ) == (
            Ok::<(usize, Seq<CommandModel>), ParseError>(
                (n as usize, seq![CommandModel::Number(x)]),
            ),
            Seq::<TokenModel>::empty(),
        ),
{
    let ts = seq![
        TokenModel::LParen,
        TokenModel::Postfix,
        TokenModel::Number(n),
        TokenModel::Number(x),
        TokenModel::RParen,
        TokenModel::Eof,
    ];
    let t3 = seq![TokenModel::Number(x), TokenModel::RParen, TokenModel::Eof];
    assert(ts.drop_first().drop_first().drop_first() =~= t3);
    assert(t3.drop_first() =~= seq![TokenModel::RParen, TokenModel::Eof]);
    assert(seq![TokenModel::RParen, TokenModel::Eof].drop_first() =~= seq![TokenModel::Eof]);
    assert(seq![TokenModel::Eof].drop_first() =~= Seq::<TokenModel>::empty());
    assert(seq![CommandModel::Number(x)] + Seq::<CommandModel>::empty() =~= seq![
        CommandModel::Number(x),
    ]);
    let r2 = seq![TokenModel::RParen, TokenModel::Eof];
    assert(spec_parse_rec(r2) == (
        Ok::<Seq<CommandModel>, ParseError>(Seq::empty()),
        seq![TokenModel::Eof],
    ));
    assert(spec_parse_rec(t3) == (
        Ok::<Seq<CommandModel>, ParseError>(seq![CommandModel::Number(x)]),
        seq![TokenModel::Eof],
    ));
    assert(spec_argc(ts.drop_first().drop_first()) == (Ok::<usize, ParseError>(n as usize), t3));
}

} // verus!
