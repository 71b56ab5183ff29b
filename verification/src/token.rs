//! The lexer: turns a character sequence into a sequence of tokens.
//!
//! At each position it first tries a number literal, then a function name
//! followed by an opening parenthesis, then the single-character operators;
//! blanks are skipped and any other character is a hard error.

use vstd::prelude::*;

use crate::big_dec;
use crate::big_dec::push_char;
use crate::big_dec::spec_parse;
use crate::big_dec::spec_render;
use crate::big_dec::BigDec;
use crate::big_dec::ParseRes;
use crate::digits::nat_to_digits;
use crate::digits::MAX_LEN;

verus! {

/// The longest function name the lexer accepts.
pub const MAX_NAME_LEN: usize = 12;

/// A short function name, stored inline.
#[derive(Copy, Clone, Debug)]
pub struct Name {
    pub len: u8,
    pub bytes: [u8; MAX_NAME_LEN],
}

impl Name {
    /// The name holds at most MAX_NAME_LEN lowercase letters.
    pub open spec fn wf(self) -> bool {
        self.len <= MAX_NAME_LEN && forall|i: int|
            0 <= i < self.len ==> 97 <= #[trigger] self.bytes@[i] <= 122
    }

    /// The characters of the name.
    pub open spec fn chars(self) -> Seq<char> {
        Seq::new(self.len as nat, |i: int| self.bytes@[i] as char)
    }

    pub fn to_string(&self) -> (r: String)
        requires
            self.wf(),
        ensures
            r@ == self.chars(),
    {
        let mut r = String::new();
        let mut i: usize = 0;
        while i < self.len as usize
            invariant
                self.wf(),
                i <= self.len,
                r@ == self.chars().take(i as int),
            decreases self.len as int - i,
        {
            let b = self.bytes[i];
            push_char(&mut r, b as char);
            proof {
                assert(r@ =~= self.chars().take(i + 1));
            }
            i = i + 1;
        }
        proof {
            assert(self.chars().take(self.len as int) =~= self.chars());
        }
        r
    }
}

/// One lexical token of the expression language.
#[derive(Copy, Clone)]
pub enum Token {
    Nothing,
    Number(BigDec),
    ParOpen,
    ParClose,
    Add,
    Sub,
    Mul,
    Div,
    Mod,
    Fact,
    Func(Name),
}

/// The spec-level shape of a token: numbers by their signed value in raw
/// digit units, function names by their characters.
pub ghost enum TokenModel {
    Nothing,
    Number(int),
    ParOpen,
    ParClose,
    Add,
    Sub,
    Mul,
    Div,
    Mod,
    Fact,
    Func(Seq<char>),
}

/// The display text of a number with value v in raw digit units.
pub open spec fn num_text(v: int) -> Seq<char> {
    spec_render(v < 0, nat_to_digits(crate::big_dec::iabs(v), MAX_LEN as nat))
}

/// The display text of a token model.
pub open spec fn model_text(t: TokenModel) -> Seq<char> {
    match t {
        TokenModel::Nothing => "_"@,
        TokenModel::Number(v) => num_text(v),
        TokenModel::ParOpen => "("@,
        TokenModel::ParClose => ")"@,
        TokenModel::Add => "+"@,
        TokenModel::Sub => "-"@,
        TokenModel::Mul => "*"@,
        TokenModel::Div => "/"@,
        TokenModel::Mod => "%"@,
        TokenModel::Fact => "!"@,
        TokenModel::Func(name) => name.push('('),
    }
}

impl Token {
    /// Numbers carry well-formed digit vectors and names well-formed text.
    pub open spec fn wf(self) -> bool {
        match self {
            Token::Number(nv) => nv.wf(),
            Token::Func(n) => n.wf(),
            _ => true,
        }
    }

    /// The spec-level shape of this token.
    pub open spec fn model(self) -> TokenModel {
        match self {
            Token::Nothing => TokenModel::Nothing,
            Token::Number(nv) => TokenModel::Number(nv.val()),
            Token::ParOpen => TokenModel::ParOpen,
            Token::ParClose => TokenModel::ParClose,
            Token::Add => TokenModel::Add,
            Token::Sub => TokenModel::Sub,
            Token::Mul => TokenModel::Mul,
            Token::Div => TokenModel::Div,
            Token::Mod => TokenModel::Mod,
            Token::Fact => TokenModel::Fact,
            Token::Func(n) => TokenModel::Func(n.chars()),
        }
    }

    pub fn to_string(&self) -> (r: String)
        requires
            self.wf(),
        ensures
            r@ == model_text(self.model()),
    {
        match *self {
            Token::Nothing => String::from_str("_"),
            Token::Number(nv) => {
                let r = nv.to_string();
                proof {
                    crate::digits::lemma_digits_canonical(nv.digits@);
                    if nv.mag() == 0 {
                    }
                }
                r
            },
            Token::ParOpen => String::from_str("("),
            Token::ParClose => String::from_str(")"),
            Token::Add => String::from_str("+"),
            Token::Sub => String::from_str("-"),
            Token::Mul => String::from_str("*"),
            Token::Div => String::from_str("/"),
            Token::Mod => String::from_str("%"),
            Token::Fact => String::from_str("!"),
            Token::Func(ref name) => {
                let mut name_par = name.to_string();
                push_char(&mut name_par, '(');
                proof {
                    assert(name_par@ =~= name.chars().push('('));
                }
                name_par
            },
        }
    }
}

/// What the lexer can report instead of a token.
pub enum Error {
    /// End of input, or no token found where one was optional.
    Nothing,
    /// A character no token can start with.
    BadChar(char),
    /// A malformed number literal.
    BadNum(big_dec::Error),
    /// A function name longer than the fixed maximum.
    FuncTooLong,
    /// A function name not followed by an opening parenthesis.
    FuncMissingPar,
}

impl Error {
    /// The display text of each lexer error.
    pub open spec fn message(self) -> Seq<char> {
        match self {
            Error::Nothing => ""@,
            Error::BadChar(c) => "bad char: '"@.push(c).push('\''),
            Error::BadNum(e) => e.message(),
            Error::FuncTooLong => "function name too long"@,
            Error::FuncMissingPar => "missing function parenthesis"@,
        }
    }

    pub fn to_string(&self) -> (r: String)
        ensures
            r@ == self.message(),
    {
        match *self {
            Error::Nothing => String::from_str(""),
            Error::BadChar(c) => {
                let mut r = String::from_str("bad char: '");
                push_char(&mut r, c);
                push_char(&mut r, '\'');
                r
            },
            Error::BadNum(ref nverr) => nverr.to_string(),
            Error::FuncTooLong => String::from_str("function name too long"),
            Error::FuncMissingPar => String::from_str("missing function parenthesis"),
        }
    }
}

/// Whether c is a lowercase letter.
pub open spec fn is_lower(c: char) -> bool {
    97 <= c as u32 <= 122
}

/// The byte of a lowercase letter.
pub open spec fn lower_byte(c: char) -> u8 {
    (c as u32) as u8
}

/// How scanning a function name ends: with the collected letters and the
/// position after the consumed parenthesis, or with an error.
pub ghost enum FuncRes {
    Found { name: Seq<u8>, end: int },
    Fail { err: Error },
}

/// The scanner for the letters of a function name, after the first: more
/// letters extend the name up to the fixed maximum, an opening parenthesis
/// finishes it, anything else is an error.
pub open spec fn func_loop(chars: Seq<char>, i: int, name: Seq<u8>) -> FuncRes
    decreases chars.len() - i,
{
    if i < 0 || i >= chars.len() {
        FuncRes::Fail { err: Error::Nothing }
    } else {
        let c = chars[i];
        if is_lower(c) {
            if name.len() >= MAX_NAME_LEN {
                FuncRes::Fail { err: Error::FuncTooLong }
            } else {
                func_loop(chars, i + 1, name.push(lower_byte(c)))
            }
        } else if c == '(' {
            FuncRes::Found { name, end: i + 1 }
        } else {
            FuncRes::Fail { err: Error::FuncMissingPar }
        }
    }
}

/// What scanning a function name from position i yields.
pub open spec fn spec_parse_func(chars: Seq<char>, i: int) -> FuncRes {
    if i < 0 || i >= chars.len() {
        FuncRes::Fail { err: Error::Nothing }
    } else if !is_lower(chars[i]) {
        FuncRes::Fail { err: Error::Nothing }
    } else {
        func_loop(chars, i + 1, seq![lower_byte(chars[i])])
    }
}

/// Scans a function name: lowercase letters followed immediately by an
/// opening parenthesis, which is consumed with the name.
fn parse_func(chars: &Vec<char>, pos: &mut usize) -> (r: Result<Name, Error>)
    requires
        *old(pos) <= chars@.len(),
    ensures
        *old(pos) <= *final(pos) <= chars@.len(),
        match r {
            Ok(name) => name.wf() && spec_parse_func(chars@, *old(pos) as int) == (FuncRes::Found {
                name: name.bytes@.take(name.len as int),
                end: *final(pos) as int,
            }) && *final(pos) > *old(pos),
            Err(e) => spec_parse_func(chars@, *old(pos) as int) == (FuncRes::Fail { err: e }) && (e
                is Nothing ==> ((*final(pos) == *old(pos) && (*old(pos) == chars@.len() || !is_lower(
                chars@[*old(pos) as int],
            ))) || (*final(pos) == chars@.len() && *old(pos) < chars@.len() && is_lower(
                chars@[*old(pos) as int],
            )))),
        },
{
    let ghost i0 = *pos as int;
    if *pos >= chars.len() {
        return Err(Error::Nothing);
    }
    let c0 = chars[*pos];
    let x0 = c0 as u32;
    if !(x0 >= 97 && x0 <= 122) {
        return Err(Error::Nothing);
    }
    let mut name = Name { len: 0, bytes: [0u8; MAX_NAME_LEN] };
    let ghost b0 = name.bytes@;
    let b_first = x0 as u8;
    proof {
        assert(97 <= b_first <= 122);
        assert(b_first == lower_byte(c0));
    }
    name.bytes[0] = b_first;
    name.len = 1;
    *pos = *pos + 1;
    proof {
        assert(name.bytes@ =~= b0.update(0, b_first));
        assert(name.bytes@.take(1) =~= seq![lower_byte(chars@[i0])]);
        assert(is_lower(chars@[i0]));
    }
    loop
        invariant
            i0 == *old(pos),
            i0 + 1 <= *pos <= chars@.len(),
            i0 < chars@.len(),
            is_lower(chars@[i0]),
            1 <= name.len <= MAX_NAME_LEN,
            name.wf(),
            spec_parse_func(chars@, i0) == func_loop(
                chars@,
                *pos as int,
                name.bytes@.take(name.len as int),
            ),
        decreases chars@.len() - *pos,
    {
        if *pos >= chars.len() {
            return Err(Error::Nothing);
        }
        let c = chars[*pos];
        let x = c as u32;
        let ghost old_take = name.bytes@.take(name.len as int);
        if x >= 97 && x <= 122 {
            if name.len as usize == MAX_NAME_LEN {
                proof {
                    assert(func_loop(chars@, *pos as int, old_take) == (FuncRes::Fail {
                        err: Error::FuncTooLong,
                    }));
                }
                return Err(Error::FuncTooLong);
            }
            let ghost bp = name.bytes@;
            let b_next = x as u8;
            proof {
                assert(97 <= b_next <= 122);
                assert(b_next == lower_byte(c));
            }
            name.bytes[name.len as usize] = b_next;
            proof {
                assert(name.bytes@ =~= bp.update(name.len as int, b_next));
                assert(name.bytes@.take(name.len + 1) =~= old_take.push(lower_byte(c)));
                assert(func_loop(chars@, *pos as int, old_take) == func_loop(
                    chars@,
                    *pos + 1,
                    name.bytes@.take(name.len + 1),
                ));
            }
            name.len = name.len + 1;
        } else if c == '(' {
            proof {
                assert(func_loop(chars@, *pos as int, old_take) == (FuncRes::Found {
                    name: old_take,
                    end: *pos + 1,
                }));
            }
            *pos = *pos + 1;
            return Ok(name);
        } else {
            proof {
                assert(func_loop(chars@, *pos as int, old_take) == (FuncRes::Fail {
                    err: Error::FuncMissingPar,
                }));
            }
            return Err(Error::FuncMissingPar);
        }
        *pos = *pos + 1;
    }
}

/// How finding the next token ends: a token and the position after it,
/// the clean end of the input, or an error.
pub ghost enum NextRes {
    Tok { t: TokenModel, end: int },
    End,
    Fail { err: Error },
}

/// What the lexer yields at position i: a number first, then a function
/// name, then the single-character tokens, skipping blanks.
pub open spec fn spec_next_token(chars: Seq<char>, i: int) -> NextRes
    decreases chars.len() - i,
{
    match spec_parse(chars, i) {
        ParseRes::Num { v, end } => NextRes::Tok { t: TokenModel::Number(v as int), end },
        ParseRes::Fail { err } => {
            if !(err is ParseNothing) {
                NextRes::Fail { err: Error::BadNum(err) }
            } else {
                match spec_parse_func(chars, i) {
                    FuncRes::Found { name, end } => NextRes::Tok {
                        t: TokenModel::Func(Seq::new(name.len(), |j: int| name[j] as char)),
                        end,
                    },
                    FuncRes::Fail { err } => {
                        if !(err is Nothing) {
                            NextRes::Fail { err }
                        } else if i < 0 || i >= chars.len() {
                            NextRes::End
                        } else if is_lower(chars[i]) {
                            NextRes::End
                        } else {
                            let c = chars[i];
                            if c == '(' {
                                NextRes::Tok { t: TokenModel::ParOpen, end: i + 1 }
                            } else if c == ')' {
                                NextRes::Tok { t: TokenModel::ParClose, end: i + 1 }
                            } else if c == '+' {
                                NextRes::Tok { t: TokenModel::Add, end: i + 1 }
                            } else if c == '-' {
                                NextRes::Tok { t: TokenModel::Sub, end: i + 1 }
                            } else if c == '*' {
                                NextRes::Tok { t: TokenModel::Mul, end: i + 1 }
                            } else if c == '/' {
                                NextRes::Tok { t: TokenModel::Div, end: i + 1 }
                            } else if c == '%' {
                                NextRes::Tok { t: TokenModel::Mod, end: i + 1 }
                            } else if c == '!' {
                                NextRes::Tok { t: TokenModel::Fact, end: i + 1 }
                            } else if c == ' ' {
                                spec_next_token(chars, i + 1)
                            } else {
                                NextRes::Fail { err: Error::BadChar(c) }
                            }
                        }
                    },
                }
            }
        },
    }
}

/// Finds the next token, advancing pos past it and past any blanks.
fn next_token(chars: &Vec<char>, pos: &mut usize) -> (r: Result<Token, Error>)
    requires
        *old(pos) <= chars@.len(),
    ensures
        *old(pos) <= *final(pos) <= chars@.len(),
        match r {
            Ok(t) => t.wf() && spec_next_token(chars@, *old(pos) as int) == (NextRes::Tok {
                t: t.model(),
                end: *final(pos) as int,
            }) && *final(pos) > *old(pos),
            Err(e) => if e is Nothing {
                spec_next_token(chars@, *old(pos) as int) == NextRes::End
            } else {
                spec_next_token(chars@, *old(pos) as int) == (NextRes::Fail { err: e })
            },
        },
{
    let ghost i0 = *pos as int;
    loop
        invariant
            i0 == *old(pos),
            i0 <= *pos <= chars@.len(),
            spec_next_token(chars@, i0) == spec_next_token(chars@, *pos as int),
        decreases chars@.len() - *pos,
    {
        let num_res = BigDec::parse_chars(chars, pos);
        match num_res {
            Ok(num) => {
                return Ok(Token::Number(num));
            },
            Err(err) => {
                match err {
                    big_dec::Error::ParseNothing => {
                    },
                    _ => {
                        return Err(Error::BadNum(err));
                    },
                }
            },
        }
        let func_name_res = parse_func(chars, pos);
        match func_name_res {
            Ok(func_name) => {
                proof {
                    assert(Seq::new(
                        func_name.bytes@.take(func_name.len as int).len(),
                        |j: int| func_name.bytes@.take(func_name.len as int)[j] as char,
                    ) =~= func_name.chars());
                }
                return Ok(Token::Func(func_name));
            },
            Err(err) => {
                match err {
                    Error::Nothing => {
                    },
                    _ => {
                        return Err(err);
                    },
                }
            },
        }
        if *pos >= chars.len() {
            return Err(Error::Nothing);
        }
        let c = chars[*pos];
        *pos = *pos + 1;
        if c == '(' {
            return Ok(Token::ParOpen);
        } else if c == ')' {
            return Ok(Token::ParClose);
        } else if c == '+' {
            return Ok(Token::Add);
        } else if c == '-' {
            return Ok(Token::Sub);
        } else if c == '*' {
            return Ok(Token::Mul);
        } else if c == '/' {
            return Ok(Token::Div);
        } else if c == '%' {
            return Ok(Token::Mod);
        } else if c == '!' {
            return Ok(Token::Fact);
        } else if c == ' ' {
        } else {
            return Err(Error::BadChar(c));
        }
    }
}

/// The spec-level shapes of a token vector.
pub open spec fn token_models(ts: Seq<Token>) -> Seq<TokenModel> {
    Seq::new(ts.len(), |i: int| ts[i].model())
}

/// What tokenizing a whole character sequence from position i yields.
pub open spec fn spec_tokenize(chars: Seq<char>, i: int) -> Result<Seq<TokenModel>, Error>
    decreases chars.len() - i,
{
    match spec_next_token(chars, i) {
        NextRes::End => Ok(Seq::empty()),
        NextRes::Fail { err } => Err(err),
        NextRes::Tok { t, end } => {
            if i < end <= chars.len() {
                match spec_tokenize(chars, end) {
                    Ok(rest) => Ok(seq![t] + rest),
                    Err(e) => Err(e),
                }
            } else {
                Err(Error::Nothing)
            }
        },
    }
}

/// Appending a prefix of already-lexed tokens in front of an outcome.
pub open spec fn tok_append(pre: Seq<TokenModel>, r: Result<Seq<TokenModel>, Error>) -> Result<
    Seq<TokenModel>,
    Error,
> {
    match r {
        Ok(s) => Ok(pre + s),
        Err(e) => Err(e),
    }
}

/// Lexes the whole input into a token vector, or reports the first error.
pub fn tokenize(input: &str) -> (r: Result<Vec<Token>, Error>)
    ensures
        match r {
            Ok(ts) => spec_tokenize(input@, 0) == Ok::<Seq<TokenModel>, Error>(token_models(ts@))
                && (forall|i: int| 0 <= i < ts@.len() ==> ts@[i].wf()),
            Err(e) => spec_tokenize(input@, 0) == Err::<Seq<TokenModel>, Error>(e),
        },
{
    let chars = crate::big_dec::str_to_chars(input);
    let mut ret: Vec<Token> = Vec::new();
    let mut pos: usize = 0;
    proof {
        assert(token_models(ret@) =~= Seq::<TokenModel>::empty());
    }
    loop
        invariant
            pos <= chars@.len(),
            chars@ == input@,
            forall|i: int| 0 <= i < ret@.len() ==> ret@[i].wf(),
            spec_tokenize(input@, 0) == tok_append(
                token_models(ret@),
                spec_tokenize(input@, pos as int),
            ),
        decreases chars@.len() - pos + 1,
    {
        let ghost p0 = pos as int;
        let token_res = next_token(&chars, &mut pos);
        match token_res {
            Ok(token) => {
                let ghost old_models = token_models(ret@);
                ret.push(token);
                proof {
                    assert(token_models(ret@) =~= old_models.push(token.model()));
                    match spec_tokenize(input@, p0) {
                        Ok(rest) => {
                            assert(old_models + rest =~= token_models(ret@) + rest.drop_first());
                            assert(spec_tokenize(input@, pos as int) is Ok ==> rest.drop_first()
                                =~= spec_tokenize(input@, pos as int)->Ok_0);
                        },
                        Err(_) => {},
                    }
                }
            },
            Err(err) => {
                match err {
                    Error::Nothing => {
                        proof {
                            assert(token_models(ret@) + Seq::<TokenModel>::empty() =~=
                                token_models(ret@));
                        }
                        return Ok(ret);
                    },
                    _ => {
                        return Err(err);
                    },
                }
            },
        }
    }
}

} // verus!
