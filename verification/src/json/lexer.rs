//! Tokenizer: scans the raw input bytes once, left to right, and produces an
//! ordered sequence of lexical tokens, or reports the first lexical error.

use vstd::prelude::*;

verus! {

use vstd::string::StringSliceAdditionalSpecFns;

/// One lexical unit recognized in the input.
///
/// A `String` token holds the text between the quotes, decoded verbatim:
/// backslash sequences are kept literally, never interpreted. A `Number`
/// token holds the text of the scanned digit/dot/hyphen run, kept only when
/// it denotes a 64-bit floating-point number; the caller parses it at the
/// edge. `WhiteSpace` marks a byte that is skipped; it is never part of a
/// token sequence that `tokenize` returns.
#[derive(Debug, PartialEq, Clone)]
pub enum Token {
    CurlyOpen,
    CurlyClose,
    SquareOpen,
    SquareClose,
    Comma,
    Colon,
    WhiteSpace,
    String(String),
    Number(String),
    Bool(bool),
    Null,
}

/// The mathematical shape of a token: payloads are character sequences.
pub enum TokenModel {
    CurlyOpen,
    CurlyClose,
    SquareOpen,
    SquareClose,
    Comma,
    Colon,
    WhiteSpace,
    String(Seq<char>),
    Number(Seq<char>),
    Bool(bool),
    Null,
}

/// The model of one executable token.
pub open spec fn token_model(t: Token) -> TokenModel {
    match t {
        Token::CurlyOpen => TokenModel::CurlyOpen,
        Token::CurlyClose => TokenModel::CurlyClose,
        Token::SquareOpen => TokenModel::SquareOpen,
        Token::SquareClose => TokenModel::SquareClose,
        Token::Comma => TokenModel::Comma,
        Token::Colon => TokenModel::Colon,
        Token::WhiteSpace => TokenModel::WhiteSpace,
        Token::String(s) => TokenModel::String(s@),
        Token::Number(s) => TokenModel::Number(s@),
        Token::Bool(b) => TokenModel::Bool(b),
        Token::Null => TokenModel::Null,
    }
}

/// The model of an executable token sequence.
pub open spec fn tokens_model(ts: Seq<Token>) -> Seq<TokenModel> {
    ts.map_values(|t: Token| token_model(t))
}

/// The lexical class that failed to match its expected shape. The first
/// lexical error aborts tokenization with no partial token sequence.
#[derive(Debug, Clone, Copy, PartialEq, Eq, Structural)]
pub enum TokenizerError {
    InvalidString,
    InvalidNumber,
    InvalidLiteral,
}

impl TokenizerError {
    /// A human-readable description of the error.
    pub fn message(&self) -> (s: String)
        ensures
            *self is InvalidString ==> s@ == "Invalid string token"@,
            *self is InvalidNumber ==> s@ == "Invalid number token"@,
            *self is InvalidLiteral ==> s@ == "Invalid literal token"@,
    {
        match self {
            TokenizerError::InvalidString => "Invalid string token".to_owned(),
            TokenizerError::InvalidNumber => "Invalid number token".to_owned(),
            TokenizerError::InvalidLiteral => "Invalid literal token".to_owned(),
        }
    }
}

/// Scans an input byte sequence into tokens. Built once over a complete
/// input, consumed once by `tokenize`.
#[derive(Debug, PartialEq, Clone)]
pub struct Tokenizer {
    pub input: Vec<u8>,
}

/// True of the bytes `0` through `9`.
pub open spec fn is_digit_byte(b: u8) -> bool {
    48 <= b && b <= 57
}

/// True of the bytes a number scan consumes: digits, `.` and `-`.
pub open spec fn is_number_byte(b: u8) -> bool {
    is_digit_byte(b) || b == 46 || b == 45
}

/// True of the bytes that start a number scan: digits and `-`.
pub open spec fn is_number_start(b: u8) -> bool {
    is_digit_byte(b) || b == 45
}

/// The position just past the maximal run of digit, `.` and `-` bytes that
/// begins at `j`; the end of the input if the run reaches it.
pub open spec fn number_run_end(input: Seq<u8>, j: int) -> int
    decreases input.len() - j,
{
    if j < 0 || j >= input.len() {
        input.len() as int
    } else if !is_number_byte(input[j]) {
        j
    } else {
        number_run_end(input, j + 1)
    }
}

/// Whether a maximal digit/dot/hyphen run denotes a 64-bit floating-point
/// number: after an optional leading hyphen there is at least one digit, no
/// further hyphen, and at most one dot. This is the documented grammar of
/// Rust's float parsing restricted to these bytes; a run of any magnitude
/// parses (an overflowing value saturates, it does not fail), so the shape
/// alone decides.
pub open spec fn number_parses(run: Seq<u8>) -> bool {
    let start: int = if run.len() > 0 && run[0] == 45 {
        1
    } else {
        0
    };
    &&& exists|k: int| start <= k < run.len() && is_digit_byte(run[k])
    &&& forall|k: int| start <= k < run.len() ==> run[k] != 45
    &&& !(exists|k1: int, k2: int|
        start <= k1 < k2 < run.len() && run[k1] == 46 && run[k2] == 46)
}

/// Every sequence of bytes below 128 is valid UTF-8 and decodes to the
/// characters the bytes spell one by one.
proof fn lemma_ascii_utf8(bytes: Seq<u8>)
    requires
        forall|k: int| 0 <= k < bytes.len() ==> bytes[k] < 128,
    ensures
        vstd::utf8::valid_utf8(bytes),
        vstd::utf8::decode_utf8(bytes) =~= bytes.map_values(|b: u8| b as char),
    decreases bytes.len(),
{
    if bytes.len() > 0 {
        let b = bytes[0];
        assert(b & 0x7f == b) by (bit_vector)
            requires
                b < 128,
        ;
        assert(vstd::utf8::valid_first_scalar(bytes));
        assert(vstd::utf8::length_of_first_scalar(bytes) == 1);
        assert(vstd::utf8::pop_first_scalar(bytes) =~= bytes.drop_first());
        lemma_ascii_utf8(bytes.drop_first());
        assert(vstd::utf8::valid_utf8(bytes));
        assert(vstd::utf8::decode_utf8(bytes) =~= bytes.map_values(|c: u8| c as char));
    } else {
        assert(vstd::utf8::decode_utf8(bytes) =~= bytes.map_values(|c: u8| c as char));
    }
}

/// Relies on `String::from_utf8` from std: it succeeds exactly on valid
/// UTF-8 input and returns that input decoded, as vstd's `utf8` module
/// defines validity and decoding.
#[verifier::external_body]
fn bytes_to_string(bytes: Vec<u8>) -> (r: Option<String>)
    ensures
        r is Some <==> vstd::utf8::valid_utf8(bytes@),
        r matches Some(s) ==> s@ == vstd::utf8::decode_utf8(bytes@),
{
    String::from_utf8(bytes).ok()
}

/// The position of the first closing quote for a string opened at `start`,
/// looking from `e` on: the first quote that either immediately follows the
/// opening quote or is not preceded by a backslash. `None` when no such
/// quote exists before the end of the input.
pub open spec fn find_close(input: Seq<u8>, start: int, e: int) -> Option<int>
    decreases input.len() - e,
{
    if e < start + 1 || e >= input.len() {
        None
    } else if input[e] == 34 && (e == start + 1 || input[e - 1] != 92) {
        Some(e)
    } else {
        find_close(input, start, e + 1)
    }
}

/// One dispatch step of the scanner at position `i`: the token recognized
/// there together with how far the scan advances past it, or the lexical
/// error that aborts the scan. A `WhiteSpace` token stands for a skipped
/// byte; every advance is the width of the consumed source slice.
pub open spec fn spec_step(input: Seq<u8>, i: int) -> Result<(TokenModel, int), TokenizerError>
    recommends
        0 <= i < input.len(),
{
    let b = input[i];
    if b == 123 {  // {
        Ok((TokenModel::CurlyOpen, 1))
    } else if b == 125 {  // }
        Ok((TokenModel::CurlyClose, 1))
    } else if b == 44 {  // ,
        Ok((TokenModel::Comma, 1))
    } else if b == 91 {  // [
        Ok((TokenModel::SquareOpen, 1))
    } else if b == 93 {  // ]
        Ok((TokenModel::SquareClose, 1))
    } else if b == 58 {  // :
        Ok((TokenModel::Colon, 1))
    } else if b == 110 {  // n: the literal null
        if i + 4 <= input.len() && input[i + 1] == 117 && input[i + 2] == 108 && input[i + 3]
            == 108 {
            Ok((TokenModel::Null, 4))
        } else {
            Err(TokenizerError::InvalidLiteral)
        }
    } else if b == 102 {  // f: the literal false
        if i + 5 <= input.len() && input[i + 1] == 97 && input[i + 2] == 108 && input[i + 3] == 115
            && input[i + 4] == 101 {
            Ok((TokenModel::Bool(false), 5))
        } else {
            Err(TokenizerError::InvalidLiteral)
        }
    } else if b == 116 {  // t: the literal true
        if i + 4 <= input.len() && input[i + 1] == 114 && input[i + 2] == 117 && input[i + 3]
            == 101 {
            Ok((TokenModel::Bool(true), 4))
        } else {
            Err(TokenizerError::InvalidLiteral)
        }
    } else if b == 34 {  // " opens a string
        match find_close(input, i, i + 1) {
            Some(e) => {
                let content = input.subrange(i + 1, e);
                if vstd::utf8::valid_utf8(content) {
                    Ok((TokenModel::String(vstd::utf8::decode_utf8(content)), e - i + 1))
                } else {
                    Err(TokenizerError::InvalidString)
                }
            },
            None => Err(TokenizerError::InvalidString),
        }
    } else if is_number_start(b) {
        let j = number_run_end(input, i);
        let run = input.subrange(i, j);
        if number_parses(run) {
            Ok((TokenModel::Number(run.map_values(|c: u8| c as char)), j - i))
        } else {
            Err(TokenizerError::InvalidNumber)
        }
    } else {
        Ok((TokenModel::WhiteSpace, 1))
    }
}

/// The token sequence scanned from position `i` to the end of the input,
/// whitespace skipped, or the first lexical error. The scan past each token
/// advances by the token's own width, as `spec_step` gives it.
pub open spec fn spec_tokenize_from(input: Seq<u8>, i: int) -> Result<
    Seq<TokenModel>,
    TokenizerError,
>
    decreases input.len() - i,
{
    if i < 0 || i >= input.len() {
        Ok(seq![])
    } else {
        match spec_step(input, i) {
            Err(e) => Err(e),
            Ok((t, adv)) => {
                // Every step advances by at least one byte and never past the
                // end; the clamps make that evident to the termination check.
                let a = if adv < 1 {
                    1
                } else {
                    adv
                };
                let next = if i + a <= input.len() {
                    i + a
                } else {
                    input.len() as int
                };
                match spec_tokenize_from(input, next) {
                    Err(e) => Err(e),
                    Ok(rest) => Ok(
                        if t is WhiteSpace {
                            rest
                        } else {
                            seq![t] + rest
                        },
                    ),
                }
            },
        }
    }
}

/// The complete tokenization of an input: the ordered token sequence the
/// single left-to-right scan produces, or the first lexical error.
pub open spec fn spec_tokenize(input: Seq<u8>) -> Result<Seq<TokenModel>, TokenizerError> {
    spec_tokenize_from(input, 0)
}

/// Tokenization is a pure function of the input bytes alone: scanning equal
/// inputs yields equal outcomes, token for token. With the contract of
/// `tokenize`, which pins its result to `spec_tokenize`, re-tokenizing the
/// same input therefore yields an identical token sequence.
pub proof fn lemma_tokenize_pure(a: Seq<u8>, b: Seq<u8>)
    requires
        a == b,
    ensures
        spec_tokenize(a) == spec_tokenize(b),
{
}

/// How one executable scan step relates to its specification: the token and
/// advance agree with `spec_step`, and so does a reported error.
pub open spec fn step_matches(
    input: Seq<u8>,
    i: int,
    r: Result<(Token, usize), TokenizerError>,
) -> bool {
    match r {
        Ok(p) => spec_step(input, i) == Ok::<(TokenModel, int), TokenizerError>(
            (token_model(p.0), p.1 as int),
        ) && 1 <= p.1,
        Err(e) => spec_step(input, i) == Err::<(TokenModel, int), TokenizerError>(e),
    }
}

impl Tokenizer {
    /// Builds a tokenizer over the raw bytes of the input text.
    pub fn new(input_string: &str) -> (t: Tokenizer)
        ensures
            t.input@ == input_string.spec_bytes(),
    {
        Tokenizer { input: vstd::slice::slice_to_vec(input_string.as_bytes()) }
    }

    /// The position of the first valid closing quote for a string opened at
    /// `idx`, or `None` when the string never closes.
    fn find_string_end(&self, idx: usize) -> (r: Option<usize>)
        requires
            idx < self.input@.len(),
        ensures
            match r {
                Some(e) => idx < e < self.input@.len() && find_close(
                    self.input@,
                    idx as int,
                    idx + 1,
                ) == Some(e as int),
                None => find_close(self.input@, idx as int, idx + 1) is None,
            },
    {
        let n = self.input.len();
        let mut e: usize = idx + 1;
        while e < n
            invariant
                idx + 1 <= e <= n,
                n == self.input@.len(),
                find_close(self.input@, idx as int, idx + 1) == find_close(
                    self.input@,
                    idx as int,
                    e as int,
                ),
            decreases n - e,
        {
            if self.input[e] == 34 && (e == idx + 1 || self.input[e - 1] != 92) {
                return Some(e);
            }
            e = e + 1;
        }
        None
    }

    /// Scans the string token opened by the quote at `idx`: the decoded text
    /// between the quotes, kept verbatim, and the width of the source slice.
    fn validate_string_token(&self, idx: usize) -> (r: Result<(Token, usize), TokenizerError>)
        requires
            idx < self.input@.len(),
            self.input@[idx as int] == 34,
        ensures
            step_matches(self.input@, idx as int, r),
    {
        let n = self.input.len();
        match self.find_string_end(idx) {
            Some(e) => {
                proof {
                    assert(idx < e < n);
                }
                let content: Vec<u8> = vstd::slice::slice_to_vec(
                    vstd::slice::slice_subrange(self.input.as_slice(), idx + 1, e),
                );
                match bytes_to_string(content) {
                    Some(s) => Ok((Token::String(s), e - idx + 1)),
                    None => Err(TokenizerError::InvalidString),
                }
            },
            None => Err(TokenizerError::InvalidString),
        }
    }

    /// The end of the maximal digit/dot/hyphen run that begins at `idx`.
    fn find_number_end(&self, idx: usize) -> (r: usize)
        requires
            idx < self.input@.len(),
            is_number_byte(self.input@[idx as int]),
        ensures
            idx < r <= self.input@.len(),
            r as int == number_run_end(self.input@, idx as int),
            forall|k: int| idx <= k < r ==> is_number_byte(self.input@[k]),
    {
        let n = self.input.len();
        let mut j: usize = idx + 1;
        while j < n
            invariant
                idx + 1 <= j <= n,
                n == self.input@.len(),
                number_run_end(self.input@, idx as int) == number_run_end(self.input@, j as int),
                forall|k: int| idx <= k < j ==> is_number_byte(self.input@[k]),
            decreases n - j,
        {
            let b = self.input[j];
            if !((48 <= b && b <= 57) || b == 46 || b == 45) {
                return j;
            }
            j = j + 1;
        }
        n
    }

    /// Checks whether a digit/dot/hyphen run denotes a number: at least one
    /// digit, no hyphen and at most one dot after an optional leading hyphen.
    fn check_number(run: &[u8]) -> (r: bool)
        ensures
            r == number_parses(run@),
    {
        let n = run.len();
        let start: usize = if n > 0 && run[0] == 45 {
            1
        } else {
            0
        };
        let mut k = start;
        let mut has_digit = false;
        let mut has_hyphen = false;
        let mut seen_dot = false;
        let mut two_dots = false;
        while k < n
            invariant
                start <= k <= n,
                n == run@.len(),
                has_digit == exists|m: int| start <= m < k && is_digit_byte(run@[m]),
                has_hyphen == exists|m: int| start <= m < k && run@[m] == 45,
                seen_dot == exists|m: int| start <= m < k && run@[m] == 46,
                two_dots == exists|m1: int, m2: int|
                    start <= m1 < m2 < k && run@[m1] == 46 && run@[m2] == 46,
            decreases n - k,
        {
            let b = run[k];
            if 48 <= b && b <= 57 {
                has_digit = true;
            } else if b == 45 {
                has_hyphen = true;
            } else if b == 46 {
                if seen_dot {
                    two_dots = true;
                }
                seen_dot = true;
            }
            k = k + 1;
        }
        has_digit && !has_hyphen && !two_dots
    }

    /// Scans the number token that begins at `idx`: the maximal digit, dot
    /// and hyphen run, kept as its text when its shape denotes a number.
    fn validate_number_token(&self, idx: usize) -> (r: Result<(Token, usize), TokenizerError>)
        requires
            idx < self.input@.len(),
            is_number_start(self.input@[idx as int]),
        ensures
            step_matches(self.input@, idx as int, r),
    {
        let j = self.find_number_end(idx);
        let run: &[u8] = vstd::slice::slice_subrange(self.input.as_slice(), idx, j);
        if Tokenizer::check_number(run) {
            let content: Vec<u8> = vstd::slice::slice_to_vec(run);
            proof {
                lemma_ascii_utf8(content@);
            }
            match bytes_to_string(content) {
                Some(s) => Ok((Token::Number(s), j - idx)),
                None => {
                    proof {
                        assert(false);
                    }
                    Err(TokenizerError::InvalidNumber)
                },
            }
        } else {
            Err(TokenizerError::InvalidNumber)
        }
    }

    /// Matches the fixed literal `null` at `idx`; truncation near the end of
    /// the input is a mismatch.
    fn verify_null_token(&self, idx: usize) -> (r: Result<(Token, usize), TokenizerError>)
        requires
            idx < self.input@.len(),
            self.input@[idx as int] == 110,
        ensures
            step_matches(self.input@, idx as int, r),
    {
        if self.input.len() - idx >= 4 && self.input[idx + 1] == 117 && self.input[idx + 2] == 108
            && self.input[idx + 3] == 108 {
            Ok((Token::Null, 4))
        } else {
            Err(TokenizerError::InvalidLiteral)
        }
    }

    /// Matches the fixed literal `false` at `idx`; truncation near the end
    /// of the input is a mismatch.
    fn verify_false_token(&self, idx: usize) -> (r: Result<(Token, usize), TokenizerError>)
        requires
            idx < self.input@.len(),
            self.input@[idx as int] == 102,
        ensures
            step_matches(self.input@, idx as int, r),
    {
        if self.input.len() - idx >= 5 && self.input[idx + 1] == 97 && self.input[idx + 2] == 108
            && self.input[idx + 3] == 115 && self.input[idx + 4] == 101 {
            Ok((Token::Bool(false), 5))
        } else {
            Err(TokenizerError::InvalidLiteral)
        }
    }

    /// Matches the fixed literal `true` at `idx`; truncation near the end of
    /// the input is a mismatch.
    fn verify_true_token(&self, idx: usize) -> (r: Result<(Token, usize), TokenizerError>)
        requires
            idx < self.input@.len(),
            self.input@[idx as int] == 116,
        ensures
            step_matches(self.input@, idx as int, r),
    {
        if self.input.len() - idx >= 4 && self.input[idx + 1] == 114 && self.input[idx + 2] == 117
            && self.input[idx + 3] == 101 {
            Ok((Token::Bool(true), 4))
        } else {
            Err(TokenizerError::InvalidLiteral)
        }
    }

    /// Dispatches on the byte at `idx` and scans one token there, returning
    /// it with the width the scan advances by; a byte no scan claims is
    /// skipped as `WhiteSpace`.
    fn get_token(&self, idx: usize) -> (r: Result<(Token, usize), TokenizerError>)
        requires
            idx < self.input@.len(),
        ensures
            step_matches(self.input@, idx as int, r),
    {
        let b = self.input[idx];
        if b == 123 {
            Ok((Token::CurlyOpen, 1))
        } else if b == 125 {
            Ok((Token::CurlyClose, 1))
        } else if b == 44 {
            Ok((Token::Comma, 1))
        } else if b == 91 {
            Ok((Token::SquareOpen, 1))
        } else if b == 93 {
            Ok((Token::SquareClose, 1))
        } else if b == 58 {
            Ok((Token::Colon, 1))
        } else if b == 110 {
            self.verify_null_token(idx)
        } else if b == 102 {
            self.verify_false_token(idx)
        } else if b == 116 {
            self.verify_true_token(idx)
        } else if b == 34 {
            self.validate_string_token(idx)
        } else if (48 <= b && b <= 57) || b == 45 {
            self.validate_number_token(idx)
        } else {
            Ok((Token::WhiteSpace, 1))
        }
    }

    /// Scans the whole input into its ordered token sequence, or reports the
    /// first lexical error; never both, and no partial output on error. The
    /// result is exactly what `spec_tokenize` gives on the input bytes, so
    /// tokenization is a pure function of the input, and the returned
    /// sequence never holds a `WhiteSpace` token.
    pub fn tokenize(self) -> (r: Result<Vec<Token>, TokenizerError>)
        ensures
            match r {
                Ok(v) => spec_tokenize(self.input@) == Ok::<Seq<TokenModel>, TokenizerError>(
                    tokens_model(v@),
                ) && (forall|k: int| 0 <= k < v@.len() ==> !(token_model(v@[k]) is WhiteSpace)),
                Err(e) => spec_tokenize(self.input@) == Err::<Seq<TokenModel>, TokenizerError>(e),
            },
    {
        let ghost inp = self.input@;
        let n = self.input.len();
        let mut output: Vec<Token> = Vec::new();
        let mut idx: usize = 0;
        proof {
            match spec_tokenize_from(inp, 0) {
                Ok(rest) => {
                    assert(tokens_model(output@) + rest =~= rest);
                },
                Err(_) => {},
            }
        }
        while idx < n
            invariant
                idx <= n,
                n == self.input@.len(),
                self.input@ == inp,
                match spec_tokenize_from(inp, idx as int) {
                    Ok(rest) => spec_tokenize(inp) == Ok::<Seq<TokenModel>, TokenizerError>(
                        tokens_model(output@) + rest,
                    ),
                    Err(e) => spec_tokenize(inp) == Err::<Seq<TokenModel>, TokenizerError>(e),
                },
                forall|k: int|
                    0 <= k < output@.len() ==> !(token_model(output@[k]) is WhiteSpace),
            decreases n - idx,
        {
            let ghost out0 = output@;
            let ghost i0 = idx as int;
            let (tok, adv) = match self.get_token(idx) {
                Ok(p) => p,
                Err(e) => {
                    return Err(e);
                },
            };
            proof {
                assert(adv >= 1);
            }
            let ghost tm = token_model(tok);
            match tok {
                Token::WhiteSpace => {},
                t => {
                    output.push(t);
                    proof {
                        assert(tokens_model(output@) =~= tokens_model(out0).push(tm));
                    }
                },
            }
            proof {
                let a = adv as int;
                let next: int = if i0 + a <= inp.len() {
                    i0 + a
                } else {
                    inp.len() as int
                };
                match spec_tokenize_from(inp, next) {
                    Ok(rest2) => {
                        assert(tokens_model(out0) + (seq![tm] + rest2) =~= tokens_model(
                            out0,
                        ).push(tm) + rest2);
                    },
                    Err(_) => {},
                }
            }
            idx = if adv > n - idx {
                n
            } else {
                idx + adv
            };
        }
        proof {
            assert(tokens_model(output@) + seq![] =~= tokens_model(output@));
        }
        Ok(output)
    }
}

} // verus!

