//! Parser: consumes the token sequence produced by the tokenizer via
//! single-token lookahead and builds one value tree by recursive descent,
//! or reports the first grammar violation.

use vstd::prelude::*;

verus! {

use crate::json::lexer::{Token, TokenModel, token_model, tokens_model};
use crate::json::lexer::{TokenizerError, spec_tokenize};

/// The grammar violation that aborted the parse: the expected-versus-found
/// mismatch at the first malformed construct.
#[derive(Debug, Clone, Copy, PartialEq, Eq, Structural)]
pub enum ParseError {
    UnexpectedToken,
    ExpectedColon,
    ExpectedCommaOrCurly,
    ExpectedKeyOrCurly,
    ExpectedCommaOrSquare,
}

impl ParseError {
    /// A human-readable description of the error.
    pub fn message(&self) -> (s: String)
        ensures
            *self is UnexpectedToken ==> s@ == "Unexpected token"@,
            *self is ExpectedColon ==> s@ == "Expected colon"@,
            *self is ExpectedCommaOrCurly ==> s@ == "Expected comma or closing curly brace"@,
            *self is ExpectedKeyOrCurly ==> s@ == "Expected string key or closing curly brace"@,
            *self is ExpectedCommaOrSquare ==> s@ == "Expected comma or closing square bracket"@,
    {
        match self {
            ParseError::UnexpectedToken => "Unexpected token".to_owned(),
            ParseError::ExpectedColon => "Expected colon".to_owned(),
            ParseError::ExpectedCommaOrCurly => "Expected comma or closing curly brace".to_owned(),
            ParseError::ExpectedKeyOrCurly => "Expected string key or closing curly brace".to_owned(),
            ParseError::ExpectedCommaOrSquare => "Expected comma or closing square bracket".to_owned(),
        }
    }
}

/// A fully parsed JSON value. An object holds its entries as key/value
/// pairs in the order the keys first appeared, with pairwise distinct keys:
/// a later binding of a key that is already present overwrites the earlier
/// value in place. A number keeps the scanned numeric text; the caller
/// parses it at the edge.
#[derive(Debug, PartialEq)]
pub enum JsonValue {
    Object(Vec<(String, JsonValue)>),
    Array(Vec<JsonValue>),
    String(String),
    Number(String),
    Bool(bool),
    Null,
}

/// The mathematical shape of a value: texts are character sequences, an
/// object is its sequence of key/value pairs, first-appearance order.
pub enum ValueModel {
    Object(Seq<(Seq<char>, ValueModel)>),
    Array(Seq<ValueModel>),
    String(Seq<char>),
    Number(Seq<char>),
    Bool(bool),
    Null,
}

/// The model of an executable pair sequence, pairwise.
pub open spec fn pairs_model(ps: Seq<(String, JsonValue)>) -> Seq<(Seq<char>, ValueModel)>
    decreases ps,
{
    if ps.len() == 0 {
        seq![]
    } else {
        pairs_model(ps.drop_last()).push((ps.last().0@, value_model(ps.last().1)))
    }
}

/// The model of an executable element sequence, pointwise.
pub open spec fn elems_model(es: Seq<JsonValue>) -> Seq<ValueModel>
    decreases es,
{
    if es.len() == 0 {
        seq![]
    } else {
        elems_model(es.drop_last()).push(value_model(es.last()))
    }
}

/// The model of one executable value.
pub open spec fn value_model(v: JsonValue) -> ValueModel
    decreases v,
{
    match v {
        JsonValue::Object(ps) => ValueModel::Object(pairs_model(ps@)),
        JsonValue::Array(a) => ValueModel::Array(elems_model(a@)),
        JsonValue::String(s) => ValueModel::String(s@),
        JsonValue::Number(s) => ValueModel::Number(s@),
        JsonValue::Bool(b) => ValueModel::Bool(b),
        JsonValue::Null => ValueModel::Null,
    }
}

/// The models of a pair sequence are the models of its pairs: `pairs_model`
/// indexes pointwise.
pub proof fn lemma_pairs_model_index(ps: Seq<(String, JsonValue)>)
    ensures
        pairs_model(ps).len() == ps.len(),
        forall|i: int|
            0 <= i < ps.len() ==> #[trigger] pairs_model(ps)[i] == (
                ps[i].0@,
                value_model(ps[i].1),
            ),
    decreases ps,
{
    if ps.len() > 0 {
        lemma_pairs_model_index(ps.drop_last());
    }
}

/// Pairwise distinct keys in an object's entry sequence.
pub open spec fn model_keys_unique(m: Seq<(Seq<char>, ValueModel)>) -> bool {
    forall|i: int, j: int| 0 <= i < j < m.len() ==> m[i].0 != m[j].0
}

/// Well-formedness of every value in a pair sequence, pairwise.
pub open spec fn pairs_wf(ps: Seq<(String, JsonValue)>) -> bool
    decreases ps,
{
    if ps.len() == 0 {
        true
    } else {
        pairs_wf(ps.drop_last()) && value_wf(ps.last().1)
    }
}

/// Well-formedness of every value in an element sequence, pointwise.
pub open spec fn values_wf(es: Seq<JsonValue>) -> bool
    decreases es,
{
    if es.len() == 0 {
        true
    } else {
        values_wf(es.drop_last()) && value_wf(es.last())
    }
}

/// Well-formedness of a value tree: every object within it has pairwise
/// distinct keys. Parsed values always have this shape.
pub open spec fn value_wf(v: JsonValue) -> bool
    decreases v,
{
    match v {
        JsonValue::Object(ps) => model_keys_unique(pairs_model(ps@)) && pairs_wf(ps@),
        JsonValue::Array(a) => values_wf(a@),
        _ => true,
    }
}

/// A pair sequence is well formed exactly when each of its values is.
pub proof fn lemma_pairs_wf_index(ps: Seq<(String, JsonValue)>)
    ensures
        pairs_wf(ps) <==> (forall|i: int| 0 <= i < ps.len() ==> #[trigger] value_wf(ps[i].1)),
    decreases ps,
{
    if ps.len() > 0 {
        let q = ps.drop_last();
        lemma_pairs_wf_index(q);
        assert(forall|i: int| 0 <= i < q.len() ==> q[i] == ps[i]);
        if pairs_wf(ps) {
            assert forall|i: int| 0 <= i < ps.len() implies #[trigger] value_wf(ps[i].1) by {
                if i < ps.len() - 1 {
                    assert(value_wf(q[i].1));
                } else {
                    assert(ps[i] == ps.last());
                }
            }
        }
        if forall|i: int| 0 <= i < ps.len() ==> #[trigger] value_wf(ps[i].1) {
            assert forall|i: int| 0 <= i < q.len() implies #[trigger] value_wf(q[i].1) by {
                assert(value_wf(ps[i].1));
            }
            assert(value_wf(ps.last().1));
        }
    }
}

/// An element sequence is well formed exactly when each of its elements is.
pub proof fn lemma_values_wf_index(es: Seq<JsonValue>)
    ensures
        values_wf(es) <==> (forall|i: int| 0 <= i < es.len() ==> #[trigger] value_wf(es[i])),
    decreases es,
{
    if es.len() > 0 {
        let q = es.drop_last();
        lemma_values_wf_index(q);
        assert(forall|i: int| 0 <= i < q.len() ==> q[i] == es[i]);
        if values_wf(es) {
            assert forall|i: int| 0 <= i < es.len() implies #[trigger] value_wf(es[i]) by {
                if i < es.len() - 1 {
                    assert(value_wf(q[i]));
                } else {
                    assert(es[i] == es.last());
                }
            }
        }
        if forall|i: int| 0 <= i < es.len() ==> #[trigger] value_wf(es[i]) {
            assert forall|i: int| 0 <= i < q.len() implies #[trigger] value_wf(q[i]) by {
                assert(value_wf(es[i]));
            }
            assert(value_wf(es.last()));
        }
    }
}

/// Binds `k` to `v` in an entry sequence: overwrites in place the one entry
/// that already holds `k` (last write wins), or appends a new entry.
pub open spec fn model_insert(
    m: Seq<(Seq<char>, ValueModel)>,
    k: Seq<char>,
    v: ValueModel,
) -> Seq<(Seq<char>, ValueModel)> {
    if exists|i: int| 0 <= i < m.len() && m[i].0 == k {
        let i = choose|i: int| 0 <= i < m.len() && m[i].0 == k;
        m.update(i, (k, v))
    } else {
        m.push((k, v))
    }
}

/// The scalar value a scalar token stands for.
pub open spec fn scalar_value_model(t: TokenModel) -> ValueModel
    recommends
        t is String || t is Number || t is Bool || t is Null,
{
    match t {
        TokenModel::String(s) => ValueModel::String(s),
        TokenModel::Number(s) => ValueModel::Number(s),
        TokenModel::Bool(b) => ValueModel::Bool(b),
        _ => ValueModel::Null,
    }
}

/// The two stages compose on scalars: when an input tokenizes to exactly one
/// scalar token, parsing that token sequence yields the value of the
/// matching scalar variant, with the token's own payload, consuming the one
/// token.
pub proof fn lemma_scalar_pipeline(input: Seq<u8>, t: TokenModel)
    requires
        spec_tokenize(input) == Ok::<Seq<TokenModel>, TokenizerError>(seq![t]),
        t is String || t is Number || t is Bool || t is Null,
    ensures
        sparse_value(seq![t], 0) == Ok::<(ValueModel, int), ParseError>(
            (scalar_value_model(t), 1),
        ),
{
    assert(seq![t][0] == t);
}

/// One value parsed from the token sequence `ts` at position `i` by
/// single-token-lookahead recursive descent: the value's model and the
/// position just past its last token, or the first grammar violation. A
/// structural opener recurses into its container's rule; a scalar token is
/// the value itself; anything else — the end of the sequence included — is
/// an unexpected token.
pub open spec fn sparse_value(ts: Seq<TokenModel>, i: int) -> Result<(ValueModel, int), ParseError>
    decreases ts.len() - i, 0int,
{
    if i < 0 || i >= ts.len() {
        Err(ParseError::UnexpectedToken)
    } else {
        match ts[i] {
            TokenModel::CurlyOpen => sparse_object(ts, i + 1, seq![]),
            TokenModel::SquareOpen => sparse_array(ts, i + 1, seq![]),
            TokenModel::String(s) => Ok((ValueModel::String(s), i + 1)),
            TokenModel::Number(s) => Ok((ValueModel::Number(s), i + 1)),
            TokenModel::Bool(b) => Ok((ValueModel::Bool(b), i + 1)),
            TokenModel::Null => Ok((ValueModel::Null, i + 1)),
            _ => Err(ParseError::UnexpectedToken),
        }
    }
}

/// The remainder of an object whose opening brace is already consumed and
/// whose entries so far are `acc`, starting at the position of the next key
/// or closing brace. A key must be a string token followed by a colon; each
/// entry is bound last-write-wins; after an entry, a comma continues the
/// object and a closing brace ends it. The guards on the recursion
/// positions only make termination evident: a parsed value always ends past
/// where it began.
pub open spec fn sparse_object(
    ts: Seq<TokenModel>,
    i: int,
    acc: Seq<(Seq<char>, ValueModel)>,
) -> Result<(ValueModel, int), ParseError>
    decreases ts.len() - i, 1int,
{
    if i < 0 || i >= ts.len() {
        Err(ParseError::ExpectedKeyOrCurly)
    } else {
        match ts[i] {
            TokenModel::CurlyClose => Ok((ValueModel::Object(acc), i + 1)),
            TokenModel::String(k) => {
                if i + 1 < ts.len() && ts[i + 1] is Colon {
                    match sparse_value(ts, i + 2) {
                        Ok((v, j)) => {
                            let acc2 = model_insert(acc, k, v);
                            if j < ts.len() && ts[j] is Comma {
                                if i < j {
                                    sparse_object(ts, j + 1, acc2)
                                } else {
                                    Err(ParseError::ExpectedCommaOrCurly)
                                }
                            } else if j < ts.len() && ts[j] is CurlyClose {
                                Ok((ValueModel::Object(acc2), j + 1))
                            } else {
                                Err(ParseError::ExpectedCommaOrCurly)
                            }
                        },
                        Err(e) => Err(e),
                    }
                } else {
                    Err(ParseError::ExpectedColon)
                }
            },
            _ => Err(ParseError::ExpectedKeyOrCurly),
        }
    }
}

/// The remainder of an array whose opening bracket is already consumed and
/// whose elements so far are `acc`, starting at the position of the next
/// element or closing bracket. After an element, a comma continues the
/// array — a closing bracket directly after such a comma is accepted, so a
/// trailing comma is legal here — and a closing bracket ends it. The guard
/// on the recursion position only makes termination evident.
pub open spec fn sparse_array(ts: Seq<TokenModel>, i: int, acc: Seq<ValueModel>) -> Result<
    (ValueModel, int),
    ParseError,
>
    decreases ts.len() - i, 1int,
{
    if i < 0 || i >= ts.len() {
        Err(ParseError::UnexpectedToken)
    } else if ts[i] is SquareClose {
        Ok((ValueModel::Array(acc), i + 1))
    } else {
        match sparse_value(ts, i) {
            Ok((v, j)) => {
                let acc2 = acc.push(v);
                if j < ts.len() && ts[j] is Comma {
                    if i < j {
                        sparse_array(ts, j + 1, acc2)
                    } else {
                        Err(ParseError::ExpectedCommaOrSquare)
                    }
                } else if j < ts.len() && ts[j] is SquareClose {
                    Ok((ValueModel::Array(acc2), j + 1))
                } else {
                    Err(ParseError::ExpectedCommaOrSquare)
                }
            },
            Err(e) => Err(e),
        }
    }
}

/// An owned copy of a token, equal to it in the model.
fn clone_token(t: &Token) -> (r: Token)
    ensures
        token_model(r) == token_model(*t),
{
    match t {
        Token::CurlyOpen => Token::CurlyOpen,
        Token::CurlyClose => Token::CurlyClose,
        Token::SquareOpen => Token::SquareOpen,
        Token::SquareClose => Token::SquareClose,
        Token::Comma => Token::Comma,
        Token::Colon => Token::Colon,
        Token::WhiteSpace => Token::WhiteSpace,
        Token::String(s) => Token::String(s.clone()),
        Token::Number(s) => Token::Number(s.clone()),
        Token::Bool(b) => Token::Bool(*b),
        Token::Null => Token::Null,
    }
}

/// Binds `key` to `value` in an object's entry vector, exactly as
/// `model_insert` binds them in the model: overwriting the entry that
/// already holds the key, or appending a new one.
fn object_insert(pairs: &mut Vec<(String, JsonValue)>, key: String, value: JsonValue)
    requires
        model_keys_unique(pairs_model(old(pairs)@)),
    ensures
        pairs_model(final(pairs)@) == model_insert(
            pairs_model(old(pairs)@),
            key@,
            value_model(value),
        ),
        model_keys_unique(pairs_model(final(pairs)@)),
        ((forall|j: int| 0 <= j < old(pairs)@.len() ==> #[trigger] value_wf(old(pairs)@[j].1))
            && value_wf(value)) ==> (forall|i: int|
            0 <= i < final(pairs)@.len() ==> #[trigger] value_wf(final(pairs)@[i].1)),
{
    let ghost pm = pairs_model(old(pairs)@);
    let ghost kv = (key@, value_model(value));
    proof {
        lemma_pairs_model_index(old(pairs)@);
    }
    let n = pairs.len();
    let mut i: usize = 0;
    while i < n
        invariant
            i <= n,
            n == pairs@.len(),
            pairs@ == old(pairs)@,
            pm == pairs_model(old(pairs)@),
            kv == (key@, value_model(value)),
            model_keys_unique(pm),
            pm.len() == old(pairs)@.len(),
            forall|m: int|
                0 <= m < old(pairs)@.len() ==> #[trigger] pm[m] == (
                    old(pairs)@[m].0@,
                    value_model(old(pairs)@[m].1),
                ),
            forall|m: int| 0 <= m < i ==> old(pairs)@[m].0@ != key@,
        decreases n - i,
    {
        if pairs[i].0 == key {
            proof {
                assert(pm[i as int].0 == key@);
            }
            pairs[i] = (key, value);
            proof {
                lemma_pairs_model_index(pairs@);
                assert(pairs_model(pairs@) =~= pm.update(i as int, kv));
                let c = choose|m: int| 0 <= m < pm.len() && pm[m].0 == key@;
                assert(c == i as int) by {
                    if c < i as int {
                        assert(pm[c].0 != pm[i as int].0);
                    } else if c > i as int {
                        assert(pm[i as int].0 != pm[c].0);
                    }
                }
                assert forall|a: int, b: int|
                    0 <= a < b < pairs_model(pairs@).len() implies pairs_model(pairs@)[a].0
                    != pairs_model(pairs@)[b].0 by {
                    assert(pairs_model(pairs@)[a].0 == if a == i as int {
                        key@
                    } else {
                        pm[a].0
                    });
                    assert(pairs_model(pairs@)[b].0 == if b == i as int {
                        key@
                    } else {
                        pm[b].0
                    });
                    assert(pm[i as int].0 == key@);
                }
            }
            return ;
        }
        i = i + 1;
    }
    pairs.push((key, value));
    proof {
        lemma_pairs_model_index(pairs@);
        assert(forall|m: int| 0 <= m < pm.len() ==> #[trigger] pm[m].0 != key@);
        assert(pairs_model(pairs@) =~= pm.push(kv));
    }
}

/// Consumes a token sequence left to right, one whole value per `parse`
/// call, through an explicit cursor with single-token lookahead.
pub struct Parser {
    tokens: Vec<Token>,
    pos: usize,
}

impl Parser {
    /// The models of the tokens this parser was built over.
    pub closed spec fn toks(&self) -> Seq<TokenModel> {
        tokens_model(self.tokens@)
    }

    /// The cursor: how many tokens are consumed so far.
    pub closed spec fn position(&self) -> int {
        self.pos as int
    }

    /// The cursor never passes the end of the token sequence.
    pub closed spec fn wf(&self) -> bool {
        self.pos <= self.tokens@.len()
    }

    /// Builds a parser over a token sequence, with nothing consumed yet.
    pub fn new(tokens: Vec<Token>) -> (p: Parser)
        ensures
            p.toks() == tokens_model(tokens@),
            p.position() == 0,
            p.wf(),
    {
        Parser { tokens, pos: 0 }
    }

    /// Consumes and returns the next token; `None` at the end of the input.
    fn next_token(&mut self) -> (r: Option<Token>)
        requires
            old(self).wf(),
        ensures
            final(self).wf(),
            final(self).toks() == old(self).toks(),
            match r {
                Some(t) => old(self).position() < old(self).toks().len() && token_model(t)
                    == old(self).toks()[old(self).position()] && final(self).position() == old(
                    self,
                ).position() + 1,
                None => old(self).position() == old(self).toks().len() && final(self).position()
                    == old(self).position(),
            },
    {
        if self.pos < self.tokens.len() {
            let t = clone_token(&self.tokens[self.pos]);
            self.pos = self.pos + 1;
            Some(t)
        } else {
            None
        }
    }

    /// The next token, not consumed; `None` at the end of the input.
    fn peek_token(&self) -> (r: Option<Token>)
        requires
            self.wf(),
        ensures
            match r {
                Some(t) => self.position() < self.toks().len() && token_model(t)
                    == self.toks()[self.position()],
                None => self.position() == self.toks().len(),
            },
    {
        if self.pos < self.tokens.len() {
            Some(clone_token(&self.tokens[self.pos]))
        } else {
            None
        }
    }

    /// Parses one whole value from the remaining tokens: exactly the value
    /// and end position that the grammar (`sparse_value`) derives at the
    /// cursor, or exactly the grammar violation that stops the derivation.
    /// A parsed value is well formed, and tokens after it stay unconsumed.
    pub fn parse(&mut self) -> (r: Result<JsonValue, ParseError>)
        requires
            old(self).wf(),
        ensures
            final(self).wf(),
            final(self).toks() == old(self).toks(),
            old(self).position() <= final(self).position() <= old(self).toks().len(),
            match r {
                Ok(v) => sparse_value(old(self).toks(), old(self).position()) == Ok::<
                    (ValueModel, int),
                    ParseError,
                >((value_model(v), final(self).position())) && value_wf(v) && old(self).position()
                    < final(self).position(),
                Err(e) => sparse_value(old(self).toks(), old(self).position()) == Err::<
                    (ValueModel, int),
                    ParseError,
                >(e),
            },
        decreases self.toks().len() - self.position(), 0int,
    {
        match self.next_token() {
            Some(Token::CurlyOpen) => self.parse_object(),
            Some(Token::SquareOpen) => self.parse_array(),
            Some(Token::String(s)) => Ok(JsonValue::String(s)),
            Some(Token::Number(s)) => Ok(JsonValue::Number(s)),
            Some(Token::Bool(b)) => Ok(JsonValue::Bool(b)),
            Some(Token::Null) => Ok(JsonValue::Null),
            _ => Err(ParseError::UnexpectedToken),
        }
    }

    /// Parses the remainder of an object whose opening brace the caller has
    /// consumed: a state machine over key, colon, value, and comma-or-close,
    /// binding entries last-write-wins.
    fn parse_object(&mut self) -> (r: Result<JsonValue, ParseError>)
        requires
            old(self).wf(),
        ensures
            final(self).wf(),
            final(self).toks() == old(self).toks(),
            old(self).position() <= final(self).position() <= old(self).toks().len(),
            match r {
                Ok(v) => sparse_object(old(self).toks(), old(self).position(), seq![]) == Ok::<
                    (ValueModel, int),
                    ParseError,
                >((value_model(v), final(self).position())) && value_wf(v) && old(self).position()
                    < final(self).position(),
                Err(e) => sparse_object(old(self).toks(), old(self).position(), seq![]) == Err::<
                    (ValueModel, int),
                    ParseError,
                >(e),
            },
        decreases self.toks().len() - self.position(), 1int,
    {
        let ghost t0 = self.toks();
        let ghost i0 = self.position();
        let mut map: Vec<(String, JsonValue)> = Vec::new();
        proof {
            assert(pairs_model(map@) =~= Seq::<(Seq<char>, ValueModel)>::empty());
        }
        loop
            invariant
                t0 == old(self).toks(),
                i0 == old(self).position(),
                self.wf(),
                self.toks() == t0,
                i0 <= self.position() <= t0.len(),
                model_keys_unique(pairs_model(map@)),
                forall|m: int| 0 <= m < map@.len() ==> #[trigger] value_wf(map@[m].1),
                sparse_object(t0, i0, Seq::empty()) == sparse_object(
                    t0,
                    self.position(),
                    pairs_model(map@),
                ),
            decreases t0.len() - self.position(),
        {
            match self.next_token() {
                Some(Token::CurlyClose) => {
                    let v = JsonValue::Object(map);
                    proof {
                        lemma_pairs_wf_index(v->Object_0@);
                        assert(value_wf(v));
                    }
                    return Ok(v);
                },
                Some(Token::String(key)) => {
                    match self.next_token() {
                        Some(Token::Colon) => {},
                        _ => {
                            return Err(ParseError::ExpectedColon);
                        },
                    }
                    let value = match self.parse() {
                        Ok(v) => v,
                        Err(e) => {
                            return Err(e);
                        },
                    };
                    object_insert(&mut map, key, value);
                    match self.next_token() {
                        Some(Token::Comma) => {},
                        Some(Token::CurlyClose) => {
                            let v = JsonValue::Object(map);
                            proof {
                                lemma_pairs_wf_index(v->Object_0@);
                                assert(value_wf(v));
                            }
                            return Ok(v);
                        },
                        _ => {
                            return Err(ParseError::ExpectedCommaOrCurly);
                        },
                    }
                },
                _ => {
                    return Err(ParseError::ExpectedKeyOrCurly);
                },
            }
        }
    }

    /// Parses the remainder of an array whose opening bracket the caller has
    /// consumed: elements separated by commas, a trailing comma before the
    /// closing bracket accepted.
    fn parse_array(&mut self) -> (r: Result<JsonValue, ParseError>)
        requires
            old(self).wf(),
        ensures
            final(self).wf(),
            final(self).toks() == old(self).toks(),
            old(self).position() <= final(self).position() <= old(self).toks().len(),
            match r {
                Ok(v) => sparse_array(old(self).toks(), old(self).position(), seq![]) == Ok::<
                    (ValueModel, int),
                    ParseError,
                >((value_model(v), final(self).position())) && value_wf(v) && old(self).position()
                    < final(self).position(),
                Err(e) => sparse_array(old(self).toks(), old(self).position(), seq![]) == Err::<
                    (ValueModel, int),
                    ParseError,
                >(e),
            },
        decreases self.toks().len() - self.position(), 1int,
    {
        let ghost t0 = self.toks();
        let ghost i0 = self.position();
        let mut vec: Vec<JsonValue> = Vec::new();
        proof {
            assert(elems_model(vec@) =~= Seq::<ValueModel>::empty());
        }
        loop
            invariant
                t0 == old(self).toks(),
                i0 == old(self).position(),
                self.wf(),
                self.toks() == t0,
                i0 <= self.position() <= t0.len(),
                forall|m: int| 0 <= m < vec@.len() ==> #[trigger] value_wf(vec@[m]),
                sparse_array(t0, i0, Seq::empty()) == sparse_array(
                    t0,
                    self.position(),
                    elems_model(vec@),
                ),
            decreases t0.len() - self.position(),
        {
            match self.peek_token() {
                Some(Token::SquareClose) => {
                    let _ = self.next_token();
                    let v = JsonValue::Array(vec);
                    proof {
                        lemma_values_wf_index(v->Array_0@);
                        assert(value_wf(v));
                    }
                    return Ok(v);
                },
                _ => {},
            }
            let value = match self.parse() {
                Ok(v) => v,
                Err(e) => {
                    return Err(e);
                },
            };
            let ghost v0 = vec@;
            let ghost em0 = elems_model(vec@);
            let ghost vm = value_model(value);
            vec.push(value);
            proof {
                assert(vec@.drop_last() =~= v0);
                assert(elems_model(vec@) =~= em0.push(vm));
            }
            match self.peek_token() {
                Some(Token::Comma) => {
                    let _ = self.next_token();
                },
                Some(Token::SquareClose) => {},
                _ => {
                    return Err(ParseError::ExpectedCommaOrSquare);
                },
            }
        }
    }
}

} // verus!
