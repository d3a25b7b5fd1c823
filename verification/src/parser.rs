//! The parser: text to a document.
use crate::context::JsonContext;
use crate::lexer::{lex, lexer, numbers_fit, toks, Tok, Token, TokenType};
use crate::model::{root_id, Doc};
use crate::number::{number, parse_num, FloatLiteral, FloatParts, Number, NumberView};
use crate::text::chars_of;
use crate::value::Value;
use vstd::prelude::*;

pub use crate::error::{Failure, ParserError};

verus! {

/// Where a parsed value goes: under a key of an object, or behind the items
/// of an array.
pub enum Slot {
    Key(u64, Seq<char>),
    Item(u64),
}

/// The document after `v` has gone to `slot`.
pub open spec fn store(doc: Doc, slot: Slot, v: Value) -> Doc {
    match slot {
        Slot::Key(id, key) => doc.set(id, key, v),
        Slot::Item(id) => doc.with_items(id, doc.arrays[id].push(v)),
    }
}

/// Whether `t` is a number token that holds a well-formed floating-point
/// literal.
pub open spec fn is_float_token(t: Tok) -> bool {
    t.typ == TokenType::Number && number(t.value, t.line, t.pos) matches Ok(NumberView::Float(_))
}

/// The floating-point literals among the first `i` of `tokens`, in order.
pub open spec fn float_parts(tokens: Seq<Tok>, i: int) -> Seq<FloatParts>
    decreases i,
{
    if i <= 0 {
        Seq::empty()
    } else if is_float_token(tokens[i - 1]) {
        float_parts(tokens, i - 1).push(
            number(tokens[i - 1].value, tokens[i - 1].line, tokens[i - 1].pos)->Ok_0->Float_0,
        )
    } else {
        float_parts(tokens, i - 1)
    }
}

/// The number of floating-point literals among the first `i` of `tokens`.
pub open spec fn floats_before(tokens: Seq<Tok>, i: int) -> nat {
    float_parts(tokens, i).len()
}

/// The floating-point literals of `text`, in order: those for which `parse`
/// takes a bit pattern from the host. A text with a lexical error has none.
pub open spec fn float_literals_of(text: Seq<char>) -> Seq<FloatParts> {
    match lex(text) {
        Ok(tokens) => float_parts(tokens, tokens.len() as int),
        Err(_) => Seq::empty(),
    }
}

/// The value that the token at index `i` starts goes to `slot`: a scalar as
/// it is, a string under a new id, an object or an array under a new id and
/// then filled from the tokens that follow. A floating-point literal stands
/// for the bit pattern that `floats` holds at its rank among such literals.
/// The result is the document and the number of tokens taken.
pub open spec fn build_value(doc: Doc, slot: Slot, tokens: Seq<Tok>, i: int, floats: Seq<u64>)
    -> Result<(Doc, nat), Failure>
    decreases tokens.len() - i, 0nat,
{
    if !(0 <= i < tokens.len()) {
        Err(Failure::UnexpectedEndOfTokens)
    } else {
        let t = tokens[i];
        match t.typ {
            TokenType::True => Ok((store(doc, slot, Value::Bool(true)), 1)),
            TokenType::False => Ok((store(doc, slot, Value::Bool(false)), 1)),
            TokenType::Null => Ok((store(doc, slot, Value::Null), 1)),
            TokenType::Number => match number(t.value, t.line, t.pos) {
                Ok(NumberView::Int(n)) => Ok((store(doc, slot, Value::Int(n)), 1)),
                Ok(NumberView::Float(_)) => Ok(
                    (store(doc, slot, Value::Float(floats[floats_before(tokens, i) as int])), 1),
                ),
                Err(e) => Err(e),
            },
            TokenType::String => Ok(
                (store(doc.add_string(t.value), slot, Value::Str(doc.next_string)), 1),
            ),
            TokenType::OBrk => match build_object(
                store(doc.add_object(), slot, Value::Object(doc.next_object)),
                doc.next_object,
                tokens,
                i + 1,
                floats,
            ) {
                Ok((full, taken)) => Ok((full, 1 + taken)),
                Err(e) => Err(e),
            },
            TokenType::OSBrk => match build_array(
                store(doc.add_array(), slot, Value::Array(doc.next_array)),
                doc.next_array,
                tokens,
                i + 1,
                floats,
            ) {
                Ok((full, taken)) => Ok((full, 1 + taken)),
                Err(e) => Err(e),
            },
            _ => Err(Failure::UnexpectedToken(t.value, t.line, t.pos)),
        }
    }
}

/// What follows a member of a container whose closing token has the kind
/// `close`, at index `j`: the closing token, with which the container is
/// done, or a comma, behind which it goes on.
pub open spec fn after_member(tokens: Seq<Tok>, j: int, close: TokenType) -> Result<bool, Failure> {
    if !(0 <= j < tokens.len()) {
        Err(Failure::UnexpectedEndOfTokens)
    } else if tokens[j].typ == close {
        Ok(true)
    } else if tokens[j].typ == TokenType::Comma {
        Ok(false)
    } else {
        Err(Failure::ExpectedChar(',', tokens[j].line, tokens[j].pos))
    }
}

/// The members of the object `id` from the token at index `i` on, up to its
/// `}`: each a string token for the key, a `:` and a value, with a `,`
/// between two of them and, if one likes, behind the last. A key that the
/// object has already is `KeyExists`.
pub open spec fn build_object(doc: Doc, id: u64, tokens: Seq<Tok>, i: int, floats: Seq<u64>)
    -> Result<(Doc, nat), Failure>
    decreases tokens.len() - i, 1nat,
{
    if !(0 <= i < tokens.len()) {
        Err(Failure::UnexpectedEndOfTokens)
    } else {
        let t = tokens[i];
        if t.typ == TokenType::CBrk {
            Ok((doc, 1))
        } else if t.typ != TokenType::String {
            Err(Failure::UnexpectedToken(t.value, t.line, t.pos))
        } else if doc.contains(id, t.value) {
            Err(Failure::KeyExists(t.value, t.line, t.pos))
        } else if i + 1 >= tokens.len() {
            Err(Failure::UnexpectedEndOfTokens)
        } else if tokens[i + 1].typ != TokenType::Colon {
            Err(
                Failure::UnexpectedToken(
                    tokens[i + 1].value,
                    tokens[i + 1].line,
                    tokens[i + 1].pos,
                ),
            )
        } else {
            match build_value(doc, Slot::Key(id, t.value), tokens, i + 2, floats) {
                Ok((with_member, taken)) => match after_member(
                    tokens,
                    i + 2 + taken,
                    TokenType::CBrk,
                ) {
                    Ok(done) => if done {
                        Ok((with_member, 3 + taken))
                    } else {
                        match build_object(with_member, id, tokens, i + 3 + taken, floats) {
                            Ok((full, more)) => Ok((full, 3 + taken + more)),
                            Err(e) => Err(e),
                        }
                    },
                    Err(e) => Err(e),
                },
                Err(e) => Err(e),
            }
        }
    }
}

/// The items of the array `id` from the token at index `i` on, up to its
/// `]`: values with a `,` between two of them and, if one likes, behind the
/// last.
pub open spec fn build_array(doc: Doc, id: u64, tokens: Seq<Tok>, i: int, floats: Seq<u64>)
    -> Result<(Doc, nat), Failure>
    decreases tokens.len() - i, 1nat,
{
    if !(0 <= i < tokens.len()) {
        Err(Failure::UnexpectedEndOfTokens)
    } else if tokens[i].typ == TokenType::CSBrk {
        Ok((doc, 1))
    } else {
        match build_value(doc, Slot::Item(id), tokens, i, floats) {
            Ok((with_item, taken)) => match after_member(tokens, i + taken, TokenType::CSBrk) {
                Ok(done) => if done {
                    Ok((with_item, 1 + taken))
                } else {
                    match build_array(with_item, id, tokens, i + 1 + taken, floats) {
                        Ok((full, more)) => Ok((full, 1 + taken + more)),
                        Err(e) => Err(e),
                    }
                },
                Err(e) => Err(e),
            },
            Err(e) => Err(e),
        }
    }
}

/// The document that `tokens` describe: the first must be `{` or `[`, which
/// opens the root, and nothing may follow the root's closing token.
pub open spec fn build(tokens: Seq<Tok>, floats: Seq<u64>) -> Result<Doc, Failure> {
    if tokens.len() == 0 {
        Err(Failure::UnexpectedEndOfTokens)
    } else {
        let first = tokens[0];
        let root = if first.typ == TokenType::OBrk {
            build_object(Doc::empty(true), root_id(), tokens, 1, floats)
        } else if first.typ == TokenType::OSBrk {
            build_array(Doc::empty(false), root_id(), tokens, 1, floats)
        } else {
            Err(Failure::BadBeginning(first.value, first.line, first.pos))
        };
        match root {
            Ok((doc, taken)) => if 1 + taken < tokens.len() {
                let extra = tokens[1 + taken as int];
                Err(Failure::UnexpectedToken(extra.value, extra.line, extra.pos))
            } else {
                Ok(doc)
            },
            Err(e) => Err(e),
        }
    }
}

/// The document that `text` describes, where the host has the bit patterns
/// `floats` for its floating-point literals, in their order.
pub open spec fn document(text: Seq<char>, floats: Seq<u64>) -> Result<Doc, Failure> {
    if text.len() == 0 {
        Err(Failure::EmptyString)
    } else {
        match lex(text) {
            Ok(tokens) => build(tokens, floats),
            Err(e) => Err(e),
        }
    }
}

/// Where a parsed value goes.
enum Target {
    Key(u64, std::string::String),
    Item(u64),
}

impl View for Target {
    type V = Slot;

    closed spec fn view(&self) -> Slot {
        match self {
            Target::Key(id, key) => Slot::Key(*id, key@),
            Target::Item(id) => Slot::Item(*id),
        }
    }
}

/// `slot` can take a value: its container exists, and where it is a key, the
/// object does not have it yet.
pub open spec fn ready(doc: Doc, slot: Slot) -> bool {
    match slot {
        Slot::Key(id, key) => doc.objects.contains_key(id) && !doc.contains(id, key),
        Slot::Item(id) => doc.arrays.contains_key(id),
    }
}

/// Every container of `before` is one of `after`.
pub open spec fn grows(before: Doc, after: Doc) -> bool {
    &&& forall|id: u64| #[trigger]
        before.objects.contains_key(id) ==> after.objects.contains_key(id)
    &&& forall|id: u64| #[trigger] before.arrays.contains_key(id) ==> after.arrays.contains_key(id)
}

/// No id counter of `doc` is above `i`.
pub open spec fn bounded(doc: Doc, i: int) -> bool {
    doc.next_string <= i && doc.next_object <= i && doc.next_array <= i
}

/// `r` with `k` more tokens taken.
pub open spec fn shift(r: Result<(Doc, nat), Failure>, k: nat) -> Result<(Doc, nat), Failure> {
    match r {
        Ok((doc, taken)) => Ok((doc, taken + k)),
        Err(e) => Err(e),
    }
}

/// What has grown twice has grown.
pub proof fn lemma_grows_twice(a: Doc, b: Doc, c: Doc)
    requires
        grows(a, b),
        grows(b, c),
    ensures
        grows(a, c),
{
    assert forall|id: u64| #[trigger] a.objects.contains_key(id) implies c.objects.contains_key(
        id,
    ) by {
        assert(b.objects.contains_key(id));
    }
    assert forall|id: u64| #[trigger] a.arrays.contains_key(id) implies c.arrays.contains_key(
        id,
    ) by {
        assert(b.arrays.contains_key(id));
    }
}

/// A token that is no number does not count as a floating-point literal.
pub proof fn lemma_floats_before_skips(tokens: Seq<Tok>, i: int)
    requires
        0 <= i < tokens.len(),
        tokens[i].typ != TokenType::Number,
    ensures
        floats_before(tokens, i + 1) == floats_before(tokens, i),
{
    assert(!is_float_token(tokens[i]));
}

/// The count of floating-point literals does not fall as more tokens are
/// counted.
pub proof fn lemma_floats_before_rises(tokens: Seq<Tok>, i: int, j: int)
    requires
        i <= j,
    ensures
        floats_before(tokens, i) <= floats_before(tokens, j),
    decreases j - i,
{
    if i < j {
        lemma_floats_before_rises(tokens, i, j - 1);
    }
}

/// Puts `val` where `target` says.
fn store_value(cxt: &mut JsonContext, target: Target, val: crate::value::JsonValue)
    requires
        old(cxt).wf(),
        ready(old(cxt)@, target@),
    ensures
        final(cxt)@ == store(old(cxt)@, target@, val@),
        final(cxt).wf(),
        grows(old(cxt)@, final(cxt)@),
        final(cxt)@.next_string == old(cxt)@.next_string,
        final(cxt)@.next_object == old(cxt)@.next_object,
        final(cxt)@.next_array == old(cxt)@.next_array,
{
    match target {
        Target::Key(id, key) => {
            cxt.set_val(id, key, val);
        },
        Target::Item(id) => {
            cxt.array_push(id, val);
        },
    }
}

/// The token at index `i`, which must be of the kind `expect`.
pub fn pop_token(tokens: &Vec<Token>, i: usize, expect: TokenType) -> (r: Result<
    &Token,
    ParserError,
>)
    ensures
        match r {
            Ok(t) => i < tokens.len() && *t == tokens[i as int] && t.typ == expect,
            Err(e) => if i < tokens.len() {
                tokens[i as int].typ != expect && e@ == Failure::UnexpectedToken(
                    tokens[i as int]@.value,
                    tokens[i as int]@.line,
                    tokens[i as int]@.pos,
                )
            } else {
                e@ == Failure::UnexpectedEndOfTokens
            },
        },
{
    if i >= tokens.len() {
        return Err(ParserError::UnexpectedEndOfTokens());
    }
    let token = &tokens[i];
    if token.typ != expect {
        return Err(ParserError::UnexpectedToken(token.value.clone(), token.line, token.pos));
    }
    Ok(token)
}

/// Reads what follows a member at index `j`: `true` for the closing token
/// `close`, `false` for a comma.
fn parse_after_member(tokens: &Vec<Token>, j: usize, close: TokenType) -> (r: Result<
    bool,
    ParserError,
>)
    requires
        close != TokenType::Number,
    ensures
        match r {
            Ok(done) => after_member(toks(tokens@), j as int, close) == Ok::<bool, Failure>(done)
                && j < tokens.len() && toks(tokens@)[j as int].typ != TokenType::Number,
            Err(e) => after_member(toks(tokens@), j as int, close) == Err::<bool, Failure>(e@),
        },
{
    if j >= tokens.len() {
        return Err(ParserError::UnexpectedEndOfTokens());
    }
    let end = &tokens[j];
    assert(toks(tokens@)[j as int] == end@);
    if end.typ == close {
        Ok(true)
    } else if end.typ == TokenType::Comma {
        Ok(false)
    } else {
        Err(ParserError::ExpectedChar(',', end.line, end.pos))
    }
}

/// The value of the token `t`, where that is a scalar or a string.
pub open spec fn plain_value(doc: Doc, tokens: Seq<Tok>, i: int, floats: Seq<u64>) -> Option<
    Result<(Doc, Value), Failure>,
> {
    let t = tokens[i];
    match t.typ {
        TokenType::True => Some(Ok((doc, Value::Bool(true)))),
        TokenType::False => Some(Ok((doc, Value::Bool(false)))),
        TokenType::Null => Some(Ok((doc, Value::Null))),
        TokenType::Number => Some(
            match number(t.value, t.line, t.pos) {
                Ok(NumberView::Int(n)) => Ok((doc, Value::Int(n))),
                Ok(NumberView::Float(_)) => Ok(
                    (doc, Value::Float(floats[floats_before(tokens, i) as int])),
                ),
                Err(e) => Err(e),
            },
        ),
        TokenType::String => Some(Ok((doc.add_string(t.value), Value::Str(doc.next_string)))),
        _ => None,
    }
}

/// A scalar or a string goes to its slot as `build_value` says.
pub proof fn lemma_build_plain(doc: Doc, slot: Slot, tokens: Seq<Tok>, i: int, floats: Seq<u64>)
    requires
        0 <= i < tokens.len(),
        plain_value(doc, tokens, i, floats) is Some,
    ensures
        build_value(doc, slot, tokens, i, floats) == match plain_value(
            doc,
            tokens,
            i,
            floats,
        )->Some_0 {
            Ok((with_text, v)) => Ok::<(Doc, nat), Failure>((store(with_text, slot, v), 1)),
            Err(e) => Err::<(Doc, nat), Failure>(e),
        },
{
}

/// Makes the value of the token at index `i`, where that is a scalar or a
/// string; `None` for another token.
fn parse_plain(
    cxt: &mut JsonContext,
    tokens: &Vec<Token>,
    i: usize,
    floats: &Vec<u64>,
    fi: &mut usize,
) -> (r: Option<Result<crate::value::JsonValue, ParserError>>)
    requires
        old(cxt).wf(),
        i < tokens.len(),
        bounded(old(cxt)@, i as int),
        numbers_fit(toks(tokens@)),
        *old(fi) == floats_before(toks(tokens@), i as int),
        floats@.len() >= floats_before(toks(tokens@), tokens.len() as int),
    ensures
        match r {
            Some(Ok(v)) => plain_value(old(cxt)@, toks(tokens@), i as int, floats@) == Some(
                Ok::<(Doc, Value), Failure>((final(cxt)@, v@)),
            ) && final(cxt).wf() && bounded(final(cxt)@, i + 1) && *final(fi) == floats_before(
                toks(tokens@),
                i + 1,
            ) && grows(old(cxt)@, final(cxt)@) && final(cxt)@.objects == old(cxt)@.objects,
            Some(Err(e)) => plain_value(old(cxt)@, toks(tokens@), i as int, floats@) == Some(
                Err::<(Doc, Value), Failure>(e@),
            ),
            None => plain_value(old(cxt)@, toks(tokens@), i as int, floats@) is None && *final(cxt)
                == *old(cxt) && *final(fi) == *old(fi) && *final(fi) == floats_before(
                toks(tokens@),
                i + 1,
            ),
        },
{
    let t = &tokens[i];
    assert(toks(tokens@)[i as int] == t@);
    proof {
        lemma_floats_before_rises(toks(tokens@), i + 1, tokens.len() as int);
    }
    match t.typ {
        TokenType::True => Some(Ok(cxt.val_bool(true))),
        TokenType::False => Some(Ok(cxt.val_bool(false))),
        TokenType::Null => Some(Ok(cxt.val_null())),
        TokenType::Number => {
            match parse_num(&t.value, t.line, t.pos) {
                Ok(Number::Int(n)) => Some(Ok(cxt.val_int(n))),
                Ok(Number::Float(_)) => {
                    assert(is_float_token(t@));
                    assert(floats_before(toks(tokens@), i + 1) == *fi + 1);
                    assert(*fi < floats.len());
                    let v = cxt.val_float(floats[*fi]);
                    *fi = *fi + 1;
                    Some(Ok(v))
                },
                Err(e) => Some(Err(e)),
            }
        },
        TokenType::String => Some(Ok(cxt.val_string(t.value.clone()))),
        _ => None,
    }
}

/// Reads the value that the token at index `i` starts into `target`, and
/// returns the number of tokens taken. `fi` counts the floating-point
/// literals passed.
fn parse_value(
    cxt: &mut JsonContext,
    target: Target,
    tokens: &Vec<Token>,
    i: usize,
    floats: &Vec<u64>,
    fi: &mut usize,
) -> (r: Result<usize, ParserError>)
    requires
        old(cxt).wf(),
        ready(old(cxt)@, target@),
        i <= tokens.len(),
        bounded(old(cxt)@, i as int),
        numbers_fit(toks(tokens@)),
        *old(fi) == floats_before(toks(tokens@), i as int),
        floats@.len() >= floats_before(toks(tokens@), tokens.len() as int),
    ensures
        match r {
            Ok(taken) => build_value(old(cxt)@, target@, toks(tokens@), i as int, floats@) == Ok::<
                (Doc, nat),
                Failure,
            >((final(cxt)@, taken as nat)) && 1 <= taken && i + taken <= tokens.len() && final(cxt).wf()
                && bounded(final(cxt)@, i + taken) && *final(fi) == floats_before(
                toks(tokens@),
                i + taken,
            ) && grows(old(cxt)@, final(cxt)@),
            Err(e) => build_value(old(cxt)@, target@, toks(tokens@), i as int, floats@) == Err::<
                (Doc, nat),
                Failure,
            >(e@),
        },
    decreases tokens.len() - i, 0nat,
{
    if i >= tokens.len() {
        return Err(ParserError::UnexpectedEndOfTokens());
    }
    let t = &tokens[i];
    assert(toks(tokens@)[i as int] == t@);
    let ghost slot = target@;
    match parse_plain(cxt, tokens, i, floats, fi) {
        Some(Ok(v)) => {
            proof {
                lemma_build_plain(old(cxt)@, slot, toks(tokens@), i as int, floats@);
            }
            let ghost made = cxt@;
            store_value(cxt, target, v);
            proof {
                lemma_grows_twice(old(cxt)@, made, cxt@);
            }
            return Ok(1);
        },
        Some(Err(e)) => {
            proof {
                lemma_build_plain(old(cxt)@, slot, toks(tokens@), i as int, floats@);
            }
            return Err(e);
        },
        None => {},
    }
    let ghost doc = old(cxt)@;
    let ghost all = toks(tokens@);
    match t.typ {
        TokenType::OBrk => {
            let (v, id) = cxt.val_obj();
            store_value(cxt, target, v);
            let ghost opened = cxt@;
            assert(opened == store(doc.add_object(), slot, Value::Object(doc.next_object)));
            proof {
                assert(grows(doc, doc.add_object()));
                lemma_grows_twice(doc, doc.add_object(), opened);
            }
            match parse_obj(cxt, id, tokens, i + 1, floats, fi) {
                Ok(taken) => {
                    proof {
                        lemma_grows_twice(doc, opened, cxt@);
                    }
                    assert(build_value(doc, slot, all, i as int, floats@) == Ok::<
                        (Doc, nat),
                        Failure,
                    >((cxt@, (1 + taken) as nat)));
                    Ok(1 + taken)
                },
                Err(e) => {
                    assert(build_value(doc, slot, all, i as int, floats@) == Err::<
                        (Doc, nat),
                        Failure,
                    >(e@));
                    Err(e)
                },
            }
        },
        TokenType::OSBrk => {
            let (v, id) = cxt.val_array();
            store_value(cxt, target, v);
            let ghost opened = cxt@;
            assert(opened == store(doc.add_array(), slot, Value::Array(doc.next_array)));
            proof {
                assert(grows(doc, doc.add_array()));
                lemma_grows_twice(doc, doc.add_array(), opened);
            }
            match parse_arr(cxt, id, tokens, i + 1, floats, fi) {
                Ok(taken) => {
                    proof {
                        lemma_grows_twice(doc, opened, cxt@);
                    }
                    assert(build_value(doc, slot, all, i as int, floats@) == Ok::<
                        (Doc, nat),
                        Failure,
                    >((cxt@, (1 + taken) as nat)));
                    Ok(1 + taken)
                },
                Err(e) => {
                    assert(build_value(doc, slot, all, i as int, floats@) == Err::<
                        (Doc, nat),
                        Failure,
                    >(e@));
                    Err(e)
                },
            }
        },
        _ => {
            assert(build_value(doc, slot, all, i as int, floats@) == Err::<(Doc, nat), Failure>(
                Failure::UnexpectedToken(t@.value, t@.line, t@.pos),
            ));
            Err(ParserError::UnexpectedToken(t.value.clone(), t.line, t.pos))
        },
    }
}

/// What one member of the object `id` from index `i` on comes to: the
/// object is done with it, or goes on behind it.
pub open spec fn member_outcome(
    before: Doc,
    after: Doc,
    id: u64,
    tokens: Seq<Tok>,
    i: int,
    next: int,
    done: bool,
    floats: Seq<u64>,
) -> bool {
    build_object(before, id, tokens, i, floats) == if done {
        Ok::<(Doc, nat), Failure>((after, (next - i) as nat))
    } else {
        shift(build_object(after, id, tokens, next, floats), (next - i) as nat)
    }
}

/// Reads one member of the object `obj_id`, or its `}`, from the token at
/// index `i` on, and returns the index behind it, with `true` where the `}`
/// has been read.
fn parse_member(
    cxt: &mut JsonContext,
    obj_id: u64,
    tokens: &Vec<Token>,
    i: usize,
    floats: &Vec<u64>,
    fi: &mut usize,
) -> (r: Result<(usize, bool), ParserError>)
    requires
        old(cxt).wf(),
        old(cxt)@.objects.contains_key(obj_id),
        i <= tokens.len(),
        bounded(old(cxt)@, i as int),
        numbers_fit(toks(tokens@)),
        *old(fi) == floats_before(toks(tokens@), i as int),
        floats@.len() >= floats_before(toks(tokens@), tokens.len() as int),
    ensures
        match r {
            Ok((next, done)) => member_outcome(
                old(cxt)@,
                final(cxt)@,
                obj_id,
                toks(tokens@),
                i as int,
                next as int,
                done,
                floats@,
            ) && i < next <= tokens.len() && final(cxt).wf() && bounded(final(cxt)@, next as int)
                && *final(fi) == floats_before(toks(tokens@), next as int) && grows(
                old(cxt)@,
                final(cxt)@,
            ),
            Err(e) => build_object(old(cxt)@, obj_id, toks(tokens@), i as int, floats@) == Err::<
                (Doc, nat),
                Failure,
            >(e@),
        },
    decreases tokens.len() - i, 1nat,
{
    let ghost all = toks(tokens@);
    if i >= tokens.len() {
        return Err(ParserError::UnexpectedEndOfTokens());
    }
    let t = &tokens[i];
    assert(all[i as int] == t@);
    match t.typ {
        TokenType::CBrk => {
            proof {
                lemma_floats_before_skips(all, i as int);
            }
            return Ok((i + 1, true));
        },
        TokenType::String => {},
        _ => {
            return Err(ParserError::UnexpectedToken(t.value.clone(), t.line, t.pos));
        },
    }
    if cxt.contains(obj_id, &t.value) {
        return Err(ParserError::KeyExists(t.value.clone(), t.line, t.pos));
    }
    match pop_token(tokens, i + 1, TokenType::Colon) {
        Ok(_) => {},
        Err(e) => {
            assert(i + 1 < tokens.len() ==> all[i + 1] == tokens[i + 1]@);
            return Err(e);
        },
    }
    assert(all[i + 1] == tokens[i + 1]@);
    proof {
        lemma_floats_before_skips(all, i as int);
        lemma_floats_before_skips(all, i + 1);
    }
    let taken = match parse_value(
        cxt,
        Target::Key(obj_id, t.value.clone()),
        tokens,
        i + 2,
        floats,
        fi,
    ) {
        Ok(taken) => taken,
        Err(e) => {
            return Err(e);
        },
    };
    let j = i + 2 + taken;
    match parse_after_member(tokens, j, TokenType::CBrk) {
        Ok(done) => {
            proof {
                lemma_floats_before_skips(all, j as int);
            }
            Ok((j + 1, done))
        },
        Err(e) => Err(e),
    }
}

/// Reads the members of the object `obj_id` from the token at index `start`
/// on, up to its `}`, and returns the number of tokens taken.
fn parse_obj(
    cxt: &mut JsonContext,
    obj_id: u64,
    tokens: &Vec<Token>,
    start: usize,
    floats: &Vec<u64>,
    fi: &mut usize,
) -> (r: Result<usize, ParserError>)
    requires
        old(cxt).wf(),
        old(cxt)@.objects.contains_key(obj_id),
        start <= tokens.len(),
        bounded(old(cxt)@, start as int),
        numbers_fit(toks(tokens@)),
        *old(fi) == floats_before(toks(tokens@), start as int),
        floats@.len() >= floats_before(toks(tokens@), tokens.len() as int),
    ensures
        match r {
            Ok(taken) => build_object(old(cxt)@, obj_id, toks(tokens@), start as int, floats@)
                == Ok::<(Doc, nat), Failure>((final(cxt)@, taken as nat)) && 1 <= taken && start
                + taken <= tokens.len() && final(cxt).wf() && bounded(final(cxt)@, start + taken)
                && *final(fi) == floats_before(toks(tokens@), start + taken) && grows(
                old(cxt)@,
                final(cxt)@,
            ),
            Err(e) => build_object(old(cxt)@, obj_id, toks(tokens@), start as int, floats@)
                == Err::<(Doc, nat), Failure>(e@),
        },
    decreases tokens.len() - start, 2nat,
{
    let ghost all = toks(tokens@);
    let mut i = start;
    loop
        invariant
            start <= i <= tokens.len(),
            all == toks(tokens@),
            cxt.wf(),
            cxt@.objects.contains_key(obj_id),
            bounded(cxt@, i as int),
            numbers_fit(all),
            *fi == floats_before(all, i as int),
            floats@.len() >= floats_before(all, tokens.len() as int),
            grows(old(cxt)@, cxt@),
            build_object(old(cxt)@, obj_id, all, start as int, floats@) == shift(
                build_object(cxt@, obj_id, all, i as int, floats@),
                (i - start) as nat,
            ),
        decreases tokens.len() - i,
    {
        match parse_member(cxt, obj_id, tokens, i, floats, fi) {
            Ok((next, done)) => {
                if done {
                    return Ok(next - start);
                }
                i = next;
            },
            Err(e) => {
                return Err(e);
            },
        }
    }
}

/// What one item of the array `id` from index `i` on comes to: the array is
/// done with it, or goes on behind it.
pub open spec fn item_outcome(
    before: Doc,
    after: Doc,
    id: u64,
    tokens: Seq<Tok>,
    i: int,
    next: int,
    done: bool,
    floats: Seq<u64>,
) -> bool {
    build_array(before, id, tokens, i, floats) == if done {
        Ok::<(Doc, nat), Failure>((after, (next - i) as nat))
    } else {
        shift(build_array(after, id, tokens, next, floats), (next - i) as nat)
    }
}

/// Reads one item of the array `arr_id`, or its `]`, from the token at index
/// `i` on, and returns the index behind it, with `true` where the `]` has
/// been read.
fn parse_item(
    cxt: &mut JsonContext,
    arr_id: u64,
    tokens: &Vec<Token>,
    i: usize,
    floats: &Vec<u64>,
    fi: &mut usize,
) -> (r: Result<(usize, bool), ParserError>)
    requires
        old(cxt).wf(),
        old(cxt)@.arrays.contains_key(arr_id),
        i <= tokens.len(),
        bounded(old(cxt)@, i as int),
        numbers_fit(toks(tokens@)),
        *old(fi) == floats_before(toks(tokens@), i as int),
        floats@.len() >= floats_before(toks(tokens@), tokens.len() as int),
    ensures
        match r {
            Ok((next, done)) => item_outcome(
                old(cxt)@,
                final(cxt)@,
                arr_id,
                toks(tokens@),
                i as int,
                next as int,
                done,
                floats@,
            ) && i < next <= tokens.len() && final(cxt).wf() && bounded(final(cxt)@, next as int)
                && *final(fi) == floats_before(toks(tokens@), next as int) && grows(
                old(cxt)@,
                final(cxt)@,
            ),
            Err(e) => build_array(old(cxt)@, arr_id, toks(tokens@), i as int, floats@) == Err::<
                (Doc, nat),
                Failure,
            >(e@),
        },
    decreases tokens.len() - i, 1nat,
{
    let ghost all = toks(tokens@);
    if i >= tokens.len() {
        return Err(ParserError::UnexpectedEndOfTokens());
    }
    let t = &tokens[i];
    assert(all[i as int] == t@);
    match t.typ {
        TokenType::CSBrk => {
            proof {
                lemma_floats_before_skips(all, i as int);
            }
            return Ok((i + 1, true));
        },
        _ => {},
    }
    let taken = match parse_value(cxt, Target::Item(arr_id), tokens, i, floats, fi) {
        Ok(taken) => taken,
        Err(e) => {
            return Err(e);
        },
    };
    let j = i + taken;
    match parse_after_member(tokens, j, TokenType::CSBrk) {
        Ok(done) => {
            proof {
                lemma_floats_before_skips(all, j as int);
            }
            Ok((j + 1, done))
        },
        Err(e) => Err(e),
    }
}

/// Reads the items of the array `arr_id` from the token at index `start` on,
/// up to its `]`, and returns the number of tokens taken.
fn parse_arr(
    cxt: &mut JsonContext,
    arr_id: u64,
    tokens: &Vec<Token>,
    start: usize,
    floats: &Vec<u64>,
    fi: &mut usize,
) -> (r: Result<usize, ParserError>)
    requires
        old(cxt).wf(),
        old(cxt)@.arrays.contains_key(arr_id),
        start <= tokens.len(),
        bounded(old(cxt)@, start as int),
        numbers_fit(toks(tokens@)),
        *old(fi) == floats_before(toks(tokens@), start as int),
        floats@.len() >= floats_before(toks(tokens@), tokens.len() as int),
    ensures
        match r {
            Ok(taken) => build_array(old(cxt)@, arr_id, toks(tokens@), start as int, floats@)
                == Ok::<(Doc, nat), Failure>((final(cxt)@, taken as nat)) && 1 <= taken && start
                + taken <= tokens.len() && final(cxt).wf() && bounded(final(cxt)@, start + taken)
                && *final(fi) == floats_before(toks(tokens@), start + taken) && grows(
                old(cxt)@,
                final(cxt)@,
            ),
            Err(e) => build_array(old(cxt)@, arr_id, toks(tokens@), start as int, floats@)
                == Err::<(Doc, nat), Failure>(e@),
        },
    decreases tokens.len() - start, 2nat,
{
    let ghost all = toks(tokens@);
    let mut i = start;
    loop
        invariant
            start <= i <= tokens.len(),
            all == toks(tokens@),
            cxt.wf(),
            cxt@.arrays.contains_key(arr_id),
            bounded(cxt@, i as int),
            numbers_fit(all),
            *fi == floats_before(all, i as int),
            floats@.len() >= floats_before(all, tokens.len() as int),
            grows(old(cxt)@, cxt@),
            build_array(old(cxt)@, arr_id, all, start as int, floats@) == shift(
                build_array(cxt@, arr_id, all, i as int, floats@),
                (i - start) as nat,
            ),
        decreases tokens.len() - i,
    {
        match parse_item(cxt, arr_id, tokens, i, floats, fi) {
            Ok((next, done)) => {
                if done {
                    return Ok(next - start);
                }
                i = next;
            },
            Err(e) => {
                return Err(e);
            },
        }
    }
}

/// Builds the document that `tokens` describe; `floats` holds the bit
/// patterns of the floating-point literals among them, in their order.
pub fn parse_tokens(tokens: &Vec<Token>, floats: &Vec<u64>) -> (r: Result<
    (JsonContext, u64),
    ParserError,
>)
    requires
        numbers_fit(toks(tokens@)),
        floats@.len() >= floats_before(toks(tokens@), tokens.len() as int),
    ensures
        match r {
            Ok((cxt, root)) => build(toks(tokens@), floats@) == Ok::<Doc, Failure>(cxt@) && root
                == root_id() && cxt.wf(),
            Err(e) => build(toks(tokens@), floats@) == Err::<Doc, Failure>(e@),
        },
{
    if tokens.len() == 0 {
        return Err(ParserError::UnexpectedEndOfTokens());
    }
    let first = &tokens[0];
    assert(toks(tokens@)[0] == first@);
    let mut fi: usize = 0;
    let object = match first.typ {
        TokenType::OBrk => true,
        TokenType::OSBrk => false,
        _ => {
            return Err(ParserError::BadBeginning(first.value.clone(), first.line, first.pos));
        },
    };
    let (mut cxt, root) = JsonContext::new(object);
    assert(floats_before(toks(tokens@), 1) == 0) by {
        assert(float_parts(toks(tokens@), 0) =~= Seq::<FloatParts>::empty());
    }
    let parsed = if object {
        parse_obj(&mut cxt, root, tokens, 1, floats, &mut fi)
    } else {
        parse_arr(&mut cxt, root, tokens, 1, floats, &mut fi)
    };
    match parsed {
        Ok(taken) => {
            if 1 + taken < tokens.len() {
                let extra = &tokens[1 + taken];
                assert(toks(tokens@)[1 + taken] == extra@);
                Err(ParserError::UnexpectedToken(extra.value.clone(), extra.line, extra.pos))
            } else {
                Ok((cxt, root))
            }
        },
        Err(e) => Err(e),
    }
}

/// The floating-point literals of `str`, in order: `parse` wants a bit
/// pattern for each.
pub fn float_literals(str: &std::string::String) -> (r: Vec<FloatLiteral>)
    requires
        str@.len() < usize::MAX,
    ensures
        r@.map_values(|f: FloatLiteral| f@) == float_literals_of(str@),
{
    let chars = chars_of(str.as_str());
    let mut found: Vec<FloatLiteral> = Vec::new();
    match lexer(&chars) {
        Ok(tokens) => {
            let ghost all = toks(tokens@);
            let mut i: usize = 0;
            assert(found@.map_values(|f: FloatLiteral| f@) =~= float_parts(all, 0));
            while i < tokens.len()
                invariant
                    i <= tokens.len(),
                    all == toks(tokens@),
                    numbers_fit(all),
                    found@.map_values(|f: FloatLiteral| f@) == float_parts(all, i as int),
                decreases tokens.len() - i,
            {
                let t = &tokens[i];
                assert(all[i as int] == t@);
                let ghost before = found@.map_values(|f: FloatLiteral| f@);
                match t.typ {
                    TokenType::Number => {
                        match parse_num(&t.value, t.line, t.pos) {
                            Ok(Number::Float(f)) => {
                                let ghost parts = f@;
                                found.push(f);
                                assert(found@.map_values(|f: FloatLiteral| f@) =~= before.push(
                                    parts,
                                ));
                            },
                            _ => {},
                        }
                    },
                    _ => {},
                }
                i += 1;
            }
        },
        Err(_) => {
            assert(found@.map_values(|f: FloatLiteral| f@) =~= Seq::<FloatParts>::empty());
        },
    }
    found
}

/// Parses `str` into a new document and returns it with the id of its root.
/// `floats` holds the bit patterns of the floating-point literals of `str`,
/// in their order: one for each of `float_literals(str)`.
pub fn parse(str: &std::string::String, floats: &Vec<u64>) -> (r: Result<
    (JsonContext, u64),
    ParserError,
>)
    requires
        str@.len() < usize::MAX,
        floats@.len() >= float_literals_of(str@).len(),
    ensures
        match r {
            Ok((cxt, root)) => document(str@, floats@) == Ok::<Doc, Failure>(cxt@) && root
                == root_id() && cxt.wf(),
            Err(e) => document(str@, floats@) == Err::<Doc, Failure>(e@),
        },
{
    let chars = chars_of(str.as_str());
    if chars.len() == 0 {
        return Err(ParserError::EmptyString);
    }
    match lexer(&chars) {
        Ok(tokens) => parse_tokens(&tokens, floats),
        Err(e) => Err(e),
    }
}

/// As `parse`, for any text and any list of bit patterns: `None` where the
/// text is too long for its characters to be counted, or where `floats`
/// holds fewer bit patterns than the text has floating-point literals.
pub fn try_parse(str: &std::string::String, floats: &Vec<u64>) -> (r: Option<
    Result<(JsonContext, u64), ParserError>,
>)
    ensures
        r is Some <==> str@.len() < usize::MAX && floats@.len() >= float_literals_of(str@).len(),
        match r {
            Some(Ok((cxt, root))) => document(str@, floats@) == Ok::<Doc, Failure>(cxt@) && root
                == root_id() && cxt.wf(),
            Some(Err(e)) => document(str@, floats@) == Err::<Doc, Failure>(e@),
            None => true,
        },
{
    let length = str.as_str().unicode_len();
    if length == usize::MAX {
        return None;
    }
    let wanted = float_literals(str);
    if floats.len() < wanted.len() {
        None
    } else {
        Some(parse(str, floats))
    }
}

} // verus!
