//! What the parser builds from the tokens of a tree.
use crate::error::Failure;
use crate::lexer::{Tok, TokenType};
use crate::model::Doc;
use crate::number::{
    digit_of, digits_value, integer, is_digit, is_float_text, number, signed, NumberView, Radix,
};
use crate::model::values_of;
use crate::ordered::{distinct_keys, has_key, key_at, lemma_push_keeps_distinct};
use crate::parser::{
    after_member, bounded, build_array, build_object, build_value, floats_before, is_float_token,
    lemma_floats_before_skips, ready, store, Slot,
};
use crate::reading::{
    keyed, lemma_decimal_is_digits, mark, readable, readable_entries, shape, tokens_more,
    tokens_of, tokens_of_entries, Shape,
};
use crate::tree::{
    closer, containers, containers_in, floats, floats_among, height, heights, keyless,
    lemma_tree_fuel, lemma_trees_front, lemma_trees_fuel, opener, tree, trees, Json,
};
use crate::text::{decimal, digit_char, int_text};
use crate::value::Value;
use vstd::prelude::*;

verus! {

/// A number in decimal starts with `0` only where it is 0.
pub proof fn lemma_decimal_first_digit(n: nat)
    ensures
        n == 0 ==> decimal(n) == seq!['0'],
        n > 0 ==> decimal(n)[0] != '0',
        n < 10 ==> decimal(n).len() == 1 && digit_of(decimal(n)[0]) == n,
        n >= 10 ==> decimal(n).len() >= 2,
    decreases n,
{
    if n >= 10 {
        lemma_decimal_first_digit(n / 10);
        lemma_decimal_is_digits(n / 10);
    }
}

/// The value of digits depends on the digits alone.
pub proof fn lemma_digits_value_same(
    s1: Seq<char>,
    s2: Seq<char>,
    from: int,
    to: int,
    radix: Radix,
    start: u64,
    line: int,
    pos: int,
)
    requires
        forall|k: int| from <= k < to ==> s1[k] == s2[k],
    ensures
        digits_value(s1, from, to, radix, start, line, pos) == digits_value(
            s2,
            from,
            to,
            radix,
            start,
            line,
            pos,
        ),
    decreases to - from,
{
    if to > from {
        lemma_digits_value_same(s1, s2, from, to - 1, radix, start, line, pos);
    }
}

/// The decimal digits of a number that fits in 64 bits, read back, give the
/// number.
pub proof fn lemma_decimal_value(s: Seq<char>, b: int, m: nat, line: int, pos: int)
    requires
        0 <= b < s.len(),
        s.subrange(b, s.len() as int) == decimal(m),
        m <= u64::MAX,
    ensures
        digits_value(
            s,
            b + 1,
            s.len() as int,
            Radix::Decimal,
            digit_of(s[b]) as u64,
            line,
            pos,
        ) == Ok::<u64, Failure>(m as u64),
    decreases m,
{
    let d = decimal(m);
    let len = s.len() as int;
    lemma_decimal_first_digit(m);
    assert(s[b] == d[0]) by {
        assert(s.subrange(b, len)[0] == s[b]);
    }
    if m >= 10 {
        let shorter = s.drop_last();
        let high = decimal(m / 10);
        assert(d == high.push(digit_char((m % 10) as int)));
        assert(shorter.subrange(b, len - 1) =~= high) by {
            assert forall|k: int| 0 <= k < high.len() implies shorter.subrange(b, len - 1)[k]
                == high[k] by {
                assert(s.subrange(b, len)[k] == d[k]);
            }
        }
        lemma_decimal_value(shorter, b, m / 10, line, pos);
        lemma_digits_value_same(
            s,
            shorter,
            b + 1,
            len - 1,
            Radix::Decimal,
            digit_of(s[b]) as u64,
            line,
            pos,
        );
        assert(s[len - 1] == digit_char((m % 10) as int)) by {
            assert(s.subrange(b, len)[len - 1 - b] == d[len - 1 - b]);
        }
        assert(Radix::Decimal.digit(s[len - 1]) == Some((m % 10) as u64));
        let h = (m / 10) as u64;
        assert((h as nat * 10) % 0x1_0000_0000_0000_0000 == h * 10);
    }
}

/// An integer in decimal is read as that integer.
pub proof fn lemma_number_of_int_text(n: i64, line: int, pos: int)
    ensures
        number(int_text(n as int), line, pos) == Ok::<NumberView, Failure>(NumberView::Int(n)),
{
    reveal(number);
    let s = int_text(n as int);
    let m: nat = if n < 0 {
        (-n) as nat
    } else {
        n as nat
    };
    let b: int = if n < 0 {
        1
    } else {
        0
    };
    lemma_decimal_is_digits(m);
    lemma_decimal_first_digit(m);
    let d = decimal(m);
    assert(s.subrange(b, s.len() as int) =~= d);
    assert forall|k: int| b <= k < s.len() implies is_digit(#[trigger] s[k]) by {
        assert(s[k] == d[k - b]);
    }
    assert(!is_float_text(s, b)) by {
        assert(is_digit(s.last()));
        if s.contains('.') {
            let k = choose|k: int| 0 <= k < s.len() && s[k] == '.';
            assert(is_digit(s[k]) || k < b);
        }
        if s.contains('e') {
            let k = choose|k: int| 0 <= k < s.len() && s[k] == 'e';
            assert(is_digit(s[k]) || k < b);
        }
        if s.contains('E') {
            let k = choose|k: int| 0 <= k < s.len() && s[k] == 'E';
            assert(is_digit(s[k]) || k < b);
        }
    }
    assert(s[b] == d[0]);
    if m > 0 {
        lemma_decimal_value(s, b, m, line, pos);
        let magnitude = m as u64;
        if n < 0 {
            if n == i64::MIN {
                assert(0x8000_0000_0000_0000u64 as i64 == i64::MIN) by (bit_vector);
            }
        }
        assert(signed(magnitude, n < 0) == n);
    } else {
        assert(s =~= seq!['0']);
    }
}

/// The three id counters of a document.
pub struct Marks {
    pub s: int,
    pub o: int,
    pub a: int,
}

/// The id counters of `doc`.
pub open spec fn marks(doc: Doc) -> Marks {
    Marks { s: doc.next_string as int, o: doc.next_object as int, a: doc.next_array as int }
}

/// `other` has, as `table` has them, the entries with the ids from `lo` up
/// to `hi`.
pub open spec fn holds_from<V>(table: Map<u64, V>, other: Map<u64, V>, lo: int, hi: int) -> bool {
    forall|k: u64|
        #![trigger other.contains_key(k)]
        lo <= k as int && (k as int) < hi ==> other.contains_key(k) && other[k] == table[k]
}

/// `other` holds, as `doc` has them, the entries with the ids from `lo` up
/// to `hi`.
pub open spec fn agrees(doc: Doc, other: Doc, lo: Marks, hi: Marks) -> bool {
    &&& holds_from(doc.strings, other.strings, lo.s, hi.s)
    &&& holds_from(doc.objects, other.objects, lo.o, hi.o)
    &&& holds_from(doc.arrays, other.arrays, lo.a, hi.a)
}

/// The number of containers of `doc`.
pub open spec fn count(doc: Doc) -> nat {
    doc.objects.len() + doc.arrays.len()
}

/// Below `limit`, `after` has the entries that `before` has, each as it
/// was, the entry `except` apart.
pub open spec fn same_below<V>(
    before: Map<u64, V>,
    after: Map<u64, V>,
    limit: int,
    except: Option<u64>,
) -> bool {
    forall|k: u64|
        #![trigger after.contains_key(k)]
        (k as int) < limit && Some(k) != except ==> after.contains_key(k) == before.contains_key(k)
            && after[k] == before[k]
}

/// `table` has an entry for every id from `lo` up to `hi`.
pub open spec fn filled<V>(table: Map<u64, V>, lo: int, hi: int) -> bool {
    forall|k: u64|
        #![trigger table.contains_key(k)]
        lo <= k as int && (k as int) < hi ==> table.contains_key(k)
}

/// The object `id` where `object` is set.
pub open spec fn only_object(object: bool, id: u64) -> Option<u64> {
    if object {
        Some(id)
    } else {
        None
    }
}

/// The array `id` where `object` is not set.
pub open spec fn only_array(object: bool, id: u64) -> Option<u64> {
    if object {
        None
    } else {
        Some(id)
    }
}

/// The container `id` of `after` holds what that of `before` holds and then
/// `added`.
pub open spec fn extended(
    before: Doc,
    after: Doc,
    object: bool,
    id: u64,
    added: Seq<(Seq<char>, Value)>,
) -> bool {
    if object {
        &&& before.objects.contains_key(id)
        &&& after.objects.contains_key(id)
        &&& after.objects[id] == before.objects[id] + added
    } else {
        &&& before.arrays.contains_key(id)
        &&& after.arrays.contains_key(id)
        &&& after.arrays[id] == before.arrays[id] + values_of(added)
    }
}

/// `after` is `before` with entries added under new ids and with `added`
/// behind the entries of the container `id`, an object or an array: what
/// `before` holds under other ids is as it was, and every new id has an
/// entry.
pub open spec fn grown(
    before: Doc,
    after: Doc,
    object: bool,
    id: u64,
    added: Seq<(Seq<char>, Value)>,
) -> bool {
    &&& after.root_is_object == before.root_is_object
    &&& before.next_string <= after.next_string
    &&& before.next_object <= after.next_object
    &&& before.next_array <= after.next_array
    &&& same_below(before.strings, after.strings, before.next_string as int, None)
    &&& same_below(
        before.objects,
        after.objects,
        before.next_object as int,
        only_object(object, id),
    )
    &&& same_below(before.arrays, after.arrays, before.next_array as int, only_array(object, id))
    &&& filled(after.strings, before.next_string as int, after.next_string as int)
    &&& filled(after.objects, before.next_object as int, after.next_object as int)
    &&& filled(after.arrays, before.next_array as int, after.next_array as int)
    &&& extended(before, after, object, id, added)
}

/// What is the same below a limit in two steps is the same in one, where
/// the entry that the second step excepts is the one that the first does,
/// or none below the limit.
pub proof fn lemma_same_below_twice<V>(
    a: Map<u64, V>,
    b: Map<u64, V>,
    c: Map<u64, V>,
    limit: int,
    middle: int,
    except: Option<u64>,
    later: Option<u64>,
)
    requires
        same_below(a, b, limit, except),
        same_below(b, c, middle, later),
        limit <= middle,
        later is None || later == except || later->Some_0 >= limit,
    ensures
        same_below(a, c, limit, except),
{
    assert forall|k: u64|
        #![trigger c.contains_key(k)]
        (k as int) < limit && Some(k) != except implies c.contains_key(k) == a.contains_key(k)
            && c[k] == a[k] by {
        assert(b.contains_key(k) == a.contains_key(k));
        assert(c.contains_key(k) == b.contains_key(k));
    }
}

/// What is filled in two steps is filled.
pub proof fn lemma_filled_twice<V>(
    b: Map<u64, V>,
    c: Map<u64, V>,
    lo: int,
    middle: int,
    hi: int,
    later: Option<u64>,
)
    requires
        filled(b, lo, middle),
        filled(c, middle, hi),
        same_below(b, c, middle, later),
        later is Some ==> c.contains_key(later->Some_0),
    ensures
        filled(c, lo, hi),
{
    assert forall|k: u64|
        #![trigger c.contains_key(k)]
        lo <= k as int && (k as int) < hi implies c.contains_key(k) by {
        if k < middle {
            assert(b.contains_key(k));
            if Some(k) != later {
                assert(c.contains_key(k) == b.contains_key(k));
            }
        }
    }
}

/// The value that stands for `j` once it is built into `doc`: a scalar
/// itself, a composite the next id of its kind.
pub open spec fn new_value(j: Json, doc: Doc) -> Value {
    match j {
        Json::Int(i) => Value::Int(i),
        Json::Float(bits) => Value::Float(bits),
        Json::Bool(b) => Value::Bool(b),
        Json::Null => Value::Null,
        Json::Str(_) => Value::Str(doc.next_string),
        Json::Node(object, _) => if object {
            Value::Object(doc.next_object)
        } else {
            Value::Array(doc.next_array)
        },
    }
}

/// In every document that holds the entries of `doc` between `lo` and `hi`,
/// the tree of `v` is `j`.
pub open spec fn grounded(doc: Doc, v: Value, j: Json, lo: Marks, hi: Marks) -> bool {
    forall|other: Doc| #[trigger] agrees(doc, other, lo, hi) ==> tree(other, v, height(j)) == Some(j)
}

/// In every document that holds the entries of `doc` between `lo` and `hi`,
/// the trees of `added` are `entries`.
pub open spec fn grounded_entries(
    doc: Doc,
    added: Seq<(Seq<char>, Value)>,
    entries: Seq<(Seq<char>, Json)>,
    lo: Marks,
    hi: Marks,
) -> bool {
    forall|other: Doc| #[trigger]
        agrees(doc, other, lo, hi) ==> trees(other, added, heights(entries)) == Some(entries)
}

/// `f` holds `wanted` from index `from` on.
pub open spec fn supplied(f: Seq<u64>, from: nat, wanted: Seq<u64>) -> bool {
    from + wanted.len() <= f.len() && forall|k: int|
        0 <= k < wanted.len() ==> f[from + k] == #[trigger] wanted[k]
}

/// The tokens of `tokens` from index `i` on have the shapes `wanted`.
pub open spec fn shaped(tokens: Seq<Tok>, i: int, wanted: Seq<Shape>) -> bool {
    0 <= i && i + wanted.len() <= tokens.len() && forall|k: int|
        0 <= k < wanted.len() ==> shape(tokens[i + k]) == #[trigger] wanted[k]
}

/// Whether `slot` is a key of an object.
pub open spec fn slot_object(slot: Slot) -> bool {
    slot is Key
}

/// The id of the container of `slot`.
pub open spec fn slot_id(slot: Slot) -> u64 {
    match slot {
        Slot::Key(id, _) => id,
        Slot::Item(id) => id,
    }
}

/// The key of `slot`, empty for an array.
pub open spec fn slot_key(slot: Slot) -> Seq<char> {
    match slot {
        Slot::Key(_, key) => key,
        Slot::Item(_) => Seq::empty(),
    }
}

/// A value stored in a slot that is ready goes behind the entries of its
/// container, and nothing else changes.
pub proof fn lemma_store_grows(doc: Doc, slot: Slot, v: Value)
    requires
        doc.wf(),
        ready(doc, slot),
    ensures
        store(doc, slot, v).wf(),
        grown(doc, store(doc, slot, v), slot_object(slot), slot_id(slot), seq![(slot_key(slot), v)]),
        marks(store(doc, slot, v)) == marks(doc),
        count(store(doc, slot, v)) == count(doc),
{
    let after = store(doc, slot, v);
    match slot {
        Slot::Key(id, key) => {
            let pairs = doc.objects[id];
            lemma_push_keeps_distinct(pairs, (key, v));
            assert(after.objects == doc.objects.insert(id, pairs.push((key, v))));
            assert(pairs.push((key, v)) =~= pairs + seq![(key, v)]);
            assert(after.objects.dom() =~= doc.objects.dom());
        },
        Slot::Item(id) => {
            let items = doc.arrays[id];
            assert(values_of(seq![(Seq::<char>::empty(), v)]) =~= seq![v]);
            assert(items.push(v) =~= items + seq![v]);
            assert(after.arrays.dom() =~= doc.arrays.dom());
        },
    }
}

/// The tokens of a tree start with a token that starts a value.
pub proof fn lemma_tokens_first(j: Json, texts: Map<u64, Seq<char>>)
    ensures
        tokens_of(j, texts).len() >= 1,
        tokens_of(j, texts)[0].typ != TokenType::CBrk,
        tokens_of(j, texts)[0].typ != TokenType::CSBrk,
        tokens_of(j, texts)[0].typ != TokenType::Colon,
        tokens_of(j, texts)[0].typ != TokenType::Comma,
{
}

/// One more token counted.
pub proof fn lemma_floats_step(tokens: Seq<Tok>, i: int)
    requires
        0 <= i < tokens.len(),
    ensures
        floats_before(tokens, i + 1) == floats_before(tokens, i) + if is_float_token(tokens[i]) {
            1nat
        } else {
            0nat
        },
{
}

/// A new string stored in a slot.
pub proof fn lemma_string_grows(doc: Doc, slot: Slot, text: Seq<char>)
    requires
        doc.wf(),
        ready(doc, slot),
        doc.next_string < u64::MAX,
    ensures
        ({
            let after = store(doc.add_string(text), slot, Value::Str(doc.next_string));
            &&& after.wf()
            &&& grown(
                doc,
                after,
                slot_object(slot),
                slot_id(slot),
                seq![(slot_key(slot), Value::Str(doc.next_string))],
            )
            &&& after.next_string == doc.next_string + 1
            &&& after.next_object == doc.next_object
            &&& after.next_array == doc.next_array
            &&& after.strings.contains_key(doc.next_string)
            &&& after.strings[doc.next_string] == text
            &&& count(after) == count(doc)
        }),
{
    let made = doc.add_string(text);
    assert(made.wf());
    assert(ready(made, slot));
    lemma_store_grows(made, slot, Value::Str(doc.next_string));
}

/// A new container stored in a slot.
pub proof fn lemma_container_grows(doc: Doc, slot: Slot, object: bool)
    requires
        doc.wf(),
        ready(doc, slot),
        doc.next_object < u64::MAX,
        doc.next_array < u64::MAX,
    ensures
        ({
            let v = if object {
                Value::Object(doc.next_object)
            } else {
                Value::Array(doc.next_array)
            };
            let made = if object {
                doc.add_object()
            } else {
                doc.add_array()
            };
            let after = store(made, slot, v);
            &&& after.wf()
            &&& grown(doc, after, slot_object(slot), slot_id(slot), seq![(slot_key(slot), v)])
            &&& after.next_string == doc.next_string
            &&& after.next_object == doc.next_object + if object {
                1int
            } else {
                0int
            }
            &&& after.next_array == doc.next_array + if object {
                0int
            } else {
                1int
            }
            &&& if object {
                after.objects.contains_key(doc.next_object) && after.objects[doc.next_object]
                    == Seq::<(Seq<char>, Value)>::empty()
            } else {
                after.arrays.contains_key(doc.next_array) && after.arrays[doc.next_array]
                    == Seq::<Value>::empty()
            }
            &&& count(after) == count(doc) + 1
        }),
{
    let v = if object {
        Value::Object(doc.next_object)
    } else {
        Value::Array(doc.next_array)
    };
    let made = if object {
        doc.add_object()
    } else {
        doc.add_array()
    };
    assert(made.wf()) by {
        if object {
            assert(crate::ordered::distinct_keys(Seq::<(Seq<char>, Value)>::empty()));
        }
    }
    assert(ready(made, slot));
    lemma_store_grows(made, slot, v);
    if object {
        assert(!doc.objects.contains_key(doc.next_object));
    } else {
        assert(!doc.arrays.contains_key(doc.next_array));
    }
}

/// What has grown by a new container and then inside that container has
/// grown by the container.
pub proof fn lemma_grown_inside(
    a: Doc,
    b: Doc,
    c: Doc,
    object: bool,
    id: u64,
    added: Seq<(Seq<char>, Value)>,
    inner_object: bool,
    inner_id: u64,
    inner_added: Seq<(Seq<char>, Value)>,
)
    requires
        grown(a, b, object, id, added),
        grown(b, c, inner_object, inner_id, inner_added),
        inner_object ==> a.next_object <= inner_id,
        !inner_object ==> a.next_array <= inner_id,
        object ==> id < a.next_object,
        !object ==> id < a.next_array,
    ensures
        grown(a, c, object, id, added),
{
    lemma_same_below_twice(
        a.strings,
        b.strings,
        c.strings,
        a.next_string as int,
        b.next_string as int,
        None,
        None,
    );
    lemma_same_below_twice(
        a.objects,
        b.objects,
        c.objects,
        a.next_object as int,
        b.next_object as int,
        only_object(object, id),
        only_object(inner_object, inner_id),
    );
    lemma_same_below_twice(
        a.arrays,
        b.arrays,
        c.arrays,
        a.next_array as int,
        b.next_array as int,
        only_array(object, id),
        only_array(inner_object, inner_id),
    );
    lemma_filled_twice(
        b.strings,
        c.strings,
        a.next_string as int,
        b.next_string as int,
        c.next_string as int,
        None,
    );
    lemma_filled_twice(
        b.objects,
        c.objects,
        a.next_object as int,
        b.next_object as int,
        c.next_object as int,
        only_object(inner_object, inner_id),
    );
    lemma_filled_twice(
        b.arrays,
        c.arrays,
        a.next_array as int,
        b.next_array as int,
        c.next_array as int,
        only_array(inner_object, inner_id),
    );
    if object {
        assert(c.objects.contains_key(id) == b.objects.contains_key(id));
        assert(c.objects[id] == b.objects[id]);
    } else {
        assert(c.arrays.contains_key(id) == b.arrays.contains_key(id));
        assert(c.arrays[id] == b.arrays[id]);
    }
    assert(extended(a, c, object, id, added));
}

/// What has grown twice in one container has grown by both.
pub proof fn lemma_grown_twice(
    a: Doc,
    b: Doc,
    c: Doc,
    object: bool,
    id: u64,
    first: Seq<(Seq<char>, Value)>,
    second: Seq<(Seq<char>, Value)>,
)
    requires
        grown(a, b, object, id, first),
        grown(b, c, object, id, second),
    ensures
        grown(a, c, object, id, first + second),
{
    lemma_same_below_twice(
        a.strings,
        b.strings,
        c.strings,
        a.next_string as int,
        b.next_string as int,
        None,
        None,
    );
    lemma_same_below_twice(
        a.objects,
        b.objects,
        c.objects,
        a.next_object as int,
        b.next_object as int,
        only_object(object, id),
        only_object(object, id),
    );
    lemma_same_below_twice(
        a.arrays,
        b.arrays,
        c.arrays,
        a.next_array as int,
        b.next_array as int,
        only_array(object, id),
        only_array(object, id),
    );
    lemma_filled_twice(
        b.strings,
        c.strings,
        a.next_string as int,
        b.next_string as int,
        c.next_string as int,
        None,
    );
    lemma_filled_twice(
        b.objects,
        c.objects,
        a.next_object as int,
        b.next_object as int,
        c.next_object as int,
        only_object(object, id),
    );
    lemma_filled_twice(
        b.arrays,
        c.arrays,
        a.next_array as int,
        b.next_array as int,
        c.next_array as int,
        only_array(object, id),
    );
    if object {
        assert(c.objects[id] =~= a.objects[id] + (first + second));
    } else {
        assert(values_of(first + second) =~= values_of(first) + values_of(second));
        assert(c.arrays[id] =~= a.arrays[id] + values_of(first + second));
    }
    assert(extended(a, c, object, id, first + second));
}

/// A table that holds what a later table holds between two limits holds
/// what the earlier table held there, where the entry that changed lies
/// below.
pub proof fn lemma_table_agrees_back<V>(
    b: Map<u64, V>,
    c: Map<u64, V>,
    other: Map<u64, V>,
    lo: int,
    hi: int,
    far: int,
    limit: int,
    except: Option<u64>,
)
    requires
        same_below(b, c, limit, except),
        holds_from(c, other, lo, far),
        hi <= limit,
        hi <= far,
        except is Some ==> except->Some_0 < lo,
    ensures
        holds_from(b, other, lo, hi),
{
    assert forall|k: u64|
        #![trigger other.contains_key(k)]
        lo <= k as int && (k as int) < hi implies other.contains_key(k) && other[k] == b[k] by {
        assert(other.contains_key(k));
        assert(other[k] == c[k]);
        assert(c.contains_key(k) == b.contains_key(k));
        assert(c[k] == b[k]);
    }
}

/// A document that holds what a grown document holds between two marks
/// holds what the document held there before it grew, where the container
/// that grew lies below.
pub proof fn lemma_agrees_back(
    b: Doc,
    c: Doc,
    other: Doc,
    lo: Marks,
    hi: Marks,
    object: bool,
    id: u64,
    added: Seq<(Seq<char>, Value)>,
)
    requires
        grown(b, c, object, id, added),
        agrees(c, other, lo, marks(c)),
        hi.s <= b.next_string,
        hi.o <= b.next_object,
        hi.a <= b.next_array,
        object ==> id < lo.o,
        !object ==> id < lo.a,
    ensures
        agrees(b, other, lo, hi),
{
    lemma_table_agrees_back(
        b.strings,
        c.strings,
        other.strings,
        lo.s,
        hi.s,
        c.next_string as int,
        b.next_string as int,
        None,
    );
    lemma_table_agrees_back(
        b.objects,
        c.objects,
        other.objects,
        lo.o,
        hi.o,
        c.next_object as int,
        b.next_object as int,
        only_object(object, id),
    );
    lemma_table_agrees_back(
        b.arrays,
        c.arrays,
        other.arrays,
        lo.a,
        hi.a,
        c.next_array as int,
        b.next_array as int,
        only_array(object, id),
    );
}

/// A document that holds the entries between two marks holds those between
/// marks that lie within.
pub proof fn lemma_agrees_within(doc: Doc, other: Doc, lo: Marks, hi: Marks, lo2: Marks, hi2: Marks)
    requires
        agrees(doc, other, lo, hi),
        lo.s <= lo2.s && lo.o <= lo2.o && lo.a <= lo2.a,
        hi2.s <= hi.s && hi2.o <= hi.o && hi2.a <= hi.a,
    ensures
        agrees(doc, other, lo2, hi2),
{
}

/// Where tokens of two runs of shapes stand, those of each run stand.
pub proof fn lemma_shaped_parts(tokens: Seq<Tok>, i: int, a: Seq<Shape>, b: Seq<Shape>)
    requires
        shaped(tokens, i, a + b),
    ensures
        shaped(tokens, i, a),
        shaped(tokens, i + a.len(), b),
{
    let ab = a + b;
    assert forall|k: int| 0 <= k < a.len() implies shape(tokens[i + k]) == #[trigger] a[k] by {
        assert(ab[k] == a[k]);
    }
    assert forall|k: int| 0 <= k < b.len() implies shape(tokens[i + a.len() + k])
        == #[trigger] b[k] by {
        assert(ab[a.len() + k] == b[k]);
    }
}

/// Where floating-point numbers of two runs are supplied, those of each run
/// are.
pub proof fn lemma_supplied_parts(f: Seq<u64>, from: nat, a: Seq<u64>, b: Seq<u64>)
    requires
        supplied(f, from, a + b),
    ensures
        supplied(f, from, a),
        supplied(f, from + a.len(), b),
{
    let ab = a + b;
    assert forall|k: int| 0 <= k < a.len() implies f[from + k] == #[trigger] a[k] by {
        assert(ab[k] == a[k]);
    }
    assert forall|k: int| 0 <= k < b.len() implies f[from + a.len() + k] == #[trigger] b[k] by {
        assert(ab[a.len() + k] == b[k]);
    }
}

/// What `build_value` has made of the tokens of `j`: the document `after`,
/// with `taken` tokens read.
pub open spec fn built(
    j: Json,
    texts: Map<u64, Seq<char>>,
    before: Doc,
    slot: Slot,
    tokens: Seq<Tok>,
    i: int,
    after: Doc,
    taken: nat,
) -> bool {
    let v = new_value(j, before);
    &&& taken == tokens_of(j, texts).len()
    &&& after.wf()
    &&& bounded(after, i + taken)
    &&& grown(before, after, slot_object(slot), slot_id(slot), seq![(slot_key(slot), v)])
    &&& grounded(after, v, j, marks(before), marks(after))
    &&& floats_before(tokens, i + taken) == floats_before(tokens, i) + floats(j).len()
    &&& count(after) == count(before) + containers(j)
}

/// What `build_object` or `build_array` makes of the tokens from `i` on.
pub open spec fn fill(
    object: bool,
    doc: Doc,
    id: u64,
    tokens: Seq<Tok>,
    i: int,
    f: Seq<u64>,
) -> Result<(Doc, nat), Failure> {
    if object {
        build_object(doc, id, tokens, i, f)
    } else {
        build_array(doc, id, tokens, i, f)
    }
}

/// What `fill` has made of the tokens of `entries` and the closing token:
/// the document `after`, with `taken` tokens read and `added` behind the
/// entries of the container.
pub open spec fn filled_in(
    object: bool,
    entries: Seq<(Seq<char>, Json)>,
    texts: Map<u64, Seq<char>>,
    before: Doc,
    id: u64,
    tokens: Seq<Tok>,
    i: int,
    after: Doc,
    taken: nat,
    added: Seq<(Seq<char>, Value)>,
) -> bool {
    &&& taken == tokens_of_entries(object, entries, texts).len() + 1
    &&& after.wf()
    &&& bounded(after, i + taken)
    &&& added.len() == entries.len()
    &&& forall|k: int| 0 <= k < added.len() ==> (#[trigger] added[k]).0 == entries[k].0
    &&& grown(before, after, object, id, added)
    &&& grounded_entries(after, added, entries, marks(before), marks(after))
    &&& floats_before(tokens, i + taken) == floats_before(tokens, i) + floats_among(entries).len()
    &&& count(after) == count(before) + containers_in(entries)
}

/// The container `id` of `doc` has none of the keys of `entries`.
pub open spec fn keys_free(
    object: bool,
    doc: Doc,
    id: u64,
    entries: Seq<(Seq<char>, Json)>,
) -> bool {
    if object {
        doc.objects.contains_key(id) && forall|k: int|
            0 <= k < entries.len() ==> !has_key(doc.objects[id], (#[trigger] entries[k]).0)
    } else {
        doc.arrays.contains_key(id)
    }
}

/// The slot for an entry of the container `id`.
pub open spec fn slot_for(object: bool, id: u64, key: Seq<char>) -> Slot {
    if object {
        Slot::Key(id, key)
    } else {
        Slot::Item(id)
    }
}

/// The entries behind the first are keyed and readable as all are.
pub proof fn lemma_rest_readable(
    object: bool,
    entries: Seq<(Seq<char>, Json)>,
    texts: Map<u64, Seq<char>>,
)
    requires
        entries.len() > 0,
        keyed(object, entries),
        readable_entries(object, entries, texts),
    ensures
        keyed(object, entries.drop_first()),
        readable_entries(object, entries.drop_first(), texts),
        readable(entries[0].1, texts),
        object ==> forall|k: int|
            0 <= k < entries.drop_first().len() ==> (#[trigger] entries.drop_first()[k]).0
                != entries[0].0,
        !object ==> entries[0].0 == Seq::<char>::empty(),
{
    let rest = entries.drop_first();
    if object {
        assert forall|a: int, b: int|
            0 <= a < rest.len() && 0 <= b < rest.len() && a != b implies rest[a].0
            != rest[b].0 by {
            assert(rest[a] == entries[a + 1]);
            assert(rest[b] == entries[b + 1]);
        }
        assert forall|k: int| 0 <= k < rest.len() implies (#[trigger] rest[k]).0
            != entries[0].0 by {
            assert(rest[k] == entries[k + 1]);
        }
    } else {
        assert forall|a: int| 0 <= a < rest.len() implies (#[trigger] rest[a]).0 == Seq::<
            char,
        >::empty() by {
            assert(rest[a] == entries[a + 1]);
        }
    }
}

/// The parser builds, from the tokens of a tree, the tree.
pub proof fn lemma_build_tree(
    j: Json,
    texts: Map<u64, Seq<char>>,
    doc0: Doc,
    slot: Slot,
    tokens: Seq<Tok>,
    i: int,
    f: Seq<u64>,
)
    requires
        readable(j, texts),
        doc0.wf(),
        ready(doc0, slot),
        shaped(tokens, i, tokens_of(j, texts)),
        bounded(doc0, i),
        tokens.len() <= u64::MAX,
        supplied(f, floats_before(tokens, i), floats(j)),
    ensures
        build_value(doc0, slot, tokens, i, f) is Ok,
        built(
            j,
            texts,
            doc0,
            slot,
            tokens,
            i,
            build_value(doc0, slot, tokens, i, f)->Ok_0.0,
            build_value(doc0, slot, tokens, i, f)->Ok_0.1,
        ),
    decreases j, 0nat,
{
    let t = tokens[i];
    let all = tokens_of(j, texts);
    assert(shape(t) == all[0]);
    let v = new_value(j, doc0);
    let lo = marks(doc0);
    lemma_floats_step(tokens, i);
    match j {
        Json::Node(object, entries) => {
            let id = if object {
                doc0.next_object
            } else {
                doc0.next_array
            };
            let made = if object {
                doc0.add_object()
            } else {
                doc0.add_array()
            };
            let opened = store(made, slot, v);
            lemma_container_grows(doc0, slot, object);
            let inner = tokens_of_entries(object, entries, texts);
            let close = seq![mark(closer(object))];
            assert(all =~= seq![mark(opener(object))] + (inner + close));
            lemma_shaped_parts(tokens, i, seq![mark(opener(object))], inner + close);
            assert(!is_float_token(t));
            assert(keys_free(object, opened, id, entries)) by {
                if object {
                    assert forall|k: int| 0 <= k < entries.len() implies !has_key(
                        opened.objects[id],
                        (#[trigger] entries[k]).0,
                    ) by {
                        assert forall|n: int| !key_at(opened.objects[id], entries[k].0, n) by {}
                    }
                }
            }
            let added = lemma_build_entries(object, entries, texts, opened, id, tokens, i + 1, f);
            let result = fill(object, opened, id, tokens, i + 1, f);
            let doc1 = result->Ok_0.0;
            let taken = result->Ok_0.1;
            assert(build_value(doc0, slot, tokens, i, f) == Ok::<(Doc, nat), Failure>(
                (doc1, 1 + taken),
            ));
            lemma_grown_inside(
                doc0,
                opened,
                doc1,
                slot_object(slot),
                slot_id(slot),
                seq![(slot_key(slot), v)],
                object,
                id,
                added,
            );
            assert(grounded(doc1, v, j, lo, marks(doc1))) by {
                assert forall|other: Doc| #[trigger] agrees(doc1, other, lo, marks(doc1)) implies tree(
                    other,
                    v,
                    height(j),
                ) == Some(j) by {
                    lemma_agrees_within(doc1, other, lo, marks(doc1), marks(opened), marks(doc1));
                    assert(trees(other, added, heights(entries)) == Some(entries));
                    if object {
                        assert(other.objects.contains_key(id));
                        assert(other.objects[id] == doc1.objects[id]);
                        assert(doc1.objects[id] =~= added);
                    } else {
                        assert(other.arrays.contains_key(id));
                        assert(other.arrays[id] == doc1.arrays[id]);
                        assert(doc1.arrays[id] =~= values_of(added));
                        assert(keyless(values_of(added)) =~= added) by {
                            assert forall|k: int| 0 <= k < added.len() implies keyless(
                                values_of(added),
                            )[k] == added[k] by {
                                assert(added[k].0 == entries[k].0);
                                assert(entries[k].0 == Seq::<char>::empty());
                            }
                        }
                    }
                }
            }
            assert(all.len() == 1 + taken);
        },
        Json::Str(text) => {
            lemma_string_grows(doc0, slot, text);
            let doc1 = store(doc0.add_string(text), slot, v);
            assert(!is_float_token(t));
            assert(grounded(doc1, v, j, lo, marks(doc1))) by {
                assert forall|other: Doc| #[trigger] agrees(doc1, other, lo, marks(doc1)) implies tree(
                    other,
                    v,
                    height(j),
                ) == Some(j) by {
                    assert(other.strings.contains_key(doc0.next_string));
                    assert(other.strings[doc0.next_string] == doc1.strings[doc0.next_string]);
                }
            }
        },
        Json::Float(bits) => {
            assert(is_float_token(t));
            assert(floats(j)[0] == bits);
            assert(f[floats_before(tokens, i) as int + 0] == floats(j)[0]);
            lemma_store_grows(doc0, slot, v);
        },
        Json::Int(n) => {
            lemma_number_of_int_text(n, t.line, t.pos);
            assert(!is_float_token(t));
            lemma_store_grows(doc0, slot, v);
        },
        Json::Bool(b) => {
            assert(!is_float_token(t));
            lemma_store_grows(doc0, slot, v);
        },
        Json::Null => {
            assert(!is_float_token(t));
            lemma_store_grows(doc0, slot, v);
        },
    }
}

/// The kind of the token that closes an object or an array.
pub open spec fn closing_kind(object: bool) -> TokenType {
    if object {
        TokenType::CBrk
    } else {
        TokenType::CSBrk
    }
}

/// How many tokens stand before the value of an entry: the key and the
/// colon in an object, none in an array.
pub open spec fn lead_len(object: bool) -> int {
    if object {
        2
    } else {
        0
    }
}

/// Filling a container with one entry and what follows: the value is built
/// behind its key, and the container is done at its closing token or goes on
/// behind a comma.
pub proof fn lemma_fill_unfolds(
    object: bool,
    doc: Doc,
    id: u64,
    key: Seq<char>,
    tokens: Seq<Tok>,
    i: int,
    f: Seq<u64>,
)
    requires
        0 <= i,
        i + lead_len(object) < tokens.len(),
        object ==> shape(tokens[i]) == (Shape { typ: TokenType::String, value: key }) && shape(
            tokens[i + 1],
        ) == mark(':') && !doc.contains(id, key),
        !object ==> tokens[i].typ != TokenType::CSBrk,
        build_value(doc, slot_for(object, id, key), tokens, i + lead_len(object), f) is Ok,
    ensures
        ({
            let built = build_value(
                doc,
                slot_for(object, id, key),
                tokens,
                i + lead_len(object),
                f,
            )->Ok_0;
            let m = i + lead_len(object) + built.1;
            fill(object, doc, id, tokens, i, f) == match after_member(
                tokens,
                m,
                closing_kind(object),
            ) {
                Ok(done) => if done {
                    Ok::<(Doc, nat), Failure>((built.0, (lead_len(object) + built.1 + 1) as nat))
                } else {
                    match fill(object, built.0, id, tokens, m + 1, f) {
                        Ok((full, more)) => Ok(
                            (full, (lead_len(object) + built.1 + 1 + more) as nat),
                        ),
                        Err(e) => Err(e),
                    }
                },
                Err(e) => Err(e),
            }
        }),
{
}

/// The container that has taken a pair under a new key has none of the keys
/// that differ from that key and that it had not before.
pub proof fn lemma_keys_free_rest(
    object: bool,
    before: Doc,
    after: Doc,
    id: u64,
    entries: Seq<(Seq<char>, Json)>,
    v: Value,
)
    requires
        entries.len() > 0,
        keyed(object, entries),
        keys_free(object, before, id, entries),
        extended(before, after, object, id, seq![(entries[0].0, v)]),
    ensures
        keys_free(object, after, id, entries.drop_first()),
{
    let rest = entries.drop_first();
    if object {
        let pairs = before.objects[id];
        let one = seq![(entries[0].0, v)];
        assert forall|k: int| 0 <= k < rest.len() implies !has_key(
            after.objects[id],
            (#[trigger] rest[k]).0,
        ) by {
            assert(rest[k] == entries[k + 1]);
            assert(!has_key(pairs, entries[k + 1].0));
            assert forall|n: int| !key_at(after.objects[id], rest[k].0, n) by {
                if 0 <= n < pairs.len() {
                    assert((pairs + one)[n] == pairs[n]);
                    assert(!key_at(pairs, rest[k].0, n));
                } else if n == pairs.len() {
                    assert((pairs + one)[n] == one[0]);
                }
            }
        }
    }
}

/// The trees of a value and of the values behind it are found where each of
/// them is.
pub proof fn lemma_trees_cons(
    other: Doc,
    key: Seq<char>,
    v: Value,
    tail: Seq<(Seq<char>, Value)>,
    first: Json,
    rest: Seq<(Seq<char>, Json)>,
)
    requires
        tree(other, v, height(first)) == Some(first),
        trees(other, tail, heights(rest)) == Some(rest),
    ensures
        trees(other, seq![(key, v)] + tail, heights(seq![(key, first)] + rest)) == Some(
            seq![(key, first)] + rest,
        ),
{
    let added = seq![(key, v)] + tail;
    let entries = seq![(key, first)] + rest;
    assert(entries.drop_first() =~= rest);
    assert(entries[0] == (key, first));
    let fuel = heights(entries);
    assert(fuel >= height(first) && fuel >= heights(rest));
    lemma_tree_fuel(other, v, height(first), fuel);
    lemma_trees_fuel(other, tail, heights(rest), fuel);
    lemma_trees_front(other, added, fuel);
    assert(added.drop_first() =~= tail);
    assert(added[0] == (key, v));
}

/// What is grounded in two steps, a value and then the values behind it, is
/// grounded.
pub proof fn lemma_grounded_cons(
    doc0: Doc,
    made: Doc,
    doc1: Doc,
    object: bool,
    id: u64,
    key: Seq<char>,
    v: Value,
    tail: Seq<(Seq<char>, Value)>,
    first: Json,
    rest: Seq<(Seq<char>, Json)>,
)
    requires
        grounded(made, v, first, marks(doc0), marks(made)),
        grounded_entries(doc1, tail, rest, marks(made), marks(doc1)),
        grown(made, doc1, object, id, tail),
        marks(doc0).s <= marks(made).s,
        marks(doc0).o <= marks(made).o,
        marks(doc0).a <= marks(made).a,
        object ==> id < doc0.next_object,
        !object ==> id < doc0.next_array,
    ensures
        grounded_entries(
            doc1,
            seq![(key, v)] + tail,
            seq![(key, first)] + rest,
            marks(doc0),
            marks(doc1),
        ),
{
    let lo = marks(doc0);
    assert forall|other: Doc| #[trigger] agrees(doc1, other, lo, marks(doc1)) implies trees(
        other,
        seq![(key, v)] + tail,
        heights(seq![(key, first)] + rest),
    ) == Some(seq![(key, first)] + rest) by {
        lemma_agrees_back(made, doc1, other, lo, marks(made), object, id, tail);
        lemma_agrees_within(doc1, other, lo, marks(doc1), marks(made), marks(doc1));
        assert(tree(other, v, height(first)) == Some(first));
        assert(trees(other, tail, heights(rest)) == Some(rest));
        lemma_trees_cons(other, key, v, tail, first, rest);
    }
}

/// Nothing added to a container.
pub proof fn lemma_grown_by_nothing(doc: Doc, object: bool, id: u64)
    requires
        object ==> doc.objects.contains_key(id),
        !object ==> doc.arrays.contains_key(id),
    ensures
        grown(doc, doc, object, id, Seq::empty()),
        grounded_entries(doc, Seq::empty(), Seq::empty(), marks(doc), marks(doc)),
{
    let added = Seq::<(Seq<char>, Value)>::empty();
    assert(values_of(added) =~= Seq::<Value>::empty());
    if object {
        assert(doc.objects[id] + added =~= doc.objects[id]);
    } else {
        assert(doc.arrays[id] + values_of(added) =~= doc.arrays[id]);
    }
    assert(extended(doc, doc, object, id, added));
}

/// Where the tokens of entries and the closing token stand, the tokens of
/// the first entry stand first, and behind them the closing token or a
/// comma and the tokens of the entries that follow.
pub proof fn lemma_entry_layout(
    object: bool,
    entries: Seq<(Seq<char>, Json)>,
    texts: Map<u64, Seq<char>>,
    tokens: Seq<Tok>,
    i: int,
)
    requires
        entries.len() > 0,
        shaped(
            tokens,
            i,
            tokens_of_entries(object, entries, texts) + seq![mark(closer(object))],
        ),
    ensures
        ({
            let value = tokens_of(entries[0].1, texts);
            let rest = entries.drop_first();
            let m = i + lead_len(object) + value.len();
            &&& shaped(tokens, i + lead_len(object), value)
            &&& object ==> shape(tokens[i]) == (Shape {
                typ: TokenType::String,
                value: entries[0].0,
            }) && shape(tokens[i + 1]) == mark(':')
            &&& !object ==> tokens[i].typ != TokenType::CSBrk
            &&& m < tokens.len()
            &&& floats_before(tokens, i + lead_len(object)) == floats_before(tokens, i)
            &&& floats_before(tokens, m + 1) == floats_before(tokens, m)
            &&& if rest.len() == 0 {
                &&& after_member(tokens, m, closing_kind(object)) == Ok::<bool, Failure>(true)
                &&& tokens_of_entries(object, entries, texts).len() == lead_len(object)
                    + value.len()
            } else {
                &&& after_member(tokens, m, closing_kind(object)) == Ok::<bool, Failure>(false)
                &&& shaped(
                    tokens,
                    m + 1,
                    tokens_of_entries(object, rest, texts) + seq![mark(closer(object))],
                )
                &&& tokens_of_entries(object, entries, texts).len() == lead_len(object)
                    + value.len() + 1 + tokens_of_entries(object, rest, texts).len()
            }
        }),
{
    let close = seq![mark(closer(object))];
    let inner = tokens_of_entries(object, entries, texts);
    let first = entries[0];
    let rest = entries.drop_first();
    let lead: Seq<Shape> = if object {
        seq![Shape { typ: TokenType::String, value: first.0 }, mark(':')]
    } else {
        Seq::empty()
    };
    let value = tokens_of(first.1, texts);
    let more = tokens_more(object, rest, texts);
    lemma_tokens_first(first.1, texts);
    assert(inner + close =~= lead + (value + (more + close)));
    lemma_shaped_parts(tokens, i, lead, value + (more + close));
    lemma_shaped_parts(tokens, i + lead.len(), value, more + close);
    if object {
        assert(shape(tokens[i]) == lead[0]);
        assert(shape(tokens[i + 1]) == lead[1]);
        lemma_floats_before_skips(tokens, i);
        lemma_floats_before_skips(tokens, i + 1);
    } else {
        assert(shape(tokens[i]) == value[0]);
    }
    let m = i + lead_len(object) + value.len();
    assert(shape(tokens[m]) == (more + close)[0]);
    lemma_floats_before_skips(tokens, m);
    if rest.len() == 0 {
        assert(more =~= Seq::<Shape>::empty());
    } else {
        assert(more =~= seq![mark(',')] + tokens_of_entries(object, rest, texts));
        assert(more + close =~= seq![mark(',')] + (tokens_of_entries(object, rest, texts)
            + close));
        lemma_shaped_parts(
            tokens,
            m,
            seq![mark(',')],
            tokens_of_entries(object, rest, texts) + close,
        );
    }
}

/// A container filled with an entry, and then with those that follow, is
/// filled with all of them.
pub proof fn lemma_filled_in_cons(
    object: bool,
    entries: Seq<(Seq<char>, Json)>,
    texts: Map<u64, Seq<char>>,
    doc0: Doc,
    id: u64,
    tokens: Seq<Tok>,
    i: int,
    made: Doc,
    taken: nat,
    doc1: Doc,
    further: nat,
    tail: Seq<(Seq<char>, Value)>,
)
    requires
        entries.len() > 0,
        keyed(object, entries),
        doc0.wf(),
        keys_free(object, doc0, id, entries),
        built(
            entries[0].1,
            texts,
            doc0,
            slot_for(object, id, entries[0].0),
            tokens,
            i + lead_len(object),
            made,
            taken,
        ),
        floats_before(tokens, i + lead_len(object)) == floats_before(tokens, i),
        floats_before(tokens, i + lead_len(object) + taken + 1) == floats_before(
            tokens,
            i + lead_len(object) + taken,
        ),
        filled_in(
            object,
            entries.drop_first(),
            texts,
            made,
            id,
            tokens,
            i + lead_len(object) + taken + 1,
            doc1,
            further,
            tail,
        ),
        tokens_of_entries(object, entries, texts).len() == lead_len(object) + taken + 1
            + tokens_of_entries(object, entries.drop_first(), texts).len(),
    ensures
        filled_in(
            object,
            entries,
            texts,
            doc0,
            id,
            tokens,
            i,
            doc1,
            (lead_len(object) + taken + 1 + further) as nat,
            seq![(entries[0].0, new_value(entries[0].1, doc0))] + tail,
        ),
{
    let first = entries[0];
    let rest = entries.drop_first();
    let key = first.0;
    let v = new_value(first.1, doc0);
    let slot = slot_for(object, id, key);
    let one = seq![(key, v)];
    let added = one + tail;
    assert(slot_key(slot) == key) by {
        if !object {
            assert(first.0 == Seq::<char>::empty());
        }
    }
    assert(slot_object(slot) == object && slot_id(slot) == id);
    lemma_grown_twice(doc0, made, doc1, object, id, one, tail);
    assert forall|k: int| 0 <= k < added.len() implies (#[trigger] added[k]).0
        == entries[k].0 by {
        if k > 0 {
            assert(added[k] == tail[k - 1]);
            assert(entries[k] == rest[k - 1]);
        }
    }
    assert(entries =~= seq![(key, first.1)] + rest);
    lemma_grounded_cons(doc0, made, doc1, object, id, key, v, tail, first.1, rest);
    assert(floats_among(entries) == floats(first.1) + floats_among(rest));
}

/// A container filled with its last entry.
pub proof fn lemma_filled_in_last(
    object: bool,
    entries: Seq<(Seq<char>, Json)>,
    texts: Map<u64, Seq<char>>,
    doc0: Doc,
    id: u64,
    tokens: Seq<Tok>,
    i: int,
    made: Doc,
    taken: nat,
)
    requires
        entries.len() == 1,
        keyed(object, entries),
        doc0.wf(),
        keys_free(object, doc0, id, entries),
        built(
            entries[0].1,
            texts,
            doc0,
            slot_for(object, id, entries[0].0),
            tokens,
            i + lead_len(object),
            made,
            taken,
        ),
        floats_before(tokens, i + lead_len(object)) == floats_before(tokens, i),
        floats_before(tokens, i + lead_len(object) + taken + 1) == floats_before(
            tokens,
            i + lead_len(object) + taken,
        ),
        tokens_of_entries(object, entries, texts).len() == lead_len(object) + taken,
    ensures
        filled_in(
            object,
            entries,
            texts,
            doc0,
            id,
            tokens,
            i,
            made,
            (lead_len(object) + taken + 1) as nat,
            seq![(entries[0].0, new_value(entries[0].1, doc0))],
        ),
{
    let first = entries[0];
    let rest = entries.drop_first();
    let key = first.0;
    let v = new_value(first.1, doc0);
    let slot = slot_for(object, id, key);
    let one = seq![(key, v)];
    assert(slot_key(slot) == key) by {
        if !object {
            assert(first.0 == Seq::<char>::empty());
        }
    }
    assert(slot_object(slot) == object && slot_id(slot) == id);
    assert(rest =~= Seq::<(Seq<char>, Json)>::empty());
    assert(entries =~= seq![(key, first.1)] + rest);
    lemma_grown_by_nothing(made, object, id);
    lemma_grounded_cons(
        doc0,
        made,
        made,
        object,
        id,
        key,
        v,
        Seq::empty(),
        first.1,
        rest,
    );
    assert(one + Seq::<(Seq<char>, Value)>::empty() =~= one);
    assert(floats_among(rest) =~= Seq::<u64>::empty());
    assert(floats_among(entries) =~= floats(first.1));
    assert(containers_in(rest) == 0);
}

/// The parser builds, from the tokens of the entries of a container and its
/// closing token, the entries.
pub proof fn lemma_build_entries(
    object: bool,
    entries: Seq<(Seq<char>, Json)>,
    texts: Map<u64, Seq<char>>,
    doc0: Doc,
    id: u64,
    tokens: Seq<Tok>,
    i: int,
    f: Seq<u64>,
) -> (added: Seq<(Seq<char>, Value)>)
    requires
        keyed(object, entries),
        readable_entries(object, entries, texts),
        doc0.wf(),
        keys_free(object, doc0, id, entries),
        shaped(
            tokens,
            i,
            tokens_of_entries(object, entries, texts) + seq![mark(closer(object))],
        ),
        bounded(doc0, i),
        tokens.len() <= u64::MAX,
        supplied(f, floats_before(tokens, i), floats_among(entries)),
    ensures
        fill(object, doc0, id, tokens, i, f) is Ok,
        filled_in(
            object,
            entries,
            texts,
            doc0,
            id,
            tokens,
            i,
            fill(object, doc0, id, tokens, i, f)->Ok_0.0,
            fill(object, doc0, id, tokens, i, f)->Ok_0.1,
            added,
        ),
    decreases entries, 1nat,
{
    if entries.len() == 0 {
        let close = seq![mark(closer(object))];
        let inner = tokens_of_entries(object, entries, texts);
        let t = tokens[i];
        assert(shape(t) == (inner + close)[0]);
        lemma_floats_before_skips(tokens, i);
        lemma_grown_by_nothing(doc0, object, id);
        assert(entries =~= Seq::<(Seq<char>, Json)>::empty());
        assert(floats_among(entries) =~= Seq::<u64>::empty());
        assert(fill(object, doc0, id, tokens, i, f) == Ok::<(Doc, nat), Failure>((doc0, 1)));
        Seq::<(Seq<char>, Value)>::empty()
    } else {
        let first = entries[0];
        let rest = entries.drop_first();
        let key = first.0;
        let slot = slot_for(object, id, key);
        let at_value = i + lead_len(object);
        lemma_rest_readable(object, entries, texts);
        lemma_entry_layout(object, entries, texts, tokens, i);
        assert(floats_among(entries) == floats(first.1) + floats_among(rest));
        lemma_supplied_parts(f, floats_before(tokens, i), floats(first.1), floats_among(rest));
        assert(ready(doc0, slot));
        lemma_build_tree(first.1, texts, doc0, slot, tokens, at_value, f);
        let made = build_value(doc0, slot, tokens, at_value, f)->Ok_0.0;
        let taken = build_value(doc0, slot, tokens, at_value, f)->Ok_0.1;
        let v = new_value(first.1, doc0);
        let m = at_value + taken;
        lemma_fill_unfolds(object, doc0, id, key, tokens, i, f);
        if rest.len() == 0 {
            assert(entries.len() == 1);
            lemma_filled_in_last(object, entries, texts, doc0, id, tokens, i, made, taken);
            seq![(key, v)]
        } else {
            assert(extended(doc0, made, object, id, seq![(key, v)])) by {
                if !object {
                    assert(key == Seq::<char>::empty());
                }
            }
            lemma_keys_free_rest(object, doc0, made, id, entries, v);
            let tail = lemma_build_entries(object, rest, texts, made, id, tokens, m + 1, f);
            let doc1 = fill(object, made, id, tokens, m + 1, f)->Ok_0.0;
            let further = fill(object, made, id, tokens, m + 1, f)->Ok_0.1;
            lemma_filled_in_cons(
                object,
                entries,
                texts,
                doc0,
                id,
                tokens,
                i,
                made,
                taken,
                doc1,
                further,
                tail,
            );
            seq![(key, v)] + tail
        }
    }
}

/// What `build_value` has made, whatever the tokens: the document `after`,
/// with `taken` tokens read, in which the value in the slot has the tree `j`.
pub open spec fn made_of(
    j: Json,
    before: Doc,
    slot: Slot,
    i: int,
    after: Doc,
    taken: nat,
) -> bool {
    let v = new_value(j, before);
    &&& after.wf()
    &&& bounded(after, i + taken)
    &&& grown(before, after, slot_object(slot), slot_id(slot), seq![(slot_key(slot), v)])
    &&& grounded(after, v, j, marks(before), marks(after))
    &&& count(after) == count(before) + containers(j)
    &&& containers(j) <= taken
    &&& 1 <= taken
}

/// What `fill` has made, whatever the tokens: the document `after`, with
/// `taken` tokens read, in which `added` stands behind the entries of the
/// container and has the trees `entries`.
pub open spec fn filled_with(
    object: bool,
    entries: Seq<(Seq<char>, Json)>,
    before: Doc,
    id: u64,
    i: int,
    after: Doc,
    taken: nat,
    added: Seq<(Seq<char>, Value)>,
) -> bool {
    &&& after.wf()
    &&& bounded(after, i + taken)
    &&& added.len() == entries.len()
    &&& forall|k: int| 0 <= k < added.len() ==> (#[trigger] added[k]).0 == entries[k].0
    &&& !object ==> forall|k: int|
        0 <= k < added.len() ==> (#[trigger] added[k]).0 == Seq::<char>::empty()
    &&& grown(before, after, object, id, added)
    &&& grounded_entries(after, added, entries, marks(before), marks(after))
    &&& count(after) == count(before) + containers_in(entries)
    &&& containers_in(entries) + 1 <= taken
}

/// A container that holds what was added to it when it was new has the
/// trees of what was added for its tree.
pub proof fn lemma_new_container_is_grounded(
    object: bool,
    entries: Seq<(Seq<char>, Json)>,
    lo: Marks,
    opened: Doc,
    after: Doc,
    id: u64,
    added: Seq<(Seq<char>, Value)>,
)
    requires
        grown(opened, after, object, id, added),
        grounded_entries(after, added, entries, marks(opened), marks(after)),
        lo.s <= opened.next_string && lo.o <= opened.next_object && lo.a <= opened.next_array,
        object ==> lo.o <= id < opened.next_object && opened.objects[id] == Seq::<
            (Seq<char>, Value),
        >::empty(),
        !object ==> lo.a <= id < opened.next_array && opened.arrays[id] == Seq::<Value>::empty(),
        !object ==> forall|k: int|
            0 <= k < added.len() ==> (#[trigger] added[k]).0 == Seq::<char>::empty(),
    ensures
        grounded(
            after,
            if object {
                Value::Object(id)
            } else {
                Value::Array(id)
            },
            Json::Node(object, entries),
            lo,
            marks(after),
        ),
{
    let j = Json::Node(object, entries);
    let v = if object {
        Value::Object(id)
    } else {
        Value::Array(id)
    };
    assert forall|other: Doc| #[trigger] agrees(after, other, lo, marks(after)) implies tree(
        other,
        v,
        height(j),
    ) == Some(j) by {
        lemma_agrees_within(after, other, lo, marks(after), marks(opened), marks(after));
        assert(trees(other, added, heights(entries)) == Some(entries));
        if object {
            assert(other.objects.contains_key(id));
            assert(other.objects[id] == after.objects[id]);
            assert(after.objects[id] =~= added);
        } else {
            assert(other.arrays.contains_key(id));
            assert(other.arrays[id] == after.arrays[id]);
            assert(after.arrays[id] =~= values_of(added));
            assert(keyless(values_of(added)) =~= added) by {
                assert forall|k: int| 0 <= k < added.len() implies keyless(values_of(added))[k]
                    == added[k] by {
                    assert(added[k].0 == Seq::<char>::empty());
                }
            }
        }
    }
}

/// Whatever the tokens, a value that the parser builds has a tree.
pub proof fn lemma_value_is_a_tree(
    doc0: Doc,
    slot: Slot,
    tokens: Seq<Tok>,
    i: int,
    f: Seq<u64>,
) -> (j: Json)
    requires
        doc0.wf(),
        ready(doc0, slot),
        bounded(doc0, i),
        tokens.len() <= u64::MAX,
        build_value(doc0, slot, tokens, i, f) is Ok,
    ensures
        made_of(
            j,
            doc0,
            slot,
            i,
            build_value(doc0, slot, tokens, i, f)->Ok_0.0,
            build_value(doc0, slot, tokens, i, f)->Ok_0.1,
        ),
        i + build_value(doc0, slot, tokens, i, f)->Ok_0.1 <= tokens.len(),
    decreases tokens.len() - i, 0nat,
{
    let t = tokens[i];
    let lo = marks(doc0);
    match t.typ {
        TokenType::OBrk | TokenType::OSBrk => {
            let object = t.typ == TokenType::OBrk;
            let id = if object {
                doc0.next_object
            } else {
                doc0.next_array
            };
            let v = if object {
                Value::Object(id)
            } else {
                Value::Array(id)
            };
            let made = if object {
                doc0.add_object()
            } else {
                doc0.add_array()
            };
            let opened = store(made, slot, v);
            lemma_container_grows(doc0, slot, object);
            assert(fill(object, opened, id, tokens, i + 1, f) is Ok);
            let (entries, added) = lemma_entries_are_trees(object, opened, id, tokens, i + 1, f);
            let after = fill(object, opened, id, tokens, i + 1, f)->Ok_0.0;
            let j = Json::Node(object, entries);
            lemma_grown_inside(
                doc0,
                opened,
                after,
                slot_object(slot),
                slot_id(slot),
                seq![(slot_key(slot), v)],
                object,
                id,
                added,
            );
            lemma_new_container_is_grounded(object, entries, lo, opened, after, id, added);
            j
        },
        TokenType::String => {
            let j = Json::Str(t.value);
            let v = new_value(j, doc0);
            lemma_string_grows(doc0, slot, t.value);
            let after = store(doc0.add_string(t.value), slot, v);
            assert(grounded(after, v, j, lo, marks(after))) by {
                assert forall|other: Doc| #[trigger] agrees(after, other, lo, marks(after)) implies tree(
                    other,
                    v,
                    height(j),
                ) == Some(j) by {
                    assert(other.strings.contains_key(doc0.next_string));
                    assert(other.strings[doc0.next_string] == after.strings[doc0.next_string]);
                }
            }
            j
        },
        TokenType::Number => {
            let j = match number(t.value, t.line, t.pos) {
                Ok(NumberView::Int(n)) => Json::Int(n),
                _ => Json::Float(f[floats_before(tokens, i) as int]),
            };
            lemma_store_grows(doc0, slot, new_value(j, doc0));
            j
        },
        TokenType::True => {
            lemma_store_grows(doc0, slot, Value::Bool(true));
            Json::Bool(true)
        },
        TokenType::False => {
            lemma_store_grows(doc0, slot, Value::Bool(false));
            Json::Bool(false)
        },
        _ => {
            lemma_store_grows(doc0, slot, Value::Null);
            Json::Null
        },
    }
}

/// Whatever the tokens, the entries that the parser puts into a container
/// have trees.
pub proof fn lemma_entries_are_trees(
    object: bool,
    doc0: Doc,
    id: u64,
    tokens: Seq<Tok>,
    i: int,
    f: Seq<u64>,
) -> (r: (Seq<(Seq<char>, Json)>, Seq<(Seq<char>, Value)>))
    requires
        doc0.wf(),
        object ==> doc0.objects.contains_key(id),
        !object ==> doc0.arrays.contains_key(id),
        bounded(doc0, i),
        tokens.len() <= u64::MAX,
        fill(object, doc0, id, tokens, i, f) is Ok,
    ensures
        filled_with(
            object,
            r.0,
            doc0,
            id,
            i,
            fill(object, doc0, id, tokens, i, f)->Ok_0.0,
            fill(object, doc0, id, tokens, i, f)->Ok_0.1,
            r.1,
        ),
        i + fill(object, doc0, id, tokens, i, f)->Ok_0.1 <= tokens.len(),
    decreases tokens.len() - i, 1nat,
{
    let t = tokens[i];
    if t.typ == closing_kind(object) {
        lemma_grown_by_nothing(doc0, object, id);
        (Seq::empty(), Seq::empty())
    } else {
        let key: Seq<char> = if object {
            t.value
        } else {
            Seq::empty()
        };
        let slot = slot_for(object, id, key);
        let at_value = i + lead_len(object);
        assert(build_value(doc0, slot, tokens, at_value, f) is Ok);
        let first = lemma_value_is_a_tree(doc0, slot, tokens, at_value, f);
        let made = build_value(doc0, slot, tokens, at_value, f)->Ok_0.0;
        let taken = build_value(doc0, slot, tokens, at_value, f)->Ok_0.1;
        let v = new_value(first, doc0);
        let m = at_value + taken;
        let one = seq![(key, v)];
        assert(after_member(tokens, m, closing_kind(object)) is Ok);
        if after_member(tokens, m, closing_kind(object))->Ok_0 {
            lemma_grown_by_nothing(made, object, id);
            lemma_grounded_cons(
                doc0,
                made,
                made,
                object,
                id,
                key,
                v,
                Seq::empty(),
                first,
                Seq::empty(),
            );
            let entries = seq![(key, first)];
            assert(one + Seq::<(Seq<char>, Value)>::empty() =~= one);
            assert(entries + Seq::<(Seq<char>, Json)>::empty() =~= entries);
            assert(entries.drop_first() =~= Seq::<(Seq<char>, Json)>::empty());
            assert(containers_in(entries.drop_first()) == 0);
            (entries, one)
        } else {
            assert(fill(object, made, id, tokens, m + 1, f) is Ok);
            let (rest, tail) = lemma_entries_are_trees(object, made, id, tokens, m + 1, f);
            let after = fill(object, made, id, tokens, m + 1, f)->Ok_0.0;
            let entries = seq![(key, first)] + rest;
            let added = one + tail;
            lemma_grown_twice(doc0, made, after, object, id, one, tail);
            lemma_grounded_cons(doc0, made, after, object, id, key, v, tail, first, rest);
            assert forall|k: int| 0 <= k < added.len() implies (#[trigger] added[k]).0
                == entries[k].0 by {
                if k > 0 {
                    assert(added[k] == tail[k - 1]);
                    assert(entries[k] == rest[k - 1]);
                }
            }
            if !object {
                assert forall|k: int| 0 <= k < added.len() implies (#[trigger] added[k]).0
                    == Seq::<char>::empty() by {
                    if k > 0 {
                        assert(added[k] == tail[k - 1]);
                    }
                }
            }
            assert(entries.drop_first() =~= rest);
            (entries, added)
        }
    }
}

} // verus!
