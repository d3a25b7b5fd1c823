//! The serializer: a value and what it owns as compact or indented text.
use crate::context::JsonContext;
use crate::model::Doc;
use crate::ordered::JsonObject;
use crate::text::{int_text, push_int, push_string, quoted};
use crate::value::{JsonValue, Value};
use std::collections::HashMap;
use vstd::prelude::*;

verus! {

/// The text that the host has for floating-point numbers, by bit pattern.
pub open spec fn text_map(texts: HashMap<u64, String>) -> Map<u64, Seq<char>> {
    texts@.map_values(|s: String| s@)
}

/// What stands before an entry at nesting depth `tab`: nothing in compact
/// mode, a newline and `tab` tabs in indented mode.
pub open spec fn indent(tab: nat, pretty: bool) -> Seq<char> {
    if pretty {
        seq!['\n'] + Seq::new(tab, |i: int| '\t')
    } else {
        Seq::empty()
    }
}

/// What stands between a key and its value.
pub open spec fn colon(pretty: bool) -> Seq<char> {
    if pretty {
        seq![':', ' ']
    } else {
        seq![':']
    }
}

/// What stands before the entry at position `i`, ahead of its indentation.
pub open spec fn comma(i: int) -> Seq<char> {
    if i == 0 {
        Seq::empty()
    } else {
        seq![',']
    }
}

/// What stands before the closing delimiter of a container with `n` entries
/// whose entries are at depth `tab`: nothing where it is empty.
pub open spec fn closing(n: nat, tab: nat, pretty: bool) -> Seq<char> {
    if n == 0 {
        Seq::empty()
    } else {
        indent((tab - 1) as nat, pretty)
    }
}

/// The entry at position `i` of an array, at depth `tab`, where `value` is
/// the text of the item.
pub open spec fn item_text(value: Seq<char>, i: int, tab: nat, pretty: bool) -> Seq<char> {
    comma(i) + indent(tab, pretty) + value
}

/// The entry at position `i` of an object, at depth `tab`, where `value` is
/// the text of the value: `"key":value`, with a space behind the colon in
/// indented mode.
pub open spec fn pair_text(key: Seq<char>, value: Seq<char>, i: int, tab: nat, pretty: bool) -> Seq<
    char,
> {
    comma(i) + indent(tab, pretty) + quoted(key) + colon(pretty) + value
}

/// The text of `v` at nesting depth `tab`, or `None` where `v` or something
/// it owns has no entry in the tables, a floating-point number has no text
/// in `texts`, or the containers nest deeper than `fuel`.
pub open spec fn render(
    doc: Doc,
    v: Value,
    tab: nat,
    pretty: bool,
    texts: Map<u64, Seq<char>>,
    fuel: nat,
) -> Option<Seq<char>>
    decreases fuel, 0nat,
{
    match v {
        Value::Int(i) => Some(int_text(i as int)),
        Value::Float(bits) => if texts.contains_key(bits) {
            Some(texts[bits])
        } else {
            None
        },
        Value::Bool(b) => Some(
            if b {
                seq!['t', 'r', 'u', 'e']
            } else {
                seq!['f', 'a', 'l', 's', 'e']
            },
        ),
        Value::Null => Some(seq!['n', 'u', 'l', 'l']),
        Value::Str(id) => if doc.strings.contains_key(id) {
            Some(quoted(doc.strings[id]))
        } else {
            None
        },
        Value::Object(id) => if fuel > 0 && doc.objects.contains_key(id) {
            render_object(doc, doc.objects[id], tab, pretty, texts, (fuel - 1) as nat)
        } else {
            None
        },
        Value::Array(id) => if fuel > 0 && doc.arrays.contains_key(id) {
            match render_items(doc, doc.arrays[id], tab + 1, pretty, texts, (fuel - 1) as nat) {
                Some(body) => Some(
                    seq!['['] + body + closing(doc.arrays[id].len(), tab + 1, pretty) + seq![']'],
                ),
                None => None,
            }
        } else {
            None
        },
    }
}

/// The text of an object with the pairs `pairs` that stands at depth `tab`.
pub open spec fn render_object(
    doc: Doc,
    pairs: Seq<(Seq<char>, Value)>,
    tab: nat,
    pretty: bool,
    texts: Map<u64, Seq<char>>,
    fuel: nat,
) -> Option<Seq<char>>
    decreases fuel, pairs.len() + 2,
{
    match render_pairs(doc, pairs, tab + 1, pretty, texts, fuel) {
        Some(body) => Some(seq!['{'] + body + closing(pairs.len(), tab + 1, pretty) + seq!['}']),
        None => None,
    }
}

/// The entries of an object, each at depth `tab`: `"key":value`, with a space
/// behind the colon in indented mode, commas between them.
pub open spec fn render_pairs(
    doc: Doc,
    pairs: Seq<(Seq<char>, Value)>,
    tab: nat,
    pretty: bool,
    texts: Map<u64, Seq<char>>,
    fuel: nat,
) -> Option<Seq<char>>
    decreases fuel, pairs.len() + 1,
{
    if pairs.len() == 0 {
        Some(Seq::empty())
    } else {
        match render_pairs(doc, pairs.drop_last(), tab, pretty, texts, fuel) {
            Some(head) => match render(doc, pairs.last().1, tab, pretty, texts, fuel) {
                Some(value) => Some(
                    head + pair_text(pairs.last().0, value, pairs.len() - 1, tab, pretty),
                ),
                None => None,
            },
            None => None,
        }
    }
}

/// The entries of an array, each at depth `tab`, commas between them.
pub open spec fn render_items(
    doc: Doc,
    items: Seq<Value>,
    tab: nat,
    pretty: bool,
    texts: Map<u64, Seq<char>>,
    fuel: nat,
) -> Option<Seq<char>>
    decreases fuel, items.len() + 1,
{
    if items.len() == 0 {
        Some(Seq::empty())
    } else {
        match render_items(doc, items.drop_last(), tab, pretty, texts, fuel) {
            Some(head) => match render(doc, items.last(), tab, pretty, texts, fuel) {
                Some(value) => Some(head + item_text(value, items.len() - 1, tab, pretty)),
                None => None,
            },
            None => None,
        }
    }
}

/// The text of the whole document: that of its root, with as much nesting
/// allowed as the document has containers.
pub open spec fn serialize(doc: Doc, pretty: bool, texts: Map<u64, Seq<char>>) -> Option<
    Seq<char>,
> {
    render(doc, doc.root(), 0, pretty, texts, doc.depth_limit())
}

/// Where the entries up to some position have no text, all of them have none.
pub proof fn lemma_pairs_prefix(
    doc: Doc,
    pairs: Seq<(Seq<char>, Value)>,
    k: int,
    tab: nat,
    pretty: bool,
    texts: Map<u64, Seq<char>>,
    fuel: nat,
)
    requires
        0 <= k <= pairs.len(),
        render_pairs(doc, pairs.take(k), tab, pretty, texts, fuel) is None,
    ensures
        render_pairs(doc, pairs, tab, pretty, texts, fuel) is None,
    decreases pairs.len() - k,
{
    if k < pairs.len() {
        assert(pairs.take(k + 1).drop_last() =~= pairs.take(k));
        lemma_pairs_prefix(doc, pairs, k + 1, tab, pretty, texts, fuel);
    } else {
        assert(pairs.take(k) =~= pairs);
    }
}

/// Where the items up to some position have no text, all of them have none.
pub proof fn lemma_items_prefix(
    doc: Doc,
    items: Seq<Value>,
    k: int,
    tab: nat,
    pretty: bool,
    texts: Map<u64, Seq<char>>,
    fuel: nat,
)
    requires
        0 <= k <= items.len(),
        render_items(doc, items.take(k), tab, pretty, texts, fuel) is None,
    ensures
        render_items(doc, items, tab, pretty, texts, fuel) is None,
    decreases items.len() - k,
{
    if k < items.len() {
        assert(items.take(k + 1).drop_last() =~= items.take(k));
        lemma_items_prefix(doc, items, k + 1, tab, pretty, texts, fuel);
    } else {
        assert(items.take(k) =~= items);
    }
}

/// The floating-point numbers that `v` and what it owns hold, in the order
/// in which they are written out, as bit patterns; `None` where `v` or
/// something it owns has no entry, or the containers nest deeper than `fuel`.
pub open spec fn floats_in(doc: Doc, v: Value, fuel: nat) -> Option<Seq<u64>>
    decreases fuel, 0nat,
{
    match v {
        Value::Float(bits) => Some(seq![bits]),
        Value::Str(id) => if doc.strings.contains_key(id) {
            Some(Seq::empty())
        } else {
            None
        },
        Value::Object(id) => if fuel > 0 && doc.objects.contains_key(id) {
            floats_in_all(doc, crate::model::values_of(doc.objects[id]), (fuel - 1) as nat)
        } else {
            None
        },
        Value::Array(id) => if fuel > 0 && doc.arrays.contains_key(id) {
            floats_in_all(doc, doc.arrays[id], (fuel - 1) as nat)
        } else {
            None
        },
        _ => Some(Seq::empty()),
    }
}

/// The floating-point numbers of `items`, one item after the other.
pub open spec fn floats_in_all(doc: Doc, items: Seq<Value>, fuel: nat) -> Option<Seq<u64>>
    decreases fuel, items.len() + 1,
{
    if items.len() == 0 {
        Some(Seq::empty())
    } else {
        match floats_in_all(doc, items.drop_last(), fuel) {
            Some(head) => match floats_in(doc, items.last(), fuel) {
                Some(tail) => Some(head + tail),
                None => None,
            },
            None => None,
        }
    }
}

/// The floating-point numbers of the whole document, in the order in which
/// they are written out.
pub open spec fn floats_of(doc: Doc) -> Option<Seq<u64>> {
    floats_in(doc, doc.root(), doc.depth_limit())
}

/// `texts` has a text for each of `floats`.
pub open spec fn covers(texts: Map<u64, Seq<char>>, floats: Seq<u64>) -> bool {
    forall|k: int| 0 <= k < floats.len() ==> texts.contains_key(#[trigger] floats[k])
}

/// When a value has a text: when its floating-point numbers can be listed
/// and each of them has a text.
pub proof fn lemma_render_succeeds(
    doc: Doc,
    v: Value,
    tab: nat,
    pretty: bool,
    texts: Map<u64, Seq<char>>,
    fuel: nat,
)
    ensures
        render(doc, v, tab, pretty, texts, fuel) is Some <==> floats_in(doc, v, fuel) is Some
            && covers(texts, floats_in(doc, v, fuel)->Some_0),
    decreases fuel, 0nat,
{
    match v {
        Value::Float(bits) => {
            assert(seq![bits][0] == bits);
        },
        Value::Object(id) => {
            if fuel > 0 && doc.objects.contains_key(id) {
                lemma_render_pairs_succeeds(
                    doc,
                    doc.objects[id],
                    tab + 1,
                    pretty,
                    texts,
                    (fuel - 1) as nat,
                );
            }
        },
        Value::Array(id) => {
            if fuel > 0 && doc.arrays.contains_key(id) {
                lemma_render_items_succeeds(
                    doc,
                    doc.arrays[id],
                    tab + 1,
                    pretty,
                    texts,
                    (fuel - 1) as nat,
                );
            }
        },
        _ => {},
    }
}

/// When the entries of an object have a text.
pub proof fn lemma_render_pairs_succeeds(
    doc: Doc,
    pairs: Seq<(Seq<char>, Value)>,
    tab: nat,
    pretty: bool,
    texts: Map<u64, Seq<char>>,
    fuel: nat,
)
    ensures
        render_pairs(doc, pairs, tab, pretty, texts, fuel) is Some <==> floats_in_all(
            doc,
            crate::model::values_of(pairs),
            fuel,
        ) is Some && covers(
            texts,
            floats_in_all(doc, crate::model::values_of(pairs), fuel)->Some_0,
        ),
    decreases fuel, pairs.len() + 1,
{
    let values = crate::model::values_of(pairs);
    if pairs.len() > 0 {
        assert(crate::model::values_of(pairs.drop_last()) =~= values.drop_last());
        assert(values.last() == pairs.last().1);
        lemma_render_pairs_succeeds(doc, pairs.drop_last(), tab, pretty, texts, fuel);
        lemma_render_succeeds(doc, pairs.last().1, tab, pretty, texts, fuel);
        lemma_covers_both(
            texts,
            floats_in_all(doc, values.drop_last(), fuel),
            floats_in(doc, values.last(), fuel),
        );
    }
}

/// When the entries of an array have a text.
pub proof fn lemma_render_items_succeeds(
    doc: Doc,
    items: Seq<Value>,
    tab: nat,
    pretty: bool,
    texts: Map<u64, Seq<char>>,
    fuel: nat,
)
    ensures
        render_items(doc, items, tab, pretty, texts, fuel) is Some <==> floats_in_all(
            doc,
            items,
            fuel,
        ) is Some && covers(texts, floats_in_all(doc, items, fuel)->Some_0),
    decreases fuel, items.len() + 1,
{
    if items.len() > 0 {
        lemma_render_items_succeeds(doc, items.drop_last(), tab, pretty, texts, fuel);
        lemma_render_succeeds(doc, items.last(), tab, pretty, texts, fuel);
        lemma_covers_both(
            texts,
            floats_in_all(doc, items.drop_last(), fuel),
            floats_in(doc, items.last(), fuel),
        );
    }
}

/// `texts` covers two lists one after the other when it covers each.
pub proof fn lemma_covers_both(
    texts: Map<u64, Seq<char>>,
    head: Option<Seq<u64>>,
    tail: Option<Seq<u64>>,
)
    ensures
        head is Some && tail is Some ==> (covers(texts, head->Some_0 + tail->Some_0) <==> covers(
            texts,
            head->Some_0,
        ) && covers(texts, tail->Some_0)),
{
    if head is Some && tail is Some {
        let a = head->Some_0;
        let b = tail->Some_0;
        let ab = a + b;
        if covers(texts, ab) {
            assert forall|k: int| 0 <= k < a.len() implies texts.contains_key(#[trigger] a[k]) by {
                assert(ab[k] == a[k]);
            }
            assert forall|k: int| 0 <= k < b.len() implies texts.contains_key(#[trigger] b[k]) by {
                assert(ab[a.len() + k] == b[k]);
            }
        }
        if covers(texts, a) && covers(texts, b) {
            assert forall|k: int| 0 <= k < ab.len() implies texts.contains_key(
                #[trigger] ab[k],
            ) by {
                if k < a.len() {
                    assert(ab[k] == a[k]);
                } else {
                    assert(ab[k] == b[k - a.len()]);
                }
            }
        }
    }
}

/// Where the items up to some position have no list of floating-point
/// numbers, all of them have none.
pub proof fn lemma_floats_prefix(doc: Doc, items: Seq<Value>, k: int, fuel: nat)
    requires
        0 <= k <= items.len(),
        floats_in_all(doc, items.take(k), fuel) is None,
    ensures
        floats_in_all(doc, items, fuel) is None,
    decreases items.len() - k,
{
    if k < items.len() {
        assert(items.take(k + 1).drop_last() =~= items.take(k));
        lemma_floats_prefix(doc, items, k + 1, fuel);
    } else {
        assert(items.take(k) =~= items);
    }
}

/// Appends the floating-point numbers of `items`; `false` where they cannot
/// be listed.
fn push_floats_all(cxt: &JsonContext, out: &mut Vec<u64>, items: &Vec<Value>, fuel: usize) -> (done:
    bool)
    ensures
        done == floats_in_all(cxt@, items@, fuel as nat) is Some,
        done ==> final(out)@ == old(out)@ + floats_in_all(cxt@, items@, fuel as nat)->Some_0,
    decreases fuel, 1nat,
{
    let n = items.len();
    let mut i: usize = 0;
    assert(items@.take(0) =~= Seq::<Value>::empty());
    assert(old(out)@ + Seq::<u64>::empty() =~= old(out)@);
    while i < n
        invariant
            i <= n,
            n == items@.len(),
            floats_in_all(cxt@, items@.take(i as int), fuel as nat) is Some,
            out@ == old(out)@ + floats_in_all(cxt@, items@.take(i as int), fuel as nat)->Some_0,
        decreases n - i,
    {
        proof {
            assert(items@.take(i + 1).drop_last() =~= items@.take(i as int));
            assert(items@.take(i + 1).last() == items@[i as int]);
        }
        let ghost so_far = floats_in_all(cxt@, items@.take(i as int), fuel as nat)->Some_0;
        if !push_floats(cxt, out, items[i], fuel) {
            proof {
                assert(floats_in_all(cxt@, items@.take(i + 1), fuel as nat) is None);
                lemma_floats_prefix(cxt@, items@, i + 1, fuel as nat);
            }
            return false;
        }
        proof {
            let tail = floats_in(cxt@, items@[i as int], fuel as nat)->Some_0;
            assert(old(out)@ + so_far + tail =~= old(out)@ + (so_far + tail));
        }
        i += 1;
    }
    assert(items@.take(n as int) =~= items@);
    true
}

/// Appends the floating-point numbers that `value` and what it owns hold;
/// `false` where they cannot be listed.
fn push_floats(cxt: &JsonContext, out: &mut Vec<u64>, value: Value, fuel: usize) -> (done: bool)
    ensures
        done == floats_in(cxt@, value, fuel as nat) is Some,
        done ==> final(out)@ == old(out)@ + floats_in(cxt@, value, fuel as nat)->Some_0,
    decreases fuel, 0nat,
{
    match value {
        Value::Float(bits) => {
            out.push(bits);
            assert(out@ =~= old(out)@ + seq![bits]);
            true
        },
        Value::Str(id) => {
            assert(old(out)@ + Seq::<u64>::empty() =~= old(out)@);
            cxt.has_string(id)
        },
        Value::Object(id) => {
            if fuel == 0 {
                return false;
            }
            match cxt.object(id) {
                Some(obj) => {
                    let values = obj.values();
                    push_floats_all(cxt, out, &values, fuel - 1)
                },
                None => false,
            }
        },
        Value::Array(id) => {
            if fuel == 0 {
                return false;
            }
            match cxt.array(id) {
                Some(items) => {
                    let values = crate::context::decode_all(items);
                    push_floats_all(cxt, out, &values, fuel - 1)
                },
                None => false,
            }
        },
        _ => {
            assert(old(out)@ + Seq::<u64>::empty() =~= old(out)@);
            true
        },
    }
}

/// Appends what stands before an entry at depth `tab`.
fn push_indent(out: &mut String, tab: usize, pretty: bool)
    ensures
        final(out)@ == old(out)@ + indent(tab as nat, pretty),
{
    if pretty {
        out.push('\n');
        let mut i: usize = 0;
        while i < tab
            invariant
                i <= tab,
                out@ == old(out)@.push('\n') + Seq::new(i as nat, |j: int| '\t'),
            decreases tab - i,
        {
            out.push('\t');
            i += 1;
            assert(out@ =~= old(out)@.push('\n') + Seq::new(i as nat, |j: int| '\t'));
        }
        assert(out@ =~= old(out)@ + indent(tab as nat, pretty));
    } else {
        assert(out@ =~= old(out)@ + indent(tab as nat, pretty));
    }
}

/// Appends what stands before the entry at position `i` and depth `tab`.
fn push_lead(out: &mut String, i: usize, tab: usize, pretty: bool)
    ensures
        final(out)@ == old(out)@ + (comma(i as int) + indent(tab as nat, pretty)),
{
    if i > 0 {
        out.push(',');
    }
    push_indent(out, tab, pretty);
    assert(out@ =~= old(out)@ + (comma(i as int) + indent(tab as nat, pretty)));
}

/// Appends the entry at position `i` of an array; `false` where the item
/// has no text.
fn push_item(
    cxt: &JsonContext,
    out: &mut String,
    value: Value,
    i: usize,
    tab: usize,
    beautify: bool,
    texts: &HashMap<u64, String>,
    fuel: usize,
) -> (done: bool)
    requires
        tab + fuel < usize::MAX,
    ensures
        done == render(cxt@, value, tab as nat, beautify, text_map(*texts), fuel as nat) is Some,
        done ==> final(out)@ == old(out)@ + item_text(
            render(cxt@, value, tab as nat, beautify, text_map(*texts), fuel as nat)->Some_0,
            i as int,
            tab as nat,
            beautify,
        ),
    decreases fuel, 1nat,
{
    push_lead(out, i, tab, beautify);
    let ghost led = out@;
    let done = str_push_value(cxt, out, value, tab, beautify, texts, fuel);
    proof {
        if done {
            let text = render(
                cxt@,
                value,
                tab as nat,
                beautify,
                text_map(*texts),
                fuel as nat,
            )->Some_0;
            assert(out@ =~= old(out)@ + item_text(text, i as int, tab as nat, beautify));
        }
    }
    done
}

/// Appends the entry at position `i` of an object; `false` where the value
/// has no text.
fn push_pair(
    cxt: &JsonContext,
    out: &mut String,
    key: &String,
    value: Value,
    i: usize,
    tab: usize,
    beautify: bool,
    texts: &HashMap<u64, String>,
    fuel: usize,
) -> (done: bool)
    requires
        tab + fuel < usize::MAX,
    ensures
        done == render(cxt@, value, tab as nat, beautify, text_map(*texts), fuel as nat) is Some,
        done ==> final(out)@ == old(out)@ + pair_text(
            key@,
            render(cxt@, value, tab as nat, beautify, text_map(*texts), fuel as nat)->Some_0,
            i as int,
            tab as nat,
            beautify,
        ),
    decreases fuel, 1nat,
{
    push_lead(out, i, tab, beautify);
    push_string(out, key);
    out.push(':');
    if beautify {
        out.push(' ');
    }
    let ghost led = out@;
    assert(led =~= old(out)@ + (comma(i as int) + indent(tab as nat, beautify) + quoted(key@)
        + colon(beautify)));
    let done = str_push_value(cxt, out, value, tab, beautify, texts, fuel);
    proof {
        if done {
            let text = render(
                cxt@,
                value,
                tab as nat,
                beautify,
                text_map(*texts),
                fuel as nat,
            )->Some_0;
            assert(out@ =~= old(out)@ + pair_text(key@, text, i as int, tab as nat, beautify));
        }
    }
    done
}

/// Appends the entries of an array, each at depth `tab`; `false` where one
/// of the items has no text.
fn push_items(
    cxt: &JsonContext,
    out: &mut String,
    items: &Vec<JsonValue>,
    tab: usize,
    beautify: bool,
    texts: &HashMap<u64, String>,
    fuel: usize,
) -> (done: bool)
    requires
        tab + fuel < usize::MAX,
    ensures
        done == render_items(
            cxt@,
            crate::context::items_of(items@),
            tab as nat,
            beautify,
            text_map(*texts),
            fuel as nat,
        ) is Some,
        done ==> final(out)@ == old(out)@ + render_items(
            cxt@,
            crate::context::items_of(items@),
            tab as nat,
            beautify,
            text_map(*texts),
            fuel as nat,
        )->Some_0,
    decreases fuel, 2nat,
{
    let ghost doc = cxt@;
    let ghost all = crate::context::items_of(items@);
    let ghost tm = text_map(*texts);
    let n = items.len();
    let mut i: usize = 0;
    assert(all.take(0) =~= Seq::<Value>::empty());
    assert(old(out)@ + Seq::<char>::empty() =~= old(out)@);
    while i < n
        invariant
            i <= n,
            n == items@.len(),
            tab + fuel < usize::MAX,
            doc == cxt@,
            tm == text_map(*texts),
            all == crate::context::items_of(items@),
            render_items(doc, all.take(i as int), tab as nat, beautify, tm, fuel as nat) is Some,
            out@ == old(out)@ + render_items(
                doc,
                all.take(i as int),
                tab as nat,
                beautify,
                tm,
                fuel as nat,
            )->Some_0,
        decreases n - i,
    {
        let ghost head = render_items(
            doc,
            all.take(i as int),
            tab as nat,
            beautify,
            tm,
            fuel as nat,
        )->Some_0;
        proof {
            assert(all.take(i + 1).drop_last() =~= all.take(i as int));
            assert(all.take(i + 1).last() == all[i as int]);
        }
        if !push_item(cxt, out, items[i].decode(), i, tab, beautify, texts, fuel) {
            proof {
                assert(render_items(doc, all.take(i + 1), tab as nat, beautify, tm, fuel as nat)
                    is None);
                lemma_items_prefix(doc, all, i + 1, tab as nat, beautify, tm, fuel as nat);
            }
            return false;
        }
        proof {
            let text = render(doc, all[i as int], tab as nat, beautify, tm, fuel as nat)->Some_0;
            let entry = item_text(text, i as int, tab as nat, beautify);
            assert(render_items(doc, all.take(i + 1), tab as nat, beautify, tm, fuel as nat)
                == Some(head + entry));
            assert(old(out)@ + head + entry =~= old(out)@ + (head + entry));
        }
        i += 1;
    }
    assert(all.take(n as int) =~= all);
    true
}

/// Appends the entries of an object, each at depth `tab`; `false` where one
/// of the values has no text.
fn push_pairs(
    cxt: &JsonContext,
    out: &mut String,
    obj: &JsonObject,
    tab: usize,
    beautify: bool,
    texts: &HashMap<u64, String>,
    fuel: usize,
) -> (done: bool)
    requires
        tab + fuel < usize::MAX,
    ensures
        done == render_pairs(cxt@, obj@, tab as nat, beautify, text_map(*texts), fuel as nat)
            is Some,
        done ==> final(out)@ == old(out)@ + render_pairs(
            cxt@,
            obj@,
            tab as nat,
            beautify,
            text_map(*texts),
            fuel as nat,
        )->Some_0,
    decreases fuel, 2nat,
{
    let ghost doc = cxt@;
    let ghost all = obj@;
    let ghost tm = text_map(*texts);
    let n = obj.len();
    let mut i: usize = 0;
    assert(all.take(0) =~= Seq::<(Seq<char>, Value)>::empty());
    assert(old(out)@ + Seq::<char>::empty() =~= old(out)@);
    while i < n
        invariant
            i <= n,
            n == all.len(),
            tab + fuel < usize::MAX,
            doc == cxt@,
            tm == text_map(*texts),
            all == obj@,
            render_pairs(doc, all.take(i as int), tab as nat, beautify, tm, fuel as nat) is Some,
            out@ == old(out)@ + render_pairs(
                doc,
                all.take(i as int),
                tab as nat,
                beautify,
                tm,
                fuel as nat,
            )->Some_0,
        decreases n - i,
    {
        let ghost head = render_pairs(
            doc,
            all.take(i as int),
            tab as nat,
            beautify,
            tm,
            fuel as nat,
        )->Some_0;
        proof {
            assert(all.take(i + 1).drop_last() =~= all.take(i as int));
            assert(all.take(i + 1).last() == all[i as int]);
        }
        match obj.get_index(i) {
            Some((key, val)) => {
                if !push_pair(cxt, out, key, val.decode(), i, tab, beautify, texts, fuel) {
                    proof {
                        assert(render_pairs(
                            doc,
                            all.take(i + 1),
                            tab as nat,
                            beautify,
                            tm,
                            fuel as nat,
                        ) is None);
                        lemma_pairs_prefix(doc, all, i + 1, tab as nat, beautify, tm, fuel as nat);
                    }
                    return false;
                }
                proof {
                    let text = render(
                        doc,
                        all[i as int].1,
                        tab as nat,
                        beautify,
                        tm,
                        fuel as nat,
                    )->Some_0;
                    let entry = pair_text(key@, text, i as int, tab as nat, beautify);
                    assert(render_pairs(
                        doc,
                        all.take(i + 1),
                        tab as nat,
                        beautify,
                        tm,
                        fuel as nat,
                    ) == Some(head + entry));
                    assert(old(out)@ + head + entry =~= old(out)@ + (head + entry));
                }
            },
            None => {},
        }
        i += 1;
    }
    assert(all.take(n as int) =~= all);
    true
}

/// Appends the text of `value`, which stands at nesting depth `tab`; `false`
/// where it has none, and `out` then holds no more than a part of it.
pub fn str_push_value(
    cxt: &JsonContext,
    out: &mut String,
    value: Value,
    tab: usize,
    beautify: bool,
    texts: &HashMap<u64, String>,
    fuel: usize,
) -> (done: bool)
    requires
        tab + fuel < usize::MAX,
    ensures
        done == render(cxt@, value, tab as nat, beautify, text_map(*texts), fuel as nat) is Some,
        done ==> final(out)@ == old(out)@ + render(
            cxt@,
            value,
            tab as nat,
            beautify,
            text_map(*texts),
            fuel as nat,
        )->Some_0,
    decreases fuel, 0nat,
{
    match value {
        Value::Int(i) => {
            push_int(out, i);
            true
        },
        Value::Float(bits) => {
            match texts.get(&bits) {
                Some(t) => {
                    out.append(t.as_str());
                    true
                },
                None => false,
            }
        },
        Value::Bool(b) => {
            if b {
                out.push('t');
                out.push('r');
                out.push('u');
                out.push('e');
                assert(out@ =~= old(out)@ + seq!['t', 'r', 'u', 'e']);
            } else {
                out.push('f');
                out.push('a');
                out.push('l');
                out.push('s');
                out.push('e');
                assert(out@ =~= old(out)@ + seq!['f', 'a', 'l', 's', 'e']);
            }
            true
        },
        Value::Null => {
            out.push('n');
            out.push('u');
            out.push('l');
            out.push('l');
            assert(out@ =~= old(out)@ + seq!['n', 'u', 'l', 'l']);
            true
        },
        Value::Str(id) => {
            match cxt.string(id) {
                Some(s) => {
                    push_string(out, s);
                    true
                },
                None => false,
            }
        },
        Value::Object(id) => {
            if fuel == 0 {
                return false;
            }
            match cxt.object(id) {
                Some(obj) => {
                    match obj.to_string(cxt, tab, beautify, texts, fuel - 1) {
                        Some(t) => {
                            out.append(t.as_str());
                            true
                        },
                        None => false,
                    }
                },
                None => false,
            }
        },
        Value::Array(id) => {
            if fuel == 0 {
                return false;
            }
            match cxt.array(id) {
                Some(items) => {
                    out.push('[');
                    if !push_items(cxt, out, items, tab + 1, beautify, texts, fuel - 1) {
                        return false;
                    }
                    if items.len() > 0 {
                        push_indent(out, tab, beautify);
                    }
                    out.push(']');
                    assert(out@ =~= old(out)@ + render(
                        cxt@,
                        value,
                        tab as nat,
                        beautify,
                        text_map(*texts),
                        fuel as nat,
                    )->Some_0);
                    true
                },
                None => false,
            }
        },
    }
}

impl JsonObject {
    /// The text of this object, which stands at nesting depth `p_tab`, or
    /// `None` where it has none.
    pub fn to_string(
        &self,
        cxt: &JsonContext,
        p_tab: usize,
        beautify: bool,
        texts: &HashMap<u64, String>,
        fuel: usize,
    ) -> (r: Option<String>)
        requires
            p_tab + fuel + 1 < usize::MAX,
        ensures
            match r {
                Some(t) => render_object(
                    cxt@,
                    self@,
                    p_tab as nat,
                    beautify,
                    text_map(*texts),
                    fuel as nat,
                ) == Some(t@),
                None => render_object(
                    cxt@,
                    self@,
                    p_tab as nat,
                    beautify,
                    text_map(*texts),
                    fuel as nat,
                ) is None,
            },
        decreases fuel, 3nat,
    {
        let mut out = String::new();
        out.push('{');
        if !push_pairs(cxt, &mut out, self, p_tab + 1, beautify, texts, fuel) {
            return None;
        }
        if self.len() > 0 {
            push_indent(&mut out, p_tab, beautify);
        }
        out.push('}');
        assert(out@ =~= render_object(
            cxt@,
            self@,
            p_tab as nat,
            beautify,
            text_map(*texts),
            fuel as nat,
        )->Some_0);
        Some(out)
    }
}

impl JsonContext {
    /// The floating-point numbers of the document, as bit patterns, in the
    /// order in which `to_string` writes them: those that it wants a text
    /// for. `None` where a value that the root owns has no entry, or where
    /// the containers nest deeper than there are containers.
    pub fn floats(&self) -> (r: Option<Vec<u64>>)
        ensures
            match r {
                Some(list) => floats_of(self@) == Some(list@),
                None => floats_of(self@) is None,
            },
    {
        let mut out: Vec<u64> = Vec::new();
        let fuel = self.depth_limit();
        let root = self.root();
        if push_floats(self, &mut out, root, fuel) {
            assert(out@ =~= floats_of(self@)->Some_0);
            Some(out)
        } else {
            None
        }
    }

    /// The document as text, compact or, where `beautify` is set, indented.
    /// A floating-point number is written as `texts` has it under its bit
    /// pattern. `None` where a value that the root owns has no entry, where
    /// the containers nest deeper than there are containers, or where a
    /// floating-point number has no text.
    pub fn to_string(&self, beautify: bool, texts: &HashMap<u64, String>) -> (r: Option<String>)
        ensures
            match r {
                Some(t) => serialize(self@, beautify, text_map(*texts)) == Some(t@),
                None => serialize(self@, beautify, text_map(*texts)) is None,
            },
            r is Some <==> floats_of(self@) is Some && covers(
                text_map(*texts),
                floats_of(self@)->Some_0,
            ),
    {
        proof {
            lemma_render_succeeds(
                self@,
                self@.root(),
                0,
                beautify,
                text_map(*texts),
                self@.depth_limit(),
            );
        }
        let mut out = String::new();
        let fuel = self.depth_limit();
        let root = self.root();
        if str_push_value(self, &mut out, root, 0, beautify, texts, fuel) {
            assert(out@ =~= serialize(self@, beautify, text_map(*texts))->Some_0);
            Some(out)
        } else {
            None
        }
    }
}

} // verus!
