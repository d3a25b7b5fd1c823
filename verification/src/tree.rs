//! Documents as trees: what a value is once its ids are forgotten, and the
//! compact text of such a tree.
use crate::model::Doc;
use crate::serializer::{
    comma, covers, item_text, lemma_covers_both, pair_text, render, render_items, render_object,
    render_pairs,
};
use crate::text::{int_text, quoted};
use crate::value::Value;
use vstd::prelude::*;

verus! {

/// A value with all it owns. A container is an object or an array and holds
/// entries in order, each a key and a value; the keys of an array's entries
/// are empty and stand for nothing.
pub enum Json {
    Int(i64),
    Float(u64),
    Bool(bool),
    Null,
    Str(Seq<char>),
    Node(bool, Seq<(Seq<char>, Json)>),
}

/// The items of an array as entries without keys.
pub open spec fn keyless(items: Seq<Value>) -> Seq<(Seq<char>, Value)> {
    items.map_values(|v: Value| (Seq::<char>::empty(), v))
}

/// The tree of `v` in `doc`, or `None` where `v` or something it owns has no
/// entry, or the containers nest deeper than `fuel`.
pub open spec fn tree(doc: Doc, v: Value, fuel: nat) -> Option<Json>
    decreases fuel, 0nat,
{
    match v {
        Value::Int(i) => Some(Json::Int(i)),
        Value::Float(bits) => Some(Json::Float(bits)),
        Value::Bool(b) => Some(Json::Bool(b)),
        Value::Null => Some(Json::Null),
        Value::Str(id) => if doc.strings.contains_key(id) {
            Some(Json::Str(doc.strings[id]))
        } else {
            None
        },
        Value::Object(id) => if fuel > 0 && doc.objects.contains_key(id) {
            match trees(doc, doc.objects[id], (fuel - 1) as nat) {
                Some(entries) => Some(Json::Node(true, entries)),
                None => None,
            }
        } else {
            None
        },
        Value::Array(id) => if fuel > 0 && doc.arrays.contains_key(id) {
            match trees(doc, keyless(doc.arrays[id]), (fuel - 1) as nat) {
                Some(entries) => Some(Json::Node(false, entries)),
                None => None,
            }
        } else {
            None
        },
    }
}

/// The trees of the values of `pairs`, each with its key.
pub open spec fn trees(doc: Doc, pairs: Seq<(Seq<char>, Value)>, fuel: nat) -> Option<
    Seq<(Seq<char>, Json)>,
>
    decreases fuel, pairs.len() + 1,
{
    if pairs.len() == 0 {
        Some(Seq::empty())
    } else {
        match trees(doc, pairs.drop_last(), fuel) {
            Some(head) => match tree(doc, pairs.last().1, fuel) {
                Some(last) => Some(head.push((pairs.last().0, last))),
                None => None,
            },
            None => None,
        }
    }
}

/// How deep the containers of `j` nest.
pub open spec fn height(j: Json) -> nat
    decreases j,
{
    match j {
        Json::Node(_, entries) => 1 + heights(entries),
        _ => 0,
    }
}

/// The greatest height among `entries`.
pub open spec fn heights(entries: Seq<(Seq<char>, Json)>) -> nat
    decreases entries,
{
    if entries.len() == 0 {
        0
    } else {
        let first = height(entries[0].1);
        let rest = heights(entries.drop_first());
        if first >= rest {
            first
        } else {
            rest
        }
    }
}

/// The number of containers in `j`.
pub open spec fn containers(j: Json) -> nat
    decreases j,
{
    match j {
        Json::Node(_, entries) => 1 + containers_in(entries),
        _ => 0,
    }
}

/// The number of containers in `entries`.
pub open spec fn containers_in(entries: Seq<(Seq<char>, Json)>) -> nat
    decreases entries,
{
    if entries.len() == 0 {
        0
    } else {
        containers(entries[0].1) + containers_in(entries.drop_first())
    }
}

/// The floating-point numbers of `j`, in order.
pub open spec fn floats(j: Json) -> Seq<u64>
    decreases j,
{
    match j {
        Json::Float(bits) => seq![bits],
        Json::Node(_, entries) => floats_among(entries),
        _ => Seq::empty(),
    }
}

/// The floating-point numbers of `entries`, in order.
pub open spec fn floats_among(entries: Seq<(Seq<char>, Json)>) -> Seq<u64>
    decreases entries,
{
    if entries.len() == 0 {
        Seq::empty()
    } else {
        floats(entries[0].1) + floats_among(entries.drop_first())
    }
}

/// The character that opens an object or an array.
pub open spec fn opener(object: bool) -> char {
    if object {
        '{'
    } else {
        '['
    }
}

/// The character that closes an object or an array.
pub open spec fn closer(object: bool) -> char {
    if object {
        '}'
    } else {
        ']'
    }
}

/// The compact text of `j`, a floating-point number as `texts` has it.
pub open spec fn compact(j: Json, texts: Map<u64, Seq<char>>) -> Seq<char>
    decreases j, 0nat,
{
    match j {
        Json::Int(i) => int_text(i as int),
        Json::Float(bits) => texts[bits],
        Json::Bool(b) => if b {
            seq!['t', 'r', 'u', 'e']
        } else {
            seq!['f', 'a', 'l', 's', 'e']
        },
        Json::Null => seq!['n', 'u', 'l', 'l'],
        Json::Str(s) => quoted(s),
        Json::Node(object, entries) => seq![opener(object)] + compact_entries(
            object,
            entries,
            texts,
        ) + seq![closer(object)],
    }
}

/// The compact text of an entry: `"key":value` in an object, the value alone
/// in an array.
pub open spec fn compact_entry(object: bool, entry: (Seq<char>, Json), texts: Map<u64, Seq<char>>)
    -> Seq<char>
    decreases entry.1, 1nat,
{
    if object {
        quoted(entry.0) + seq![':'] + compact(entry.1, texts)
    } else {
        compact(entry.1, texts)
    }
}

/// The compact text of `entries`, a comma before each.
pub open spec fn compact_more(
    object: bool,
    entries: Seq<(Seq<char>, Json)>,
    texts: Map<u64, Seq<char>>,
) -> Seq<char>
    decreases entries, 1nat,
{
    if entries.len() == 0 {
        Seq::empty()
    } else {
        seq![','] + compact_entry(object, entries[0], texts) + compact_more(
            object,
            entries.drop_first(),
            texts,
        )
    }
}

/// The compact text of `entries`, commas between them.
pub open spec fn compact_entries(
    object: bool,
    entries: Seq<(Seq<char>, Json)>,
    texts: Map<u64, Seq<char>>,
) -> Seq<char>
    decreases entries, 2nat,
{
    if entries.len() == 0 {
        Seq::empty()
    } else {
        compact_entry(object, entries[0], texts) + compact_more(object, entries.drop_first(), texts)
    }
}

/// The text that `render` gives, from the tree: the compact text of the tree
/// where `texts` has a text for each of its floating-point numbers.
pub open spec fn written(found: Option<Json>, texts: Map<u64, Seq<char>>) -> Option<Seq<char>> {
    match found {
        Some(j) => if covers(texts, floats(j)) {
            Some(compact(j, texts))
        } else {
            None
        },
        None => None,
    }
}

/// As `written`, for the entries of a container.
pub open spec fn written_entries(
    object: bool,
    found: Option<Seq<(Seq<char>, Json)>>,
    texts: Map<u64, Seq<char>>,
) -> Option<Seq<char>> {
    match found {
        Some(entries) => if covers(texts, floats_among(entries)) {
            Some(compact_entries(object, entries, texts))
        } else {
            None
        },
        None => None,
    }
}

/// The text of entries with one more behind them.
pub proof fn lemma_compact_more_push(
    object: bool,
    entries: Seq<(Seq<char>, Json)>,
    last: (Seq<char>, Json),
    texts: Map<u64, Seq<char>>,
)
    ensures
        compact_more(object, entries.push(last), texts) == compact_more(object, entries, texts)
            + seq![','] + compact_entry(object, last, texts),
    decreases entries.len(),
{
    let all = entries.push(last);
    if entries.len() == 0 {
        assert(all.drop_first() =~= Seq::<(Seq<char>, Json)>::empty());
        assert(compact_more(object, all.drop_first(), texts) =~= Seq::<char>::empty());
        assert(compact_more(object, entries, texts) =~= Seq::<char>::empty());
        assert(all[0] == last);
        assert(compact_more(object, all, texts) =~= compact_more(object, entries, texts) + seq![',']
            + compact_entry(object, last, texts));
    } else {
        assert(all.drop_first() =~= entries.drop_first().push(last));
        lemma_compact_more_push(object, entries.drop_first(), last, texts);
        assert(compact_more(object, all, texts) =~= compact_more(object, entries, texts) + seq![',']
            + compact_entry(object, last, texts));
    }
}

/// The text of entries with one more behind them, commas between.
pub proof fn lemma_compact_entries_push(
    object: bool,
    entries: Seq<(Seq<char>, Json)>,
    last: (Seq<char>, Json),
    texts: Map<u64, Seq<char>>,
)
    ensures
        compact_entries(object, entries.push(last), texts) == compact_entries(object, entries, texts)
            + comma(entries.len() as int) + compact_entry(object, last, texts),
{
    let all = entries.push(last);
    if entries.len() == 0 {
        assert(all.drop_first() =~= Seq::<(Seq<char>, Json)>::empty());
        assert(compact_more(object, all.drop_first(), texts) =~= Seq::<char>::empty());
        assert(compact_entries(object, entries, texts) =~= Seq::<char>::empty());
        assert(all[0] == last);
        assert(compact_entries(object, all, texts) =~= compact_entries(object, entries, texts)
            + comma(entries.len() as int) + compact_entry(object, last, texts));
    } else {
        assert(all.drop_first() =~= entries.drop_first().push(last));
        lemma_compact_more_push(object, entries.drop_first(), last, texts);
        assert(compact_entries(object, all, texts) =~= compact_entries(object, entries, texts)
            + comma(entries.len() as int) + compact_entry(object, last, texts));
    }
}

/// The floating-point numbers of entries with one more behind them.
pub proof fn lemma_floats_among_push(entries: Seq<(Seq<char>, Json)>, last: (Seq<char>, Json))
    ensures
        floats_among(entries.push(last)) == floats_among(entries) + floats(last.1),
    decreases entries.len(),
{
    let all = entries.push(last);
    if entries.len() == 0 {
        assert(all.drop_first() =~= Seq::<(Seq<char>, Json)>::empty());
        assert(floats_among(all.drop_first()) =~= Seq::<u64>::empty());
        assert(floats_among(entries) =~= Seq::<u64>::empty());
        assert(all[0] == last);
        assert(floats_among(all) =~= floats_among(entries) + floats(last.1));
    } else {
        assert(all.drop_first() =~= entries.drop_first().push(last));
        lemma_floats_among_push(entries.drop_first(), last);
        assert(floats_among(all) =~= floats_among(entries) + floats(last.1));
    }
}

/// The compact text of a value is the compact text of its tree.
pub proof fn lemma_render_is_compact(
    doc: Doc,
    v: Value,
    tab: nat,
    texts: Map<u64, Seq<char>>,
    fuel: nat,
)
    ensures
        render(doc, v, tab, false, texts, fuel) == written(tree(doc, v, fuel), texts),
    decreases fuel, 0nat,
{
    match v {
        Value::Float(bits) => {
            assert(seq![bits][0] == bits);
        },
        Value::Object(id) => {
            if fuel > 0 && doc.objects.contains_key(id) {
                let pairs = doc.objects[id];
                lemma_render_pairs_is_compact(doc, pairs, tab + 1, texts, (fuel - 1) as nat);
                let found = trees(doc, pairs, (fuel - 1) as nat);
                if found is Some && covers(texts, floats_among(found->Some_0)) {
                    lemma_trees_len(doc, pairs, (fuel - 1) as nat);
                    let body = compact_entries(true, found->Some_0, texts);
                    assert(render_object(doc, pairs, tab, false, texts, (fuel - 1) as nat)->Some_0
                        =~= seq!['{'] + body + seq!['}']);
                }
            }
        },
        Value::Array(id) => {
            if fuel > 0 && doc.arrays.contains_key(id) {
                let items = doc.arrays[id];
                lemma_render_items_is_compact(doc, items, tab + 1, texts, (fuel - 1) as nat);
                let found = trees(doc, keyless(items), (fuel - 1) as nat);
                if found is Some && covers(texts, floats_among(found->Some_0)) {
                    let body = compact_entries(false, found->Some_0, texts);
                    assert(render(doc, v, tab, false, texts, fuel)->Some_0 =~= seq!['['] + body
                        + seq![']']);
                }
            }
        },
        _ => {},
    }
}

/// There are as many trees as values.
pub proof fn lemma_trees_len(doc: Doc, pairs: Seq<(Seq<char>, Value)>, fuel: nat)
    ensures
        trees(doc, pairs, fuel) is Some ==> trees(doc, pairs, fuel)->Some_0.len() == pairs.len(),
    decreases pairs.len(),
{
    if pairs.len() > 0 {
        lemma_trees_len(doc, pairs.drop_last(), fuel);
    }
}

/// The compact text of the entries of an object is that of their trees.
pub proof fn lemma_render_pairs_is_compact(
    doc: Doc,
    pairs: Seq<(Seq<char>, Value)>,
    tab: nat,
    texts: Map<u64, Seq<char>>,
    fuel: nat,
)
    ensures
        render_pairs(doc, pairs, tab, false, texts, fuel) == written_entries(
            true,
            trees(doc, pairs, fuel),
            texts,
        ),
    decreases fuel, pairs.len() + 1,
{
    if pairs.len() > 0 {
        let init = pairs.drop_last();
        let last = pairs.last();
        lemma_render_pairs_is_compact(doc, init, tab, texts, fuel);
        lemma_render_is_compact(doc, last.1, tab, texts, fuel);
        lemma_trees_len(doc, init, fuel);
        let head = trees(doc, init, fuel);
        let found = tree(doc, last.1, fuel);
        if head is Some && found is Some {
            let entry = (last.0, found->Some_0);
            lemma_floats_among_push(head->Some_0, entry);
            lemma_compact_entries_push(true, head->Some_0, entry, texts);
            lemma_covers_both(texts, Some(floats_among(head->Some_0)), Some(floats(entry.1)));
            if covers(texts, floats_among(head->Some_0)) && covers(texts, floats(entry.1)) {
                let text = compact(entry.1, texts);
                assert(pair_text(last.0, text, pairs.len() - 1, tab, false) =~= comma(
                    pairs.len() - 1,
                ) + compact_entry(true, entry, texts));
                assert(render_pairs(doc, pairs, tab, false, texts, fuel)->Some_0
                    =~= compact_entries(true, head->Some_0.push(entry), texts));
            }
        }
    }
}

/// The compact text of the entries of an array is that of their trees.
pub proof fn lemma_render_items_is_compact(
    doc: Doc,
    items: Seq<Value>,
    tab: nat,
    texts: Map<u64, Seq<char>>,
    fuel: nat,
)
    ensures
        render_items(doc, items, tab, false, texts, fuel) == written_entries(
            false,
            trees(doc, keyless(items), fuel),
            texts,
        ),
    decreases fuel, items.len() + 1,
{
    if items.len() > 0 {
        let init = items.drop_last();
        let last = items.last();
        assert(keyless(items).drop_last() =~= keyless(init));
        assert(keyless(items).last() == (Seq::<char>::empty(), last));
        lemma_render_items_is_compact(doc, init, tab, texts, fuel);
        lemma_render_is_compact(doc, last, tab, texts, fuel);
        lemma_trees_len(doc, keyless(init), fuel);
        let head = trees(doc, keyless(init), fuel);
        let found = tree(doc, last, fuel);
        if head is Some && found is Some {
            let entry = (Seq::<char>::empty(), found->Some_0);
            lemma_floats_among_push(head->Some_0, entry);
            lemma_compact_entries_push(false, head->Some_0, entry, texts);
            lemma_covers_both(texts, Some(floats_among(head->Some_0)), Some(floats(entry.1)));
            if covers(texts, floats_among(head->Some_0)) && covers(texts, floats(entry.1)) {
                let text = compact(entry.1, texts);
                assert(item_text(text, items.len() - 1, tab, false) =~= comma(items.len() - 1)
                    + compact_entry(false, entry, texts));
                assert(render_items(doc, items, tab, false, texts, fuel)->Some_0
                    =~= compact_entries(false, head->Some_0.push(entry), texts));
            }
        }
    }
}

/// More fuel finds the same tree.
pub proof fn lemma_tree_fuel(doc: Doc, v: Value, less: nat, more: nat)
    requires
        less <= more,
        tree(doc, v, less) is Some,
    ensures
        tree(doc, v, more) == tree(doc, v, less),
    decreases less, 0nat,
{
    match v {
        Value::Object(id) => {
            lemma_trees_fuel(doc, doc.objects[id], (less - 1) as nat, (more - 1) as nat);
        },
        Value::Array(id) => {
            lemma_trees_fuel(doc, keyless(doc.arrays[id]), (less - 1) as nat, (more - 1) as nat);
        },
        _ => {},
    }
}

/// More fuel finds the same trees.
pub proof fn lemma_trees_fuel(doc: Doc, pairs: Seq<(Seq<char>, Value)>, less: nat, more: nat)
    requires
        less <= more,
        trees(doc, pairs, less) is Some,
    ensures
        trees(doc, pairs, more) == trees(doc, pairs, less),
    decreases less, pairs.len() + 1,
{
    if pairs.len() > 0 {
        lemma_trees_fuel(doc, pairs.drop_last(), less, more);
        lemma_tree_fuel(doc, pairs.last().1, less, more);
    }
}

/// The trees of pairs, from the first pair on.
pub proof fn lemma_trees_front(doc: Doc, pairs: Seq<(Seq<char>, Value)>, fuel: nat)
    requires
        pairs.len() > 0,
    ensures
        trees(doc, pairs, fuel) == match tree(doc, pairs[0].1, fuel) {
            Some(first) => match trees(doc, pairs.drop_first(), fuel) {
                Some(rest) => Some(seq![(pairs[0].0, first)] + rest),
                None => None,
            },
            None => None,
        },
    decreases pairs.len(),
{
    if pairs.len() == 1 {
        assert(pairs.drop_last() =~= Seq::<(Seq<char>, Value)>::empty());
        assert(pairs.drop_first() =~= Seq::<(Seq<char>, Value)>::empty());
        assert(trees(doc, pairs.drop_last(), fuel) == Some(Seq::<(Seq<char>, Json)>::empty()));
        let found = tree(doc, pairs[0].1, fuel);
        if found is Some {
            assert(Seq::<(Seq<char>, Json)>::empty().push((pairs[0].0, found->Some_0)) =~= seq![
                (pairs[0].0, found->Some_0),
            ] + Seq::<(Seq<char>, Json)>::empty());
        }
    } else {
        let init = pairs.drop_last();
        lemma_trees_front(doc, init, fuel);
        assert(init.drop_first() =~= pairs.drop_first().drop_last());
        assert(init[0] == pairs[0]);
        assert(pairs.drop_first().last() == pairs.last());
        let first = tree(doc, pairs[0].1, fuel);
        let middle = trees(doc, init.drop_first(), fuel);
        let last = tree(doc, pairs.last().1, fuel);
        if first is Some && middle is Some && last is Some {
            assert((seq![(pairs[0].0, first->Some_0)] + middle->Some_0).push(
                (pairs.last().0, last->Some_0),
            ) =~= seq![(pairs[0].0, first->Some_0)] + middle->Some_0.push(
                (pairs.last().0, last->Some_0),
            ));
        }
    }
}

/// A tree is no higher than the fuel it was found with.
pub proof fn lemma_tree_height(doc: Doc, v: Value, fuel: nat)
    requires
        tree(doc, v, fuel) is Some,
    ensures
        height(tree(doc, v, fuel)->Some_0) <= fuel,
    decreases fuel, 0nat,
{
    match v {
        Value::Object(id) => {
            lemma_trees_height(doc, doc.objects[id], (fuel - 1) as nat);
        },
        Value::Array(id) => {
            lemma_trees_height(doc, keyless(doc.arrays[id]), (fuel - 1) as nat);
        },
        _ => {},
    }
}

/// The height of entries with one more behind them.
pub proof fn lemma_heights_push(entries: Seq<(Seq<char>, Json)>, last: (Seq<char>, Json))
    ensures
        heights(entries.push(last)) == if heights(entries) >= height(last.1) {
            heights(entries)
        } else {
            height(last.1)
        },
    decreases entries.len(),
{
    let all = entries.push(last);
    if entries.len() == 0 {
        assert(all.drop_first() =~= Seq::<(Seq<char>, Json)>::empty());
        assert(heights(all.drop_first()) == 0);
        assert(all[0] == last);
    } else {
        assert(all.drop_first() =~= entries.drop_first().push(last));
        lemma_heights_push(entries.drop_first(), last);
    }
}

/// Trees are no higher than the fuel they were found with.
pub proof fn lemma_trees_height(doc: Doc, pairs: Seq<(Seq<char>, Value)>, fuel: nat)
    requires
        trees(doc, pairs, fuel) is Some,
    ensures
        heights(trees(doc, pairs, fuel)->Some_0) <= fuel,
    decreases fuel, pairs.len() + 1,
{
    if pairs.len() > 0 {
        lemma_trees_height(doc, pairs.drop_last(), fuel);
        lemma_tree_height(doc, pairs.last().1, fuel);
        lemma_heights_push(
            trees(doc, pairs.drop_last(), fuel)->Some_0,
            (pairs.last().0, tree(doc, pairs.last().1, fuel)->Some_0),
        );
    }
}

/// Containers do not nest deeper than there are containers.
pub proof fn lemma_height_within_containers(j: Json)
    ensures
        height(j) <= containers(j),
    decreases j, 0nat,
{
    match j {
        Json::Node(_, entries) => {
            lemma_heights_within_containers(entries);
        },
        _ => {},
    }
}

/// As `lemma_height_within_containers`, of entries.
pub proof fn lemma_heights_within_containers(entries: Seq<(Seq<char>, Json)>)
    ensures
        heights(entries) <= containers_in(entries),
    decreases entries, 1nat,
{
    if entries.len() > 0 {
        lemma_height_within_containers(entries[0].1);
        lemma_heights_within_containers(entries.drop_first());
    }
}

} // verus!
