//! What holds of the operations on a document, whatever the document.
use crate::error::Failure;
use crate::lexer::Tok;
use crate::model::{lemma_release_shrinks, values_of, Doc};
use crate::ordered::{
    distinct_keys, has_key, key_at, lemma_push_keeps_distinct, lemma_remove_keeps_distinct,
    position_of,
};
use crate::parser::{bounded, build, document, floats_before};
use crate::reading::{
    at, fold_tree, legible, lemma_fold_tree_is_written_alike, lemma_legible_is_readable,
    lemma_reads_to_the_end, lemma_reads_tree, lemma_tokens_fit, mark, readable, settled_tree,
    shape, shapes, tokens_of, tokens_of_entries,
};
use crate::rebuilding::{
    agrees, count, fill, grown, keys_free, lemma_build_entries, lemma_entries_are_trees,
    lemma_shaped_parts, marks, shaped, supplied,
};
use crate::serializer::{render, render_items, render_object, render_pairs, serialize};
use crate::tree::{
    closer, compact, containers, floats, floats_among, height, keyless,
    lemma_height_within_containers, lemma_render_is_compact, lemma_tree_fuel, lemma_tree_height,
    opener, tree, trees, written, Json,
};
use crate::value::Value;
use vstd::prelude::*;

verus! {

/// An object without pairs is written as `{}` and an array without items as
/// `[]`, at any depth, compact or indented.
pub proof fn lemma_empty_containers_are_bare(
    doc: Doc,
    id: u64,
    tab: nat,
    pretty: bool,
    texts: Map<u64, Seq<char>>,
    fuel: nat,
)
    requires
        fuel > 0,
    ensures
        doc.objects.contains_key(id) && doc.objects[id].len() == 0 ==> render(
            doc,
            Value::Object(id),
            tab,
            pretty,
            texts,
            fuel,
        ) == Some(seq!['{', '}']),
        doc.arrays.contains_key(id) && doc.arrays[id].len() == 0 ==> render(
            doc,
            Value::Array(id),
            tab,
            pretty,
            texts,
            fuel,
        ) == Some(seq!['[', ']']),
{
    if doc.objects.contains_key(id) && doc.objects[id].len() == 0 {
        let pairs = doc.objects[id];
        assert(render_pairs(doc, pairs, tab + 1, pretty, texts, (fuel - 1) as nat) == Some(
            Seq::<char>::empty(),
        ));
        assert(render_object(doc, pairs, tab, pretty, texts, (fuel - 1) as nat)->Some_0
            =~= seq!['{', '}']);
    }
    if doc.arrays.contains_key(id) && doc.arrays[id].len() == 0 {
        let items = doc.arrays[id];
        assert(render_items(doc, items, tab + 1, pretty, texts, (fuel - 1) as nat) == Some(
            Seq::<char>::empty(),
        ));
        assert(render(doc, Value::Array(id), tab, pretty, texts, fuel)->Some_0 =~= seq![
            '[',
            ']',
        ]);
    }
}

/// A document that holds nothing but its root is written as `{}` or `[]`,
/// compact or indented.
pub proof fn lemma_empty_document_is_bare(
    root_is_object: bool,
    pretty: bool,
    texts: Map<u64, Seq<char>>,
)
    ensures
        serialize(Doc::empty(root_is_object), pretty, texts) == Some(
            if root_is_object {
                seq!['{', '}']
            } else {
                seq!['[', ']']
            },
        ),
{
    let doc = Doc::empty(root_is_object);
    assert(doc.objects.dom() =~= if root_is_object {
        set![0u64]
    } else {
        Set::<u64>::empty()
    });
    assert(doc.arrays.dom() =~= if root_is_object {
        Set::<u64>::empty()
    } else {
        set![0u64]
    });
    assert(doc.depth_limit() == 1);
    lemma_empty_containers_are_bare(doc, 0, 0, pretty, texts, 1);
}

/// After a key has been set, the object has it, with the value given, in the
/// last place; where the object is well-formed before, it is after.
pub proof fn lemma_set_then_get(doc: Doc, id: u64, key: Seq<char>, v: Value)
    requires
        doc.wf(),
        doc.objects.contains_key(id),
        doc.set(id, key, v).objects.contains_key(id),
    ensures
        doc.set(id, key, v).wf(),
        doc.set(id, key, v).contains(id, key),
        doc.set(id, key, v).get(id, key) == v,
        position_of(doc.set(id, key, v).objects[id], key) == doc.set(id, key, v).objects[id].len()
            - 1,
{
    let pairs = doc.objects[id];
    let d = if doc.contains(id, key) {
        doc.erase(id, key)
    } else {
        doc
    };
    if doc.contains(id, key) {
        let i = position_of(pairs, key);
        let cut = doc.without_pair(id, key);
        lemma_remove_keeps_distinct(pairs, i);
        assert(cut.wf());
        lemma_release_shrinks(cut, seq![pairs[i].1]);
        assert(d.objects[id] == pairs.remove(i));
    }
    assert(d.wf());
    assert(!has_key(d.objects[id], key));
    lemma_push_keeps_distinct(d.objects[id], (key, v));
    let after = doc.set(id, key, v);
    assert(after.objects[id] == d.objects[id].push((key, v)));
    assert(after.wf());
}

/// After `set(o, k, v1)` and then `set(o, k, v2)`, the object `o` has the key
/// `k`, with the value `v2`, in the last place. This is stated of the
/// documents in which `o` is still there after the second call: it is gone
/// only where `v1` owns `o` itself, which the caller alone can bring about.
pub proof fn lemma_set_twice(doc: Doc, o: u64, k: Seq<char>, v1: Value, v2: Value)
    requires
        doc.wf(),
        doc.objects.contains_key(o),
        doc.set(o, k, v1).set(o, k, v2).objects.contains_key(o),
    ensures
        doc.set(o, k, v1).set(o, k, v2).contains(o, k),
        doc.set(o, k, v1).set(o, k, v2).get(o, k) == v2,
        position_of(doc.set(o, k, v1).set(o, k, v2).objects[o], k) == doc.set(o, k, v1).set(
            o,
            k,
            v2,
        ).objects[o].len() - 1,
{
    let first = doc.set(o, k, v1);
    if first.objects.contains_key(o) {
        lemma_set_then_get(doc, o, k, v1);
        lemma_set_then_get(first, o, k, v2);
    } else {
        assert(!first.contains(o, k));
    }
}

/// After a release, none of the released values has an entry, and where an
/// entry is gone, so are the entries of the values it held.
pub proof fn lemma_release_closed(doc: Doc, pending: Seq<Value>)
    requires
        doc.finite(),
    ensures
        forall|i: int|
            0 <= i < pending.len() && (#[trigger] pending[i]).is_composite() ==> !doc.release(
                pending,
            ).resolves(pending[i]),
        forall|p: Value, c: Value|
            #![trigger doc.holds(p, c)]
            doc.holds(p, c) && !doc.release(pending).resolves(p) && c.is_composite()
                ==> !doc.release(pending).resolves(c),
    decreases doc.size(), pending.len(),
{
    let after = doc.release(pending);
    lemma_release_shrinks(doc, pending);
    if pending.len() > 0 {
        let top = pending.last();
        let rest = pending.drop_last();
        if top.is_composite() && doc.resolves(top) {
            let less = doc.without(top);
            let more = rest + doc.children(top);
            lemma_release_closed(less, more);
            lemma_release_shrinks(less, more);
            assert forall|i: int|
                0 <= i < pending.len() && (#[trigger] pending[i]).is_composite() implies !after.resolves(
                pending[i],
            ) by {
                if i < rest.len() {
                    assert(more[i] == pending[i]);
                }
            }
            assert forall|p: Value, c: Value|
                #![trigger doc.holds(p, c)]
                doc.holds(p, c) && !after.resolves(p) && c.is_composite() implies !after.resolves(
                c,
            ) by {
                if p == top {
                    let k = choose|k: int|
                        0 <= k < doc.children(top).len() && doc.children(top)[k] == c;
                    assert(more[rest.len() + k] == c);
                } else {
                    assert(less.resolves(p));
                    assert(less.children(p) == doc.children(p));
                    assert(less.holds(p, c));
                }
            }
        } else {
            lemma_release_closed(doc, rest);
            lemma_release_shrinks(doc, rest);
            assert forall|i: int|
                0 <= i < pending.len() && (#[trigger] pending[i]).is_composite() implies !after.resolves(
                pending[i],
            ) by {
                if i < rest.len() {
                    assert(rest[i] == pending[i]);
                }
            }
        }
    }
}

/// After a release, no value on a path from a released value has an entry.
proof fn lemma_path_is_released(doc: Doc, pending: Seq<Value>, path: Seq<Value>, n: int)
    requires
        doc.finite(),
        doc.is_path(path),
        0 <= n < path.len(),
        path[0].is_composite() ==> !doc.release(pending).resolves(path[0]),
    ensures
        path[n].is_composite() ==> !doc.release(pending).resolves(path[n]),
    decreases n,
{
    if n > 0 {
        lemma_path_is_released(doc, pending, path, n - 1);
        lemma_release_closed(doc, pending);
        assert(doc.holds(path[n - 1], path[n]));
    }
}

/// Cascading release leaves nothing behind: after the release of `pending`,
/// a value that one of them owns has no entry.
pub proof fn lemma_release_takes_what_is_owned(doc: Doc, pending: Seq<Value>, v: Value)
    requires
        doc.finite(),
        doc.owned_by_any(pending, v),
        v.is_composite(),
    ensures
        !doc.release(pending).resolves(v),
{
    let i = choose|i: int| 0 <= i < pending.len() && doc.owns(#[trigger] pending[i], v);
    let path = choose|path: Seq<Value>|
        doc.is_path(path) && path[0] == pending[i] && path.last() == v;
    lemma_release_closed(doc, pending);
    lemma_path_is_released(doc, pending, path, path.len() - 1);
}

/// A path in a document with fewer entries is a path in the document.
proof fn lemma_path_in_more(less: Doc, more: Doc, path: Seq<Value>)
    requires
        less.is_path(path),
        crate::model::submap(less.strings, more.strings),
        crate::model::submap(less.objects, more.objects),
        crate::model::submap(less.arrays, more.arrays),
    ensures
        more.is_path(path),
{
    assert forall|i: int| #![trigger path[i]] 0 <= i < path.len() - 1 implies more.holds(
        path[i],
        path[i + 1],
    ) by {
        assert(less.holds(path[i], path[i + 1]));
        assert(less.children(path[i]) == more.children(path[i]));
    }
}

/// Cascading release takes nothing else: an entry that is gone after the
/// release of `pending` was that of a value that one of them owns.
pub proof fn lemma_release_takes_only_what_is_owned(doc: Doc, pending: Seq<Value>, v: Value)
    requires
        doc.finite(),
        v.is_composite(),
        doc.resolves(v),
        !doc.release(pending).resolves(v),
    ensures
        doc.owned_by_any(pending, v),
    decreases doc.size(), pending.len(),
{
    if pending.len() > 0 {
        let top = pending.last();
        let rest = pending.drop_last();
        let last = pending.len() - 1;
        if top.is_composite() && doc.resolves(top) {
            let less = doc.without(top);
            let more = rest + doc.children(top);
            if v == top {
                let path = seq![top];
                assert(doc.is_path(path));
                assert(path[0] == pending[last] && path.last() == v);
                assert(doc.owns(pending[last], v));
            } else {
                assert(less.resolves(v));
                lemma_release_takes_only_what_is_owned(less, more, v);
                let j = choose|j: int| 0 <= j < more.len() && less.owns(#[trigger] more[j], v);
                let path = choose|path: Seq<Value>|
                    less.is_path(path) && path[0] == more[j] && path.last() == v;
                lemma_path_in_more(less, doc, path);
                if j < rest.len() {
                    assert(more[j] == pending[j]);
                    assert(doc.owns(pending[j], v));
                } else {
                    let longer = seq![top] + path;
                    assert(doc.children(top).contains(more[j])) by {
                        assert(doc.children(top)[j - rest.len()] == more[j]);
                    }
                    assert forall|i: int|
                        #![trigger longer[i]]
                        0 <= i < longer.len() - 1 implies doc.holds(longer[i], longer[i + 1]) by {
                        if i == 0 {
                            assert(longer[1] == path[0]);
                        } else {
                            assert(longer[i] == path[i - 1]);
                            assert(longer[i + 1] == path[i]);
                            assert(doc.holds(path[i - 1], path[i]));
                        }
                    }
                    assert(longer[0] == pending[last] && longer.last() == v);
                    assert(doc.is_path(longer));
                    assert(doc.owns(pending[last], v));
                }
            }
        } else {
            lemma_release_takes_only_what_is_owned(doc, rest, v);
            let j = choose|j: int| 0 <= j < rest.len() && doc.owns(#[trigger] rest[j], v);
            assert(rest[j] == pending[j]);
            assert(doc.owns(pending[j], v));
        }
    }
}

/// What a cascading release leaves: the entries of the values that none of
/// the released values owns, each as it was.
pub proof fn lemma_release_exact(doc: Doc, pending: Seq<Value>, v: Value)
    requires
        doc.finite(),
        v.is_composite(),
    ensures
        doc.release(pending).resolves(v) <==> doc.resolves(v) && !doc.owned_by_any(pending, v),
{
    lemma_release_shrinks(doc, pending);
    if doc.owned_by_any(pending, v) {
        lemma_release_takes_what_is_owned(doc, pending, v);
    }
    if doc.resolves(v) && !doc.release(pending).resolves(v) {
        lemma_release_takes_only_what_is_owned(doc, pending, v);
    }
}

/// Erasing a key releases its value and all that the value owns: once the
/// pair is out of its object, no value that the erased value owns has an
/// entry any more, and every other entry is still there.
pub proof fn lemma_erase_cascades(doc: Doc, id: u64, key: Seq<char>, v: Value)
    requires
        doc.wf(),
        doc.contains(id, key),
        v.is_composite(),
    ensures
        doc.erase(id, key).resolves(v) <==> doc.without_pair(id, key).resolves(v)
            && !doc.without_pair(id, key).owns(doc.get(id, key), v),
{
    let cut = doc.without_pair(id, key);
    let erased = doc.get(id, key);
    lemma_release_exact(cut, seq![erased], v);
    if cut.owns(erased, v) {
        assert(seq![erased][0] == erased);
        assert(cut.owned_by_any(seq![erased], v));
    }
}

/// Setting a key leaves the object in the document unless the value that
/// the key had owns the object itself.
pub proof fn lemma_set_keeps_the_object(doc: Doc, id: u64, key: Seq<char>, v: Value)
    requires
        doc.wf(),
        doc.objects.contains_key(id),
    ensures
        doc.set(id, key, v).objects.contains_key(id) <==> !(doc.contains(id, key)
            && doc.without_pair(id, key).owns(doc.get(id, key), Value::Object(id))),
{
    if doc.contains(id, key) {
        lemma_erase_cascades(doc, id, key, Value::Object(id));
    }
}

/// The tree of the whole document.
pub open spec fn tree_of(doc: Doc) -> Option<Json> {
    tree(doc, doc.root(), doc.depth_limit())
}

/// A document that holds nothing but its root is well-formed, has one
/// container, and its root has no key.
pub proof fn lemma_empty_document(object: bool, entries: Seq<(Seq<char>, Json)>)
    ensures
        Doc::empty(object).wf(),
        count(Doc::empty(object)) == 1,
        keys_free(object, Doc::empty(object), 0, entries),
        bounded(Doc::empty(object), 1),
        marks(Doc::empty(object)).s == 0,
{
    let start = Doc::empty(object);
    assert(start.objects.dom() =~= if object {
        set![0u64]
    } else {
        Set::<u64>::empty()
    });
    assert(start.arrays.dom() =~= if object {
        Set::<u64>::empty()
    } else {
        set![0u64]
    });
    if object {
        assert(distinct_keys(start.objects[0]));
        assert forall|k: int| 0 <= k < entries.len() implies !has_key(
            start.objects[0],
            (#[trigger] entries[k]).0,
        ) by {
            assert forall|n: int| !key_at(start.objects[0], entries[k].0, n) by {}
        }
    }
}

/// The compact text of a container is read as the tokens of the container:
/// the opening token, those of the entries, the closing token.
pub proof fn lemma_container_is_read(
    object: bool,
    entries: Seq<(Seq<char>, Json)>,
    texts: Map<u64, Seq<char>>,
) -> (tokens: Seq<Tok>)
    requires
        readable(Json::Node(object, entries), texts),
    ensures
        crate::lexer::lex(compact(Json::Node(object, entries), texts)) == Ok::<
            Seq<Tok>,
            Failure,
        >(tokens),
        tokens.len() <= compact(Json::Node(object, entries), texts).len(),
        tokens.len() == tokens_of_entries(object, entries, texts).len() + 2,
        shape(tokens[0]) == mark(opener(object)),
        shaped(tokens, 1, tokens_of_entries(object, entries, texts) + seq![mark(closer(object))]),
        floats_before(tokens, 1) == 0,
{
    let j = Json::Node(object, entries);
    let s = compact(j, texts);
    assert(at(s, 0, s));
    lemma_reads_tree(j, texts, s, 0);
    let tokens = lemma_reads_to_the_end(s, tokens_of(j, texts));
    let inner = tokens_of_entries(object, entries, texts);
    let close = seq![mark(closer(object))];
    assert(tokens_of(j, texts) =~= seq![mark(opener(object))] + (inner + close));
    assert(shaped(tokens, 0, tokens_of(j, texts))) by {
        assert forall|k: int| 0 <= k < tokens_of(j, texts).len() implies shape(tokens[0 + k])
            == #[trigger] tokens_of(j, texts)[k] by {
            assert(shapes(tokens)[k] == shape(tokens[k]));
        }
    }
    lemma_shaped_parts(tokens, 0, seq![mark(opener(object))], inner + close);
    assert(shape(tokens[0]) == seq![mark(opener(object))][0]);
    crate::parser::lemma_floats_before_skips(tokens, 0);
    assert(floats_before(tokens, 0) == 0);
    tokens
}

/// The document that the compact text of a container describes has the
/// container for its tree.
pub proof fn lemma_container_is_rebuilt(
    object: bool,
    entries: Seq<(Seq<char>, Json)>,
    texts: Map<u64, Seq<char>>,
) -> (after: Doc)
    requires
        readable(Json::Node(object, entries), texts),
        compact(Json::Node(object, entries), texts).len() <= u64::MAX,
    ensures
        document(
            compact(Json::Node(object, entries), texts),
            floats(Json::Node(object, entries)),
        ) == Ok::<Doc, Failure>(after),
        after.root_is_object == object,
        tree(after, after.root(), height(Json::Node(object, entries))) == Some(
            Json::Node(object, entries),
        ),
        count(after) == containers(Json::Node(object, entries)),
{
    let j = Json::Node(object, entries);
    let s = compact(j, texts);
    let f = floats(j);
    let tokens = lemma_container_is_read(object, entries, texts);
    let start = Doc::empty(object);
    lemma_empty_document(object, entries);
    assert(f == floats_among(entries));
    assert(supplied(f, 0, floats_among(entries)));
    let added = lemma_build_entries(object, entries, texts, start, 0, tokens, 1, f);
    let after = fill(object, start, 0, tokens, 1, f)->Ok_0.0;
    let taken = fill(object, start, 0, tokens, 1, f)->Ok_0.1;
    assert(1 + taken == tokens.len());
    assert(build(tokens, f) == Ok::<Doc, Failure>(after));
    assert(s.len() > 0);
    assert(document(s, f) == Ok::<Doc, Failure>(after));
    if !object {
        assert forall|k: int| 0 <= k < added.len() implies (#[trigger] added[k]).0 == Seq::<
            char,
        >::empty() by {
            assert(added[k].0 == entries[k].0);
        }
    }
    lemma_root_is_grounded(object, entries, start, after, added);
    after
}

/// The root that has been filled with entries has them for its tree.
pub proof fn lemma_root_is_grounded(
    object: bool,
    entries: Seq<(Seq<char>, Json)>,
    start: Doc,
    after: Doc,
    added: Seq<(Seq<char>, Value)>,
)
    requires
        start == Doc::empty(object),
        grown(start, after, object, 0, added),
        crate::rebuilding::grounded_entries(after, added, entries, marks(start), marks(after)),
        !object ==> forall|k: int|
            0 <= k < added.len() ==> (#[trigger] added[k]).0 == Seq::<char>::empty(),
    ensures
        after.root_is_object == object,
        tree(after, after.root(), height(Json::Node(object, entries))) == Some(
            Json::Node(object, entries),
        ),
{
    assert(agrees(after, after, marks(start), marks(after)));
    assert(trees(after, added, crate::tree::heights(entries)) == Some(entries));
    if object {
        assert(after.objects[0] =~= added);
    } else {
        assert(after.arrays[0] =~= values_of(added));
        assert(keyless(values_of(added)) =~= added) by {
            assert forall|k: int| 0 <= k < added.len() implies keyless(values_of(added))[k]
                == added[k] by {
                assert(added[k].0 == Seq::<char>::empty());
            }
        }
    }
}

/// Reading what was written and writing it again gives the same text: where
/// a document has the compact text `s`, the document that `s` describes has
/// the compact text `s` too.
///
/// This is stated of the well-formed documents whose text can be read back
/// as it stands: the strings and keys lie in the basic plane of Unicode, the
/// host's text for each floating-point number is read as a floating-point
/// literal, and the text is no longer than a machine word counts. The second
/// reading takes the floating-point numbers of the document, in order, for
/// the literals of the text.
pub proof fn lemma_written_text_is_a_fixed_point(doc: Doc, texts: Map<u64, Seq<char>>)
    requires
        doc.wf(),
        serialize(doc, false, texts) is Some,
        legible(tree_of(doc)->Some_0, texts),
        serialize(doc, false, texts)->Some_0.len() <= u64::MAX,
    ensures
        tree_of(doc) is Some,
        serialize(doc, false, texts) == Some(compact(tree_of(doc)->Some_0, texts)),
        document(serialize(doc, false, texts)->Some_0, floats(tree_of(doc)->Some_0)) is Ok,
        serialize(
            document(serialize(doc, false, texts)->Some_0, floats(tree_of(doc)->Some_0))->Ok_0,
            false,
            texts,
        ) == serialize(doc, false, texts),
{
    lemma_render_is_compact(doc, doc.root(), 0, texts, doc.depth_limit());
    let j = tree_of(doc)->Some_0;
    lemma_legible_is_readable(doc, doc.root(), doc.depth_limit(), texts);
    lemma_tree_height(doc, doc.root(), doc.depth_limit());
    let object = doc.root_is_object;
    assert(j is Node);
    let entries = j->Node_1;
    assert(j == Json::Node(object, entries));
    let after = lemma_container_is_rebuilt(object, entries, texts);
    lemma_height_within_containers(j);
    assert(height(j) <= after.depth_limit());
    lemma_tree_fuel(after, after.root(), height(j), after.depth_limit());
    lemma_render_is_compact(after, after.root(), 0, texts, after.depth_limit());
}

/// What the parser makes of a text is a well-formed document with a tree:
/// every value that the root owns has its entry, and the containers nest no
/// deeper than `to_string` follows them. This is stated of the texts whose
/// characters a machine word counts.
pub proof fn lemma_parsed_document_is_a_tree(text: Seq<char>, f: Seq<u64>)
    requires
        text.len() < usize::MAX,
        document(text, f) is Ok,
    ensures
        document(text, f)->Ok_0.wf(),
        tree_of(document(text, f)->Ok_0) is Some,
{
    let tokens = crate::lexer::lex(text)->Ok_0;
    lemma_tokens_fit(text, 0);
    let object = tokens[0].typ == crate::lexer::TokenType::OBrk;
    let start = Doc::empty(object);
    lemma_empty_document(object, Seq::empty());
    assert(fill(object, start, 0, tokens, 1, f) is Ok);
    let (entries, added) = lemma_entries_are_trees(object, start, 0, tokens, 1, f);
    let after = fill(object, start, 0, tokens, 1, f)->Ok_0.0;
    let taken = fill(object, start, 0, tokens, 1, f)->Ok_0.1;
    assert(document(text, f)->Ok_0 == after);
    lemma_root_is_grounded(object, entries, start, after, added);
    let j = Json::Node(object, entries);
    lemma_height_within_containers(j);
    assert(count(after) == containers(j));
    assert(1 + taken <= tokens.len());
    assert(height(j) <= after.depth_limit());
    lemma_tree_fuel(after, after.root(), height(j), after.depth_limit());
}

/// Reading what was written and writing it again gives the same text, also
/// where what is read differs from what was written: a character beyond the
/// basic plane is written by the low 16 bits of its code and read back as
/// the character with that code, which is then written as the first was.
///
/// This is stated of the documents of which every string and key is
/// settled, and whose tree as it is read back is readable: no two keys of an
/// object are read back as one, and the host's text for each floating-point
/// number is read as a floating-point literal. On the other documents the
/// second text differs or the written text does not parse.
pub proof fn lemma_written_text_settles(doc: Doc, texts: Map<u64, Seq<char>>)
    requires
        serialize(doc, false, texts) is Some,
        settled_tree(tree_of(doc)->Some_0),
        readable(fold_tree(tree_of(doc)->Some_0), texts),
        serialize(doc, false, texts)->Some_0.len() <= u64::MAX,
    ensures
        tree_of(doc) is Some,
        document(serialize(doc, false, texts)->Some_0, floats(tree_of(doc)->Some_0)) is Ok,
        tree_of(
            document(serialize(doc, false, texts)->Some_0, floats(tree_of(doc)->Some_0))->Ok_0,
        ) == Some(fold_tree(tree_of(doc)->Some_0)),
        serialize(
            document(serialize(doc, false, texts)->Some_0, floats(tree_of(doc)->Some_0))->Ok_0,
            false,
            texts,
        ) == serialize(doc, false, texts),
{
    lemma_render_is_compact(doc, doc.root(), 0, texts, doc.depth_limit());
    let j = tree_of(doc)->Some_0;
    lemma_tree_height(doc, doc.root(), doc.depth_limit());
    lemma_fold_tree_is_written_alike(j, texts);
    let read = fold_tree(j);
    let object = doc.root_is_object;
    assert(j is Node);
    assert(read is Node);
    let entries = read->Node_1;
    assert(read == Json::Node(object, entries));
    let after = lemma_container_is_rebuilt(object, entries, texts);
    lemma_height_within_containers(read);
    assert(height(read) <= after.depth_limit());
    lemma_tree_fuel(after, after.root(), height(read), after.depth_limit());
    lemma_render_is_compact(after, after.root(), 0, texts, after.depth_limit());
    crate::reading::lemma_readable_is_covered(read, texts);
}

/// Parsing a text, writing the document, parsing what was written and
/// writing again gives the text that was written first.
///
/// This is stated of the texts that parse and whose document is written so
/// that it can be read back: every string and key is settled, no two keys
/// of an object are read back as one, the host's text for each
/// floating-point number is read as a floating-point literal, and both
/// texts are no longer than a machine word counts. The second parse takes
/// the floating-point numbers of the document, in order, for the literals of
/// the text.
pub proof fn lemma_parse_then_write_is_a_fixed_point(
    text: Seq<char>,
    f: Seq<u64>,
    texts: Map<u64, Seq<char>>,
)
    requires
        text.len() < usize::MAX,
        document(text, f) is Ok,
        settled_tree(tree_of(document(text, f)->Ok_0)->Some_0),
        readable(fold_tree(tree_of(document(text, f)->Ok_0)->Some_0), texts),
        compact(tree_of(document(text, f)->Ok_0)->Some_0, texts).len() <= u64::MAX,
    ensures
        ({
            let doc = document(text, f)->Ok_0;
            let written = serialize(doc, false, texts);
            let again = document(written->Some_0, floats(tree_of(doc)->Some_0));
            &&& written is Some
            &&& again is Ok
            &&& serialize(again->Ok_0, false, texts) == written
        }),
{
    let doc = document(text, f)->Ok_0;
    lemma_parsed_document_is_a_tree(text, f);
    let j = tree_of(doc)->Some_0;
    lemma_fold_tree_is_written_alike(j, texts);
    crate::reading::lemma_readable_is_covered(fold_tree(j), texts);
    lemma_render_is_compact(doc, doc.root(), 0, texts, doc.depth_limit());
    lemma_written_text_settles(doc, texts);
}

} // verus!
