//! What holds of every text of the grammar, and of every tree of fields,
//! whatever text it was parsed from.

use crate::arena::linked;
use crate::arena::Node;
use crate::arena::subtree;
use crate::grammar::accepts;
use crate::grammar::DASH;
use crate::grammar::Entry;
use crate::grammar::first_called;
use crate::grammar::is_name;
use crate::grammar::is_token_byte;
use crate::grammar::lookup;
use crate::grammar::OPEN;
use crate::grammar::Selector;
use crate::layout::lemma_covered_tokens;
use crate::layout::lemma_covers_is_text;
use crate::layout::lemma_items_unique;
use crate::shape::all_fields;
use crate::shape::childless;
use crate::shape::descend;
use crate::shape::entry_at;
use crate::shape::field_parent;
use crate::shape::first_named;
use crate::shape::found;
use crate::shape::holds;
use crate::shape::lemma_all_reached;
use crate::shape::lemma_subtree_once;
use crate::shape::lemma_entries_at;
use crate::shape::lemma_forest_within;
use crate::shape::name_at;
use crate::shape::path_of;
use crate::tree::Field;
use crate::tree::Tree;
use vstd::prelude::*;

verus! {

/// A text of the grammar holds only bytes of the grammar: a byte that is
/// neither of a name nor a parenthesis nor a comma, anywhere in a text,
/// keeps the text out of the grammar.
pub proof fn law_alphabet(text: Seq<u8>, i: int)
    requires
        0 <= i < text.len(),
        !is_token_byte(text[i]),
    ensures
        !accepts(text),
{
    if accepts(text) {
        let selector = choose|selector: Selector|
            selector.valid() && #[trigger] selector.text() == text;
        lemma_covers_is_text(selector, text);
        lemma_covered_tokens(selector, text);
    }
}

/// The negation marker counts only where an opening parenthesis follows it
/// at once: a text that begins with the marker and goes on otherwise is not
/// of the grammar. In a text of the grammar, whether the marker stands first
/// says whether the selector is negated.
pub proof fn law_negation(selector: Selector)
    requires
        selector.valid(),
    ensures
        selector.text().len() >= 3,
        selector.negation <==> selector.text()[0] == DASH,
        selector.negation ==> selector.text()[1] == OPEN,
        !selector.negation ==> selector.text()[0] == OPEN,
{
    let text = selector.text();
    lemma_covers_is_text(selector, text);
    assert(selector.items[0].fits(
        text,
        if selector.negation {
            2int
        } else {
            1int
        },
    ));
}

/// A text that begins with the negation marker and does not go on with an
/// opening parenthesis is not of the grammar.
pub proof fn law_marker(text: Seq<u8>)
    requires
        text.len() > 0,
        text[0] == DASH,
        text.len() < 2 || text[1] != OPEN,
    ensures
        !accepts(text),
{
    if accepts(text) {
        let selector = choose|selector: Selector|
            selector.valid() && #[trigger] selector.text() == text;
        law_negation(selector);
    }
}

/// The grammar is unambiguous: a text is at most one valid selector written
/// out.
pub proof fn law_unambiguous(a: Selector, b: Selector)
    requires
        a.valid(),
        b.valid(),
        a.text() == b.text(),
    ensures
        a == b,
{
    let text = a.text();
    lemma_covers_is_text(a, text);
    lemma_covers_is_text(b, text);
    law_negation(a);
    law_negation(b);
    let at: int = if a.negation {
        1
    } else {
        0
    };
    lemma_items_unique(a.items, b.items, text, at + 1);
}

/// The first entry of a list that bears a name is an entry of the list and
/// bears that name.
pub proof fn lemma_first_called_name(items: Seq<Entry>, name: Seq<u8>)
    ensures
        first_called(items, name) matches Some(e) ==> items.contains(e) && e.name == name,
    decreases items.len(),
{
    if items.len() > 0 {
        if items[0].name == name {
            assert(items[0] == items[0]);
        } else {
            let rest = items.drop_first();
            lemma_first_called_name(rest, name);
            if first_called(rest, name) is Some {
                let e = first_called(rest, name)->0;
                let k = choose|k: int| 0 <= k < rest.len() && rest[k] == e;
                assert(items[k + 1] == e);
            }
        }
    }
}

/// Looking a path up ends, if it ends at all, at an entry that bears the
/// last name of the path.
pub proof fn law_lookup_name(items: Seq<Entry>, path: Seq<Seq<u8>>)
    ensures
        lookup(items, path) matches Some(e) ==> path.len() > 0 && e.name == path.last(),
    decreases path.len(),
{
    if path.len() > 0 {
        lemma_first_called_name(items, path[0]);
        if first_called(items, path[0]) is Some && path.len() > 1 {
            let e = first_called(items, path[0])->0;
            let rest = path.drop_first();
            assert(rest.last() == path.last());
            law_lookup_name(e.children, rest);
        }
    }
}

/// The first of `kids` that bears a name is one of `kids` and bears that
/// name.
pub proof fn lemma_first_named(nodes: Seq<Node>, text: Seq<u8>, kids: Seq<int>, name: Seq<u8>)
    ensures
        first_named(nodes, text, kids, name) matches Some(child) ==> kids.contains(child)
            && name_at(nodes, text, child) == name,
    decreases kids.len(),
{
    if kids.len() > 0 {
        if name_at(nodes, text, kids[0]) == name {
            assert(kids[0] == kids[0]);
        } else {
            let rest = kids.drop_first();
            lemma_first_named(nodes, text, rest, name);
            if first_named(nodes, text, rest, name) is Some {
                let child = first_named(nodes, text, rest, name)->0;
                let k = choose|k: int| 0 <= k < rest.len() && rest[k] == child;
                assert(kids[k + 1] == child);
            }
        }
    }
}

/// Going down along a path that is not empty ends, if it ends at all, at a
/// field that bears the last name of the path.
pub proof fn lemma_descend_name(nodes: Seq<Node>, text: Seq<u8>, from: int, path: Seq<Seq<u8>>)
    requires
        linked(nodes),
        0 <= from < nodes.len(),
        path.len() > 0,
    ensures
        descend(nodes, text, from, path) matches Some(i) ==> from < i < nodes.len() && name_at(
            nodes,
            text,
            i,
        ) == path.last(),
    decreases path.len(),
{
    let kids = nodes[from].children;
    lemma_first_named(nodes, text, kids, path[0]);
    if first_named(nodes, text, kids, path[0]) is Some {
        let child = first_named(nodes, text, kids, path[0])->0;
        let k = choose|k: int| 0 <= k < kids.len() && kids[k] == child;
        assert(from < nodes[from].children[k] < nodes.len());
        if path.len() > 1 {
            let rest = path.drop_first();
            assert(rest.last() == path.last());
            lemma_descend_name(nodes, text, child, rest);
        }
    }
}

/// Going down along a path and then one name further is going down from
/// where the path ends to the first child of that name.
pub proof fn lemma_descend_push(
    nodes: Seq<Node>,
    text: Seq<u8>,
    from: int,
    path: Seq<Seq<u8>>,
    name: Seq<u8>,
)
    ensures
        descend(nodes, text, from, path.push(name)) == match descend(nodes, text, from, path) {
            Some(i) => first_named(nodes, text, nodes[i].children, name),
            None => None,
        },
    decreases path.len(),
{
    let longer = path.push(name);
    if path.len() == 0 {
        assert(longer.drop_first() =~= Seq::<Seq<u8>>::empty());
        assert(longer[0] == name);
        match first_named(nodes, text, nodes[from].children, name) {
            Some(child) => {
                assert(descend(nodes, text, child, longer.drop_first()) == Some(child));
            },
            None => {},
        }
    } else {
        assert(longer[0] == path[0]);
        assert(longer.drop_first() =~= path.drop_first().push(name));
        match first_named(nodes, text, nodes[from].children, path[0]) {
            Some(child) => {
                lemma_descend_push(nodes, text, child, path.drop_first(), name);
            },
            None => {},
        }
    }
}

/// No elder sibling of the field at slot `i` bears its name, and the same
/// holds of every field above it.
pub open spec fn first_of_its_name(nodes: Seq<Node>, text: Seq<u8>, i: int) -> bool
    decreases i,
{
    match nodes[i].parent {
        Some(p) => {
            &&& first_named(nodes, text, nodes[p].children, name_at(nodes, text, i)) == Some(i)
            &&& (1 <= p < i ==> first_of_its_name(nodes, text, p))
        },
        None => false,
    }
}

/// Looking up the path of a field finds a field of the same name, whenever
/// it finds one at all.
///
/// It finds none where, at some step, an elder sibling bears the name of
/// the field on the path but has no child of the next name; see
/// [`law_path_found`] for when it finds the field itself.
pub proof fn law_path_index(tree: Tree, field: Field)
    requires
        tree.wf(),
        field.wf(),
        field.nodes() == tree.nodes(),
        field.text() == tree.text(),
        found(tree.nodes(), tree.text(), path_of(field.nodes(), field.text(), field.slot()))
            is Some,
    ensures
        name_at(
            tree.nodes(),
            tree.text(),
            found(
                tree.nodes(),
                tree.text(),
                path_of(field.nodes(), field.text(), field.slot()),
            )->0,
        ) == name_at(field.nodes(), field.text(), field.slot()),
{
    let nodes = tree.nodes();
    let text = tree.text();
    let path = path_of(nodes, text, field.slot());
    lemma_descend_name(nodes, text, 0, path);
}

/// Where no field on the way down to a field has an elder sibling of the
/// same name, looking up the field's path finds the field itself.
pub proof fn law_path_found(tree: Tree, field: Field)
    requires
        tree.wf(),
        field.wf(),
        field.nodes() == tree.nodes(),
        field.text() == tree.text(),
        first_of_its_name(field.nodes(), field.text(), field.slot()),
    ensures
        found(tree.nodes(), tree.text(), path_of(field.nodes(), field.text(), field.slot()))
            == Some(field.slot()),
{
    lemma_path_found(tree.nodes(), tree.text(), field.slot());
}

/// See [`law_path_found`].
pub proof fn lemma_path_found(nodes: Seq<Node>, text: Seq<u8>, i: int)
    requires
        holds(nodes, text),
        1 <= i < nodes.len(),
        first_of_its_name(nodes, text, i),
    ensures
        descend(nodes, text, 0, path_of(nodes, text, i)) == Some(i),
        path_of(nodes, text, i).len() > 0,
    decreases i,
{
    let p = nodes[i].parent->0;
    let name = name_at(nodes, text, i);
    if p == 0 {
        assert(field_parent(nodes, i) is None);
        let path = seq![name];
        assert(path.drop_first() =~= Seq::<Seq<u8>>::empty());
        assert(descend(nodes, text, i, path.drop_first()) == Some(i));
    } else {
        assert(nodes[p].value.start() < nodes[p].value.end());
        assert(field_parent(nodes, i) == Some(p));
        lemma_path_found(nodes, text, p);
        lemma_descend_push(nodes, text, 0, path_of(nodes, text, p), name);
    }
}

/// A field below another field is among the children of its parent; a
/// field without a parent is among the fields at the top of the tree, and
/// the fields at the top have no parent.
pub proof fn law_parent(tree: Tree, field: Field)
    requires
        tree.wf(),
        field.wf(),
        field.nodes() == tree.nodes(),
        field.text() == tree.text(),
    ensures
        match field_parent(field.nodes(), field.slot()) {
            Some(p) => 1 <= p < field.slot() && field.nodes()[p].children.contains(field.slot()),
            None => tree.nodes()[0].children.contains(field.slot()),
        },
        tree.nodes()[0].children.contains(field.slot()) <==> field_parent(
            field.nodes(),
            field.slot(),
        ) is None,
{
    let nodes = tree.nodes();
    let i = field.slot();
    let p = nodes[i].parent->0;
    assert(nodes[p].children.contains(i));
    if p != 0 {
        assert(nodes[p].value.start() < nodes[p].value.end());
    }
    if nodes[0].children.contains(i) {
        let k = choose|k: int| 0 <= k < nodes[0].children.len() && nodes[0].children[k] == i;
        assert(nodes[nodes[0].children[k]].parent == Some(0int));
    }
}

/// Every field that a walk of the tree meets is a field of the tree, and
/// it is among the leaves exactly if it has no children.
pub proof fn law_leaves(tree: Tree, k: int)
    requires
        tree.wf(),
        0 <= k < all_fields(tree.nodes()).len(),
    ensures
        1 <= all_fields(tree.nodes())[k] < tree.nodes().len(),
        childless(tree.nodes(), all_fields(tree.nodes())).contains(all_fields(tree.nodes())[k])
            <==> tree.nodes()[all_fields(tree.nodes())[k]].children.len() == 0,
{
    let nodes = tree.nodes();
    let all = all_fields(nodes);
    let leaf = |i: int| nodes[i].children.len() == 0;
    assert forall|j: int| 0 <= j < nodes[0].children.len() implies 0
        < #[trigger] nodes[0].children[j] < nodes.len() by {}
    lemma_forest_within(nodes, 0, nodes[0].children);
    assert(childless(nodes, all) == all.filter(leaf));
    if leaf(all[k]) {
        all.lemma_filter_contains(leaf, k);
    }
    if all.filter(leaf).contains(all[k]) {
        let j = choose|j: int| 0 <= j < all.filter(leaf).len() && all.filter(leaf)[j] == all[k];
        all.lemma_filter_pred(leaf, j);
    }
}

/// A walk of the tree meets no field twice.
pub proof fn law_walk_once(tree: Tree)
    requires
        tree.wf(),
    ensures
        all_fields(tree.nodes()).no_duplicates(),
{
    let nodes = tree.nodes();
    let whole = subtree(nodes, 0);
    let all = all_fields(nodes);
    lemma_subtree_once(nodes, 0);
    assert forall|i: int, j: int| 0 <= i < all.len() && 0 <= j < all.len() && i != j implies all[i]
        != all[j] by {
        assert(whole[i + 1] == all[i]);
        assert(whole[j + 1] == all[j]);
    }
}

/// A walk of the tree meets every field of the tree.
pub proof fn law_walk_complete(tree: Tree, field: Field)
    requires
        tree.wf(),
        field.wf(),
        field.nodes() == tree.nodes(),
    ensures
        all_fields(tree.nodes()).contains(field.slot()),
{
    let nodes = tree.nodes();
    let i = field.slot();
    lemma_all_reached(nodes, i);
    let whole = subtree(nodes, 0);
    let j = choose|j: int| 0 <= j < whole.len() && whole[j] == i;
    assert(all_fields(nodes)[j - 1] == i);
}

/// The selector that a tree denotes has one entry for each field at the top
/// of the tree, in the same order, and the entry of a field has the field's
/// name and one entry for each of the field's children, in the same order.
pub proof fn law_selector_shape(tree: Tree, i: int)
    requires
        tree.wf(),
        0 <= i < tree.nodes().len(),
    ensures
        tree.selector().items.len() == tree.nodes()[0].children.len(),
        forall|k: int|
            0 <= k < tree.nodes()[0].children.len() ==> #[trigger] tree.selector().items[k]
                == entry_at(tree.nodes(), tree.text(), tree.nodes()[0].children[k]),
        entry_at(tree.nodes(), tree.text(), i).name == name_at(tree.nodes(), tree.text(), i),
        entry_at(tree.nodes(), tree.text(), i).children.len() == tree.nodes()[i].children.len(),
        forall|k: int|
            0 <= k < tree.nodes()[i].children.len() ==> #[trigger] entry_at(
                tree.nodes(),
                tree.text(),
                i,
            ).children[k] == entry_at(tree.nodes(), tree.text(), tree.nodes()[i].children[k]),
{
    let nodes = tree.nodes();
    let text = tree.text();
    assert forall|k: int| 0 <= k < nodes[0].children.len() implies 0
        < #[trigger] nodes[0].children[k] < nodes.len() by {}
    lemma_entries_at(nodes, text, 0, nodes[0].children);
    assert forall|k: int| 0 <= k < nodes[i].children.len() implies i
        < #[trigger] nodes[i].children[k] < nodes.len() by {}
    lemma_entries_at(nodes, text, i, nodes[i].children);
}

/// In a tree whose selector is valid, as that of a parsed tree is, every
/// field bears a field name: at least one byte, all of them letters, digits,
/// `-` or `_`.
pub proof fn law_names(tree: Tree, field: Field)
    requires
        tree.wf(),
        tree.selector().valid(),
        field.wf(),
        field.nodes() == tree.nodes(),
        field.text() == tree.text(),
    ensures
        is_name(name_at(field.nodes(), field.text(), field.slot())),
{
    lemma_entry_valid(tree, field.slot());
}

/// In a tree whose selector is valid, the entry of every field is valid.
pub proof fn lemma_entry_valid(tree: Tree, i: int)
    requires
        tree.wf(),
        tree.selector().valid(),
        1 <= i < tree.nodes().len(),
    ensures
        entry_at(tree.nodes(), tree.text(), i).valid(),
    decreases i,
{
    let nodes = tree.nodes();
    let text = tree.text();
    let p = nodes[i].parent->0;
    assert(nodes[p].children.contains(i));
    let k = choose|k: int| 0 <= k < nodes[p].children.len() && nodes[p].children[k] == i;
    law_selector_shape(tree, p);
    if p == 0 {
        assert(tree.selector().items[k] == entry_at(nodes, text, i));
    } else {
        lemma_entry_valid(tree, p);
        assert(entry_at(nodes, text, p).children[k] == entry_at(nodes, text, i));
    }
}

/// The children of a node, and so the fields at the top of the tree, stand
/// in the order in which the text names them: of two children, the one that
/// comes first ends in the text before the other begins.
pub proof fn law_order(tree: Tree, i: int, k: int, l: int)
    requires
        tree.wf(),
        0 <= i < tree.nodes().len(),
        0 <= k < l < tree.nodes()[i].children.len(),
    ensures
        tree.nodes()[tree.nodes()[i].children[k]].value.end() < tree.nodes()[
        tree.nodes()[i].children[l]].value.start(),
{
}

} // verus!
