//! What an arena of fields means: the names, the forest of entries, and the
//! ways through it, all as functions of the arena's nodes and of the text
//! that the nodes point into.

use crate::arena::forest;
use crate::arena::linked;
use crate::arena::Node;
use crate::arena::subtree;
use crate::arena::with_child;
use crate::grammar::Entry;
use crate::grammar::first_called;
use crate::grammar::items_flat;
use crate::grammar::leaves_of;
use crate::grammar::lookup;
use crate::str_range::StrRange;
use vstd::prelude::*;
use vstd::utf8::is_char_boundary;
use vstd::utf8::is_char_boundary_start_end_of_seq;
use vstd::utf8::valid_utf8;

verus! {

/// The name of the field at slot `i`: the bytes of `text` that its range
/// selects.
pub open spec fn name_at(nodes: Seq<Node>, text: Seq<u8>, i: int) -> Seq<u8> {
    text.subrange(nodes[i].value.start(), nodes[i].value.end())
}

/// The arena is a tree of fields over some text: the links agree, the root
/// holds the empty range, every other node holds a range that is not empty,
/// and children stand in the order of their ranges.
pub open spec fn shaped(nodes: Seq<Node>) -> bool {
    &&& linked(nodes)
    &&& nodes[0].value.start() == 0
    &&& nodes[0].value.end() == 0
    &&& forall|i: int|
        1 <= i < nodes.len() ==> 0 <= (#[trigger] nodes[i]).value.start() < nodes[i].value.end()
    &&& in_source_order(nodes)
}

/// The ranges of the arena lie in `text`, between characters.
pub open spec fn within(nodes: Seq<Node>, text: Seq<u8>) -> bool {
    forall|i: int|
        0 <= i < nodes.len() ==> {
            &&& (#[trigger] nodes[i]).value.end() <= text.len()
            &&& is_char_boundary(text, nodes[i].value.start())
            &&& is_char_boundary(text, nodes[i].value.end())
        }
}

/// An arena holds in a text exactly if it is shaped as a tree of fields and
/// its ranges lie within the text. The text is the bytes of a string.
pub proof fn lemma_holds(nodes: Seq<Node>, text: Seq<u8>)
    requires
        valid_utf8(text),
    ensures
        holds(nodes, text) <==> shaped(nodes) && within(nodes, text),
{
    broadcast use is_char_boundary_start_end_of_seq;

    if holds(nodes, text) {
        assert forall|i: int| 0 <= i < nodes.len() implies {
            &&& (#[trigger] nodes[i]).value.end() <= text.len()
            &&& is_char_boundary(text, nodes[i].value.start())
            &&& is_char_boundary(text, nodes[i].value.end())
        } by {
            if i == 0 {
                assert(is_char_boundary(text, 0));
            }
        }
    }
}

/// The arena is a tree of fields over `text`: the links agree, the root
/// holds the empty range, every other node holds a range of `text` that is
/// not empty and falls on character boundaries, and children stand in the
/// order of their ranges.
pub open spec fn holds(nodes: Seq<Node>, text: Seq<u8>) -> bool {
    &&& linked(nodes)
    &&& nodes[0].value.start() == 0
    &&& nodes[0].value.end() == 0
    &&& forall|i: int|
        1 <= i < nodes.len() ==> {
            &&& 0 <= (#[trigger] nodes[i]).value.start() < nodes[i].value.end() <= text.len()
            &&& is_char_boundary(text, nodes[i].value.start())
            &&& is_char_boundary(text, nodes[i].value.end())
        }
    &&& in_source_order(nodes)
}

/// Of two children of one node, the one that comes first in the list of
/// children ends before the other begins.
pub open spec fn in_source_order(nodes: Seq<Node>) -> bool {
    forall|i: int, k: int, l: int|
        0 <= i < nodes.len() && 0 <= k < l < nodes[i].children.len() ==> nodes[
        #[trigger] nodes[i].children[k]].value.end() < nodes[
        #[trigger] nodes[i].children[l]].value.start()
}

/// The parent of the field at slot `i`, if that parent is a field: the
/// root, which alone holds an empty range, is none.
pub open spec fn field_parent(nodes: Seq<Node>, i: int) -> Option<int> {
    match nodes[i].parent {
        Some(p) => if nodes[p].value.start() >= nodes[p].value.end() {
            None
        } else {
            Some(p)
        },
        None => None,
    }
}

/// The names on the way from the top of the tree down to the field at slot
/// `i`, that field's own name last.
pub open spec fn path_of(nodes: Seq<Node>, text: Seq<u8>, i: int) -> Seq<Seq<u8>>
    decreases i,
{
    match field_parent(nodes, i) {
        Some(p) => if 0 <= p < i {
            path_of(nodes, text, p).push(name_at(nodes, text, i))
        } else {
            seq![name_at(nodes, text, i)]
        },
        None => seq![name_at(nodes, text, i)],
    }
}

/// The first of `kids` whose name is `name`.
pub open spec fn first_named(nodes: Seq<Node>, text: Seq<u8>, kids: Seq<int>, name: Seq<u8>)
    -> Option<int>
    decreases kids.len(),
{
    if kids.len() == 0 {
        None
    } else if name_at(nodes, text, kids[0]) == name {
        Some(kids[0])
    } else {
        first_named(nodes, text, kids.drop_first(), name)
    }
}

/// The node reached from slot `from` by going down along `path`: at each
/// step to the first child that bears the next name.
pub open spec fn descend(nodes: Seq<Node>, text: Seq<u8>, from: int, path: Seq<Seq<u8>>)
    -> Option<int>
    decreases path.len(),
{
    if path.len() == 0 {
        Some(from)
    } else {
        match first_named(nodes, text, nodes[from].children, path[0]) {
            Some(child) => descend(nodes, text, child, path.drop_first()),
            None => None,
        }
    }
}

/// The field reached from the top of the tree along `path`, at each step
/// the first child that bears the next name. The empty path reaches no
/// field.
pub open spec fn found(nodes: Seq<Node>, text: Seq<u8>, path: Seq<Seq<u8>>) -> Option<int> {
    if path.len() == 0 {
        None
    } else {
        descend(nodes, text, 0, path)
    }
}

/// The path of a field ends with the field's own name.
pub proof fn lemma_path_last(nodes: Seq<Node>, text: Seq<u8>, i: int)
    ensures
        path_of(nodes, text, i).len() >= 1,
        path_of(nodes, text, i).last() == name_at(nodes, text, i),
{
}

/// All fields of the tree, each before its children, the children from
/// first to last.
pub open spec fn all_fields(nodes: Seq<Node>) -> Seq<int> {
    forest(nodes, 0, nodes[0].children)
}

/// The fields among `slots` that have no children, in the same order.
pub open spec fn childless(nodes: Seq<Node>, slots: Seq<int>) -> Seq<int> {
    slots.filter(|i: int| nodes[i].children.len() == 0)
}

/// The entry that the node at slot `i` and the nodes below it denote.
pub open spec fn entry_at(nodes: Seq<Node>, text: Seq<u8>, i: int) -> Entry
    decreases nodes.len() - i, 1int, 0int,
{
    if 0 <= i < nodes.len() {
        Entry {
            name: name_at(nodes, text, i),
            children: entries_at(nodes, text, i, nodes[i].children),
        }
    } else {
        Entry { name: Seq::empty(), children: Seq::empty() }
    }
}

/// The entries that the nodes at `kids` denote. Only slots after `above`
/// are entered.
pub open spec fn entries_at(nodes: Seq<Node>, text: Seq<u8>, above: int, kids: Seq<int>) -> Seq<
    Entry,
>
    decreases nodes.len() - above, 0int, kids.len(),
{
    if kids.len() == 0 {
        Seq::empty()
    } else if above < kids[0] < nodes.len() {
        seq![entry_at(nodes, text, kids[0])] + entries_at(nodes, text, above, kids.drop_first())
    } else {
        entries_at(nodes, text, above, kids.drop_first())
    }
}

/// Where all of `kids` are slots after `above`, their entries are those of
/// the slots, one for one.
pub proof fn lemma_entries_at(nodes: Seq<Node>, text: Seq<u8>, above: int, kids: Seq<int>)
    requires
        forall|k: int| 0 <= k < kids.len() ==> above < #[trigger] kids[k] < nodes.len(),
    ensures
        entries_at(nodes, text, above, kids).len() == kids.len(),
        forall|k: int|
            0 <= k < kids.len() ==> #[trigger] entries_at(nodes, text, above, kids)[k] == entry_at(
                nodes,
                text,
                kids[k],
            ),
    decreases kids.len(),
{
    if kids.len() > 0 {
        let rest = kids.drop_first();
        assert(above < kids[0] < nodes.len());
        assert forall|k: int| 0 <= k < rest.len() implies above < #[trigger] rest[k]
            < nodes.len() by {
            assert(rest[k] == kids[k + 1]);
        }
        lemma_entries_at(nodes, text, above, rest);
        assert forall|k: int| 0 <= k < kids.len() implies #[trigger] entries_at(
            nodes,
            text,
            above,
            kids,
        )[k] == entry_at(nodes, text, kids[k]) by {
            if k > 0 {
                assert(rest[k - 1] == kids[k]);
            }
        }
    }
}

/// Appending a child keeps the links in order.
pub proof fn lemma_with_child_linked(nodes: Seq<Node>, parent: int, value: StrRange)
    requires
        linked(nodes),
        0 <= parent < nodes.len(),
    ensures
        linked(with_child(nodes, parent, value)),
{
    let next = with_child(nodes, parent, value);
    let n = nodes.len() as int;
    assert(next.len() == n + 1);
    assert(next[n].parent == Some(parent));
    assert(next[parent].children == nodes[parent].children.push(n));
    assert(next[parent].children[nodes[parent].children.len() as int] == n);
    assert forall|i: int| 1 <= i < next.len() implies #[trigger] next[i].parent is Some && 0
        <= next[i].parent->0 < i && next[next[i].parent->0].children.contains(i) by {
        if i < n {
            assert(next[i].parent == nodes[i].parent);
            let p = nodes[i].parent->0;
            assert(nodes[p].children.contains(i));
            let k = choose|k: int| 0 <= k < nodes[p].children.len() && nodes[p].children[k] == i;
            if p == parent {
                assert(next[p].children[k] == i);
            } else {
                assert(next[p].children[k] == i);
            }
        }
    }
    assert forall|i: int, k: int| 0 <= i < next.len() && 0 <= k < next[i].children.len() implies i
        < (#[trigger] next[i].children[k]) < next.len() && next[next[i].children[k]].parent
        == Some(i) by {
        if i == parent {
            if k < nodes[parent].children.len() {
                assert(next[i].children[k] == nodes[i].children[k]);
            }
        } else if i < n {
            assert(next[i].children[k] == nodes[i].children[k]);
        }
    }
    assert forall|i: int, k: int, l: int|
        0 <= i < next.len() && 0 <= k < l < next[i].children.len() implies #[trigger] next[i].children[k]
        < #[trigger] next[i].children[l] by {
        if i == parent {
            assert(next[i].children[k] == nodes[i].children[k]);
            if l < nodes[parent].children.len() {
                assert(next[i].children[l] == nodes[i].children[l]);
            }
        } else if i < n {
            assert(next[i].children[k] == nodes[i].children[k]);
            assert(next[i].children[l] == nodes[i].children[l]);
        }
    }
}

/// The subtree of a node begins with the node and holds only slots from it
/// on.
pub proof fn lemma_subtree_within(nodes: Seq<Node>, i: int)
    requires
        linked(nodes),
        0 <= i < nodes.len(),
    ensures
        subtree(nodes, i).len() >= 1,
        subtree(nodes, i)[0] == i,
        forall|k: int|
            0 <= k < subtree(nodes, i).len() ==> i <= #[trigger] subtree(nodes, i)[k] < nodes.len(),
    decreases nodes.len() - i, 1int, 0int,
{
    assert forall|k: int| 0 <= k < nodes[i].children.len() implies i
        < #[trigger] nodes[i].children[k] < nodes.len() by {}
    lemma_forest_within(nodes, i, nodes[i].children);
    let below = forest(nodes, i, nodes[i].children);
    assert forall|k: int| 0 <= k < subtree(nodes, i).len() implies i <= #[trigger] subtree(
        nodes,
        i,
    )[k] < nodes.len() by {
        if k > 0 {
            assert(subtree(nodes, i)[k] == below[k - 1]);
        }
    }
}

/// The subtrees of slots after `above` hold only slots after `above`.
pub proof fn lemma_forest_within(nodes: Seq<Node>, above: int, kids: Seq<int>)
    requires
        linked(nodes),
        0 <= above,
        forall|k: int| 0 <= k < kids.len() ==> above < #[trigger] kids[k] < nodes.len(),
    ensures
        forall|k: int|
            0 <= k < forest(nodes, above, kids).len() ==> above < #[trigger] forest(
                nodes,
                above,
                kids,
            )[k] < nodes.len(),
    decreases nodes.len() - above, 0int, kids.len(),
{
    if kids.len() > 0 {
        let rest = kids.drop_first();
        assert(above < kids[0] < nodes.len());
        assert forall|k: int| 0 <= k < rest.len() implies above < #[trigger] rest[k]
            < nodes.len() by {
            assert(rest[k] == kids[k + 1]);
        }
        lemma_subtree_within(nodes, kids[0]);
        lemma_forest_within(nodes, above, rest);
        let head = subtree(nodes, kids[0]);
        let tail = forest(nodes, above, rest);
        assert forall|k: int| 0 <= k < forest(nodes, above, kids).len() implies above
            < #[trigger] forest(nodes, above, kids)[k] < nodes.len() by {
            if k < head.len() {
                assert(forest(nodes, above, kids)[k] == head[k]);
            } else {
                assert(forest(nodes, above, kids)[k] == tail[k - head.len()]);
            }
        }
    }
}

/// What the subtrees of `kids` hold lies in the subtree of one of `kids`,
/// and the other way round.
pub proof fn lemma_forest_holds(nodes: Seq<Node>, above: int, kids: Seq<int>, x: int)
    requires
        forall|k: int| 0 <= k < kids.len() ==> above < #[trigger] kids[k] < nodes.len(),
    ensures
        forest(nodes, above, kids).contains(x) <==> exists|k: int|
            0 <= k < kids.len() && #[trigger] subtree(nodes, kids[k]).contains(x),
    decreases kids.len(),
{
    if kids.len() > 0 {
        let rest = kids.drop_first();
        let head = subtree(nodes, kids[0]);
        let tail = forest(nodes, above, rest);
        assert(above < kids[0] < nodes.len());
        assert forall|k: int| 0 <= k < rest.len() implies above < #[trigger] rest[k]
            < nodes.len() by {
            assert(rest[k] == kids[k + 1]);
        }
        lemma_forest_holds(nodes, above, rest, x);
        assert(forest(nodes, above, kids) == head + tail);
        if forest(nodes, above, kids).contains(x) {
            let j = choose|j: int| 0 <= j < (head + tail).len() && (head + tail)[j] == x;
            if j < head.len() {
                assert(head[j] == x);
                assert(subtree(nodes, kids[0]).contains(x));
            } else {
                assert(tail[j - head.len()] == x);
                assert(tail.contains(x));
                let k = choose|k: int|
                    0 <= k < rest.len() && #[trigger] subtree(nodes, rest[k]).contains(x);
                assert(rest[k] == kids[k + 1]);
                assert(subtree(nodes, kids[k + 1]).contains(x));
            }
        }
        if exists|k: int| 0 <= k < kids.len() && #[trigger] subtree(nodes, kids[k]).contains(x) {
            let k = choose|k: int|
                0 <= k < kids.len() && #[trigger] subtree(nodes, kids[k]).contains(x);
            if k == 0 {
                let j = choose|j: int| 0 <= j < head.len() && head[j] == x;
                assert((head + tail)[j] == x);
            } else {
                assert(rest[k - 1] == kids[k]);
                assert(subtree(nodes, rest[k - 1]).contains(x));
                assert(tail.contains(x));
                let j = choose|j: int| 0 <= j < tail.len() && tail[j] == x;
                assert((head + tail)[head.len() + j] == x);
            }
        }
    } else {
        assert(forest(nodes, above, kids) =~= Seq::<int>::empty());
    }
}

/// What lies in the subtree of a node of a subtree lies in that subtree.
pub proof fn lemma_subtree_nests(nodes: Seq<Node>, a: int, b: int, x: int)
    requires
        linked(nodes),
        0 <= a < nodes.len(),
        subtree(nodes, a).contains(b),
        subtree(nodes, b).contains(x),
    ensures
        subtree(nodes, a).contains(x),
    decreases nodes.len() - a,
{
    if b != a {
        let kids = nodes[a].children;
        let below = forest(nodes, a, kids);
        assert forall|k: int| 0 <= k < kids.len() implies a < #[trigger] kids[k]
            < nodes.len() by {
            assert(a < nodes[a].children[k] < nodes.len());
        }
        let j = choose|j: int| 0 <= j < subtree(nodes, a).len() && subtree(nodes, a)[j] == b;
        assert(j > 0);
        assert(below[j - 1] == b);
        assert(below.contains(b));
        lemma_forest_holds(nodes, a, kids, b);
        let k = choose|k: int|
            0 <= k < kids.len() && #[trigger] subtree(nodes, kids[k]).contains(b);
        lemma_subtree_nests(nodes, kids[k], b, x);
        lemma_forest_holds(nodes, a, kids, x);
        let i = choose|i: int| 0 <= i < below.len() && below[i] == x;
        assert(subtree(nodes, a)[i + 1] == x);
    }
}

/// Every node lies in the subtree of its parent, and so in that of the
/// root.
pub proof fn lemma_all_reached(nodes: Seq<Node>, i: int)
    requires
        linked(nodes),
        0 <= i < nodes.len(),
    ensures
        subtree(nodes, 0).contains(i),
    decreases i,
{
    lemma_subtree_within(nodes, i);
    if i == 0 {
        assert(subtree(nodes, 0)[0] == 0);
    } else {
        let p = nodes[i].parent->0;
        let kids = nodes[p].children;
        let below = forest(nodes, p, kids);
        assert(kids.contains(i));
        let k = choose|k: int| 0 <= k < kids.len() && kids[k] == i;
        assert forall|j: int| 0 <= j < kids.len() implies p < #[trigger] kids[j]
            < nodes.len() by {
            assert(p < nodes[p].children[j] < nodes.len());
        }
        assert(subtree(nodes, i)[0] == i);
        assert(subtree(nodes, kids[k]).contains(i));
        lemma_forest_holds(nodes, p, kids, i);
        let j = choose|j: int| 0 <= j < below.len() && below[j] == i;
        assert(subtree(nodes, p)[j + 1] == i);
        lemma_all_reached(nodes, p);
        lemma_subtree_nests(nodes, 0, p, i);
    }
}

/// The entry of a node has one entry for each of the node's children, in
/// the same order.
pub proof fn lemma_entry_children(nodes: Seq<Node>, text: Seq<u8>, i: int)
    requires
        linked(nodes),
        0 <= i < nodes.len(),
    ensures
        entry_at(nodes, text, i).name == name_at(nodes, text, i),
        entry_at(nodes, text, i).children == entries_at(nodes, text, i, nodes[i].children),
        entries_at(nodes, text, i, nodes[i].children).len() == nodes[i].children.len(),
        forall|k: int|
            0 <= k < nodes[i].children.len() ==> #[trigger] entries_at(
                nodes,
                text,
                i,
                nodes[i].children,
            )[k] == entry_at(nodes, text, nodes[i].children[k]),
{
    assert forall|k: int| 0 <= k < nodes[i].children.len() implies i
        < #[trigger] nodes[i].children[k] < nodes.len() by {}
    lemma_entries_at(nodes, text, i, nodes[i].children);
}

/// The entries that the nodes at `slots` denote, one for one.
pub open spec fn entries_of(nodes: Seq<Node>, text: Seq<u8>, slots: Seq<int>) -> Seq<Entry> {
    slots.map_values(|i: int| entry_at(nodes, text, i))
}

/// The nodes of a subtree denote, in order, the entry of its first node
/// and all entries below that.
pub proof fn lemma_subtree_flat(nodes: Seq<Node>, text: Seq<u8>, i: int)
    requires
        linked(nodes),
        0 <= i < nodes.len(),
    ensures
        entries_of(nodes, text, subtree(nodes, i)) == entry_at(nodes, text, i).flat(),
    decreases nodes.len() - i, 1int, 0int,
{
    let kids = nodes[i].children;
    assert forall|k: int| 0 <= k < kids.len() implies i < #[trigger] kids[k] < nodes.len() by {
        assert(i < nodes[i].children[k] < nodes.len());
    }
    lemma_forest_flat(nodes, text, i, kids);
    assert(entries_of(nodes, text, subtree(nodes, i)) =~= seq![entry_at(nodes, text, i)]
        + entries_of(nodes, text, forest(nodes, i, kids)));
}

/// The nodes of the subtrees of `kids` denote, in order, all entries of
/// the entries of `kids` and below.
pub proof fn lemma_forest_flat(nodes: Seq<Node>, text: Seq<u8>, above: int, kids: Seq<int>)
    requires
        linked(nodes),
        0 <= above,
        forall|k: int| 0 <= k < kids.len() ==> above < #[trigger] kids[k] < nodes.len(),
    ensures
        entries_of(nodes, text, forest(nodes, above, kids)) == items_flat(
            entries_at(nodes, text, above, kids),
        ),
    decreases nodes.len() - above, 0int, kids.len(),
{
    if kids.len() == 0 {
        assert(entries_of(nodes, text, forest(nodes, above, kids)) =~= Seq::<Entry>::empty());
    } else {
        let rest = kids.drop_first();
        assert(above < kids[0] < nodes.len());
        assert forall|k: int| 0 <= k < rest.len() implies above < #[trigger] rest[k]
            < nodes.len() by {
            assert(rest[k] == kids[k + 1]);
        }
        lemma_subtree_flat(nodes, text, kids[0]);
        lemma_forest_flat(nodes, text, above, rest);
        let all = entries_at(nodes, text, above, kids);
        assert(all[0] == entry_at(nodes, text, kids[0]));
        assert(all.drop_first() =~= entries_at(nodes, text, above, rest));
        assert(entries_of(nodes, text, forest(nodes, above, kids)) =~= entries_of(
            nodes,
            text,
            subtree(nodes, kids[0]),
        ) + entries_of(nodes, text, forest(nodes, above, rest)));
    }
}

/// Among nodes of the arena, those without children denote the entries
/// without children.
pub proof fn lemma_childless_entries(nodes: Seq<Node>, text: Seq<u8>, slots: Seq<int>)
    requires
        linked(nodes),
        forall|k: int| 0 <= k < slots.len() ==> 0 <= #[trigger] slots[k] < nodes.len(),
    ensures
        entries_of(nodes, text, childless(nodes, slots)) == leaves_of(
            entries_of(nodes, text, slots),
        ),
    decreases slots.len(),
{
    reveal(Seq::filter);
    let leaf = |i: int| nodes[i].children.len() == 0;
    let bare = |e: Entry| e.children.len() == 0;
    let all = entries_of(nodes, text, slots);
    if slots.len() == 0 {
        assert(entries_of(nodes, text, childless(nodes, slots)) =~= leaves_of(all));
    } else {
        let front = slots.drop_last();
        let last = slots.last();
        assert forall|k: int| 0 <= k < front.len() implies 0 <= #[trigger] front[k]
            < nodes.len() by {
            assert(front[k] == slots[k]);
        }
        lemma_childless_entries(nodes, text, front);
        lemma_entry_children(nodes, text, last);
        assert(all.drop_last() =~= entries_of(nodes, text, front));
        assert(all.last() == entry_at(nodes, text, last));
        assert(bare(all.last()) == leaf(last));
        assert(childless(nodes, slots) == slots.filter(leaf));
        assert(leaves_of(all) == all.filter(bare));
        if leaf(last) {
            assert(slots.filter(leaf) == front.filter(leaf).push(last));
            assert(all.filter(bare) == all.drop_last().filter(bare).push(all.last()));
            assert(entries_of(nodes, text, front.filter(leaf).push(last)) =~= entries_of(
                nodes,
                text,
                front.filter(leaf),
            ).push(entry_at(nodes, text, last)));
        } else {
            assert(slots.filter(leaf) == front.filter(leaf));
            assert(all.filter(bare) == all.drop_last().filter(bare));
        }
    }
}

/// The first of `kids` that bears a name denotes the first entry of that
/// name among the entries of `kids`.
pub proof fn lemma_first_called(
    nodes: Seq<Node>,
    text: Seq<u8>,
    above: int,
    kids: Seq<int>,
    name: Seq<u8>,
)
    requires
        0 <= above,
        forall|k: int| 0 <= k < kids.len() ==> above < #[trigger] kids[k] < nodes.len(),
    ensures
        match first_named(nodes, text, kids, name) {
            Some(child) => above < child < nodes.len() && first_called(
                entries_at(nodes, text, above, kids),
                name,
            ) == Some(entry_at(nodes, text, child)),
            None => first_called(entries_at(nodes, text, above, kids), name) is None,
        },
    decreases kids.len(),
{
    if kids.len() > 0 {
        let rest = kids.drop_first();
        assert(above < kids[0] < nodes.len());
        assert forall|k: int| 0 <= k < rest.len() implies above < #[trigger] rest[k]
            < nodes.len() by {
            assert(rest[k] == kids[k + 1]);
        }
        lemma_first_called(nodes, text, above, rest, name);
        let all = entries_at(nodes, text, above, kids);
        assert(all[0] == entry_at(nodes, text, kids[0]));
        assert(all[0].name == name_at(nodes, text, kids[0]));
        assert(all.drop_first() =~= entries_at(nodes, text, above, rest));
    }
}

/// Going down the arena along a path reaches the node of the entry that
/// the path reaches among the entries.
pub proof fn lemma_descend_lookup(nodes: Seq<Node>, text: Seq<u8>, from: int, path: Seq<Seq<u8>>)
    requires
        linked(nodes),
        0 <= from < nodes.len(),
        path.len() > 0,
    ensures
        match descend(nodes, text, from, path) {
            Some(i) => from < i < nodes.len() && lookup(
                entry_at(nodes, text, from).children,
                path,
            ) == Some(entry_at(nodes, text, i)),
            None => lookup(entry_at(nodes, text, from).children, path) is None,
        },
    decreases path.len(),
{
    let kids = nodes[from].children;
    assert forall|k: int| 0 <= k < kids.len() implies from < #[trigger] kids[k] < nodes.len() by {
        assert(from < nodes[from].children[k] < nodes.len());
    }
    lemma_first_called(nodes, text, from, kids, path[0]);
    assert(entry_at(nodes, text, from).children == entries_at(nodes, text, from, kids));
    match first_named(nodes, text, kids, path[0]) {
        Some(child) => {
            if path.len() > 1 {
                lemma_descend_lookup(nodes, text, child, path.drop_first());
            } else {
                assert(path.drop_first().len() == 0);
                assert(descend(nodes, text, child, path.drop_first()) == Some(child));
            }
        },
        None => {},
    }
}

/// The node at slot `a` is the node at slot `x` or stands above it.
pub open spec fn at_or_above(nodes: Seq<Node>, x: int, a: int) -> bool
    decreases x,
{
    x == a || (nodes[x].parent matches Some(p) && 0 <= p < x && at_or_above(nodes, p, a))
}

/// What stands above a node lies in an earlier slot.
pub proof fn lemma_above_is_earlier(nodes: Seq<Node>, x: int, a: int)
    requires
        at_or_above(nodes, x, a),
    ensures
        a <= x,
    decreases x,
{
    if x != a {
        lemma_above_is_earlier(nodes, nodes[x].parent->0, a);
    }
}

/// What stands at or above a child, other than the child, stands at or
/// above its parent; and what the child stands at or above, the parent
/// stands above.
pub proof fn lemma_above_parent(nodes: Seq<Node>, x: int, c: int, a: int)
    requires
        at_or_above(nodes, x, c),
        nodes[c].parent == Some(a),
        0 <= a < c,
    ensures
        at_or_above(nodes, x, a),
    decreases x,
{
    if x != c {
        lemma_above_parent(nodes, nodes[x].parent->0, c, a);
    } else {
        assert(at_or_above(nodes, a, a));
    }
}

/// Of two nodes that stand at or above one node, the earlier one stands at
/// or above the later one.
pub proof fn lemma_above_in_line(nodes: Seq<Node>, x: int, u: int, v: int)
    requires
        at_or_above(nodes, x, u),
        at_or_above(nodes, x, v),
        u <= v,
    ensures
        at_or_above(nodes, v, u),
    decreases x,
{
    lemma_above_is_earlier(nodes, x, u);
    lemma_above_is_earlier(nodes, x, v);
    if x != v && x != u {
        lemma_above_in_line(nodes, nodes[x].parent->0, u, v);
    }
}

/// What lies in the subtree of a node has that node at or above it.
pub proof fn lemma_subtree_below(nodes: Seq<Node>, a: int, x: int)
    requires
        linked(nodes),
        0 <= a < nodes.len(),
        subtree(nodes, a).contains(x),
    ensures
        at_or_above(nodes, x, a),
    decreases nodes.len() - a,
{
    if x != a {
        let kids = nodes[a].children;
        let below = forest(nodes, a, kids);
        assert forall|k: int| 0 <= k < kids.len() implies a < #[trigger] kids[k]
            < nodes.len() by {
            assert(a < nodes[a].children[k] < nodes.len());
        }
        let j = choose|j: int| 0 <= j < subtree(nodes, a).len() && subtree(nodes, a)[j] == x;
        assert(below[j - 1] == x);
        assert(below.contains(x));
        lemma_forest_holds(nodes, a, kids, x);
        let k = choose|k: int|
            0 <= k < kids.len() && #[trigger] subtree(nodes, kids[k]).contains(x);
        lemma_subtree_below(nodes, kids[k], x);
        assert(nodes[nodes[a].children[k]].parent == Some(a));
        lemma_above_parent(nodes, x, kids[k], a);
    }
}

/// The subtrees of two different children of one node share no node.
pub proof fn lemma_siblings_apart(nodes: Seq<Node>, a: int, c: int, d: int, x: int)
    requires
        linked(nodes),
        0 <= a < c < d < nodes.len(),
        nodes[c].parent == Some(a),
        nodes[d].parent == Some(a),
        subtree(nodes, c).contains(x),
    ensures
        !subtree(nodes, d).contains(x),
{
    if subtree(nodes, d).contains(x) {
        lemma_subtree_below(nodes, c, x);
        lemma_subtree_below(nodes, d, x);
        lemma_above_in_line(nodes, x, c, d);
        lemma_above_is_earlier(nodes, a, c);
    }
}

/// No node comes twice in a subtree.
pub proof fn lemma_subtree_once(nodes: Seq<Node>, a: int)
    requires
        linked(nodes),
        0 <= a < nodes.len(),
    ensures
        subtree(nodes, a).no_duplicates(),
    decreases nodes.len() - a, 1int, 0int,
{
    let kids = nodes[a].children;
    let below = forest(nodes, a, kids);
    assert forall|k: int| 0 <= k < kids.len() implies a < #[trigger] kids[k] < nodes.len()
        && nodes[kids[k]].parent == Some(a) by {
        assert(a < nodes[a].children[k] < nodes.len());
    }
    assert forall|k: int, l: int| 0 <= k < l < kids.len() implies #[trigger] kids[k]
        < #[trigger] kids[l] by {
        assert(nodes[a].children[k] < nodes[a].children[l]);
    }
    lemma_forest_once(nodes, a, kids);
    lemma_forest_within(nodes, a, kids);
    let whole = subtree(nodes, a);
    assert forall|i: int, j: int|
        0 <= i < whole.len() && 0 <= j < whole.len() && i != j implies whole[i] != whole[j] by {
        if i > 0 {
            assert(whole[i] == below[i - 1]);
        }
        if j > 0 {
            assert(whole[j] == below[j - 1]);
        }
    }
}

/// No node comes twice in the subtrees of children of one node.
pub proof fn lemma_forest_once(nodes: Seq<Node>, a: int, kids: Seq<int>)
    requires
        linked(nodes),
        0 <= a < nodes.len(),
        forall|k: int|
            0 <= k < kids.len() ==> a < #[trigger] kids[k] < nodes.len() && nodes[kids[k]].parent
                == Some(a),
        forall|k: int, l: int| 0 <= k < l < kids.len() ==> #[trigger] kids[k] < #[trigger] kids[l],
    ensures
        forest(nodes, a, kids).no_duplicates(),
    decreases nodes.len() - a, 0int, kids.len(),
{
    if kids.len() > 0 {
        let rest = kids.drop_first();
        let head = subtree(nodes, kids[0]);
        let tail = forest(nodes, a, rest);
        assert(a < kids[0] < nodes.len());
        assert forall|k: int| 0 <= k < rest.len() implies a < #[trigger] rest[k] < nodes.len()
            && nodes[rest[k]].parent == Some(a) && kids[0] < rest[k] by {
            assert(rest[k] == kids[k + 1]);
        }
        assert forall|k: int, l: int| 0 <= k < l < rest.len() implies #[trigger] rest[k]
            < #[trigger] rest[l] by {
            assert(rest[k] == kids[k + 1]);
            assert(rest[l] == kids[l + 1]);
        }
        lemma_subtree_once(nodes, kids[0]);
        lemma_forest_once(nodes, a, rest);
        let whole = forest(nodes, a, kids);
        assert(whole == head + tail);
        assert forall|i: int, j: int|
            0 <= i < whole.len() && 0 <= j < whole.len() && i != j implies whole[i]
            != whole[j] by {
            if i < head.len() && j >= head.len() {
                lemma_apart(nodes, a, kids[0], rest, head[i], tail, j - head.len());
            } else if j < head.len() && i >= head.len() {
                lemma_apart(nodes, a, kids[0], rest, head[j], tail, i - head.len());
            }
        }
    }
}

/// What lies in the subtree of a child does not lie in the subtrees of its
/// younger siblings.
proof fn lemma_apart(
    nodes: Seq<Node>,
    a: int,
    c: int,
    rest: Seq<int>,
    x: int,
    tail: Seq<int>,
    j: int,
)
    requires
        linked(nodes),
        0 <= a < c < nodes.len(),
        nodes[c].parent == Some(a),
        forall|k: int|
            0 <= k < rest.len() ==> a < #[trigger] rest[k] < nodes.len() && nodes[rest[k]].parent
                == Some(a) && c < rest[k],
        subtree(nodes, c).contains(x),
        tail == forest(nodes, a, rest),
        0 <= j < tail.len(),
    ensures
        tail[j] != x,
{
    if tail[j] == x {
        assert(tail.contains(x));
        lemma_forest_holds(nodes, a, rest, x);
        let k = choose|k: int|
            0 <= k < rest.len() && #[trigger] subtree(nodes, rest[k]).contains(x);
        lemma_siblings_apart(nodes, a, c, rest[k], x);
    }
}

} // verus!
