//! Building the arena of a parsed text.
//!
//! The syntax tree is nested as deeply as the text; the arena is filled
//! from it through a work list, so that the depth of the text costs no call
//! stack.

use crate::arena::append_child;
use crate::arena::arena;
use crate::arena::linked;
use crate::arena::new_tree;
use crate::arena::Node;
use crate::arena::root_id;
use crate::arena::slot;
use crate::arena::with_child;
use crate::parser;
use crate::parser::entries;
use crate::parser::items_span;
use crate::parser::lemma_entries;
use crate::parser::lemma_field_fits;
use crate::parser::lemma_items_order;
use crate::shape::entries_at;
use crate::shape::entry_at;
use crate::shape::in_source_order;
use crate::shape::lemma_entries_at;
use crate::shape::lemma_with_child_linked;
use crate::str_range::StrRange;
use ego_tree::NodeId;
use vstd::prelude::*;

verus! {

/// An entry of the work list: a node, and the fields still to be put below
/// it.
type Work<'a> = (NodeId, &'a Vec<parser::Field>);

/// The number of fields in `field`, itself included.
spec fn size(field: parser::Field) -> nat
    decreases field,
{
    match field {
        parser::Field::FieldName(_) => 1,
        parser::Field::FieldsSubstruct(sub) => 1 + items_size(sub.fields_struct.0.0@),
    }
}

/// The number of fields in a list, those below them included.
spec fn items_size(items: Seq<parser::Field>) -> nat
    decreases items,
{
    if items.len() == 0 {
        0
    } else {
        size(items[0]) + items_size(items.drop_first())
    }
}

/// The number of fields that the work list still stands for.
spec fn load(stack: Seq<Work>) -> nat
    decreases stack.len(),
{
    if stack.len() == 0 {
        0
    } else {
        load(stack.drop_last()) + items_size(stack.last().1@)
    }
}

/// The node at slot `i` waits on the work list.
spec fn pending(stack: Seq<Work>, i: int) -> bool {
    exists|j: int| 0 <= j < stack.len() && slot(#[trigger] stack[j].0) == i
}

/// The fields that belong below the node at slot `i`.
spec fn kids_of(made_from: Seq<parser::Field>, top: Seq<parser::Field>, i: int) -> Seq<
    parser::Field,
> {
    if i == 0 {
        top
    } else {
        made_from[i].children()
    }
}

/// The node at slot `i` has `k` children so far, made from the first `k` of
/// `fields`.
spec fn partly(
    nodes: Seq<Node>,
    made_from: Seq<parser::Field>,
    i: int,
    fields: Seq<parser::Field>,
    k: int,
) -> bool {
    &&& nodes[i].children.len() == k
    &&& k <= fields.len()
    &&& forall|j: int| 0 <= j < k ==> made_from[#[trigger] nodes[i].children[j]] == fields[j]
}

/// The state of the arena while it is built: `made_from` tells for each
/// slot the field it was made from; apart from the node at `busy`, a node
/// either waits on the work list without children or has all its children.
spec fn growing(
    nodes: Seq<Node>,
    made_from: Seq<parser::Field>,
    stack: Seq<Work>,
    busy: int,
    top: Seq<parser::Field>,
    text: Seq<u8>,
) -> bool {
    &&& linked(nodes)
    &&& made_from.len() == nodes.len()
    &&& forall|i: int|
        1 <= i < nodes.len() ==> nodes[i].value == (#[trigger] made_from[i]).name()
            && made_from[i].spans(text, made_from[i].name().start())
    &&& forall|j: int|
        0 <= j < stack.len() ==> 1 <= slot(#[trigger] stack[j].0) < nodes.len() && stack[j].1@
            == made_from[slot(stack[j].0)].children()
    &&& forall|j1: int, j2: int|
        0 <= j1 < j2 < stack.len() ==> slot(#[trigger] stack[j1].0) != slot(#[trigger] stack[j2].0)
    &&& forall|i: int|
        0 <= i < nodes.len() && i != busy ==> if #[trigger] pending(stack, i) {
            nodes[i].children.len() == 0
        } else {
            partly(
                nodes,
                made_from,
                i,
                kids_of(made_from, top, i),
                kids_of(made_from, top, i).len() as int,
            )
        }
}

proof fn lemma_items_size_step(items: Seq<parser::Field>, k: int)
    requires
        0 <= k < items.len(),
    ensures
        items_size(items.subrange(k, items.len() as int)) == size(items[k]) + items_size(
            items.subrange(k + 1, items.len() as int),
        ),
{
    let from_k = items.subrange(k, items.len() as int);
    assert(from_k[0] == items[k]);
    assert(from_k.drop_first() =~= items.subrange(k + 1, items.len() as int));
}

proof fn lemma_children_span(field: parser::Field, text: Seq<u8>)
    requires
        field.spans(text, field.name().start()),
    ensures
        forall|k: int|
            0 <= k < field.children().len() ==> (#[trigger] field.children()[k]).spans(
                text,
                field.children()[k].name().start(),
            ),
        field.children().len() > 0 ==> items_span(field.children(), text, field.name().end() + 1),
{
}

/// Put one node below `parent` for each of `children`, in order, and put
/// those that have fields below them on the work list.
fn grow<'a>(
    tree: &mut ego_tree::Tree<StrRange>,
    parent: NodeId,
    children: &'a Vec<parser::Field>,
    stack: &mut Vec<Work<'a>>,
    Ghost(made_from): Ghost<Seq<parser::Field>>,
    Ghost(top): Ghost<Seq<parser::Field>>,
    Ghost(text): Ghost<Seq<u8>>,
) -> (r: Ghost<Seq<parser::Field>>)
    requires
        growing(arena(*old(tree)), made_from, old(stack)@, slot(parent), top, text),
        0 <= slot(parent) < arena(*old(tree)).len(),
        !pending(old(stack)@, slot(parent)),
        arena(*old(tree))[slot(parent)].children.len() == 0,
        children@ == kids_of(made_from, top, slot(parent)),
        forall|k: int|
            0 <= k < children@.len() ==> (#[trigger] children@[k]).spans(
                text,
                children@[k].name().start(),
            ),
    ensures
        growing(arena(*final(tree)), r@, final(stack)@, -1, top, text),
        load(final(stack)@) + children@.len() == load(old(stack)@) + items_size(children@),
        children@.len() == 0 ==> final(stack)@ == old(stack)@,
        arena(*final(tree))[0].value == arena(*old(tree))[0].value,
{
    let ghost mut made = made_from;
    let ghost p = slot(parent);
    let mut k: usize = 0;
    proof {
        assert(children@.subrange(0, children@.len() as int) =~= children@);
    }
    while k < children.len()
        invariant
            0 <= k <= children@.len(),
            p == slot(parent),
            0 <= p < arena(*tree).len(),
            growing(arena(*tree), made, stack@, p, top, text),
            !pending(stack@, p),
            partly(arena(*tree), made, p, children@, k as int),
            children@ == kids_of(made, top, p),
            forall|j: int|
                0 <= j < children@.len() ==> (#[trigger] children@[j]).spans(
                    text,
                    children@[j].name().start(),
                ),
            load(stack@) + items_size(children@.subrange(k as int, children@.len() as int)) + k
                == load(old(stack)@) + items_size(children@),
            k == 0 ==> stack@ == old(stack)@,
            arena(*tree)[0].value == arena(*old(tree))[0].value,
        decreases children@.len() - k,
    {
        let ghost nodes = arena(*tree);
        let ghost before = stack@;
        let ghost made_before = made;
        let child = &children[k];
        proof {
            lemma_items_size_step(children@, k as int);
        }
        match child {
            parser::Field::FieldsSubstruct(sub) => {
                let id = append_child(tree, parent, sub.field_name.0);
                stack.push((id, &sub.fields_struct.0.0));
                proof {
                    assert(stack@.drop_last() =~= before);
                }
            },
            parser::Field::FieldName(name) => {
                let _ = append_child(tree, parent, name.0);
            },
        }
        proof {
            made = made.push(*child);
            let next = arena(*tree);
            let n = nodes.len() as int;
            lemma_with_child_linked(nodes, p, child.name());
            assert(next == with_child(nodes, p, child.name()));
            assert(next.len() == n + 1);
            assert(next[p].children == nodes[p].children.push(n));
            assert forall|i: int| 0 <= i < n implies #[trigger] pending(stack@, i) == pending(
                before,
                i,
            ) by {
                if pending(stack@, i) {
                    let j = choose|j: int|
                        0 <= j < stack@.len() && slot(#[trigger] stack@[j].0) == i;
                    assert(j < before.len());
                    assert(stack@[j] == before[j]);
                }
                if pending(before, i) {
                    let j = choose|j: int|
                        0 <= j < before.len() && slot(#[trigger] before[j].0) == i;
                    assert(stack@[j] == before[j]);
                }
            }
            assert forall|i: int| 0 <= i < next.len() && i != p implies if #[trigger] pending(
                stack@,
                i,
            ) {
                next[i].children.len() == 0
            } else {
                partly(next, made, i, kids_of(made, top, i), kids_of(made, top, i).len() as int)
            } by {
                if i < n {
                    assert(next[i] == nodes[i]);
                    assert(kids_of(made, top, i) == kids_of(made_before, top, i));
                    if !pending(before, i) {
                        assert(partly(
                            nodes,
                            made_before,
                            i,
                            kids_of(made_before, top, i),
                            kids_of(made_before, top, i).len() as int,
                        ));
                        assert forall|j: int| 0 <= j < nodes[i].children.len() implies made[
                        #[trigger] next[i].children[j]] == kids_of(made, top, i)[j] by {
                            assert(nodes[i].children[j] < n);
                        }
                    }
                } else {
                    match *child {
                        parser::Field::FieldsSubstruct(sub) => {
                            assert(slot(stack@[stack@.len() - 1].0) == n);
                            assert(pending(stack@, i));
                        },
                        parser::Field::FieldName(name) => {
                            if pending(stack@, i) {
                                let j = choose|j: int|
                                    0 <= j < stack@.len() && slot(#[trigger] stack@[j].0) == i;
                                assert(slot(before[j].0) < n);
                            }
                        },
                    }
                }
            }
            assert forall|j: int| 0 <= j < stack@.len() implies 1 <= slot(#[trigger] stack@[j].0)
                < next.len() && stack@[j].1@ == made[slot(stack@[j].0)].children() by {
                if j < before.len() {
                    assert(stack@[j] == before[j]);
                }
            }
            assert forall|j1: int, j2: int| 0 <= j1 < j2 < stack@.len() implies slot(
                #[trigger] stack@[j1].0,
            ) != slot(#[trigger] stack@[j2].0) by {
                assert(stack@[j1] == before[j1]);
                if j2 < before.len() {
                    assert(stack@[j2] == before[j2]);
                }
            }
            assert forall|j: int| 0 <= j < k + 1 implies made[#[trigger] next[p].children[j]]
                == children@[j] by {
                if j < k {
                    assert(next[p].children[j] == nodes[p].children[j]);
                    assert(nodes[p].children[j] < n);
                }
            }
            if pending(stack@, p) {
                let j = choose|j: int| 0 <= j < stack@.len() && slot(#[trigger] stack@[j].0) == p;
                if j < before.len() {
                    assert(stack@[j] == before[j]);
                }
            }
        }
        k += 1;
    }
    proof {
        assert(children@.subrange(k as int, children@.len() as int) =~= Seq::<
            parser::Field,
        >::empty());
    }
    Ghost(made)
}

/// Once the work list is empty, every node denotes the entry of the field
/// it was made from.
proof fn lemma_mirror(
    nodes: Seq<Node>,
    made_from: Seq<parser::Field>,
    top: Seq<parser::Field>,
    text: Seq<u8>,
    i: int,
)
    requires
        growing(nodes, made_from, Seq::<Work>::empty(), -1, top, text),
        1 <= i < nodes.len(),
    ensures
        entry_at(nodes, text, i) == made_from[i].entry(text),
    decreases nodes.len() - i,
{
    let kids = nodes[i].children;
    let fields = made_from[i].children();
    assert(!pending(Seq::<Work>::empty(), i));
    assert(partly(nodes, made_from, i, fields, fields.len() as int));
    assert forall|k: int| 0 <= k < kids.len() implies i < #[trigger] kids[k] < nodes.len() by {
        assert(i < nodes[i].children[k] < nodes.len());
    }
    lemma_entries_at(nodes, text, i, kids);
    lemma_entries(fields, text);
    assert forall|k: int| 0 <= k < kids.len() implies #[trigger] entries_at(nodes, text, i, kids)[k]
        == entries(fields, text)[k] by {
        lemma_mirror(nodes, made_from, top, text, kids[k]);
        assert(made_from[nodes[i].children[k]] == fields[k]);
    }
    assert(entries_at(nodes, text, i, kids) =~= entries(fields, text));
    assert(nodes[i].value == made_from[i].name());
}

/// Once the work list is empty, the fields at the top denote the entries of
/// the list that the tree was built from.
proof fn lemma_mirror_top(
    nodes: Seq<Node>,
    made_from: Seq<parser::Field>,
    top: Seq<parser::Field>,
    text: Seq<u8>,
)
    requires
        growing(nodes, made_from, Seq::<Work>::empty(), -1, top, text),
    ensures
        entries_at(nodes, text, 0, nodes[0].children) == entries(top, text),
{
    let kids = nodes[0].children;
    assert(!pending(Seq::<Work>::empty(), 0));
    assert(partly(nodes, made_from, 0, top, top.len() as int));
    assert forall|k: int| 0 <= k < kids.len() implies 0 < #[trigger] kids[k] < nodes.len() by {
        assert(0 < nodes[0].children[k] < nodes.len());
    }
    lemma_entries_at(nodes, text, 0, kids);
    lemma_entries(top, text);
    assert forall|k: int| 0 <= k < kids.len() implies #[trigger] entries_at(nodes, text, 0, kids)[k]
        == entries(top, text)[k] by {
        lemma_mirror(nodes, made_from, top, text, kids[k]);
        assert(made_from[nodes[0].children[k]] == top[k]);
    }
    assert(entries_at(nodes, text, 0, kids) =~= entries(top, text));
}

/// Once the work list is empty, every field's range lies in the text, and
/// children stand in the order of their ranges.
proof fn lemma_built_ranges(
    nodes: Seq<Node>,
    made_from: Seq<parser::Field>,
    top: Seq<parser::Field>,
    text: Seq<u8>,
    at: int,
)
    requires
        growing(nodes, made_from, Seq::<Work>::empty(), -1, top, text),
        items_span(top, text, at),
    ensures
        in_source_order(nodes),
        forall|i: int|
            1 <= i < nodes.len() ==> 0 <= (#[trigger] nodes[i]).value.start()
                < nodes[i].value.end() <= text.len(),
{
    assert forall|i: int| 1 <= i < nodes.len() implies 0 <= (#[trigger] nodes[i]).value.start()
        < nodes[i].value.end() <= text.len() by {
        assert(nodes[i].value == made_from[i].name());
        lemma_field_fits(made_from[i], text, made_from[i].name().start());
    }
    assert forall|i: int, k: int, l: int|
        0 <= i < nodes.len() && 0 <= k < l < nodes[i].children.len() implies nodes[
    #[trigger] nodes[i].children[k]].value.end() < nodes[
    #[trigger] nodes[i].children[l]].value.start() by {
        let fields = kids_of(made_from, top, i);
        assert(!pending(Seq::<Work>::empty(), i));
        assert(partly(nodes, made_from, i, fields, fields.len() as int));
        let ck = nodes[i].children[k];
        let cl = nodes[i].children[l];
        assert(i < ck < nodes.len() && i < cl < nodes.len());
        assert(made_from[ck] == fields[k]);
        assert(made_from[cl] == fields[l]);
        assert(nodes[ck].value == made_from[ck].name());
        assert(nodes[cl].value == made_from[cl].name());
        if i == 0 {
            lemma_items_order(fields, text, at, k, l);
        } else {
            assert(nodes[i].value == made_from[i].name());
            lemma_children_span(made_from[i], text);
            lemma_items_order(fields, text, made_from[i].name().end() + 1, k, l);
        }
    }
}

/// Build the tree of a parsed text.
///
/// The fields at the top go below the root. Fields below other fields
/// are reached through a work list, not by recursion, so the depth of
/// the text costs no call stack.
pub(crate) fn build(fields: &parser::Fields, Ghost(text): Ghost<Seq<u8>>) -> (tree: ego_tree::Tree<
    StrRange,
>)
    requires
        fields.spans(text),
    ensures
        entries_at(arena(tree), text, 0, arena(tree)[0].children) == entries(
            fields.fields_struct.0.0@,
            text,
        ),
        linked(arena(tree)),
        in_source_order(arena(tree)),
        arena(tree)[0].value.start() == 0,
        arena(tree)[0].value.end() == 0,
        forall|i: int|
            1 <= i < arena(tree).len() ==> 0 <= (#[trigger] arena(tree)[i]).value.start()
                < arena(tree)[i].value.end() <= text.len(),
{
    let top = &fields.fields_struct.0.0;
    let mut tree = new_tree(StrRange::between(0, 0));
    let mut stack: Vec<Work> = Vec::new();
    let root = root_id(&tree);
    let ghost at: int = if fields.negation {
        2
    } else {
        1
    };
    let ghost first: Seq<parser::Field> = seq![top@[0]];
    proof {
        assert forall|i: int| 0 <= i < arena(tree).len() && i != 0 implies if #[trigger] pending(
            stack@,
            i,
        ) {
            arena(tree)[i].children.len() == 0
        } else {
            partly(
                arena(tree),
                first,
                i,
                kids_of(first, top@, i),
                kids_of(first, top@, i).len() as int,
            )
        } by {}
        assert(growing(arena(tree), first, stack@, 0, top@, text));
    }
    let Ghost(mut made) = grow(
        &mut tree,
        root,
        top,
        &mut stack,
        Ghost(first),
        Ghost(top@),
        Ghost(text),
    );
    while stack.len() > 0
        invariant
            growing(arena(tree), made, stack@, -1, top@, text),
            arena(tree)[0].value.start() == 0,
            arena(tree)[0].value.end() == 0,
        decreases load(stack@), stack@.len(),
    {
        let ghost before = stack@;
        let ghost nodes = arena(tree);
        let (id, children) = stack.pop().unwrap();
        proof {
            let v = slot(id);
            assert(before[before.len() - 1] == (id, children));
            assert(stack@ =~= before.drop_last());
            assert(pending(before, v));
            assert forall|i: int| 0 <= i < nodes.len() && i != v implies #[trigger] pending(
                stack@,
                i,
            ) == pending(before, i) by {
                if pending(stack@, i) {
                    let j = choose|j: int|
                        0 <= j < stack@.len() && slot(#[trigger] stack@[j].0) == i;
                    assert(stack@[j] == before[j]);
                }
                if pending(before, i) {
                    let j = choose|j: int|
                        0 <= j < before.len() && slot(#[trigger] before[j].0) == i;
                    assert(j < stack@.len());
                    assert(stack@[j] == before[j]);
                }
            }
            if pending(stack@, v) {
                let j = choose|j: int| 0 <= j < stack@.len() && slot(#[trigger] stack@[j].0) == v;
                assert(stack@[j] == before[j]);
                assert(slot(before[j].0) != slot(before[before.len() - 1].0));
            }
            assert forall|j: int| 0 <= j < stack@.len() implies 1 <= slot(
                #[trigger] stack@[j].0,
            ) < nodes.len() && stack@[j].1@ == made[slot(stack@[j].0)].children() by {
                assert(stack@[j] == before[j]);
            }
            assert forall|j1: int, j2: int| 0 <= j1 < j2 < stack@.len() implies slot(
                #[trigger] stack@[j1].0,
            ) != slot(#[trigger] stack@[j2].0) by {
                assert(stack@[j1] == before[j1]);
                assert(stack@[j2] == before[j2]);
            }
            assert(growing(nodes, made, stack@, v, top@, text));
            assert(made[v].spans(text, made[v].name().start()));
            lemma_children_span(made[v], text);
        }
        let Ghost(next) = grow(
            &mut tree,
            id,
            children,
            &mut stack,
            Ghost(made),
            Ghost(top@),
            Ghost(text),
        );
        proof {
            made = next;
        }
    }
    proof {
        assert(stack@ =~= Seq::<Work>::empty());
        lemma_mirror_top(arena(tree), made, top@, text);
        lemma_built_ranges(arena(tree), made, top@, text, at);
    }
    tree
}

} // verus!
