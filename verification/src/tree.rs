//! The tree of fields: built from a parsed text, bound to that text, and
//! walked through [`Field`] cursors.

use crate::arena::arena;
use crate::arena::clone_tree;
use crate::arena::Node;
use crate::arena::node_children;
use crate::arena::node_descendants;
use crate::arena::node_has_children;
use crate::arena::node_parent;
use crate::arena::node_value;
use crate::arena::root_id;
use crate::arena::slot;
use crate::arena::subtree;
use crate::builder::build;
use crate::grammar::accepts;
use crate::grammar::DASH;
use crate::grammar::Entry;
use crate::grammar::is_token_byte;
use crate::grammar::items_flat;
use crate::grammar::leaves_of;
use crate::grammar::lookup;
use crate::grammar::Selector;
use crate::layout::lemma_covered_tokens;
use crate::layout::lemma_covers_is_text;
use crate::parser;
use crate::shape::all_fields;
use crate::shape::childless;
use crate::shape::descend;
use crate::shape::entries_at;
use crate::shape::entries_of;
use crate::shape::entry_at;
use crate::shape::field_parent;
use crate::shape::first_named;
use crate::shape::found;
use crate::shape::holds;
use crate::shape::lemma_all_reached;
use crate::shape::lemma_holds;
use crate::shape::shaped;
use crate::shape::within;
use crate::shape::lemma_childless_entries;
use crate::shape::lemma_descend_lookup;
use crate::shape::lemma_entry_children;
use crate::shape::lemma_forest_flat;
use crate::shape::lemma_forest_within;
use crate::shape::lemma_path_last;
use crate::shape::lemma_subtree_flat;
use crate::shape::lemma_subtree_within;
use crate::shape::name_at;
use crate::shape::path_of;
use crate::str_range::StrRange;
use ego_tree::NodeId;
use std::borrow::Cow;
use vstd::prelude::*;
use vstd::string::StringSliceAdditionalSpecFns;
use vstd::utf8::encode_utf8;
use vstd::utf8::encode_utf8_valid_utf8;
use vstd::utf8::is_char_boundary;
use vstd::utf8::is_char_boundary_iff_not_is_continuation_byte;
use vstd::utf8::is_char_boundary_start_end_of_seq;
use vstd::utf8::is_continuation_byte;
use vstd::utf8::valid_utf8;

verus! {

/// A tree of fields without the text that its ranges point into.
#[derive(Debug)]
pub struct DetachedTree {
    tree: ego_tree::Tree<StrRange>,
    negation: bool,
}

impl DetachedTree {
    /// The nodes of the tree, by slot.
    pub closed spec fn nodes(self) -> Seq<Node> {
        arena(self.tree)
    }

    /// Whether the tree was parsed from a negated text.
    pub closed spec fn negated(self) -> bool {
        self.negation
    }

    /// The tree is shaped as a tree of fields: see [`shaped`].
    #[verifier::type_invariant]
    pub open spec fn wf(self) -> bool {
        shaped(self.nodes())
    }

    /// The tree can be bound to `text`: see [`holds`].
    pub open spec fn fits(self, text: Seq<u8>) -> bool {
        holds(self.nodes(), text)
    }

    /// The selector that the tree denotes when its names are read from
    /// `text`.
    pub open spec fn selector(self, text: Seq<u8>) -> Selector {
        Selector {
            negation: self.negated(),
            items: entries_at(self.nodes(), text, 0, self.nodes()[0].children),
        }
    }
}

/// Contains fields parsed from a filtering string, bound to that string.
pub struct Tree<'buffer> {
    buffer: Cow<'buffer, str>,
    tree: DetachedTree,
}

/// One node in the tree of fields.
#[derive(Clone, Copy)]
pub struct Field<'p> {
    buffer: &'p str,
    tree: &'p ego_tree::Tree<StrRange>,
    id: NodeId,
}

/// Returned when parsing of a string into a [`Tree`] fails.
#[derive(Debug)]
pub struct Unparsable<'buffer> {
    error: parser::Error,
    pub buffer: Cow<'buffer, str>,
}

/// Returned when parsing fails and the text stays with the caller.
#[derive(Debug)]
pub struct UnparsableRef {
    error: parser::Error,
}

impl<'buffer> Unparsable<'buffer> {
    /// The buffer that was handed to the parser, as the error holds it in
    /// its field `buffer`.
    pub closed spec fn kept(self) -> Cow<'buffer, str> {
        self.buffer
    }

    /// Why the text is not of the grammar.
    pub closed spec fn reason(self) -> parser::Error {
        self.error
    }

    /// Give the buffer up and keep the reason.
    pub fn into_ref(self) -> (r: UnparsableRef)
        ensures
            r.reason() == self.reason(),
    {
        UnparsableRef { error: self.error }
    }

    /// Why the text is not of the grammar.
    pub fn error(&self) -> (r: &parser::Error)
        ensures
            *r == self.reason(),
    {
        &self.error
    }

    /// A description of the error for a human reader.
    pub fn to_string(&self) -> (r: String)
        ensures
            r@ == self.reason().text(),
    {
        self.error.to_string()
    }
}

impl UnparsableRef {
    /// Why the text is not of the grammar.
    pub closed spec fn reason(self) -> parser::Error {
        self.error
    }

    /// Give the reason out.
    pub fn into_error(self) -> (r: parser::Error)
        ensures
            r == self.reason(),
    {
        self.error
    }

    /// Why the text is not of the grammar.
    pub fn error(&self) -> (r: &parser::Error)
        ensures
            *r == self.reason(),
    {
        &self.error
    }

    /// A description of the error for a human reader.
    pub fn to_string(&self) -> (r: String)
        ensures
            r@ == self.reason().text(),
    {
        self.error.to_string()
    }
}

impl<'p> View for Field<'p> {
    type V = Entry;

    /// The entry that the field and the fields below it denote.
    open spec fn view(&self) -> Entry {
        entry_at(self.nodes(), self.text(), self.slot())
    }
}

impl<'buffer> View for Tree<'buffer> {
    type V = Selector;

    /// The selector that the tree denotes.
    open spec fn view(&self) -> Selector {
        self.selector()
    }
}

/// The string that a borrowed or owned buffer holds.
fn as_str<'a, 'b>(buffer: &'a Cow<'b, str>) -> (r: &'a str)
    ensures
        r@ == buffer@,
{
    match buffer {
        Cow::Borrowed(borrowed) => borrowed,
        Cow::Owned(owned) => owned.as_str(),
    }
}

/// The fields of the sequence are, one for one, the nodes at `slots` of the
/// tree with these nodes, bound to this text.
pub open spec fn stand_for(fields: Seq<Field>, nodes: Seq<Node>, text: Seq<u8>, slots: Seq<int>)
    -> bool {
    &&& fields.len() == slots.len()
    &&& forall|k: int|
        0 <= k < fields.len() ==> {
            &&& (#[trigger] fields[k]).nodes() == nodes
            &&& fields[k].text() == text
            &&& fields[k].slot() == slots[k]
        }
}

/// The entries that the fields denote, one for one.
pub open spec fn views(fields: Seq<Field>) -> Seq<Entry> {
    fields.map_values(|field: Field| field@)
}

/// Fields that stand for nodes denote the entries of those nodes.
pub proof fn lemma_views(fields: Seq<Field>, nodes: Seq<Node>, text: Seq<u8>, slots: Seq<int>)
    requires
        stand_for(fields, nodes, text, slots),
    ensures
        views(fields) == entries_of(nodes, text, slots),
{
    assert(views(fields) =~= entries_of(nodes, text, slots));
}

/// The bytes of each of the strings.
pub open spec fn bytes_of(names: Seq<&str>) -> Seq<Seq<u8>> {
    names.map_values(|name: &str| name.spec_bytes())
}

/// The fields of a tree that the ids designate, in the same order.
fn fields_of<'p>(buffer: &'p str, tree: &'p ego_tree::Tree<StrRange>, ids: &Vec<NodeId>) -> (r: Vec<
    Field<'p>,
>)
    requires
        holds(arena(*tree), buffer.spec_bytes()),
        forall|k: int| 0 <= k < ids@.len() ==> 1 <= slot(#[trigger] ids@[k]) < arena(*tree).len(),
    ensures
        stand_for(
            r@,
            arena(*tree),
            buffer.spec_bytes(),
            ids@.map_values(|id: NodeId| slot(id)),
        ),
{
    let mut fields: Vec<Field<'p>> = Vec::new();
    let mut k: usize = 0;
    while k < ids.len()
        invariant
            0 <= k <= ids@.len(),
            holds(arena(*tree), buffer.spec_bytes()),
            forall|j: int|
                0 <= j < ids@.len() ==> 1 <= slot(#[trigger] ids@[j]) < arena(*tree).len(),
            fields@.len() == k,
            forall|j: int|
                0 <= j < k ==> {
                    &&& (#[trigger] fields@[j]).nodes() == arena(*tree)
                    &&& fields@[j].text() == buffer.spec_bytes()
                    &&& fields@[j].slot() == slot(ids@[j])
                },
        decreases ids@.len() - k,
    {
        fields.push(Field { buffer, tree, id: ids[k] });
        k += 1;
    }
    fields
}

/// The same items in the opposite order.
pub fn reversed<T: Copy>(items: &Vec<T>) -> (r: Vec<T>)
    ensures
        r@ == items@.reverse(),
{
    let mut out: Vec<T> = Vec::new();
    let mut k: usize = items.len();
    while k > 0
        invariant
            0 <= k <= items@.len(),
            out@.len() == items@.len() - k,
            forall|j: int| 0 <= j < out@.len() ==> out@[j] == items@[items@.len() - 1 - j],
        decreases k,
    {
        k -= 1;
        out.push(items[k]);
    }
    proof {
        assert(out@ =~= items@.reverse());
    }
    out
}

/// Whether the bytes of `text` from `start` up to `end` are those of `name`.
pub fn range_is(text: &[u8], start: usize, end: usize, name: &[u8]) -> (r: bool)
    requires
        start <= end <= text@.len(),
    ensures
        r == (text@.subrange(start as int, end as int) == name@),
{
    if end - start != name.len() {
        return false;
    }
    let mut k: usize = 0;
    while k < name.len()
        invariant
            0 <= k <= name@.len(),
            start <= end <= text@.len(),
            end - start == name@.len(),
            forall|j: int| 0 <= j < k ==> text@[start + j] == name@[j],
        decreases name@.len() - k,
    {
        if text[start + k] != name[k] {
            proof {
                assert(text@.subrange(start as int, end as int)[k as int] == text@[start + k]);
            }
            return false;
        }
        k += 1;
    }
    proof {
        assert(text@.subrange(start as int, end as int) =~= name@);
    }
    true
}

impl<'p> Field<'p> {
    /// The nodes of the tree that the field belongs to.
    pub closed spec fn nodes(self) -> Seq<Node> {
        arena(*self.tree)
    }

    /// The bytes of the text that the tree is bound to.
    pub closed spec fn text(self) -> Seq<u8> {
        self.buffer.spec_bytes()
    }

    /// The slot of the field's node.
    pub closed spec fn slot(self) -> int {
        slot(self.id)
    }

    /// The field is a node, other than the root, of a tree that holds in
    /// its text.
    #[verifier::type_invariant]
    pub open spec fn wf(self) -> bool {
        &&& holds(self.nodes(), self.text())
        &&& 1 <= self.slot() < self.nodes().len()
    }

    /// Both fields belong to the same tree and text.
    pub open spec fn beside(self, other: Field) -> bool {
        &&& self.nodes() == other.nodes()
        &&& self.text() == other.text()
    }

    /// Get the field name.
    pub fn name(&self) -> (r: &'p str)
        ensures
            r.spec_bytes() == name_at(self.nodes(), self.text(), self.slot()),
            r.spec_bytes() == self@.name,
    {
        proof {
            use_type_invariant(self);
        }
        let range = node_value(self.tree, self.id);
        range.resolve(self.buffer)
    }

    /// Return true if this field has children.
    pub fn has_children(&self) -> (r: bool)
        ensures
            r == (self.nodes()[self.slot()].children.len() > 0),
            r == (self@.children.len() > 0),
    {
        proof {
            use_type_invariant(self);
            lemma_entry_children(self.nodes(), self.text(), self.slot());
        }
        node_has_children(self.tree, self.id)
    }

    /// Return the parent of this field if possible.
    ///
    /// Top-level fields do not have parents.
    pub fn parent(&self) -> (r: Option<Field<'p>>)
        ensures
            match r {
                Some(parent) => parent.beside(*self) && field_parent(self.nodes(), self.slot())
                    == Some(parent.slot()),
                None => field_parent(self.nodes(), self.slot()) is None,
            },
    {
        proof {
            use_type_invariant(self);
        }
        match node_parent(self.tree, self.id) {
            Some(parent) => {
                // Field names are at least one byte long, so only the root,
                // which is not a field, holds an empty range.
                if node_value(self.tree, parent).is_empty() {
                    None
                } else {
                    Some(Field { buffer: self.buffer, tree: self.tree, id: parent })
                }
            },
            None => None,
        }
    }

    /// This field's children, one level down, from first to last.
    pub fn children(&self) -> (r: Vec<Field<'p>>)
        ensures
            stand_for(r@, self.nodes(), self.text(), self.nodes()[self.slot()].children),
            r@.len() == self@.children.len(),
            forall|k: int| 0 <= k < r@.len() ==> (#[trigger] r@[k])@ == self@.children[k],
    {
        proof {
            use_type_invariant(self);
            lemma_entry_children(self.nodes(), self.text(), self.slot());
        }
        let ids = node_children(self.tree, self.id);
        proof {
            let kids = self.nodes()[self.slot()].children;
            assert forall|k: int| 0 <= k < ids@.len() implies 1 <= slot(#[trigger] ids@[k])
                < arena(*self.tree).len() by {
                assert(ids@.map_values(|id: NodeId| slot(id))[k] == slot(ids@[k]));
                assert(self.slot() < kids[k] < self.nodes().len());
            }
        }
        fields_of(self.buffer, self.tree, &ids)
    }

    /// This field and all fields below it, each before its children.
    pub fn walk(&self) -> (r: Vec<Field<'p>>)
        ensures
            stand_for(r@, self.nodes(), self.text(), subtree(self.nodes(), self.slot())),
            views(r@) == self@.flat(),
    {
        proof {
            use_type_invariant(self);
            lemma_subtree_flat(self.nodes(), self.text(), self.slot());
        }
        let ids = node_descendants(self.tree, self.id);
        proof {
            lemma_subtree_within(self.nodes(), self.slot());
            assert forall|k: int| 0 <= k < ids@.len() implies 1 <= slot(#[trigger] ids@[k])
                < arena(*self.tree).len() by {
                assert(ids@.map_values(|id: NodeId| slot(id))[k] == slot(ids@[k]));
                assert(self.slot() <= subtree(self.nodes(), self.slot())[k] < self.nodes().len());
            }
        }
        let fields = fields_of(self.buffer, self.tree, &ids);
        proof {
            lemma_views(fields@, self.nodes(), self.text(), subtree(self.nodes(), self.slot()));
        }
        fields
    }

    /// Return the path for this node: the names from the top of the tree
    /// down to this field, its own name last.
    pub fn path(&self) -> (r: Vec<&'p str>)
        ensures
            bytes_of(r@) == path_of(self.nodes(), self.text(), self.slot()),
    {
        proof {
            use_type_invariant(self);
        }
        let ghost nodes = self.nodes();
        let ghost text = self.text();
        let mut path_list: Vec<&'p str> = Vec::new();
        path_list.push(self.name());
        let mut current = *self;
        proof {
            assert(bytes_of(path_list@) =~= seq![name_at(nodes, text, self.slot())]);
            lemma_path_last(nodes, text, self.slot());
            assert(path_of(nodes, text, self.slot()).drop_last() + bytes_of(path_list@).reverse()
                =~= path_of(nodes, text, self.slot()));
        }
        loop
            invariant
                current.nodes() == nodes,
                current.text() == text,
                nodes == self.nodes(),
                text == self.text(),
                path_list@.len() > 0,
                path_of(nodes, text, current.slot()).drop_last() + bytes_of(path_list@).reverse()
                    == path_of(nodes, text, self.slot()),
            ensures
                bytes_of(path_list@).reverse() == path_of(nodes, text, self.slot()),
            decreases current.slot(),
        {
            proof {
                use_type_invariant(&current);
            }
            match current.parent() {
                Some(parent) => {
                    proof {
                        use_type_invariant(&parent);
                    }
                    let ghost before = path_list@;
                    path_list.push(parent.name());
                    proof {
                        lemma_path_last(nodes, text, parent.slot());
                        let up = path_of(nodes, text, parent.slot());
                        assert(path_of(nodes, text, current.slot()) == up.push(
                            name_at(nodes, text, current.slot()),
                        ));
                        assert(path_of(nodes, text, current.slot()).drop_last() =~= up);
                        assert(bytes_of(path_list@) =~= bytes_of(before).push(
                            name_at(nodes, text, parent.slot()),
                        ));
                        assert(bytes_of(path_list@).reverse() =~= seq![
                            name_at(nodes, text, parent.slot()),
                        ] + bytes_of(before).reverse());
                        assert(up =~= up.drop_last() + seq![name_at(nodes, text, parent.slot())]);
                        assert(up.drop_last() + bytes_of(path_list@).reverse() =~= up + bytes_of(
                            before,
                        ).reverse());
                    }
                    current = parent;
                },
                None => {
                    proof {
                        assert(path_of(nodes, text, current.slot()).drop_last() =~= Seq::<
                            Seq<u8>,
                        >::empty());
                        assert(path_of(nodes, text, current.slot()).drop_last() + bytes_of(
                            path_list@,
                        ).reverse() =~= bytes_of(path_list@).reverse());
                    }
                    break ;
                },
            }
        }
        let path = reversed(&path_list);
        proof {
            assert(bytes_of(path@) =~= bytes_of(path_list@).reverse());
        }
        path
    }
}

/// The first of the nodes `kids` whose name in `text` is `name`.
fn find_named(
    text: &[u8],
    tree: &ego_tree::Tree<StrRange>,
    kids: &Vec<NodeId>,
    name: &[u8],
) -> (r: Option<NodeId>)
    requires
        holds(arena(*tree), text@),
        forall|k: int| 0 <= k < kids@.len() ==> 1 <= slot(#[trigger] kids@[k]) < arena(*tree).len(),
    ensures
        match r {
            Some(id) => first_named(
                arena(*tree),
                text@,
                kids@.map_values(|id: NodeId| slot(id)),
                name@,
            ) == Some(slot(id)) && 1 <= slot(id) < arena(*tree).len(),
            None => first_named(
                arena(*tree),
                text@,
                kids@.map_values(|id: NodeId| slot(id)),
                name@,
            ) is None,
        },
{
    let ghost slots = kids@.map_values(|id: NodeId| slot(id));
    let mut k: usize = 0;
    proof {
        assert(slots.subrange(0, slots.len() as int) =~= slots);
    }
    while k < kids.len()
        invariant
            0 <= k <= kids@.len(),
            holds(arena(*tree), text@),
            slots == kids@.map_values(|id: NodeId| slot(id)),
            forall|j: int|
                0 <= j < kids@.len() ==> 1 <= slot(#[trigger] kids@[j]) < arena(*tree).len(),
            first_named(arena(*tree), text@, slots, name@) == first_named(
                arena(*tree),
                text@,
                slots.subrange(k as int, slots.len() as int),
                name@,
            ),
        decreases kids@.len() - k,
    {
        let range = node_value(tree, kids[k]);
        let ghost rest = slots.subrange(k as int, slots.len() as int);
        proof {
            assert(rest[0] == slot(kids@[k as int]));
            assert(rest.drop_first() =~= slots.subrange(k + 1, slots.len() as int));
            assert(arena(*tree)[slot(kids@[k as int])].value == range);
        }
        let found = {
            let at = range.range();
            range_is(text, at.start, at.end, name)
        };
        if found {
            return Some(kids[k]);
        }
        k += 1;
    }
    None
}

impl DetachedTree {
    /// Bind the tree to a string buffer, which allows walking and
    /// looking up.
    ///
    /// The tree has to fit the buffer, as it does the text it was parsed
    /// from: every range of the tree must lie in the buffer, between two
    /// characters. With another text that it fits, the fields bear other
    /// names.
    pub fn attach<'buffer>(self, buffer: Cow<'buffer, str>) -> (r: Tree<'buffer>)
        requires
            self.fits(encode_utf8(buffer@)),
        ensures
            r.buffer() == buffer,
            r.detached() == self,
    {
        Tree { buffer, tree: self }
    }

    /// Whether the tree can be bound to `buffer`: whether every range of
    /// the tree lies in the buffer, between two characters.
    pub fn fits_in(&self, buffer: &str) -> (r: bool)
        ensures
            r == self.fits(buffer.spec_bytes()),
    {
        broadcast use encode_utf8_valid_utf8;

        proof {
            use_type_invariant(self);
            lemma_holds(self.nodes(), buffer.spec_bytes());
        }
        let root = root_id(&self.tree);
        let ids = node_descendants(&self.tree, root);
        let ghost nodes = self.nodes();
        let ghost text = buffer.spec_bytes();
        let ghost slots = subtree(nodes, 0);
        proof {
            lemma_subtree_within(nodes, 0);
            assert forall|j: int| 0 <= j < ids@.len() implies slot(#[trigger] ids@[j])
                == slots[j] by {
                assert(ids@.map_values(|id: NodeId| slot(id))[j] == slot(ids@[j]));
            }
        }
        let mut k: usize = 0;
        while k < ids.len()
            invariant
                0 <= k <= ids@.len(),
                nodes == arena(self.tree),
                text == buffer.spec_bytes(),
                valid_utf8(text),
                self.fits(text) <==> within(nodes, text),
                slots == subtree(nodes, 0),
                ids@.len() == slots.len(),
                forall|j: int| 0 <= j < ids@.len() ==> slot(#[trigger] ids@[j]) == slots[j],
                forall|j: int| 0 <= j < slots.len() ==> 0 <= #[trigger] slots[j] < nodes.len(),
                forall|j: int|
                    0 <= j < k ==> {
                        &&& nodes[#[trigger] slots[j]].value.end() <= text.len()
                        &&& is_char_boundary(text, nodes[slots[j]].value.start())
                        &&& is_char_boundary(text, nodes[slots[j]].value.end())
                    },
            decreases ids@.len() - k,
        {
            let range = node_value(&self.tree, ids[k]);
            let at = range.range();
            proof {
                assert(slot(ids@[k as int]) == slots[k as int]);
                assert(range == nodes[slots[k as int]].value);
            }
            let inside = at.end <= buffer.as_bytes().len();
            let starts = buffer.is_char_boundary(at.start);
            let ends = buffer.is_char_boundary(at.end);
            proof {
                let i = slots[k as int];
                assert(inside == (nodes[i].value.end() <= text.len()));
                assert(starts == is_char_boundary(text, nodes[i].value.start()));
                assert(ends == is_char_boundary(text, nodes[i].value.end()));
            }
            if !(inside && starts && ends) {
                return false;
            }
            k += 1;
        }
        proof {
            assert forall|i: int| 0 <= i < nodes.len() implies {
                &&& (#[trigger] nodes[i]).value.end() <= text.len()
                &&& is_char_boundary(text, nodes[i].value.start())
                &&& is_char_boundary(text, nodes[i].value.end())
            } by {
                lemma_all_reached(nodes, i);
                let j = choose|j: int| 0 <= j < slots.len() && slots[j] == i;
                assert(nodes[slots[j]].value.end() <= text.len());
            }
        }
        true
    }

    /// Bind the tree to `buffer` if it fits the buffer; else hand both
    /// back.
    pub fn try_attach<'buffer>(self, buffer: Cow<'buffer, str>) -> (r: Result<
        Tree<'buffer>,
        (DetachedTree, Cow<'buffer, str>),
    >)
        ensures
            r is Ok <==> self.fits(encode_utf8(buffer@)),
            r matches Ok(tree) ==> tree.buffer() == buffer && tree.detached() == self,
            r matches Err(back) ==> back.0 == self && back.1 == buffer,
    {
        if self.fits_in(as_str(&buffer)) {
            Ok(self.attach(buffer))
        } else {
            Err((self, buffer))
        }
    }

    /// See [`Tree::negation`].
    pub fn negation(&self) -> (r: bool)
        ensures
            r == self.negated(),
    {
        self.negation
    }

    /// See [`Tree::index`].
    pub fn index<'string>(&'string self, s: &'string str, path: &[&str]) -> (r: Option<
        Field<'string>,
    >)
        requires
            self.fits(s.spec_bytes()),
        ensures
            match r {
                Some(field) => {
                    &&& field.nodes() == self.nodes()
                    &&& field.text() == s.spec_bytes()
                    &&& found(self.nodes(), s.spec_bytes(), bytes_of(path@)) == Some(field.slot())
                },
                None => found(self.nodes(), s.spec_bytes(), bytes_of(path@)) is None,
            },
    {
        let text = s.as_bytes();
        let ghost names = bytes_of(path@);
        let mut id = root_id(&self.tree);
        let mut k: usize = 0;
        proof {
            assert(names.subrange(0, names.len() as int) =~= names);
        }
        while k < path.len()
            invariant
                0 <= k <= path@.len(),
                text@ == s.spec_bytes(),
                names == bytes_of(path@),
                holds(arena(self.tree), text@),
                0 <= slot(id) < arena(self.tree).len(),
                k > 0 ==> slot(id) >= 1,
                descend(arena(self.tree), text@, 0, names) == descend(
                    arena(self.tree),
                    text@,
                    slot(id),
                    names.subrange(k as int, names.len() as int),
                ),
            decreases path@.len() - k,
        {
            let kids = node_children(&self.tree, id);
            let ghost rest = names.subrange(k as int, names.len() as int);
            proof {
                let slots = arena(self.tree)[slot(id)].children;
                assert forall|j: int| 0 <= j < kids@.len() implies 1 <= slot(#[trigger] kids@[j])
                    < arena(self.tree).len() by {
                    assert(kids@.map_values(|id: NodeId| slot(id))[j] == slot(kids@[j]));
                    assert(slot(id) < slots[j] < arena(self.tree).len());
                }
                assert(rest[0] == path@[k as int].spec_bytes());
                assert(rest.drop_first() =~= names.subrange(k + 1, names.len() as int));
            }
            match find_named(text, &self.tree, &kids, path[k].as_bytes()) {
                Some(child) => {
                    id = child;
                },
                None => {
                    return None;
                },
            }
            k += 1;
        }
        if k == 0 {
            // The root is not a field.
            None
        } else {
            Some(Field { buffer: s, tree: &self.tree, id })
        }
    }

    /// See [`Tree::walk`].
    pub fn walk<'string>(&'string self, s: &'string str) -> (r: Vec<Field<'string>>)
        requires
            self.fits(s.spec_bytes()),
        ensures
            stand_for(r@, self.nodes(), s.spec_bytes(), all_fields(self.nodes())),
    {
        let root = root_id(&self.tree);
        let ids = node_descendants(&self.tree, root);
        let ghost nodes = arena(self.tree);
        let ghost slots = subtree(nodes, 0);
        let mut fields: Vec<Field<'string>> = Vec::new();
        let mut k: usize = 0;
        proof {
            lemma_subtree_within(nodes, 0);
            assert forall|j: int| 0 <= j < nodes[0].children.len() implies 0
                < #[trigger] nodes[0].children[j] < nodes.len() by {}
            lemma_forest_within(nodes, 0, nodes[0].children);
            assert forall|j: int| 0 <= j < ids@.len() implies slot(#[trigger] ids@[j])
                == slots[j] by {
                assert(ids@.map_values(|id: NodeId| slot(id))[j] == slot(ids@[j]));
            }
            assert forall|j: int| 1 <= j < slots.len() implies #[trigger] slots[j] >= 1 by {
                assert(slots[j] == all_fields(nodes)[j - 1]);
            }
        }
        while k < ids.len()
            invariant
                0 <= k <= ids@.len(),
                nodes == arena(self.tree),
                slots == subtree(nodes, 0),
                ids@.len() == slots.len(),
                slots.len() >= 1,
                slots[0] == 0,
                holds(nodes, s.spec_bytes()),
                forall|j: int| 0 <= j < ids@.len() ==> slot(#[trigger] ids@[j]) == slots[j],
                forall|j: int| 0 <= j < slots.len() ==> 0 <= #[trigger] slots[j] < nodes.len(),
                forall|j: int| 1 <= j < slots.len() ==> #[trigger] slots[j] >= 1,
                fields@.len() == (if k == 0 {
                    0
                } else {
                    k - 1
                }),
                forall|j: int|
                    0 <= j < fields@.len() ==> {
                        &&& (#[trigger] fields@[j]).nodes() == nodes
                        &&& fields@[j].text() == s.spec_bytes()
                        &&& fields@[j].slot() == slots[j + 1]
                    },
            decreases ids@.len() - k,
        {
            let id = ids[k];
            // The root is no field: it alone holds an empty range.
            if !node_value(&self.tree, id).is_empty() {
                proof {
                    assert(slot(id) == slots[k as int]);
                    assert(nodes[0].value.start() >= nodes[0].value.end());
                }
                fields.push(Field { buffer: s, tree: &self.tree, id });
            } else {
                proof {
                    if k > 0 {
                        assert(slots[k as int] >= 1);
                        let range = nodes[slots[k as int]].value;
                        assert(range.start() < range.end());
                    }
                }
            }
            k += 1;
        }
        proof {
            assert(all_fields(nodes) =~= slots.subrange(1, slots.len() as int));
        }
        fields
    }

    /// See [`Tree::top`].
    pub fn top<'string>(&'string self, s: &'string str) -> (r: Vec<Field<'string>>)
        requires
            self.fits(s.spec_bytes()),
        ensures
            stand_for(r@, self.nodes(), s.spec_bytes(), self.nodes()[0].children),
    {
        let root = root_id(&self.tree);
        let ids = node_children(&self.tree, root);
        proof {
            let kids = self.nodes()[0].children;
            assert forall|k: int| 0 <= k < ids@.len() implies 1 <= slot(#[trigger] ids@[k])
                < arena(self.tree).len() by {
                assert(ids@.map_values(|id: NodeId| slot(id))[k] == slot(ids@[k]));
                assert(0 < kids[k] < self.nodes().len());
            }
        }
        fields_of(s, &self.tree, &ids)
    }

    /// See [`Tree::leaves`].
    pub fn leaves<'string>(&'string self, s: &'string str) -> (r: Vec<Field<'string>>)
        requires
            self.fits(s.spec_bytes()),
        ensures
            stand_for(
                r@,
                self.nodes(),
                s.spec_bytes(),
                childless(self.nodes(), all_fields(self.nodes())),
            ),
    {
        let all = self.walk(s);
        let ghost nodes = self.nodes();
        let ghost slots = all_fields(nodes);
        let mut fields: Vec<Field<'string>> = Vec::new();
        let mut k: usize = 0;
        proof {
            assert(slots.subrange(0, 0) =~= Seq::<int>::empty());
        }
        while k < all.len()
            invariant
                0 <= k <= all@.len(),
                nodes == self.nodes(),
                slots == all_fields(nodes),
                stand_for(all@, nodes, s.spec_bytes(), slots),
                stand_for(
                    fields@,
                    nodes,
                    s.spec_bytes(),
                    childless(nodes, slots.subrange(0, k as int)),
                ),
            decreases all@.len() - k,
        {
            let field = all[k];
            proof {
                let upto = slots.subrange(0, k + 1);
                assert(upto.drop_last() =~= slots.subrange(0, k as int));
                assert(upto.last() == slots[k as int]);
                assert(field.slot() == slots[k as int]);
                reveal(Seq::filter);
            }
            if !field.has_children() {
                fields.push(field);
            }
            k += 1;
        }
        proof {
            assert(slots.subrange(0, slots.len() as int) =~= slots);
        }
        fields
    }
}

impl<'buffer> Tree<'buffer> {
    /// The buffer that the tree is bound to.
    pub closed spec fn buffer(self) -> Cow<'buffer, str> {
        self.buffer
    }

    /// The tree without its buffer.
    pub closed spec fn detached(self) -> DetachedTree {
        self.tree
    }

    /// The bytes of the text that the tree is bound to.
    pub open spec fn text(self) -> Seq<u8> {
        encode_utf8(self.buffer()@)
    }

    /// The nodes of the tree, by slot.
    pub open spec fn nodes(self) -> Seq<Node> {
        self.detached().nodes()
    }

    /// The tree holds in its text: see [`holds`].
    #[verifier::type_invariant]
    pub open spec fn wf(self) -> bool {
        holds(self.nodes(), self.text())
    }

    /// The selector that the tree denotes.
    pub open spec fn selector(self) -> Selector {
        self.detached().selector(self.text())
    }

    /// Detach the buffer from the parsed structure.
    ///
    /// Should rarely be needed. Can be [attached](DetachedTree::attach)
    /// again.
    pub fn detach(self) -> (r: (Cow<'buffer, str>, DetachedTree))
        ensures
            r.0 == self.buffer(),
            r.1 == self.detached(),
            r.1.fits(encode_utf8(r.0@)),
    {
        proof {
            use_type_invariant(&self);
        }
        (self.buffer, self.tree)
    }

    /// Attempt to parse `s` into a tree of [`Field`]s.
    ///
    /// Returns a [`Tree`] which binds the buffer to the parsed structure.
    /// Succeeds exactly on the texts of the grammar; the tree then denotes a
    /// selector that covers the text. On failure the buffer comes back in
    /// the error.
    pub fn parse(s: Cow<'buffer, str>) -> (r: Result<Tree<'buffer>, Unparsable<'buffer>>)
        ensures
            r is Ok <==> accepts(encode_utf8(s@)),
            r matches Ok(tree) ==> {
                &&& tree.buffer() == s
                &&& tree.wf()
                &&& tree.selector().valid()
                &&& tree.selector().text() == tree.text()
                &&& tree.detached().negated() == (tree.text()[0] == DASH)
            },
            r matches Err(unparsable) ==> {
                &&& unparsable.kept() == s
                &&& unparsable.reason().misses(encode_utf8(s@))
                &&& unparsable.reason().is_outcome_of(encode_utf8(s@))
            },
    {
        let detached = Tree::parse_detached(as_str(&s));
        match detached {
            Ok(detached) => Ok(detached.attach(s)),
            Err(unparsable) => {
                let error = unparsable.error;
                Err(Unparsable { error, buffer: s })
            },
        }
    }

    /// Clones the buffer if needed to produce an owned `Tree`.
    pub fn into_owned(self) -> (r: Tree<'static>)
        ensures
            r.buffer()@ == self.buffer()@,
            r.buffer() is Owned,
            r.detached() == self.detached(),
    {
        proof {
            use_type_invariant(&self);
        }
        let Tree { buffer, tree } = self;
        let buffer = match buffer {
            Cow::Borrowed(borrowed) => borrowed.to_owned(),
            Cow::Owned(owned) => owned,
        };
        Tree { tree, buffer: Cow::Owned(buffer) }
    }

    /// Retrieve the parsed buffer.
    pub fn free(self) -> (r: Cow<'buffer, str>)
        ensures
            r == self.buffer(),
    {
        self.detach().0
    }
}

impl Tree<'_> {
    /// Attempt to parse `s` into a tree of [`Field`]s.
    ///
    /// Returns a [`DetachedTree`] which is not linked to the parsed string.
    /// In most cases, prefer [`parse`](Self::parse).
    pub fn parse_detached<'a>(s: &'a str) -> (r: Result<DetachedTree, Unparsable<'a>>)
        ensures
            r is Ok <==> accepts(s.spec_bytes()),
            r matches Ok(tree) ==> {
                &&& tree.fits(s.spec_bytes())
                &&& tree.selector(s.spec_bytes()).valid()
                &&& tree.selector(s.spec_bytes()).text() == s.spec_bytes()
                &&& tree.negated() == (s.spec_bytes()[0] == DASH)
            },
            r matches Err(unparsable) ==> {
                &&& unparsable.kept() == Cow::<str>::Borrowed(s)
                &&& unparsable.reason().misses(s.spec_bytes())
                &&& unparsable.reason().is_outcome_of(s.spec_bytes())
            },
    {
        let fields = match parser::Fields::try_from(s) {
            Ok(fields) => fields,
            Err(error) => {
                return Err(Unparsable { error, buffer: Cow::Borrowed(s) });
            },
        };
        let tree = build(&fields, Ghost(s.spec_bytes()));
        proof {
            broadcast use {
                encode_utf8_valid_utf8,
                is_char_boundary_start_end_of_seq,
                is_char_boundary_iff_not_is_continuation_byte,
            };

            let text = s.spec_bytes();
            lemma_covers_is_text(fields.selector(text), text);
            lemma_covered_tokens(fields.selector(text), text);
            assert(valid_utf8(text));
            assert forall|i: int| 0 <= i <= text.len() implies is_char_boundary(text, i) by {
                if i < text.len() {
                    assert(is_token_byte(text[i]));
                    assert(!is_continuation_byte(text[i]));
                }
            }
        }
        Ok(DetachedTree { tree, negation: fields.negation })
    }

    /// Whether these fields should represent a denylist rather than an
    /// allowlist.
    pub fn negation(&self) -> (r: bool)
        ensures
            r == self.detached().negated(),
    {
        self.tree.negation()
    }

    /// Look up a field by its path.
    ///
    /// The way goes from the top of the tree downwards, at each step to
    /// the first field that bears the next name of the path. Where no
    /// field bears it, there is no such field. The empty path names no
    /// field.
    pub fn index(&self, path: &[&str]) -> (r: Option<Field<'_>>)
        ensures
            match r {
                Some(field) => {
                    &&& field.nodes() == self.nodes()
                    &&& field.text() == self.text()
                    &&& found(self.nodes(), self.text(), bytes_of(path@)) == Some(field.slot())
                    &&& lookup(self@.items, bytes_of(path@)) == Some(field@)
                },
                None => {
                    &&& found(self.nodes(), self.text(), bytes_of(path@)) is None
                    &&& lookup(self@.items, bytes_of(path@)) is None
                },
            },
    {
        proof {
            use_type_invariant(self);
            if path@.len() > 0 {
                lemma_descend_lookup(self.nodes(), self.text(), 0, bytes_of(path@));
                lemma_entry_children(self.nodes(), self.text(), 0);
            }
        }
        self.tree.index(as_str(&self.buffer), path)
    }

    /// All fields, each before its children, the children from first to
    /// last.
    pub fn walk(&self) -> (r: Vec<Field<'_>>)
        ensures
            stand_for(r@, self.nodes(), self.text(), all_fields(self.nodes())),
            views(r@) == items_flat(self@.items),
    {
        proof {
            use_type_invariant(self);
        }
        let fields = self.tree.walk(as_str(&self.buffer));
        proof {
            let nodes = self.nodes();
            assert forall|k: int| 0 <= k < nodes[0].children.len() implies 0
                < #[trigger] nodes[0].children[k] < nodes.len() by {}
            lemma_forest_flat(nodes, self.text(), 0, nodes[0].children);
            lemma_views(fields@, nodes, self.text(), all_fields(nodes));
        }
        fields
    }

    /// The top-level [`Field`]s, from first to last.
    pub fn top(&self) -> (r: Vec<Field<'_>>)
        ensures
            stand_for(r@, self.nodes(), self.text(), self.nodes()[0].children),
            r@.len() == self@.items.len(),
            forall|k: int| 0 <= k < r@.len() ==> (#[trigger] r@[k])@ == self@.items[k],
    {
        proof {
            use_type_invariant(self);
            lemma_entry_children(self.nodes(), self.text(), 0);
        }
        self.tree.top(as_str(&self.buffer))
    }

    /// The [`Field`]s that are leaves in the tree (i.e., fields that do not
    /// have any children), in the order of [`walk`](Self::walk).
    pub fn leaves(&self) -> (r: Vec<Field<'_>>)
        ensures
            stand_for(
                r@,
                self.nodes(),
                self.text(),
                childless(self.nodes(), all_fields(self.nodes())),
            ),
            views(r@) == leaves_of(items_flat(self@.items)),
    {
        proof {
            use_type_invariant(self);
        }
        let fields = self.tree.leaves(as_str(&self.buffer));
        proof {
            let nodes = self.nodes();
            let all = all_fields(nodes);
            assert forall|k: int| 0 <= k < nodes[0].children.len() implies 0
                < #[trigger] nodes[0].children[k] < nodes.len() by {}
            lemma_forest_flat(nodes, self.text(), 0, nodes[0].children);
            lemma_forest_within(nodes, 0, nodes[0].children);
            lemma_childless_entries(nodes, self.text(), all);
            lemma_views(fields@, nodes, self.text(), childless(nodes, all));
        }
        fields
    }
}

impl Clone for DetachedTree {
    fn clone(&self) -> (r: Self)
        ensures
            r.nodes() == self.nodes(),
            r.negated() == self.negated(),
    {
        proof {
            use_type_invariant(self);
        }
        DetachedTree { tree: clone_tree(&self.tree), negation: self.negation }
    }
}

impl<'buffer> Clone for Tree<'buffer> {
    fn clone(&self) -> (r: Self)
        ensures
            r.buffer() == self.buffer(),
            r.nodes() == self.nodes(),
            r.detached().negated() == self.detached().negated(),
    {
        proof {
            use_type_invariant(self);
        }
        let buffer = match &self.buffer {
            Cow::Borrowed(borrowed) => Cow::Borrowed(*borrowed),
            Cow::Owned(owned) => Cow::Owned(owned.clone()),
        };
        Tree { buffer, tree: self.tree.clone() }
    }
}

} // verus!
