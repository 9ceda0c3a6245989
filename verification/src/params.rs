//! Fields parsed from a filtering string, together with that string.
//!
//! [`Params`] owns its text, and hands out its parameters one at a time
//! through [`Walk`] and [`Children`].

use crate::arena::Node;
use crate::arena::subtree;
use crate::grammar::accepts;
use crate::grammar::DASH;
use crate::grammar::Entry;
use crate::grammar::items_flat;
use crate::grammar::lookup;
use crate::grammar::Selector;
use crate::parser;
use crate::shape::all_fields;
use crate::shape::field_parent;
use crate::shape::found;
use crate::shape::name_at;
use crate::shape::path_of;
use crate::tree::bytes_of;
use crate::tree::Field;
use crate::tree::stand_for;
use crate::tree::Tree;
use crate::tree::views;
use std::borrow::Cow;
use vstd::prelude::*;
use vstd::string::StringSliceAdditionalSpecFns;
use vstd::utf8::encode_utf8;

verus! {

/// Contains fields parsed from a fields filtering string.
pub struct Params {
    tree: Tree<'static>,
}

/// One node in the tree of parameters.
#[derive(Copy, Clone)]
pub struct Param<'p> {
    field: Field<'p>,
}

/// Returned when parsing of a string into a [`Params`] fails.
#[derive(Debug)]
pub struct Error {
    inner: parser::Error,
}

/// Hands out, one at a time, a parameter and all parameters below it, or
/// all parameters of a [`Params`].
pub struct Walk<'p> {
    fields: Vec<Field<'p>>,
    at: usize,
}

/// Hands out, one at a time, the children of a [`Param`], or the
/// parameters at the top of a [`Params`].
pub struct Children<'p> {
    fields: Vec<Field<'p>>,
    at: usize,
}

impl View for Params {
    type V = Selector;

    /// The selector that the parameters denote.
    open spec fn view(&self) -> Selector {
        self.tree()@
    }
}

impl<'p> View for Param<'p> {
    type V = Entry;

    /// The entry that the parameter and the parameters below it denote.
    open spec fn view(&self) -> Entry {
        self.field()@
    }
}

impl Error {
    /// Why the text is not of the grammar.
    pub closed spec fn reason(self) -> parser::Error {
        self.inner
    }

    /// A description of the error for a human reader.
    pub fn to_string(&self) -> (r: String)
        ensures
            r@ == self.reason().text(),
    {
        self.inner.to_string()
    }
}

impl Params {
    /// The tree of the parameters, bound to the text that they own.
    pub closed spec fn tree(self) -> Tree<'static> {
        self.tree
    }

    /// The nodes of the tree, by slot.
    pub open spec fn nodes(self) -> Seq<Node> {
        self.tree().nodes()
    }

    /// The bytes of the text.
    pub open spec fn text(self) -> Seq<u8> {
        self.tree().text()
    }

    /// The selector that the parameters denote.
    pub open spec fn selector(self) -> Selector {
        self.tree().selector()
    }

    /// Attempt to parse `s` and to make a tree of parameters from it.
    fn try_new(s: String) -> (r: Result<Self, Error>)
        ensures
            r is Ok <==> accepts(encode_utf8(s@)),
            r matches Ok(params) ==> {
                &&& params.tree().wf()
                &&& params.text() == encode_utf8(s@)
                &&& params.selector().valid()
                &&& params.selector().text() == params.text()
                &&& params.tree().detached().negated() == (params.text()[0] == DASH)
            },
            r matches Err(error) ==> error.reason().misses(encode_utf8(s@))
                && error.reason().is_outcome_of(encode_utf8(s@)),
    {
        match Tree::parse(Cow::Owned(s)) {
            Ok(tree) => Ok(Params { tree }),
            Err(unparsable) => Err(Error { inner: unparsable.into_ref().into_error() }),
        }
    }

    /// Attempt to parse `value` and to make a tree of parameters from it.
    ///
    /// Succeeds exactly on the texts of the grammar; the parameters then
    /// denote the selector that the text writes out.
    pub fn try_from(value: String) -> (r: Result<Self, Error>)
        ensures
            r is Ok <==> accepts(encode_utf8(value@)),
            r matches Ok(params) ==> {
                &&& params.tree().wf()
                &&& params.text() == encode_utf8(value@)
                &&& params.selector().valid()
                &&& params.selector().text() == params.text()
                &&& params.tree().detached().negated() == (params.text()[0] == DASH)
            },
            r matches Err(error) ==> error.reason().misses(encode_utf8(value@))
                && error.reason().is_outcome_of(encode_utf8(value@)),
    {
        Self::try_new(value)
    }

    /// Whether these parameters should _not_ be included in the filter.
    pub fn negation(&self) -> (r: bool)
        ensures
            r == self.tree().detached().negated(),
    {
        self.tree.negation()
    }

    /// Look up a parameter by its path.
    pub fn index<'p>(&'p self, path: &[&str]) -> (r: Option<Param<'p>>)
        ensures
            match r {
                Some(param) => {
                    &&& param.field().nodes() == self.nodes()
                    &&& param.field().text() == self.text()
                    &&& found(self.nodes(), self.text(), bytes_of(path@)) == Some(
                        param.field().slot(),
                    )
                    &&& lookup(self@.items, bytes_of(path@)) == Some(param@)
                },
                None => {
                    &&& found(self.nodes(), self.text(), bytes_of(path@)) is None
                    &&& lookup(self@.items, bytes_of(path@)) is None
                },
            },
    {
        match self.tree.index(path) {
            Some(field) => Some(Param { field }),
            None => None,
        }
    }

    /// Hand out all parameters, each before its children.
    pub fn walk(&self) -> (r: Walk<'_>)
        ensures
            stand_for(r.rest(), self.nodes(), self.text(), all_fields(self.nodes())),
            views(r.rest()) == items_flat(self@.items),
    {
        let fields = self.tree.walk();
        proof {
            assert(fields@.subrange(0, fields@.len() as int) =~= fields@);
        }
        Walk { fields, at: 0 }
    }

    /// Hand out the top-level [`Param`]s.
    pub fn top(&self) -> (r: Children<'_>)
        ensures
            stand_for(r.rest(), self.nodes(), self.text(), self.nodes()[0].children),
            r.rest().len() == self@.items.len(),
            forall|k: int| 0 <= k < r.rest().len() ==> (#[trigger] r.rest()[k])@ == self@.items[k],
    {
        let fields = self.tree.top();
        proof {
            assert(fields@.subrange(0, fields@.len() as int) =~= fields@);
        }
        Children { fields, at: 0 }
    }
}

impl<'p> Param<'p> {
    /// The field that the parameter is.
    pub closed spec fn field(self) -> Field<'p> {
        self.field
    }

    /// Get the name of this parameter.
    pub fn field_name(self) -> (r: &'p str)
        ensures
            r.spec_bytes() == name_at(
                self.field().nodes(),
                self.field().text(),
                self.field().slot(),
            ),
            r.spec_bytes() == self@.name,
    {
        self.field.name()
    }

    /// Return the parent of this parameter if possible.
    ///
    /// Top-level fields do not have parents.
    pub fn parent(self) -> (r: Option<Param<'p>>)
        ensures
            match r {
                Some(parent) => parent.field().beside(self.field()) && field_parent(
                    self.field().nodes(),
                    self.field().slot(),
                ) == Some(parent.field().slot()),
                None => field_parent(self.field().nodes(), self.field().slot()) is None,
            },
    {
        match self.field.parent() {
            Some(field) => Some(Param { field }),
            None => None,
        }
    }

    /// Hand out this parameter's children (one level).
    pub fn children(self) -> (r: Children<'p>)
        ensures
            stand_for(
                r.rest(),
                self.field().nodes(),
                self.field().text(),
                self.field().nodes()[self.field().slot()].children,
            ),
            r.rest().len() == self@.children.len(),
            forall|k: int|
                0 <= k < r.rest().len() ==> (#[trigger] r.rest()[k])@ == self@.children[k],
    {
        let fields = self.field.children();
        proof {
            assert(fields@.subrange(0, fields@.len() as int) =~= fields@);
        }
        Children { fields, at: 0 }
    }

    /// Hand out this parameter and all parameters below it (all levels).
    pub fn walk(self) -> (r: Walk<'p>)
        ensures
            stand_for(
                r.rest(),
                self.field().nodes(),
                self.field().text(),
                subtree(self.field().nodes(), self.field().slot()),
            ),
            views(r.rest()) == self@.flat(),
    {
        let fields = self.field.walk();
        proof {
            assert(fields@.subrange(0, fields@.len() as int) =~= fields@);
        }
        Walk { fields, at: 0 }
    }

    /// Return the path for this node.
    pub fn path(self) -> (r: Vec<&'p str>)
        ensures
            bytes_of(r@) == path_of(
                self.field().nodes(),
                self.field().text(),
                self.field().slot(),
            ),
    {
        self.field.path()
    }
}

impl<'p> Walk<'p> {
    /// As many fields as there are have been handed out, at most.
    #[verifier::type_invariant]
    spec fn wf(self) -> bool {
        self.at <= self.fields@.len()
    }

    /// The fields that are still to come, in order.
    pub closed spec fn rest(self) -> Seq<Field<'p>> {
        self.fields@.subrange(self.at as int, self.fields@.len() as int)
    }

    /// The next parameter, if one is left.
    pub fn next(&mut self) -> (r: Option<Param<'p>>)
        ensures
            match r {
                Some(param) => {
                    &&& old(self).rest().len() > 0
                    &&& param.field() == old(self).rest()[0]
                    &&& final(self).rest() == old(self).rest().drop_first()
                },
                None => old(self).rest().len() == 0 && final(self).rest() == old(self).rest(),
            },
    {
        proof {
            use_type_invariant(&*self);
        }
        if self.at < self.fields.len() {
            let field = self.fields[self.at];
            self.at += 1;
            proof {
                assert(self.rest() =~= old(self).rest().drop_first());
            }
            Some(Param { field })
        } else {
            None
        }
    }
}

impl<'p> Children<'p> {
    /// As many fields as there are have been handed out, at most.
    #[verifier::type_invariant]
    spec fn wf(self) -> bool {
        self.at <= self.fields@.len()
    }

    /// The fields that are still to come, in order.
    pub closed spec fn rest(self) -> Seq<Field<'p>> {
        self.fields@.subrange(self.at as int, self.fields@.len() as int)
    }

    /// The next parameter, if one is left.
    pub fn next(&mut self) -> (r: Option<Param<'p>>)
        ensures
            match r {
                Some(param) => {
                    &&& old(self).rest().len() > 0
                    &&& param.field() == old(self).rest()[0]
                    &&& final(self).rest() == old(self).rest().drop_first()
                },
                None => old(self).rest().len() == 0 && final(self).rest() == old(self).rest(),
            },
    {
        proof {
            use_type_invariant(&*self);
        }
        if self.at < self.fields.len() {
            let field = self.fields[self.at];
            self.at += 1;
            proof {
                assert(self.rest() =~= old(self).rest().drop_first());
            }
            Some(Param { field })
        } else {
            None
        }
    }
}

} // verus!
