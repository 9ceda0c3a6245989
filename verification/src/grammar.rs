//! The grammar of field selectors, as a mathematical model.
//!
//! ```text
//! fields        := ["-"] fields_struct
//! fields_struct := "(" field ("," field)* ")"
//! field         := field_name [fields_struct]
//! field_name    := (letter | digit | "-" | "_")+
//! ```
//!
//! A [`Selector`] is what a text of this grammar denotes: a flag and a
//! forest of named entries. A text belongs to the grammar when it is some
//! valid selector [written out](Selector::text).

use vstd::prelude::*;

verus! {

/// One selected field: its name and the fields selected below it.
pub struct Entry {
    pub name: Seq<u8>,
    pub children: Seq<Entry>,
}

/// A whole selection: the entries at the top, and whether they are to be
/// excluded rather than included.
pub struct Selector {
    pub negation: bool,
    pub items: Seq<Entry>,
}

pub const DASH: u8 = 0x2d;

pub const OPEN: u8 = 0x28;

pub const CLOSE: u8 = 0x29;

pub const COMMA: u8 = 0x2c;

/// The bytes that a field name is made of: ASCII letters and digits, `-`
/// and `_`.
pub open spec fn is_name_byte(b: u8) -> bool {
    ||| 0x41 <= b <= 0x5a
    ||| 0x61 <= b <= 0x7a
    ||| 0x30 <= b <= 0x39
    ||| b == 0x2d
    ||| b == 0x5f
}

/// A field name: at least one byte, all of them name bytes.
pub open spec fn is_name(name: Seq<u8>) -> bool {
    &&& name.len() > 0
    &&& forall|i: int| 0 <= i < name.len() ==> is_name_byte(#[trigger] name[i])
}

impl Entry {
    /// The entry and all entries below it bear field names.
    pub open spec fn valid(self) -> bool
        decreases self,
    {
        &&& is_name(self.name)
        &&& forall|i: int| 0 <= i < self.children.len() ==> (#[trigger] self.children[i]).valid()
    }

    /// The entry written out: its name, and if it has children, their list
    /// in parentheses.
    pub open spec fn text(self) -> Seq<u8>
        decreases self,
    {
        if self.children.len() == 0 {
            self.name
        } else {
            self.name + seq![OPEN] + items_text(self.children) + seq![CLOSE]
        }
    }

    /// The entry followed by all entries below it, each before its
    /// children, the children from first to last.
    pub open spec fn flat(self) -> Seq<Entry>
        decreases self,
    {
        seq![self] + items_flat(self.children)
    }
}

/// The entries written out one after the other, with a comma between each
/// two.
pub open spec fn items_text(items: Seq<Entry>) -> Seq<u8>
    decreases items,
{
    if items.len() == 0 {
        Seq::empty()
    } else if items.len() == 1 {
        items[0].text()
    } else {
        items[0].text() + seq![COMMA] + items_text(items.drop_first())
    }
}

/// All entries of a list and below, each before its children, the children
/// from first to last.
pub open spec fn items_flat(items: Seq<Entry>) -> Seq<Entry>
    decreases items,
{
    if items.len() == 0 {
        Seq::empty()
    } else {
        items[0].flat() + items_flat(items.drop_first())
    }
}

/// The entries of a list that have no children.
pub open spec fn leaves_of(items: Seq<Entry>) -> Seq<Entry> {
    items.filter(|e: Entry| e.children.len() == 0)
}

/// The first entry of a list that bears the name.
pub open spec fn first_called(items: Seq<Entry>, name: Seq<u8>) -> Option<Entry>
    decreases items.len(),
{
    if items.len() == 0 {
        None
    } else if items[0].name == name {
        Some(items[0])
    } else {
        first_called(items.drop_first(), name)
    }
}

/// The entry reached from a list of entries along a path of names: at each
/// step the first entry that bears the next name, then on among its
/// children. The empty path reaches no entry.
pub open spec fn lookup(items: Seq<Entry>, path: Seq<Seq<u8>>) -> Option<Entry>
    decreases path.len(),
{
    if path.len() == 0 {
        None
    } else {
        match first_called(items, path[0]) {
            Some(e) => if path.len() == 1 {
                Some(e)
            } else {
                lookup(e.children, path.drop_first())
            },
            None => None,
        }
    }
}

/// There is at least one entry, and every one of them is valid.
pub open spec fn items_valid(items: Seq<Entry>) -> bool {
    &&& items.len() > 0
    &&& forall|i: int| 0 <= i < items.len() ==> (#[trigger] items[i]).valid()
}

impl Selector {
    /// The selector has entries, and all of them bear field names.
    pub open spec fn valid(self) -> bool {
        items_valid(self.items)
    }

    /// The selector written out: the negation marker if the selector is
    /// negated, then the list of its entries in parentheses.
    pub open spec fn text(self) -> Seq<u8> {
        (if self.negation {
            seq![DASH]
        } else {
            Seq::empty()
        }) + seq![OPEN] + items_text(self.items) + seq![CLOSE]
    }
}

/// The text belongs to the grammar: it is some valid selector written out.
pub open spec fn accepts(text: Seq<u8>) -> bool {
    exists|selector: Selector| selector.valid() && #[trigger] selector.text() == text
}

/// The bytes that a text of the grammar is made of: those of names, the two
/// parentheses and the comma.
pub open spec fn is_token_byte(b: u8) -> bool {
    is_name_byte(b) || b == OPEN || b == CLOSE || b == COMMA
}

} // verus!
