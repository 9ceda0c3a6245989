//! Where in a text a selector is written.
//!
//! The grammar says what a selector looks like when written out; this
//! module says the same by offsets into a text, which is how a parser meets
//! it: an entry [fits](Entry::fits) at an offset, a list of entries fits
//! from an offset on, a selector [covers](Selector::covers) a whole text.

use crate::grammar::CLOSE;
use crate::grammar::COMMA;
use crate::grammar::DASH;
use crate::grammar::Entry;
use crate::grammar::is_name;
use crate::grammar::is_name_byte;
use crate::grammar::is_token_byte;
use crate::grammar::items_text;
use crate::grammar::items_valid;
use crate::grammar::OPEN;
use crate::grammar::Selector;
use vstd::prelude::*;

verus! {

impl Entry {
    /// The number of bytes that the entry takes when written out.
    pub open spec fn width(self) -> nat
        decreases self,
    {
        if self.children.len() == 0 {
            self.name.len()
        } else {
            self.name.len() + 2 + items_width(self.children)
        }
    }

    /// The entry is written in `text` from offset `at` on: its name, and if
    /// it has children, their list in parentheses.
    pub open spec fn fits(self, text: Seq<u8>, at: int) -> bool
        decreases self,
    {
        &&& 0 <= at
        &&& at + self.width() <= text.len()
        &&& is_name(self.name)
        &&& text.subrange(at, at + self.name.len()) == self.name
        &&& self.children.len() > 0 ==> {
            &&& text[at + self.name.len()] == OPEN
            &&& items_fit(self.children, text, at + self.name.len() + 1)
            &&& text[at + self.width() - 1] == CLOSE
        }
    }
}

/// The number of bytes that a list of entries takes, commas included.
pub open spec fn items_width(items: Seq<Entry>) -> nat
    decreases items,
{
    if items.len() == 0 {
        0
    } else if items.len() == 1 {
        items[0].width()
    } else {
        items[0].width() + 1 + items_width(items.drop_first())
    }
}

/// The entries are written in `text` from offset `at` on, one after the
/// other with a comma between each two. There is at least one.
pub open spec fn items_fit(items: Seq<Entry>, text: Seq<u8>, at: int) -> bool
    decreases items,
{
    &&& items.len() > 0
    &&& items[0].fits(text, at)
    &&& items.len() > 1 ==> {
        &&& at + items[0].width() < text.len()
        &&& text[at + items[0].width()] == COMMA
        &&& items_fit(items.drop_first(), text, at + items[0].width() + 1)
    }
}

impl Selector {
    /// The number of bytes that the selector takes when written out.
    pub open spec fn width(self) -> nat {
        (if self.negation {
            1nat
        } else {
            0nat
        }) + 2 + items_width(self.items)
    }

    /// `text` is this selector written out, from its first byte to its
    /// last: the negation marker if the selector is negated, then the list of
    /// its entries in parentheses.
    pub open spec fn covers(self, text: Seq<u8>) -> bool {
        let at: int = if self.negation {
            1
        } else {
            0
        };
        &&& text.len() == self.width()
        &&& self.negation ==> text[0] == DASH
        &&& text[at] == OPEN
        &&& items_fit(self.items, text, at + 1)
        &&& text[text.len() - 1] == CLOSE
    }
}

/// Where an entry is written, the text holds only bytes of the grammar.
pub proof fn lemma_entry_tokens(e: Entry, text: Seq<u8>, at: int)
    requires
        e.fits(text, at),
    ensures
        forall|i: int| at <= i < at + e.width() ==> is_token_byte(#[trigger] text[i]),
    decreases e,
{
    let name = text.subrange(at, at + e.name.len());
    assert forall|i: int| at <= i < at + e.width() implies is_token_byte(#[trigger] text[i]) by {
        if i < at + e.name.len() {
            assert(text[i] == name[i - at]);
        } else if e.children.len() > 0 {
            lemma_items_tokens(e.children, text, at + e.name.len() + 1);
        }
    }
}

/// Where a list of entries is written, the text holds only bytes of the
/// grammar.
pub proof fn lemma_items_tokens(items: Seq<Entry>, text: Seq<u8>, at: int)
    requires
        items_fit(items, text, at),
    ensures
        forall|i: int| at <= i < at + items_width(items) ==> is_token_byte(#[trigger] text[i]),
    decreases items,
{
    lemma_entry_tokens(items[0], text, at);
    if items.len() > 1 {
        lemma_items_tokens(items.drop_first(), text, at + items[0].width() + 1);
    }
}

/// A text that a selector covers holds only bytes of the grammar.
pub proof fn lemma_covered_tokens(selector: Selector, text: Seq<u8>)
    requires
        selector.covers(text),
    ensures
        forall|i: int| 0 <= i < text.len() ==> is_token_byte(#[trigger] text[i]),
{
    let at: int = if selector.negation {
        1
    } else {
        0
    };
    lemma_items_tokens(selector.items, text, at + 1);
}

/// An entry written out is as long as its width says.
pub proof fn lemma_entry_width(e: Entry)
    ensures
        e.text().len() == e.width(),
    decreases e,
{
    if e.children.len() > 0 {
        lemma_items_width(e.children);
    }
}

/// A list of entries written out is as long as its width says.
pub proof fn lemma_items_width(items: Seq<Entry>)
    ensures
        items_text(items).len() == items_width(items),
    decreases items,
{
    if items.len() > 0 {
        lemma_entry_width(items[0]);
        if items.len() > 1 {
            lemma_items_width(items.drop_first());
        }
    }
}

/// An entry that fits in a text is valid, and the text holds there the
/// entry written out.
pub proof fn lemma_fits_text(e: Entry, text: Seq<u8>, at: int)
    requires
        e.fits(text, at),
    ensures
        e.valid(),
        text.subrange(at, at + e.width()) == e.text(),
    decreases e,
{
    lemma_entry_width(e);
    if e.children.len() > 0 {
        let inner = at + e.name.len() + 1;
        lemma_items_fits_text(e.children, text, inner);
        lemma_items_width(e.children);
        assert(text.subrange(at, at + e.width()) =~= text.subrange(at, at + e.name.len()) + seq![
            OPEN,
        ] + text.subrange(inner, inner + items_width(e.children)) + seq![CLOSE]);
    }
}

/// Entries that fit in a text are valid, and the text holds there the
/// entries written out.
pub proof fn lemma_items_fits_text(items: Seq<Entry>, text: Seq<u8>, at: int)
    requires
        items_fit(items, text, at),
    ensures
        items_valid(items),
        at + items_width(items) <= text.len(),
        text.subrange(at, at + items_width(items)) == items_text(items),
    decreases items,
{
    lemma_fits_text(items[0], text, at);
    lemma_entry_width(items[0]);
    assert(items[0].fits(text, at));
    assert(at + items[0].width() <= text.len());
    if items.len() == 1 {
        assert(items_width(items) == items[0].width());
        assert(items_text(items) == items[0].text());
    }
    if items.len() > 1 {
        let rest = items.drop_first();
        let next = at + items[0].width() + 1;
        assert(items_fit(rest, text, next));
        lemma_items_fits_text(rest, text, next);
        lemma_items_width(rest);
        assert(items_width(items) == items[0].width() + 1 + items_width(rest));
        assert(next + items_width(rest) <= text.len());
        assert forall|i: int| 0 <= i < items.len() implies (#[trigger] items[i]).valid() by {
            if i > 0 {
                assert(items[i] == rest[i - 1]);
            }
        }
        assert(text.subrange(at, at + items_width(items)) =~= text.subrange(
            at,
            at + items[0].width(),
        ) + seq![COMMA] + text.subrange(next, next + items_width(rest)));
    }
}

/// A valid entry fits in a text wherever the text holds the entry written
/// out.
pub proof fn lemma_text_fits(e: Entry, text: Seq<u8>, at: int)
    requires
        e.valid(),
        0 <= at,
        at + e.width() <= text.len(),
        text.subrange(at, at + e.width()) == e.text(),
    ensures
        e.fits(text, at),
    decreases e,
{
    lemma_entry_width(e);
    let whole = text.subrange(at, at + e.width());
    let n = e.name.len() as int;
    assert(text.subrange(at, at + n) =~= whole.subrange(0, n));
    assert(whole.subrange(0, n) =~= e.name);
    if e.children.len() > 0 {
        lemma_items_width(e.children);
        let w = items_width(e.children) as int;
        assert(text[at + n] == whole[n]);
        assert(text[at + e.width() - 1] == whole[e.width() - 1]);
        assert(text.subrange(at + n + 1, at + n + 1 + w) =~= whole.subrange(n + 1, n + 1 + w));
        assert(whole.subrange(n + 1, n + 1 + w) =~= items_text(e.children));
        lemma_items_text_fits(e.children, text, at + n + 1);
    }
}

/// Valid entries fit in a text wherever the text holds the entries written
/// out.
pub proof fn lemma_items_text_fits(items: Seq<Entry>, text: Seq<u8>, at: int)
    requires
        items_valid(items),
        0 <= at,
        at + items_width(items) <= text.len(),
        text.subrange(at, at + items_width(items)) == items_text(items),
    ensures
        items_fit(items, text, at),
    decreases items,
{
    lemma_entry_width(items[0]);
    let whole = text.subrange(at, at + items_width(items));
    let n = items[0].width() as int;
    assert(text.subrange(at, at + n) =~= whole.subrange(0, n));
    assert(whole.subrange(0, n) =~= items[0].text());
    lemma_text_fits(items[0], text, at);
    if items.len() > 1 {
        let rest = items.drop_first();
        lemma_items_width(rest);
        let w = items_width(rest) as int;
        assert forall|i: int| 0 <= i < rest.len() implies (#[trigger] rest[i]).valid() by {
            assert(rest[i] == items[i + 1]);
        }
        assert(text[at + n] == whole[n]);
        assert(text.subrange(at + n + 1, at + n + 1 + w) =~= whole.subrange(n + 1, n + 1 + w));
        assert(whole.subrange(n + 1, n + 1 + w) =~= items_text(rest));
        lemma_items_text_fits(rest, text, at + n + 1);
    }
}

/// A selector covers a text exactly if it is valid and the text is the
/// selector written out.
pub proof fn lemma_covers_is_text(selector: Selector, text: Seq<u8>)
    ensures
        selector.covers(text) <==> selector.valid() && selector.text() == text,
{
    let at: int = if selector.negation {
        1
    } else {
        0
    };
    lemma_items_width(selector.items);
    let w = items_width(selector.items) as int;
    if selector.covers(text) {
        lemma_items_fits_text(selector.items, text, at + 1);
        assert(text =~= selector.text());
    }
    if selector.valid() && selector.text() == text {
        assert(text.subrange(at + 1, at + 1 + w) =~= items_text(selector.items));
        lemma_items_text_fits(selector.items, text, at + 1);
    }
}

/// After a field in a list comes a comma or the closing parenthesis.
pub open spec fn after_field(text: Seq<u8>, end: int) -> bool {
    &&& 0 <= end < text.len()
    &&& (text[end] == COMMA || text[end] == CLOSE)
}

/// The end of the longest run of name bytes that starts at `at`.
pub open spec fn name_end(text: Seq<u8>, at: int) -> int
    decreases text.len() - at,
{
    if 0 <= at < text.len() && is_name_byte(text[at]) {
        name_end(text, at + 1)
    } else {
        at
    }
}

/// A run of name bytes from `at` to `end`, with no name byte after it, is
/// the longest one that starts at `at`.
pub proof fn lemma_name_end(text: Seq<u8>, at: int, end: int)
    requires
        0 <= at <= end <= text.len(),
        forall|i: int| at <= i < end ==> is_name_byte(#[trigger] text[i]),
        end < text.len() ==> !is_name_byte(text[end]),
    ensures
        name_end(text, at) == end,
    decreases end - at,
{
    if at < end {
        lemma_name_end(text, at + 1, end);
    }
}

/// An entry that fits at `at` starts with a run of name bytes as long as its
/// name.
pub proof fn lemma_entry_name(e: Entry, text: Seq<u8>, at: int)
    requires
        e.fits(text, at),
    ensures
        at + e.name.len() <= text.len(),
        e.name.len() > 0,
        forall|i: int| at <= i < at + e.name.len() ==> is_name_byte(#[trigger] text[i]),
{
    let name = text.subrange(at, at + e.name.len());
    assert forall|i: int| at <= i < at + e.name.len() implies is_name_byte(#[trigger] text[i]) by {
        assert(text[i] == name[i - at]);
    }
}

/// Two entries that fit at the same place of a text, each followed by a
/// comma or a closing parenthesis, are the same entry.
pub proof fn lemma_entry_unique(a: Entry, b: Entry, text: Seq<u8>, at: int)
    requires
        a.fits(text, at),
        b.fits(text, at),
        after_field(text, at + a.width()),
        after_field(text, at + b.width()),
    ensures
        a == b,
    decreases a,
{
    lemma_entry_name(a, text, at);
    lemma_entry_name(b, text, at);
    lemma_name_end(text, at, at + a.name.len());
    lemma_name_end(text, at, at + b.name.len());
    assert(a.name == b.name);
    if a.children.len() > 0 {
        lemma_items_unique(a.children, b.children, text, at + a.name.len() + 1);
    } else {
        assert(a.children =~= b.children);
    }
}

/// Two lists of entries that fit at the same place of a text, each followed
/// by a closing parenthesis, are the same list.
pub proof fn lemma_items_unique(xs: Seq<Entry>, ys: Seq<Entry>, text: Seq<u8>, at: int)
    requires
        0 <= at,
        items_fit(xs, text, at),
        items_fit(ys, text, at),
        at + items_width(xs) < text.len(),
        at + items_width(ys) < text.len(),
        text[at + items_width(xs)] == CLOSE,
        text[at + items_width(ys)] == CLOSE,
    ensures
        xs == ys,
    decreases xs,
{
    assert(xs[0].fits(text, at) && ys[0].fits(text, at));
    assert(after_field(text, at + xs[0].width()));
    assert(after_field(text, at + ys[0].width()));
    lemma_entry_unique(xs[0], ys[0], text, at);
    if xs.len() > 1 {
        lemma_items_unique(xs.drop_first(), ys.drop_first(), text, at + xs[0].width() + 1);
        assert(xs =~= seq![xs[0]] + xs.drop_first());
        assert(ys =~= seq![ys[0]] + ys.drop_first());
    } else {
        assert(xs =~= ys);
    }
}

/// Some entry written in `text` from `at` on ends just before `end`.
pub open spec fn entry_ends(text: Seq<u8>, at: int, end: int) -> bool {
    exists|e: Entry| #[trigger] e.fits(text, at) && at + e.width() == end
}

/// Some list of entries written in `text` from `at` on ends just before
/// `end`, where a closing parenthesis stands.
pub open spec fn list_closes(text: Seq<u8>, at: int, end: int) -> bool {
    &&& 0 <= end < text.len()
    &&& text[end] == CLOSE
    &&& exists|es: Seq<Entry>| #[trigger] items_fit(es, text, at) && at + items_width(es) == end
}

/// Some list in parentheses written in `text` from `at` on ends just before
/// `end`.
pub open spec fn struct_ends(text: Seq<u8>, at: int, end: int) -> bool {
    &&& 0 <= at < text.len()
    &&& text[at] == OPEN
    &&& list_closes(text, at + 1, end - 1)
}

/// Some entry with children written in `text` from `at` on ends just before
/// `end`.
pub open spec fn branch_ends(text: Seq<u8>, at: int, end: int) -> bool {
    exists|e: Entry| #[trigger] e.fits(text, at) && e.children.len() > 0 && at + e.width() == end
}

/// Where the first entry of a closed list ends: a list written from `at` on
/// and closed at `end` begins with an entry that ends there.
pub open spec fn first_end(text: Seq<u8>, at: int, end: int) -> int {
    let es = choose|es: Seq<Entry>| #[trigger]
        items_fit(es, text, at) && at + items_width(es) == end;
    at + es[0].width()
}

/// A list written from `at` on and closed at `end` begins with an entry,
/// after which the list is closed or goes on behind a comma.
pub proof fn lemma_first_of_list(text: Seq<u8>, at: int, end: int)
    requires
        list_closes(text, at, end),
    ensures
        entry_ends(text, at, first_end(text, at, end)),
        after_field(text, first_end(text, at, end)),
        first_end(text, at, end) == end || (text[first_end(text, at, end)] == COMMA
            && list_closes(text, first_end(text, at, end) + 1, end)),
{
    let es = choose|es: Seq<Entry>| #[trigger]
        items_fit(es, text, at) && at + items_width(es) == end;
    assert(es[0].fits(text, at));
    if es.len() > 1 {
        assert(items_fit(es.drop_first(), text, at + es[0].width() + 1));
    }
}

} // verus!
