//! The parser: a text of the grammar becomes a syntax tree whose field names
//! are byte ranges of that text.

use crate::grammar::accepts;
use crate::grammar::CLOSE;
use crate::grammar::COMMA;
use crate::grammar::DASH;
use crate::grammar::Entry;
use crate::grammar::is_name_byte;
use crate::grammar::OPEN;
use crate::grammar::Selector;
use crate::layout::after_field;
use crate::layout::branch_ends;
use crate::layout::entry_ends;
use crate::layout::first_end;
use crate::layout::items_fit;
use crate::layout::items_width;
use crate::layout::lemma_covers_is_text;
use crate::layout::lemma_entry_name;
use crate::layout::lemma_first_of_list;
use crate::layout::lemma_name_end;
use crate::layout::list_closes;
use crate::layout::name_end;
use crate::layout::struct_ends;
use crate::str_range::StrRange;
use vstd::prelude::*;
use vstd::string::StringExecFns;
use vstd::string::StringSliceAdditionalSpecFns;

verus! {

/// A parsed text: the list in parentheses, and whether the negation marker
/// stood before it.
pub struct Fields {
    pub fields_struct: FieldsStruct,
    pub negation: bool,
}

/// A list of fields in parentheses.
pub struct FieldsStruct(pub FieldItems);

/// The fields of a list, in the order in which they were written.
pub struct FieldItems(pub Vec<Field>);

/// A field: a name alone, or a name with a list of fields below it.
pub enum Field {
    FieldsSubstruct(FieldsSubstruct),
    FieldName(FieldName),
}

/// A name followed by the list of the fields below it.
pub struct FieldsSubstruct {
    pub field_name: FieldName,
    pub fields_struct: FieldsStruct,
}

/// A field name: where it stands in the parsed text.
#[derive(Debug)]
pub struct FieldName(pub StrRange);

/// What the parser looked for when it gave up.
#[derive(Clone, Copy, Debug, PartialEq, Eq, Structural)]
pub enum Expected {
    /// A byte of a field name.
    Name,
    /// An opening parenthesis.
    Open,
    /// A comma or a closing parenthesis.
    Close,
    /// The end of the text.
    End,
}

/// The reason why a text is not of the grammar.
#[derive(Debug)]
pub struct Error {
    position: usize,
    expected: Expected,
}

impl Error {
    /// The byte offset at which the parser gave up.
    pub closed spec fn at(self) -> int {
        self.position as int
    }

    /// What the parser looked for at that offset.
    pub closed spec fn wanted(self) -> Expected {
        self.expected
    }

    /// The byte offset at which the parser gave up.
    pub fn position(&self) -> (r: usize)
        ensures
            r == self.at(),
    {
        self.position
    }

    /// What the parser looked for at that offset.
    pub fn expected(&self) -> (r: Expected)
        ensures
            r == self.wanted(),
    {
        self.expected
    }

    /// The error is true of `text`: at the offset it names, `text` does not
    /// go on with what was looked for.
    pub open spec fn misses(self, text: Seq<u8>) -> bool {
        &&& 0 <= self.at() <= text.len()
        &&& match self.wanted() {
            Expected::Name => self.at() == text.len() || !is_name_byte(text[self.at()]),
            Expected::Open => self.at() == text.len() || text[self.at()] != OPEN,
            Expected::Close => self.at() == text.len() || (text[self.at()] != COMMA
                && text[self.at()] != CLOSE),
            Expected::End => self.at() < text.len(),
        }
    }

    /// The text of the error: what was looked for, and where.
    pub open spec fn text(self) -> Seq<char> {
        "failed to parse: expected "@ + self.wanted().text() + " at offset "@ + decimal(
            self.at() as nat,
        )
    }

    /// A description of the error for a human reader.
    pub fn to_string(&self) -> (r: String)
        ensures
            r@ == self.text(),
    {
        let mut message = String::from_str("failed to parse: expected ");
        message.append(self.expected.describe());
        message.append(" at offset ");
        let position = decimal_string(self.position);
        message.append(position.as_str());
        message
    }
}

impl Expected {
    /// The words that stand for what was looked for.
    pub open spec fn text(self) -> Seq<char> {
        match self {
            Expected::Name => "a field name"@,
            Expected::Open => "an opening parenthesis"@,
            Expected::Close => "a comma or a closing parenthesis"@,
            Expected::End => "the end of the text"@,
        }
    }

    /// The words that stand for what was looked for.
    pub fn describe(self) -> (r: &'static str)
        ensures
            r@ == self.text(),
    {
        match self {
            Expected::Name => "a field name",
            Expected::Open => "an opening parenthesis",
            Expected::Close => "a comma or a closing parenthesis",
            Expected::End => "the end of the text",
        }
    }
}

/// The character of one decimal digit.
pub open spec fn digit(d: nat) -> char {
    if d == 0 {
        '0'
    } else if d == 1 {
        '1'
    } else if d == 2 {
        '2'
    } else if d == 3 {
        '3'
    } else if d == 4 {
        '4'
    } else if d == 5 {
        '5'
    } else if d == 6 {
        '6'
    } else if d == 7 {
        '7'
    } else if d == 8 {
        '8'
    } else {
        '9'
    }
}

/// The decimal numeral of `n`, without leading zeros.
pub open spec fn decimal(n: nat) -> Seq<char>
    decreases n,
{
    if n < 10 {
        seq![digit(n)]
    } else {
        decimal(n / 10).push(digit(n % 10))
    }
}

/// The numeral of one decimal digit.
fn digit_str(d: usize) -> (r: &'static str)
    requires
        d < 10,
    ensures
        r@ == seq![digit(d as nat)],
{
    proof {
        reveal_strlit("0");
        reveal_strlit("1");
        reveal_strlit("2");
        reveal_strlit("3");
        reveal_strlit("4");
        reveal_strlit("5");
        reveal_strlit("6");
        reveal_strlit("7");
        reveal_strlit("8");
        reveal_strlit("9");
    }
    let r = if d == 0 {
        "0"
    } else if d == 1 {
        "1"
    } else if d == 2 {
        "2"
    } else if d == 3 {
        "3"
    } else if d == 4 {
        "4"
    } else if d == 5 {
        "5"
    } else if d == 6 {
        "6"
    } else if d == 7 {
        "7"
    } else if d == 8 {
        "8"
    } else {
        "9"
    };
    assert(r@ =~= seq![digit(d as nat)]);
    r
}

/// The decimal numeral of `n`.
pub fn decimal_string(n: usize) -> (r: String)
    ensures
        r@ == decimal(n as nat),
    decreases n,
{
    if n < 10 {
        String::from_str(digit_str(n))
    } else {
        let mut numeral = decimal_string(n / 10);
        numeral.append(digit_str(n % 10));
        assert(numeral@ =~= decimal(n as nat));
        numeral
    }
}

/// Whether `b` is a byte of a field name.
pub fn name_byte(b: u8) -> (r: bool)
    ensures
        r == is_name_byte(b),
{
    (0x41 <= b && b <= 0x5a) || (0x61 <= b && b <= 0x7a) || (0x30 <= b && b <= 0x39) || b == 0x2d
        || b == 0x5f
}

impl Field {
    /// The place of the field's name.
    pub open spec fn name(self) -> StrRange {
        match self {
            Field::FieldName(name) => name.0,
            Field::FieldsSubstruct(sub) => sub.field_name.0,
        }
    }

    /// The fields below this one, in order.
    pub open spec fn children(self) -> Seq<Field> {
        match self {
            Field::FieldName(_) => Seq::empty(),
            Field::FieldsSubstruct(sub) => sub.fields_struct.0.0@,
        }
    }

    /// The entry that the field denotes, names read from `text`.
    pub open spec fn entry(self, text: Seq<u8>) -> Entry
        decreases self,
    {
        match self {
            Field::FieldName(name) => Entry {
                name: text.subrange(name.0.start(), name.0.end()),
                children: Seq::empty(),
            },
            Field::FieldsSubstruct(sub) => Entry {
                name: text.subrange(sub.field_name.0.start(), sub.field_name.0.end()),
                children: entries(sub.fields_struct.0.0@, text),
            },
        }
    }

    /// The offset just after the field.
    pub open spec fn end(self) -> int
        decreases self,
    {
        match self {
            Field::FieldName(name) => name.0.end(),
            Field::FieldsSubstruct(sub) => sub.end(),
        }
    }

    /// The field is written in `text` from `at` on, and every name in it
    /// points to the place where it is written.
    pub open spec fn spans(self, text: Seq<u8>, at: int) -> bool
        decreases self,
    {
        match self {
            Field::FieldName(name) => name.spans(text, at),
            Field::FieldsSubstruct(sub) => sub.spans(text, at),
        }
    }
}

impl FieldsSubstruct {
    /// The offset just after the closing parenthesis.
    pub open spec fn end(self) -> int
        decreases self,
    {
        self.fields_struct.end()
    }

    /// The name and its list are written in `text` from `at` on.
    pub open spec fn spans(self, text: Seq<u8>, at: int) -> bool
        decreases self,
    {
        &&& self.field_name.spans(text, at)
        &&& self.fields_struct.spans(text, self.field_name.0.end())
    }
}

impl FieldsStruct {
    /// The offset just after the closing parenthesis.
    pub open spec fn end(self) -> int
        decreases self,
    {
        self.0.end() + 1
    }

    /// The list is written in `text` from `at` on, in parentheses.
    pub open spec fn spans(self, text: Seq<u8>, at: int) -> bool
        decreases self,
    {
        &&& 0 <= at < text.len()
        &&& text[at] == OPEN
        &&& self.0.spans(text, at + 1)
        &&& self.0.end() < text.len()
        &&& text[self.0.end()] == CLOSE
    }
}

impl FieldItems {
    /// The offset just after the last field.
    pub open spec fn end(self) -> int
        decreases self,
    {
        if self.0@.len() == 0 {
            0
        } else {
            self.0@[self.0@.len() - 1].end()
        }
    }

    /// The fields are written in `text` from `at` on, one after the other
    /// with a comma between each two. There is at least one.
    pub open spec fn spans(self, text: Seq<u8>, at: int) -> bool
        decreases self,
    {
        items_span(self.0@, text, at)
    }
}

/// The fields are written in `text` from `at` on, one after the other with a
/// comma between each two. There is at least one.
pub open spec fn items_span(items: Seq<Field>, text: Seq<u8>, at: int) -> bool
    decreases items,
{
    &&& items.len() > 0
    &&& items[0].name().start() == at
    &&& forall|i: int|
        0 <= i < items.len() ==> (#[trigger] items[i]).spans(text, items[i].name().start())
    &&& forall|i: int|
        0 <= i < items.len() - 1 ==> {
            &&& 0 <= #[trigger] items[i].end() < text.len()
            &&& text[items[i].end()] == COMMA
            &&& items[i + 1].name().start() == items[i].end() + 1
        }
}

/// The entries that a list of fields denotes, names read from `text`.
pub open spec fn entries(fields: Seq<Field>, text: Seq<u8>) -> Seq<Entry>
    decreases fields,
{
    if fields.len() == 0 {
        Seq::empty()
    } else {
        seq![fields[0].entry(text)] + entries(fields.drop_first(), text)
    }
}

/// How reading a part of a text ends: at an offset, or with a failure to
/// find what was looked for at an offset.
pub enum Outcome {
    Ends(int),
    Fails(Expected, int),
}

/// Where the field that is read at `at` ends: with its list, if a name with
/// a whole list below it is written there, else with its name. None where no
/// name begins.
pub open spec fn field_end(text: Seq<u8>, at: int) -> Option<int> {
    if exists|end: int| branch_ends(text, at, end) {
        Some(choose|end: int| branch_ends(text, at, end))
    } else if 0 <= at < text.len() && is_name_byte(text[at]) {
        Some(name_end(text, at))
    } else {
        None
    }
}

/// How reading a list of fields from `at` on ends: each field is followed by
/// a comma and a further field, until no comma follows. It fails where a
/// field is looked for and no name begins.
pub open spec fn list_outcome(text: Seq<u8>, at: int) -> Outcome
    decreases text.len() - at,
{
    match field_end(text, at) {
        None => Outcome::Fails(Expected::Name, at),
        Some(end) => if at < end < text.len() && text[end] == COMMA {
            list_outcome(text, end + 1)
        } else {
            Outcome::Ends(end)
        },
    }
}

/// How reading a list in parentheses from `at` on ends. It fails where the
/// opening parenthesis is missing, where the list of fields fails, or where
/// that list is followed neither by a comma nor by the closing parenthesis.
pub open spec fn struct_outcome(text: Seq<u8>, at: int) -> Outcome {
    if !(0 <= at < text.len() && text[at] == OPEN) {
        Outcome::Fails(Expected::Open, at)
    } else {
        match list_outcome(text, at + 1) {
            Outcome::Fails(wanted, place) => Outcome::Fails(wanted, place),
            Outcome::Ends(end) => if 0 <= end < text.len() && text[end] == CLOSE {
                Outcome::Ends(end + 1)
            } else {
                Outcome::Fails(Expected::Close, end)
            },
        }
    }
}

/// How reading a whole text ends: at the end of the text, or with the
/// failure that is reported for the text.
pub open spec fn outcome(text: Seq<u8>) -> Outcome {
    let at: int = if text.len() > 0 && text[0] == DASH {
        1
    } else {
        0
    };
    match struct_outcome(text, at) {
        Outcome::Fails(wanted, place) => Outcome::Fails(wanted, place),
        Outcome::Ends(end) => if end == text.len() {
            Outcome::Ends(end)
        } else {
            Outcome::Fails(Expected::End, end)
        },
    }
}

impl Error {
    /// The error is the failure with which reading `text` ends.
    pub open spec fn is_outcome_of(self, text: Seq<u8>) -> bool {
        outcome(text) == Outcome::Fails(self.wanted(), self.at())
    }
}

impl FieldName {
    /// The name is written in `text` at the place it points to, from `at`
    /// on.
    pub open spec fn spans(self, text: Seq<u8>, at: int) -> bool {
        &&& self.0.start() == at
        &&& 0 <= at < self.0.end() <= text.len()
        &&& forall|i: int| at <= i < self.0.end() ==> is_name_byte(#[trigger] text[i])
    }

    /// Parse a field name at offset `at` of `text`: the longest run of name
    /// bytes that starts there. Fails if the run is empty.
    pub fn parse(text: &[u8], at: usize) -> (r: Result<(FieldName, usize), Error>)
        requires
            at <= text@.len(),
        ensures
            r is Ok <==> at < text@.len() && is_name_byte(text@[at as int]),
            r matches Ok((name, end)) ==> {
                &&& name.spans(text@, at as int)
                &&& name.0.end() == end
                &&& end == name_end(text@, at as int)
            },
            r matches Err(error) ==> error.at() == at && error.wanted() == Expected::Name,
    {
        let mut end: usize = at;
        while end < text.len() && name_byte(text[end])
            invariant
                at <= end <= text@.len(),
                forall|i: int| at <= i < end ==> is_name_byte(#[trigger] text@[i]),
                name_end(text@, at as int) == name_end(text@, end as int),
            decreases text@.len() - end,
        {
            end += 1;
        }
        if end == at {
            Err(Error { position: at, expected: Expected::Name })
        } else {
            Ok((FieldName(StrRange::between(at, end)), end))
        }
    }
}

impl FieldsSubstruct {
    /// Parse a name with a list below it at offset `at` of `text`.
    fn parse(text: &[u8], at: usize) -> (r: Result<(FieldsSubstruct, usize), Error>)
        requires
            at <= text@.len(),
        ensures
            r matches Ok((sub, end)) ==> {
                &&& sub.spans(text@, at as int)
                &&& sub.end() == end
                &&& at < end <= text@.len()
                &&& sub.field_name.0.end() == name_end(text@, at as int)
                &&& forall|e: int| branch_ends(text@, at as int, e) ==> e == end
            },
            r is Err ==> forall|e: int| !branch_ends(text@, at as int, e),
            r matches Err(error) ==> at <= error.at() && error.misses(text@),
        decreases text@.len() - at, 2int,
    {
        let (field_name, after_name) = match FieldName::parse(text, at) {
            Ok(found) => found,
            Err(error) => {
                proof {
                    assert forall|e: int| !branch_ends(text@, at as int, e) by {
                        if branch_ends(text@, at as int, e) {
                            let x = choose|x: Entry| #[trigger]
                                x.fits(text@, at as int) && x.children.len() > 0 && at + x.width()
                                    == e;
                            lemma_entry_name(x, text@, at as int);
                        }
                    }
                }
                return Err(error);
            },
        };
        let parsed = FieldsStruct::parse(text, after_name);
        proof {
            assert forall|e: int| branch_ends(text@, at as int, e) implies struct_ends(
                text@,
                after_name as int,
                e,
            ) by {
                let x = choose|x: Entry| #[trigger]
                    x.fits(text@, at as int) && x.children.len() > 0 && at + x.width() == e;
                lemma_entry_name(x, text@, at as int);
                lemma_name_end(text@, at as int, at + x.name.len());
                assert(items_fit(x.children, text@, after_name + 1));
            }
        }
        match parsed {
            Ok((fields_struct, end)) => Ok((FieldsSubstruct { field_name, fields_struct }, end)),
            Err(error) => Err(error),
        }
    }
}

impl Field {
    /// Parse a field at offset `at` of `text`: a name with a list below it
    /// if one can be read there, else a name alone.
    fn parse(text: &[u8], at: usize) -> (r: Result<(Field, usize), Error>)
        requires
            at <= text@.len(),
        ensures
            r matches Ok((field, end)) ==> {
                &&& field.spans(text@, at as int)
                &&& field.end() == end
                &&& at < end <= text@.len()
                &&& forall|e: int|
                    entry_ends(text@, at as int, e) && after_field(text@, e) ==> e == end
            },
            r is Err ==> forall|e: int| entry_ends(text@, at as int, e) ==> !after_field(text@, e),
            r matches Err(error) ==> error.at() == at && error.wanted() == Expected::Name
                && error.misses(text@),
            field_end(text@, at as int) == match r {
                Ok((_, end)) => Some(end as int),
                Err(_) => None,
            },
        decreases text@.len() - at, 3int,
    {
        match FieldsSubstruct::parse(text, at) {
            Ok((sub, end)) => {
                proof {
                    let whole = Field::FieldsSubstruct(sub);
                    lemma_field_fits(whole, text@, at as int);
                    lemma_entries(sub.fields_struct.0.0@, text@);
                    assert(whole.entry(text@).fits(text@, at as int));
                    assert(branch_ends(text@, at as int, end as int));
                    assert forall|e: int|
                        entry_ends(text@, at as int, e) && after_field(text@, e) implies e
                        == end by {
                        let x = choose|x: Entry| #[trigger]
                            x.fits(text@, at as int) && at + x.width() == e;
                        if x.children.len() > 0 {
                            assert(branch_ends(text@, at as int, e));
                        } else {
                            lemma_entry_name(x, text@, at as int);
                            lemma_name_end(text@, at as int, e);
                        }
                    }
                }
                Ok((Field::FieldsSubstruct(sub), end))
            },
            Err(_) => {
                match FieldName::parse(text, at) {
                    Ok((name, end)) => {
                        proof {
                            assert forall|e: int|
                                entry_ends(text@, at as int, e) && after_field(
                                    text@,
                                    e,
                                ) implies e == end by {
                                let x = choose|x: Entry| #[trigger]
                                    x.fits(text@, at as int) && at + x.width() == e;
                                if x.children.len() > 0 {
                                    assert(branch_ends(text@, at as int, e));
                                } else {
                                    lemma_entry_name(x, text@, at as int);
                                    lemma_name_end(text@, at as int, e);
                                }
                            }
                        }
                        Ok((Field::FieldName(name), end))
                    },
                    Err(error) => {
                        proof {
                            assert forall|e: int| entry_ends(text@, at as int, e) implies !after_field(
                                text@,
                                e,
                            ) by {
                                let x = choose|x: Entry| #[trigger]
                                    x.fits(text@, at as int) && at + x.width() == e;
                                lemma_entry_name(x, text@, at as int);
                            }
                        }
                        Err(error)
                    },
                }
            },
        }
    }
}

impl FieldItems {
    /// Parse a list of fields, separated by commas, at offset `at` of
    /// `text`.
    fn parse(text: &[u8], at: usize) -> (r: Result<(FieldItems, usize), Error>)
        requires
            at <= text@.len(),
        ensures
            r matches Ok((items, end)) ==> {
                &&& items.spans(text@, at as int)
                &&& items.end() == end
                &&& at < end <= text@.len()
                &&& end == text@.len() || text@[end as int] != COMMA
                &&& forall|e: int| list_closes(text@, at as int, e) ==> e == end
            },
            r is Err ==> forall|e: int| !list_closes(text@, at as int, e),
            r matches Err(error) ==> at <= error.at() && error.misses(text@),
            list_outcome(text@, at as int) == match r {
                Ok((_, end)) => Outcome::Ends(end as int),
                Err(error) => Outcome::Fails(error.wanted(), error.at()),
            },
        decreases text@.len() - at, 4int,
    {
        let mut items: Vec<Field> = Vec::new();
        let mut cur: usize = at;
        loop
            invariant
                at <= cur <= text@.len(),
                items@.len() == 0 <==> cur == at,
                items@.len() > 0 ==> items@[0].name().start() == at,
                forall|i: int|
                    0 <= i < items@.len() ==> (#[trigger] items@[i]).spans(
                        text@,
                        items@[i].name().start(),
                    ),
                forall|i: int|
                    0 <= i < items@.len() - 1 ==> {
                        &&& 0 <= #[trigger] items@[i].end() < text@.len()
                        &&& text@[items@[i].end()] == COMMA
                        &&& items@[i + 1].name().start() == items@[i].end() + 1
                    },
                items@.len() > 0 ==> {
                    &&& items@[items@.len() - 1].end() == cur - 1
                    &&& text@[cur - 1] == COMMA
                },
                forall|e: int|
                    list_closes(text@, at as int, e) ==> list_closes(text@, cur as int, e),
                list_outcome(text@, at as int) == list_outcome(text@, cur as int),
            decreases text@.len() - cur,
        {
            match Field::parse(text, cur) {
                Err(error) => {
                    proof {
                        assert forall|e: int| !list_closes(text@, at as int, e) by {
                            if list_closes(text@, at as int, e) {
                                lemma_first_of_list(text@, cur as int, e);
                            }
                        }
                    }
                    return Err(error);
                },
                Ok((field, end)) => {
                    let ghost before = items@;
                    items.push(field);
                    proof {
                        assert forall|i: int| 0 <= i < items@.len() implies (#[trigger] items@[i]).spans(
                            text@,
                            items@[i].name().start(),
                        ) by {
                            if i < before.len() {
                                assert(items@[i] == before[i]);
                            }
                        }
                        assert forall|e: int| list_closes(text@, at as int, e) implies {
                            &&& entry_ends(text@, cur as int, first_end(text@, cur as int, e))
                            &&& after_field(text@, first_end(text@, cur as int, e))
                            &&& (first_end(text@, cur as int, e) == e || (text@[first_end(
                                text@,
                                cur as int,
                                e,
                            )] == COMMA && list_closes(
                                text@,
                                first_end(text@, cur as int, e) + 1,
                                e,
                            )))
                        } by {
                            lemma_first_of_list(text@, cur as int, e);
                        }
                    }
                    if end < text.len() && text[end] == COMMA {
                        cur = end + 1;
                    } else {
                        return Ok((FieldItems(items), end));
                    }
                },
            }
        }
    }
}

impl FieldsStruct {
    /// Parse a list of fields in parentheses at offset `at` of `text`.
    fn parse(text: &[u8], at: usize) -> (r: Result<(FieldsStruct, usize), Error>)
        requires
            at <= text@.len(),
        ensures
            r matches Ok((list, end)) ==> {
                &&& list.spans(text@, at as int)
                &&& list.end() == end
                &&& at < end <= text@.len()
                &&& forall|e: int| struct_ends(text@, at as int, e) ==> e == end
            },
            r is Err ==> forall|e: int| !struct_ends(text@, at as int, e),
            r matches Err(error) ==> at <= error.at() && error.misses(text@),
            struct_outcome(text@, at as int) == match r {
                Ok((_, end)) => Outcome::Ends(end as int),
                Err(error) => Outcome::Fails(error.wanted(), error.at()),
            },
        decreases text@.len() - at, 1int,
    {
        if at >= text.len() || text[at] != OPEN {
            return Err(Error { position: at, expected: Expected::Open });
        }
        match FieldItems::parse(text, at + 1) {
            Err(error) => Err(error),
            Ok((items, end)) => {
                if end < text.len() && text[end] == CLOSE {
                    Ok((FieldsStruct(items), end + 1))
                } else {
                    Err(Error { position: end, expected: Expected::Close })
                }
            },
        }
    }
}

/// The entries of a list of fields are those of the fields, one for one.
pub proof fn lemma_entries(fields: Seq<Field>, text: Seq<u8>)
    ensures
        entries(fields, text).len() == fields.len(),
        forall|i: int|
            0 <= i < fields.len() ==> #[trigger] entries(fields, text)[i] == fields[i].entry(text),
    decreases fields.len(),
{
    if fields.len() > 0 {
        lemma_entries(fields.drop_first(), text);
        assert forall|i: int| 0 <= i < fields.len() implies #[trigger] entries(fields, text)[i]
            == fields[i].entry(text) by {
            if i > 0 {
                assert(fields.drop_first()[i - 1] == fields[i]);
            }
        }
    }
}

/// A field that spans a part of the text denotes an entry that fits there
/// and is as wide as the field is long.
pub proof fn lemma_field_fits(field: Field, text: Seq<u8>, at: int)
    requires
        field.spans(text, at),
    ensures
        field.entry(text).fits(text, at),
        at + field.entry(text).width() == field.end(),
        field.name().start() == at,
        at < field.name().end() <= field.end() <= text.len(),
    decreases field,
{
    let e = field.entry(text);
    assert forall|i: int| 0 <= i < e.name.len() implies is_name_byte(#[trigger] e.name[i]) by {
        assert(e.name[i] == text[at + i]);
    }
    match field {
        Field::FieldName(name) => {},
        Field::FieldsSubstruct(sub) => {
            lemma_items_fit(sub.fields_struct.0.0@, text, sub.field_name.0.end() + 1);
        },
    }
}

/// Fields that span a part of the text denote entries that fit there and
/// are together as wide as the fields are long.
pub proof fn lemma_items_fit(items: Seq<Field>, text: Seq<u8>, at: int)
    requires
        items_span(items, text, at),
    ensures
        items_fit(entries(items, text), text, at),
        at + items_width(entries(items, text)) == items[items.len() - 1].end(),
        entries(items, text).len() == items.len(),
        at < items[items.len() - 1].end() <= text.len(),
    decreases items,
{
    lemma_entries(items, text);
    lemma_field_fits(items[0], text, at);
    let rest = items.drop_first();
    if items.len() > 1 {
        assert(rest[0] == items[1]);
        assert forall|i: int| 0 <= i < rest.len() implies (#[trigger] rest[i]).spans(
            text,
            rest[i].name().start(),
        ) by {
            assert(rest[i] == items[i + 1]);
        }
        assert forall|i: int| 0 <= i < rest.len() - 1 implies {
            &&& 0 <= #[trigger] rest[i].end() < text.len()
            &&& text[rest[i].end()] == COMMA
            &&& rest[i + 1].name().start() == rest[i].end() + 1
        } by {
            assert(rest[i] == items[i + 1]);
            assert(rest[i + 1] == items[i + 2]);
        }
        lemma_items_fit(rest, text, items[0].end() + 1);
        assert(entries(items, text).drop_first() =~= entries(rest, text));
        assert(rest[rest.len() - 1] == items[items.len() - 1]);
    }
}

/// In a list of fields written in the text, an earlier field ends before a
/// later one begins.
pub proof fn lemma_items_order(items: Seq<Field>, text: Seq<u8>, at: int, k: int, l: int)
    requires
        items_span(items, text, at),
        0 <= k < l < items.len(),
    ensures
        items[k].name().end() <= items[k].end() < items[l].name().start(),
    decreases l - k,
{
    lemma_field_fits(items[k], text, items[k].name().start());
    if l > k + 1 {
        lemma_items_order(items, text, at, k, l - 1);
        lemma_field_fits(items[l - 1], text, items[l - 1].name().start());
    }
}

impl Fields {
    /// The whole of `text` is this syntax tree written out, and every name
    /// in the tree points to the place where it is written.
    pub open spec fn spans(self, text: Seq<u8>) -> bool {
        &&& self.negation ==> text.len() > 0 && text[0] == DASH
        &&& self.fields_struct.spans(
            text,
            if self.negation {
                1
            } else {
                0
            },
        )
        &&& self.fields_struct.end() == text.len()
    }

    /// The selector that the syntax tree denotes, names read from `text`.
    pub open spec fn selector(self, text: Seq<u8>) -> Selector {
        Selector { negation: self.negation, items: entries(self.fields_struct.0.0@, text) }
    }

    /// Parse a whole text.
    ///
    /// Succeeds exactly on the texts of the grammar. The syntax tree that
    /// comes back spans the text, and denotes a selector that covers it.
    pub fn parse(text: &[u8]) -> (r: Result<Fields, Error>)
        ensures
            r is Ok <==> accepts(text@),
            r matches Ok(fields) ==> {
                &&& fields.spans(text@)
                &&& fields.selector(text@).valid()
                &&& fields.selector(text@).text() == text@
                &&& fields.negation == (text@[0] == DASH)
            },
            r matches Err(error) ==> error.misses(text@) && error.is_outcome_of(text@),
    {
        let negation = text.len() > 0 && text[0] == DASH;
        let at: usize = if negation {
            1
        } else {
            0
        };
        let parsed = FieldsStruct::parse(text, at);
        proof {
            assert forall|selector: Selector|
                selector.valid() && #[trigger] selector.text() == text@ implies struct_ends(
                text@,
                at as int,
                text@.len() as int,
            ) by {
                lemma_covers_is_text(selector, text@);
                assert(items_fit(selector.items, text@, at + 1));
            }
        }
        match parsed {
            Err(error) => Err(error),
            Ok((fields_struct, end)) => {
                if end == text.len() {
                    let fields = Fields { fields_struct, negation };
                    proof {
                        lemma_items_fit(fields.fields_struct.0.0@, text@, at + 1);
                        assert(fields.selector(text@).covers(text@));
                        lemma_covers_is_text(fields.selector(text@), text@);
                    }
                    Ok(fields)
                } else {
                    Err(Error { position: end, expected: Expected::End })
                }
            },
        }
    }

    /// Parse a whole string. See [`Fields::parse`].
    pub fn try_from(value: &str) -> (r: Result<Fields, Error>)
        ensures
            r is Ok <==> accepts(value.spec_bytes()),
            r matches Ok(fields) ==> {
                &&& fields.spans(value.spec_bytes())
                &&& fields.selector(value.spec_bytes()).valid()
                &&& fields.selector(value.spec_bytes()).text() == value.spec_bytes()
                &&& fields.negation == (value.spec_bytes()[0] == DASH)
            },
            r matches Err(error) ==> error.misses(value.spec_bytes()) && error.is_outcome_of(
                value.spec_bytes(),
            ),
    {
        Fields::parse(value.as_bytes())
    }
}

} // verus!
