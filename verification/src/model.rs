//! The trivia-carrying document tree the formatting engine works on.
//!
//! Every piece of text (keys, scalar tokens, comments, whitespace) is held as
//! UTF-8 bytes in a `Vec<u8>`; the unformatted layer converts between this
//! tree and its own document representation. Spec-level views mirror each
//! node type with `Seq`-based values.
use vstd::prelude::*;

verus! {

/// Trivia around a node: `prefix` is the text before it (comments, blank
/// lines, spaces), `suffix` the text after it on the same line.
#[derive(Debug, Clone, PartialEq, Eq)]
pub struct Decor {
    pub prefix: Vec<u8>,
    pub suffix: Vec<u8>,
}

pub struct DecorView {
    pub prefix: Seq<u8>,
    pub suffix: Seq<u8>,
}

impl View for Decor {
    type V = DecorView;

    open spec fn view(&self) -> DecorView {
        DecorView { prefix: self.prefix@, suffix: self.suffix@ }
    }
}

/// A scalar token. `repr` is the exact source text of the value; for string
/// scalars `content` is the parsed text the quotes delimit.
#[derive(Debug, Clone, PartialEq, Eq)]
pub struct Scalar {
    pub is_string: bool,
    pub content: Vec<u8>,
    pub repr: Vec<u8>,
}

pub struct ScalarView {
    pub is_string: bool,
    pub content: Seq<u8>,
    pub repr: Seq<u8>,
}

impl View for Scalar {
    type V = ScalarView;

    open spec fn view(&self) -> ScalarView {
        ScalarView { is_string: self.is_string, content: self.content@, repr: self.repr@ }
    }
}

/// A value: a scalar, an array, or an inline table, each carrying its decor.
#[derive(Debug, PartialEq, Eq)]
pub enum Value {
    Scalar { scalar: Scalar, decor: Decor },
    Arr { arr: Array },
    Inline { table: InlineTable },
}

/// An array of values plus the trivia between the last element and the
/// closing bracket; a leading newline there selects multi-line layout.
#[derive(Debug, PartialEq, Eq)]
pub struct Array {
    pub values: Vec<Value>,
    pub trailing: Vec<u8>,
    pub trailing_comma: bool,
    pub decor: Decor,
}

/// A single-line, brace-delimited table.
#[derive(Debug, PartialEq, Eq)]
pub struct InlineTable {
    pub entries: Vec<InlineEntry>,
    pub decor: Decor,
}

#[derive(Debug, PartialEq, Eq)]
pub struct InlineEntry {
    pub key: Vec<u8>,
    pub decor: Decor,
    pub value: Value,
}

pub enum ValueView {
    Scalar { scalar: ScalarView, decor: DecorView },
    Arr { arr: ArrayView },
    Inline { table: InlineView },
}

pub struct ArrayView {
    pub values: Seq<ValueView>,
    pub trailing: Seq<u8>,
    pub trailing_comma: bool,
    pub decor: DecorView,
}

pub struct InlineView {
    pub entries: Seq<InlineEntryView>,
    pub decor: DecorView,
}

pub struct InlineEntryView {
    pub key: Seq<u8>,
    pub decor: DecorView,
    pub value: ValueView,
}

pub open spec fn value_view(v: Value) -> ValueView
    decreases v,
{
    match v {
        Value::Scalar { scalar, decor } => ValueView::Scalar { scalar: scalar@, decor: decor@ },
        Value::Arr { arr } => ValueView::Arr { arr: array_view(arr) },
        Value::Inline { table } => ValueView::Inline { table: inline_view(table) },
    }
}

pub open spec fn values_view(s: Seq<Value>) -> Seq<ValueView>
    decreases s,
{
    if s.len() == 0 {
        Seq::empty()
    } else {
        seq![value_view(s[0])] + values_view(s.subrange(1, s.len() as int))
    }
}

pub open spec fn array_view(a: Array) -> ArrayView
    decreases a,
{
    ArrayView {
        values: values_view(a.values@),
        trailing: a.trailing@,
        trailing_comma: a.trailing_comma,
        decor: a.decor@,
    }
}

pub open spec fn inline_entry_view(e: InlineEntry) -> InlineEntryView
    decreases e,
{
    InlineEntryView { key: e.key@, decor: e.decor@, value: value_view(e.value) }
}

pub open spec fn inline_entries_view(s: Seq<InlineEntry>) -> Seq<InlineEntryView>
    decreases s,
{
    if s.len() == 0 {
        Seq::empty()
    } else {
        seq![inline_entry_view(s[0])] + inline_entries_view(s.subrange(1, s.len() as int))
    }
}

pub open spec fn inline_view(t: InlineTable) -> InlineView
    decreases t,
{
    InlineView { entries: inline_entries_view(t.entries@), decor: t.decor@ }
}

impl View for Value {
    type V = ValueView;

    open spec fn view(&self) -> ValueView {
        value_view(*self)
    }
}

impl View for Array {
    type V = ArrayView;

    open spec fn view(&self) -> ArrayView {
        array_view(*self)
    }
}

impl View for InlineTable {
    type V = InlineView;

    open spec fn view(&self) -> InlineView {
        inline_view(*self)
    }
}

impl View for InlineEntry {
    type V = InlineEntryView;

    open spec fn view(&self) -> InlineEntryView {
        inline_entry_view(*self)
    }
}

/// What a table key maps to.
#[derive(Debug, PartialEq, Eq)]
pub enum Item {
    /// A placeholder entry carrying no value.
    Nothing,
    Val { value: Value },
    Tab { table: Table },
    /// A repeated-table array, passed through unmodified; the handle is
    /// whatever identifier the caller uses to find the original again.
    ArrayOfTables { handle: u64 },
}

/// An ordered table. Entry order and per-key decor are load-bearing.
#[derive(Debug, PartialEq, Eq)]
pub struct Table {
    pub entries: Vec<TableEntry>,
    pub decor: Decor,
}

#[derive(Debug, PartialEq, Eq)]
pub struct TableEntry {
    pub key: Vec<u8>,
    pub decor: Decor,
    pub item: Item,
}

pub enum ItemView {
    Nothing,
    Val { value: ValueView },
    Tab { table: TableView },
    ArrayOfTables { handle: u64 },
}

pub struct TableView {
    pub entries: Seq<TableEntryView>,
    pub decor: DecorView,
}

pub struct TableEntryView {
    pub key: Seq<u8>,
    pub decor: DecorView,
    pub item: ItemView,
}

pub open spec fn item_view(it: Item) -> ItemView
    decreases it,
{
    match it {
        Item::Nothing => ItemView::Nothing,
        Item::Val { value } => ItemView::Val { value: value_view(value) },
        Item::Tab { table } => ItemView::Tab { table: table_view(table) },
        Item::ArrayOfTables { handle } => ItemView::ArrayOfTables { handle },
    }
}

pub open spec fn table_entry_view(e: TableEntry) -> TableEntryView
    decreases e,
{
    TableEntryView { key: e.key@, decor: e.decor@, item: item_view(e.item) }
}

pub open spec fn table_entries_view(s: Seq<TableEntry>) -> Seq<TableEntryView>
    decreases s,
{
    if s.len() == 0 {
        Seq::empty()
    } else {
        seq![table_entry_view(s[0])] + table_entries_view(s.subrange(1, s.len() as int))
    }
}

pub open spec fn table_view(t: Table) -> TableView
    decreases t,
{
    TableView { entries: table_entries_view(t.entries@), decor: t.decor@ }
}

impl View for Item {
    type V = ItemView;

    open spec fn view(&self) -> ItemView {
        item_view(*self)
    }
}

impl View for Table {
    type V = TableView;

    open spec fn view(&self) -> TableView {
        table_view(*self)
    }
}

impl View for TableEntry {
    type V = TableEntryView;

    open spec fn view(&self) -> TableEntryView {
        table_entry_view(*self)
    }
}

/// A whole document: the root table plus the text after its last entry.
#[derive(Debug, PartialEq, Eq)]
pub struct Doc {
    pub root: Table,
    pub trailing: Vec<u8>,
}

pub struct DocView {
    pub root: TableView,
    pub trailing: Seq<u8>,
}

impl View for Doc {
    type V = DocView;

    open spec fn view(&self) -> DocView {
        DocView { root: table_view(self.root), trailing: self.trailing@ }
    }
}

/// Index lemma: the deep view of a value sequence maps index by index.
pub proof fn lemma_values_view_index(s: Seq<Value>)
    ensures
        values_view(s).len() == s.len(),
        forall|i: int| 0 <= i < s.len() ==> values_view(s)[i] == value_view(s[i]),
    decreases s.len(),
{
    if s.len() > 0 {
        lemma_values_view_index(s.subrange(1, s.len() as int));
    }
}

pub proof fn lemma_inline_entries_view_index(s: Seq<InlineEntry>)
    ensures
        inline_entries_view(s).len() == s.len(),
        forall|i: int|
            0 <= i < s.len() ==> inline_entries_view(s)[i] == inline_entry_view(s[i]),
    decreases s.len(),
{
    if s.len() > 0 {
        lemma_inline_entries_view_index(s.subrange(1, s.len() as int));
    }
}

pub proof fn lemma_table_entries_view_index(s: Seq<TableEntry>)
    ensures
        table_entries_view(s).len() == s.len(),
        forall|i: int| 0 <= i < s.len() ==> table_entries_view(s)[i] == table_entry_view(s[i]),
    decreases s.len(),
{
    if s.len() > 0 {
        lemma_table_entries_view_index(s.subrange(1, s.len() as int));
    }
}

} // verus!
