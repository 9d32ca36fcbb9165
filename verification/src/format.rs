//! The formatting engine: what each node of the tree becomes.
//!
//! The spec functions in this module are the authoritative statement of the
//! transformation; every executable formatting function is proved to return
//! exactly their value.
use vstd::prelude::*;
use crate::config::ConfigView;
use crate::config::ProcessedConfig;
use crate::model::Array;
use crate::model::Decor;
use crate::model::Doc;
use crate::model::InlineEntry;
use crate::model::InlineTable;
use crate::model::Item;
use crate::model::Scalar;
use crate::model::Table;
use crate::model::TableEntry;
use crate::model::Value;
use crate::model::array_view;
use crate::model::inline_entry_view;
use crate::model::inline_entries_view;
use crate::model::inline_view;
use crate::model::item_view;
use crate::model::lemma_inline_entries_view_index;
use crate::model::lemma_table_entries_view_index;
use crate::model::lemma_values_view_index;
use crate::model::table_entries_view;
use crate::model::table_entry_view;
use crate::model::table_view;
use crate::model::value_view;
use crate::model::values_view;
use crate::sorting::sort_inline_entries;
use crate::sorting::sort_table_entries;
use crate::sorting::sort_values;
use crate::sorting::lemma_sort_tbl_len;
use crate::text::TrimSet;
use crate::text::append_all;
use crate::text::contains;
use crate::text::copy_range;
use crate::text::starts_with;
use crate::text::trim;
use crate::model::ArrayView;
use crate::model::DecorView;
use crate::model::InlineEntryView;
use crate::model::InlineView;
use crate::model::ItemView;
use crate::model::ScalarView;
use crate::model::TableEntryView;
use crate::model::TableView;
use crate::model::ValueView;
use crate::sorting::sort_inl;
use crate::sorting::sort_tbl;
use crate::sorting::sort_val;
use crate::text::atn_set;
use crate::text::contains_byte;
use crate::text::nl_set;
use crate::text::starts_with_byte;
use crate::text::trim_back;
use crate::text::trim_both;
use crate::text::ws_set;

verus! {

/// One leading space before non-empty trivia, nothing before empty trivia.
pub open spec fn spaced(t: Seq<u8>) -> Seq<u8> {
    if t.len() == 0 {
        t
    } else {
        seq![32u8] + t
    }
}

/// Prefix decor of a formatted scalar: the trimmed original comment text,
/// re-wrapped, then exactly one space before the value token.
pub open spec fn norm_prefix(p: Seq<u8>) -> Seq<u8> {
    spaced(trim_both(ws_set(), p)) + seq![32u8]
}

/// Suffix decor of a formatted scalar: the trimmed original trailing text,
/// re-wrapped, plus one closing space when the value is the last of its
/// container.
pub open spec fn norm_suffix(s: Seq<u8>, last: bool) -> Seq<u8> {
    if last {
        spaced(trim_both(ws_set(), s)) + seq![32u8]
    } else {
        spaced(trim_both(ws_set(), s))
    }
}

pub open spec fn strip_front_quote(r: Seq<u8>) -> Seq<u8> {
    if starts_with_byte(r, 39) {
        r.subrange(1, r.len() as int)
    } else {
        r
    }
}

pub open spec fn strip_back_quote(r: Seq<u8>) -> Seq<u8> {
    if r.len() > 0 && r[r.len() - 1] == 39 {
        r.subrange(0, r.len() - 1)
    } else {
        r
    }
}

/// Does the quote-normalization rewrite apply to this token text?
/// It must be delimited by a single quote, not start with a doubled single
/// quote (a raw or multi-line marker), and contain no backslash and no
/// double quote (which would need escaping).
pub open spec fn requotable(r: Seq<u8>) -> bool {
    &&& starts_with_byte(r, 39)
    &&& !(r.len() >= 2 && r[0] == 39 && r[1] == 39)
    &&& !contains_byte(r, 92)
    &&& !contains_byte(r, 34)
}

/// Quote normalization of one scalar token: a plain single-quoted string is
/// rewritten to double-quote delimiting; anything else is left unchanged.
pub open spec fn requote(s: ScalarView) -> ScalarView {
    if requotable(s.repr) {
        let inner = strip_back_quote(strip_front_quote(s.repr));
        ScalarView { is_string: true, content: inner, repr: seq![34u8] + inner + seq![34u8] }
    } else {
        s
    }
}

/// A formatted scalar value.
pub open spec fn fmt_scalar(s: ScalarView, d: DecorView, last: bool) -> ValueView {
    ValueView::Scalar {
        scalar: requote(s),
        decor: DecorView { prefix: norm_prefix(d.prefix), suffix: norm_suffix(d.suffix, last) },
    }
}

/// The outer decor of a value.
pub open spec fn vdecor(v: ValueView) -> DecorView {
    match v {
        ValueView::Scalar { decor, .. } => decor,
        ValueView::Arr { arr } => arr.decor,
        ValueView::Inline { table } => table.decor,
    }
}

/// The same value with its outer decor replaced.
pub open spec fn with_decor(v: ValueView, d: DecorView) -> ValueView {
    match v {
        ValueView::Scalar { scalar, .. } => ValueView::Scalar { scalar, decor: d },
        ValueView::Arr { arr } => ValueView::Arr { arr: ArrayView { decor: d, ..arr } },
        ValueView::Inline { table } => ValueView::Inline {
            table: InlineView { decor: d, ..table },
        },
    }
}

/// The same value with one space appended to its suffix decor: the closing
/// space a value receives when it stands last in its container.
pub open spec fn push_space_suffix(v: ValueView) -> ValueView {
    with_decor(
        v,
        DecorView { prefix: vdecor(v).prefix, suffix: vdecor(v).suffix + seq![32u8] },
    )
}

/// Prefix of one element of a multi-line array: newline and indent, with a
/// trimmed pre-existing comment wrapped between two such pairs.
pub open spec fn ml_prefix(p: Seq<u8>) -> Seq<u8> {
    let c = trim_both(atn_set(), p);
    if c.len() == 0 {
        seq![10u8, 9u8]
    } else {
        seq![10u8, 9u8] + c + seq![10u8, 9u8]
    }
}

/// Outer decor of a formatted array or inline table: one leading space, and
/// a trailing space only when it is last in its container.
pub open spec fn outer_decor(last: bool) -> DecorView {
    DecorView {
        prefix: seq![32u8],
        suffix: if last {
            seq![32u8]
        } else {
            Seq::empty()
        },
    }
}

/// A formatted value.
pub open spec fn fmt_value(cfg: ConfigView, v: ValueView, last: bool) -> ValueView
    decreases v, 0int,
{
    match v {
        ValueView::Scalar { scalar, decor } => fmt_scalar(scalar, decor, last),
        ValueView::Arr { arr } => ValueView::Arr { arr: fmt_array(cfg, arr, last) },
        ValueView::Inline { table } => ValueView::Inline { table: fmt_inline(cfg, table, last) },
    }
}

/// Elementwise formatting of array values, none of them last.
pub open spec fn fmt_vals(cfg: ConfigView, s: Seq<ValueView>) -> Seq<ValueView>
    decreases s, 0int,
{
    if s.len() == 0 {
        s
    } else {
        seq![fmt_value(cfg, s[0], false)] + fmt_vals(cfg, s.subrange(1, s.len() as int))
    }
}

/// One element of a multi-line array: formatted, then re-decorated from its
/// own original trivia.
pub open spec fn ml_elem(cfg: ConfigView, v: ValueView) -> ValueView
    decreases v, 1int,
{
    with_decor(
        fmt_value(cfg, v, false),
        DecorView {
            prefix: ml_prefix(vdecor(v).prefix),
            suffix: trim_both(atn_set(), vdecor(v).suffix),
        },
    )
}

pub open spec fn ml_elems(cfg: ConfigView, s: Seq<ValueView>) -> Seq<ValueView>
    decreases s, 0int,
{
    if s.len() == 0 {
        s
    } else {
        seq![ml_elem(cfg, s[0])] + ml_elems(cfg, s.subrange(1, s.len() as int))
    }
}

/// The last element of a sequence of values receives the closing space.
pub open spec fn space_last(s: Seq<ValueView>) -> Seq<ValueView> {
    if s.len() == 0 {
        s
    } else {
        s.update(s.len() - 1, push_space_suffix(s[s.len() - 1]))
    }
}

/// A formatted array. The trailing trivia of the input decides the layout:
/// multi-line when it begins with a newline, inline otherwise.
pub open spec fn fmt_array(cfg: ConfigView, a: ArrayView, last: bool) -> ArrayView
    decreases a, 0int,
{
    if starts_with_byte(a.trailing, 10) {
        let elems = ml_elems(cfg, a.values);
        let elems2 = if cfg.sort_string_arrays {
            sort_val(elems)
        } else {
            elems
        };
        ArrayView {
            values: elems2,
            trailing: a.trailing,
            trailing_comma: true,
            decor: outer_decor(last),
        }
    } else {
        let elems = fmt_vals(cfg, a.values);
        let elems2 = if cfg.sort_string_arrays {
            sort_val(elems)
        } else {
            elems
        };
        ArrayView {
            values: space_last(elems2),
            trailing: Seq::empty(),
            trailing_comma: false,
            decor: outer_decor(last),
        }
    }
}

/// One formatted inline-table entry: key decor becomes exactly one leading
/// and one trailing space, the value is formatted as a non-last element.
pub open spec fn fmt_ientry(cfg: ConfigView, e: InlineEntryView) -> InlineEntryView
    decreases e, 0int,
{
    InlineEntryView {
        key: e.key,
        decor: DecorView { prefix: seq![32u8], suffix: seq![32u8] },
        value: fmt_value(cfg, e.value, false),
    }
}

pub open spec fn fmt_ientries(cfg: ConfigView, s: Seq<InlineEntryView>) -> Seq<InlineEntryView>
    decreases s, 0int,
{
    if s.len() == 0 {
        s
    } else {
        seq![fmt_ientry(cfg, s[0])] + fmt_ientries(cfg, s.subrange(1, s.len() as int))
    }
}

/// The final entry's value receives the closing-brace space.
pub open spec fn space_last_entry(s: Seq<InlineEntryView>) -> Seq<InlineEntryView> {
    if s.len() == 0 {
        s
    } else {
        let e = s[s.len() - 1];
        s.update(s.len() - 1, InlineEntryView { value: push_space_suffix(e.value), ..e })
    }
}

/// A formatted inline table: entries formatted, sorted under the inline
/// priority list, the last value given its closing space.
pub open spec fn fmt_inline(cfg: ConfigView, t: InlineView, last: bool) -> InlineView
    decreases t, 0int,
{
    InlineView {
        entries: space_last_entry(sort_inl(cfg.inline_keys, fmt_ientries(cfg, t.entries))),
        decor: outer_decor(last),
    }
}

/// A formatted table item. Array-of-tables items pass through unmodified.
pub open spec fn fmt_item(cfg: ConfigView, it: ItemView) -> ItemView
    decreases it, 0int,
{
    match it {
        ItemView::Nothing => ItemView::Nothing,
        ItemView::Val { value } => ItemView::Val { value: fmt_value(cfg, value, false) },
        ItemView::Tab { table } => ItemView::Tab { table: fmt_table(cfg, table) },
        ItemView::ArrayOfTables { handle } => ItemView::ArrayOfTables { handle },
    }
}

/// Per-entry preprocessing of a table entry: the item is formatted and any
/// trailing newlines are stripped from the key's suffix decor.
pub open spec fn pre_entry(cfg: ConfigView, e: TableEntryView) -> TableEntryView
    decreases e, 0int,
{
    TableEntryView {
        key: e.key,
        decor: DecorView { prefix: e.decor.prefix, suffix: trim_back(nl_set(), e.decor.suffix) },
        item: fmt_item(cfg, e.item),
    }
}

pub open spec fn pre_entries(cfg: ConfigView, s: Seq<TableEntryView>) -> Seq<TableEntryView>
    decreases s, 0int,
{
    if s.len() == 0 {
        s
    } else {
        seq![pre_entry(cfg, s[0])] + pre_entries(cfg, s.subrange(1, s.len() as int))
    }
}

/// A section boundary: a key whose prefix decor starts with a blank line.
pub open spec fn is_boundary(e: TableEntryView) -> bool {
    starts_with_byte(e.decor.prefix, 10)
}

/// Length of the run of non-boundary entries at the front of `s`.
pub open spec fn run_plain(s: Seq<TableEntryView>) -> int
    decreases s.len(),
{
    if s.len() == 0 || is_boundary(s[0]) {
        0
    } else {
        1 + run_plain(s.subrange(1, s.len() as int))
    }
}

pub proof fn lemma_run_plain_bounds(s: Seq<TableEntryView>)
    ensures
        0 <= run_plain(s) <= s.len(),
    decreases s.len(),
{
    if s.len() > 0 && !is_boundary(s[0]) {
        lemma_run_plain_bounds(s.subrange(1, s.len() as int));
    }
}

pub open spec fn clear_prefix(e: TableEntryView) -> TableEntryView {
    TableEntryView { decor: DecorView { prefix: Seq::empty(), suffix: e.decor.suffix }, ..e }
}

pub open spec fn set_prefix(e: TableEntryView, p: Seq<u8>) -> TableEntryView {
    TableEntryView { decor: DecorView { prefix: p, suffix: e.decor.suffix }, ..e }
}

/// Emit one section: sort the entries (whose leading prefix has already
/// been detached), then reattach the section's leading trivia to whichever
/// entry sorted first.
pub open spec fn emit_section(
    names: Seq<Seq<u8>>,
    lead: Seq<u8>,
    cleared: Seq<TableEntryView>,
) -> Seq<TableEntryView> {
    let sorted = sort_tbl(names, cleared);
    if lead.len() == 0 {
        sorted
    } else if sorted.len() > 0 {
        sorted.update(0, set_prefix(sorted[0], lead))
    } else {
        sorted
    }
}

/// Format one section: detach the first entry's prefix as the section's
/// leading trivia, sort, reattach.
pub open spec fn fmt_section(names: Seq<Seq<u8>>, sec: Seq<TableEntryView>) -> Seq<TableEntryView> {
    if sec.len() == 0 {
        sec
    } else {
        emit_section(names, sec[0].decor.prefix, sec.update(0, clear_prefix(sec[0])))
    }
}

/// Split preprocessed entries into blank-line-delimited sections and format
/// each section independently, keeping the original section order.
pub open spec fn fmt_sections(names: Seq<Seq<u8>>, s: Seq<TableEntryView>) -> Seq<TableEntryView>
    decreases s.len(),
    via fmt_sections_dec
{
    if s.len() == 0 {
        s
    } else {
        let n = 1 + run_plain(s.subrange(1, s.len() as int));
        fmt_section(names, s.subrange(0, n)) + fmt_sections(names, s.subrange(n, s.len() as int))
    }
}

#[via_fn]
proof fn fmt_sections_dec(names: Seq<Seq<u8>>, s: Seq<TableEntryView>) {
    if s.len() > 0 {
        lemma_run_plain_bounds(s.subrange(1, s.len() as int));
    }
}

/// A formatted table: outer decor kept, entries preprocessed and sorted
/// section by section.
pub open spec fn fmt_table(cfg: ConfigView, t: TableView) -> TableView
    decreases t, 0int,
{
    TableView { entries: fmt_sections(cfg.keys, pre_entries(cfg, t.entries)), decor: t.decor }
}

/// Pointwise characterization of `fmt_vals`.
pub proof fn lemma_fmt_vals_index(cfg: ConfigView, s: Seq<ValueView>)
    ensures
        fmt_vals(cfg, s).len() == s.len(),
        forall|i: int| 0 <= i < s.len() ==> fmt_vals(cfg, s)[i] == fmt_value(cfg, s[i], false),
    decreases s.len(),
{
    if s.len() > 0 {
        lemma_fmt_vals_index(cfg, s.subrange(1, s.len() as int));
    }
}

/// Pointwise characterization of `ml_elems`.
pub proof fn lemma_ml_elems_index(cfg: ConfigView, s: Seq<ValueView>)
    ensures
        ml_elems(cfg, s).len() == s.len(),
        forall|i: int| 0 <= i < s.len() ==> ml_elems(cfg, s)[i] == ml_elem(cfg, s[i]),
    decreases s.len(),
{
    if s.len() > 0 {
        lemma_ml_elems_index(cfg, s.subrange(1, s.len() as int));
    }
}

/// Pointwise characterization of `fmt_ientries`.
pub proof fn lemma_fmt_ientries_index(cfg: ConfigView, s: Seq<InlineEntryView>)
    ensures
        fmt_ientries(cfg, s).len() == s.len(),
        forall|i: int| 0 <= i < s.len() ==> fmt_ientries(cfg, s)[i] == fmt_ientry(cfg, s[i]),
    decreases s.len(),
{
    if s.len() > 0 {
        lemma_fmt_ientries_index(cfg, s.subrange(1, s.len() as int));
    }
}

/// Pointwise characterization of `pre_entries`.
pub proof fn lemma_pre_entries_index(cfg: ConfigView, s: Seq<TableEntryView>)
    ensures
        pre_entries(cfg, s).len() == s.len(),
        forall|i: int| 0 <= i < s.len() ==> pre_entries(cfg, s)[i] == pre_entry(cfg, s[i]),
    decreases s.len(),
{
    if s.len() > 0 {
        lemma_pre_entries_index(cfg, s.subrange(1, s.len() as int));
    }
}

/// How `run_plain` behaves on a concatenation.
proof fn lemma_run_plain_concat(a: Seq<TableEntryView>, b: Seq<TableEntryView>)
    ensures
        run_plain(a + b) == if run_plain(a) == a.len() {
            a.len() + run_plain(b)
        } else {
            run_plain(a)
        },
    decreases a.len(),
{
    lemma_run_plain_bounds(a);
    if a.len() == 0 {
        assert(a + b =~= b);
    } else if !is_boundary(a[0]) {
        let t = a.subrange(1, a.len() as int);
        lemma_run_plain_concat(t, b);
        assert((a + b).subrange(1, (a + b).len() as int) =~= t + b);
    }
}

/// Sections are independent: entries after a section boundary never mix
/// with entries before it. Splitting at any boundary splits the output.
pub proof fn lemma_sections_split(
    names: Seq<Seq<u8>>,
    a: Seq<TableEntryView>,
    b: Seq<TableEntryView>,
)
    requires
        b.len() > 0,
        is_boundary(b[0]),
    ensures
        fmt_sections(names, a + b) == fmt_sections(names, a) + fmt_sections(names, b),
    decreases a.len(),
{
    if a.len() == 0 {
        assert(a + b =~= b);
        assert(fmt_sections(names, a).len() == 0);
        assert(fmt_sections(names, a) + fmt_sections(names, b) =~= fmt_sections(names, b));
    } else {
        let ab = a + b;
        let ta = a.subrange(1, a.len() as int);
        assert(ab.subrange(1, ab.len() as int) =~= ta + b);
        lemma_run_plain_concat(ta, b);
        lemma_run_plain_bounds(ta);
        let n = 1 + run_plain(ta + b);
        let na = 1 + run_plain(ta);
        if run_plain(ta) == ta.len() {
            // the first section of `ab` is exactly `a`
            assert(n == a.len());
            assert(ab.subrange(0, n) =~= a.subrange(0, na));
            assert(ab.subrange(n, ab.len() as int) =~= b);
            assert(a.subrange(na, a.len() as int).len() == 0);
            assert(fmt_sections(names, a) == fmt_section(names, a.subrange(0, na)) + fmt_sections(
                names,
                a.subrange(na, a.len() as int),
            ));
            assert(fmt_sections(names, a.subrange(na, a.len() as int)).len() == 0);
            assert(fmt_sections(names, a) =~= fmt_section(names, a.subrange(0, na)));
            assert(fmt_sections(names, ab) == fmt_section(names, ab.subrange(0, n)) + fmt_sections(
                names,
                b,
            ));
        } else {
            assert(n == na);
            assert(n <= a.len());
            assert(ab.subrange(0, n) =~= a.subrange(0, n));
            let resta = a.subrange(n, a.len() as int);
            assert(ab.subrange(n, ab.len() as int) =~= resta + b);
            lemma_sections_split(names, resta, b);
            assert((fmt_section(names, a.subrange(0, n)) + fmt_sections(names, resta)) + fmt_sections(
                names,
                b,
            ) =~= fmt_section(names, a.subrange(0, n)) + (fmt_sections(names, resta) + fmt_sections(
                names,
                b,
            )));
        }
    }
}

/// A sequence with no interior boundary is a single section.
pub proof fn lemma_sections_single(names: Seq<Seq<u8>>, sec: Seq<TableEntryView>)
    requires
        sec.len() > 0,
        forall|k: int| 1 <= k < sec.len() ==> !is_boundary(sec[k]),
    ensures
        fmt_sections(names, sec) == fmt_section(names, sec),
{
    let t = sec.subrange(1, sec.len() as int);
    assert(forall|k: int| 0 <= k < t.len() ==> t[k] == sec[k + 1]);
    lemma_run_plain_full(t);
    let n = 1 + run_plain(t);
    assert(n == sec.len());
    assert(sec.subrange(0, n) =~= sec);
    assert(sec.subrange(n, sec.len() as int).len() == 0);
    assert(fmt_sections(names, sec.subrange(n, sec.len() as int)).len() == 0);
    assert(fmt_sections(names, sec) =~= fmt_section(names, sec));
}

proof fn lemma_run_plain_full(s: Seq<TableEntryView>)
    requires
        forall|k: int| 0 <= k < s.len() ==> !is_boundary(s[k]),
    ensures
        run_plain(s) == s.len(),
    decreases s.len(),
{
    if s.len() > 0 {
        let t = s.subrange(1, s.len() as int);
        assert(forall|k: int| 0 <= k < t.len() ==> t[k] == s[k + 1]);
        lemma_run_plain_full(t);
    }
}

broadcast use vstd::std_specs::vec::axiom_vec_index_decreases;

fn ws_ts() -> (r: TrimSet)
    ensures
        r == ws_set(),
{
    TrimSet { space: true, tab: true, newline: true, carriage: true }
}

fn atn_ts() -> (r: TrimSet)
    ensures
        r == atn_set(),
{
    TrimSet { space: true, tab: true, newline: true, carriage: false }
}

fn nl_ts() -> (r: TrimSet)
    ensures
        r == nl_set(),
{
    TrimSet { space: false, tab: false, newline: true, carriage: false }
}

fn one_space() -> (r: Vec<u8>)
    ensures
        r@ == seq![32u8],
{
    let mut r: Vec<u8> = Vec::new();
    r.push(32u8);
    proof {
        assert(r@ =~= seq![32u8]);
    }
    r
}

/// A fresh vector with the same bytes.
fn copy_vec(s: &Vec<u8>) -> (r: Vec<u8>)
    ensures
        r@ == s@,
{
    let r = copy_range(s, 0, s.len());
    proof {
        assert(r@ =~= s@);
    }
    r
}

/// Wrap trimmed trivia: one leading space if non-empty, plus one trailing
/// space when asked for.
fn spaced_cat(t: Vec<u8>, trail: bool) -> (r: Vec<u8>)
    ensures
        trail ==> r@ == spaced(t@) + seq![32u8],
        !trail ==> r@ == spaced(t@),
{
    let mut r: Vec<u8> = Vec::new();
    if t.len() > 0 {
        r.push(32u8);
        append_all(&mut r, &t);
    }
    if trail {
        r.push(32u8);
    }
    proof {
        if trail {
            assert(r@ =~= spaced(t@) + seq![32u8]);
        } else {
            assert(r@ =~= spaced(t@));
        }
    }
    r
}

/// The multi-line element prefix built from the element's own trivia.
fn ml_prefix_exec(p: &Vec<u8>) -> (r: Vec<u8>)
    ensures
        r@ == ml_prefix(p@),
{
    let c = trim(p, atn_ts(), true, true);
    let mut r: Vec<u8> = Vec::new();
    r.push(10u8);
    r.push(9u8);
    if c.len() > 0 {
        append_all(&mut r, &c);
        r.push(10u8);
        r.push(9u8);
        proof {
            assert(r@ =~= seq![10u8, 9u8] + c@ + seq![10u8, 9u8]);
        }
    } else {
        proof {
            assert(r@ =~= seq![10u8, 9u8]);
        }
    }
    r
}

/// Quote normalization of one scalar token.
fn requote_exec(s: &Scalar) -> (r: Scalar)
    ensures
        r@ == requote(s@),
{
    let q1 = starts_with(&s.repr, 39);
    let q2 = s.repr.len() >= 2 && s.repr[0] == 39 && s.repr[1] == 39;
    let hasb = contains(&s.repr, 92);
    let hasd = contains(&s.repr, 34);
    if q1 && !q2 && !hasb && !hasd {
        let end = if s.repr.len() > 1 && s.repr[s.repr.len() - 1] == 39 {
            s.repr.len() - 1
        } else {
            s.repr.len()
        };
        let inner = copy_range(&s.repr, 1, end);
        proof {
            let fs = strip_front_quote(s.repr@);
            assert(fs =~= s.repr@.subrange(1, s.repr@.len() as int));
            assert(inner@ =~= strip_back_quote(fs));
        }
        let mut repr2: Vec<u8> = Vec::new();
        repr2.push(34u8);
        append_all(&mut repr2, &inner);
        repr2.push(34u8);
        proof {
            assert(repr2@ =~= seq![34u8] + inner@ + seq![34u8]);
        }
        Scalar { is_string: true, content: inner, repr: repr2 }
    } else {
        Scalar { is_string: s.is_string, content: copy_vec(&s.content), repr: copy_vec(&s.repr) }
    }
}

/// The outer decor of a value.
fn value_decor(v: &Value) -> (d: &Decor)
    ensures
        d@ == vdecor(value_view(*v)),
{
    match v {
        Value::Scalar { decor, .. } => decor,
        Value::Arr { arr } => &arr.decor,
        Value::Inline { table } => &table.decor,
    }
}

/// Replace the outer decor of a value.
fn set_decor_exec(v: Value, d: Decor) -> (r: Value)
    ensures
        value_view(r) == with_decor(value_view(v), d@),
{
    match v {
        Value::Scalar { scalar, decor: _ } => Value::Scalar { scalar, decor: d },
        Value::Arr { mut arr } => {
            arr.decor = d;
            Value::Arr { arr }
        },
        Value::Inline { mut table } => {
            table.decor = d;
            Value::Inline { table }
        },
    }
}

/// Append the closing space to the suffix decor of a value.
fn push_space_exec(v: Value) -> (r: Value)
    ensures
        value_view(r) == push_space_suffix(value_view(v)),
{
    let ghost v0 = v;
    match v {
        Value::Scalar { scalar, mut decor } => {
            decor.suffix.push(32u8);
            proof {
                assert(decor.suffix@ =~= vdecor(value_view(v0)).suffix + seq![32u8]);
            }
            Value::Scalar { scalar, decor }
        },
        Value::Arr { mut arr } => {
            arr.decor.suffix.push(32u8);
            proof {
                assert(arr.decor.suffix@ =~= vdecor(value_view(v0)).suffix + seq![32u8]);
            }
            Value::Arr { arr }
        },
        Value::Inline { mut table } => {
            table.decor.suffix.push(32u8);
            proof {
                assert(table.decor.suffix@ =~= vdecor(value_view(v0)).suffix + seq![32u8]);
            }
            Value::Inline { table }
        },
    }
}

/// Move every entry of `src` onto the end of `dst`.
fn append_entries(dst: &mut Vec<TableEntry>, src: Vec<TableEntry>)
    ensures
        final(dst)@ == old(dst)@ + src@,
{
    let ghost src0 = src@;
    let mut s = src;
    while s.len() > 0
        invariant
            dst@ + s@ == old(dst)@ + src0,
        decreases s@.len(),
    {
        let x = s.remove(0);
        dst.push(x);
        proof {
            assert(dst@ + s@ =~= old(dst)@ + src0);
        }
    }
    proof {
        assert(dst@ =~= dst@ + s@);
    }
}

impl ProcessedConfig {
    /// Normalize one value: composite values delegate to the array and
    /// inline-table formatters, scalars get their trivia and quoting
    /// normalized.
    pub fn format_value(&self, v: &Value, last: bool) -> (r: Value)
        ensures
            value_view(r) == fmt_value(self@, value_view(*v), last),
        decreases *v, 0int,
    {
        match v {
            Value::Scalar { scalar, decor } => {
                let p = spaced_cat(trim(&decor.prefix, ws_ts(), true, true), true);
                let sfx = spaced_cat(trim(&decor.suffix, ws_ts(), true, true), last);
                let s2 = requote_exec(scalar);
                let r = Value::Scalar { scalar: s2, decor: Decor { prefix: p, suffix: sfx } };
                proof {
                    assert(value_view(*v) == ValueView::Scalar { scalar: scalar@, decor: decor@ });
                    assert(value_view(r) == fmt_scalar(scalar@, decor@, last));
                }
                r
            },
            Value::Arr { arr } => {
                proof {
                    assert(decreases_to!(*v => *arr));
                }
                Value::Arr { arr: self.format_array(arr, last) }
            },
            Value::Inline { table } => {
                proof {
                    assert(decreases_to!(*v => *table));
                }
                Value::Inline { table: self.format_inline_table(table, last) }
            },
        }
    }

    /// Format an array. The input trailing trivia selects the layout once:
    /// multi-line when it begins with a newline, inline otherwise.
    fn format_array(&self, a: &Array, last: bool) -> (r: Array)
        ensures
            array_view(r) == fmt_array(self@, array_view(*a), last),
        decreases *a, 0int,
    {
        let ghost vs0 = a.values@;
        let multiline = starts_with(&a.trailing, 10);
        let mut fmtd: Vec<Value> = Vec::new();
        let mut i: usize = 0;
        proof {
            assert(vs0.subrange(0, 0).len() == 0);
            assert(values_view(fmtd@) =~= ml_elems(self@, values_view(vs0.subrange(0, 0))));
            assert(values_view(fmtd@) =~= fmt_vals(self@, values_view(vs0.subrange(0, 0))));
        }
        while i < a.values.len()
            invariant
                0 <= i <= vs0.len(),
                vs0 == a.values@,
                multiline == starts_with_byte(a.trailing@, 10),
                fmtd@.len() == i as int,
                multiline ==> values_view(fmtd@) == ml_elems(
                    self@,
                    values_view(vs0.subrange(0, i as int)),
                ),
                !multiline ==> values_view(fmtd@) == fmt_vals(
                    self@,
                    values_view(vs0.subrange(0, i as int)),
                ),
            decreases vs0.len() - i,
        {
            let ghost n = i as int;
            let ghost fo = fmtd@;
            let x = &a.values[i];
            proof {
                assert(*x == vs0[n]);
                assert(decreases_to!(*a => a.values));
                assert(decreases_to!(a.values => a.values@[n]));
                assert(decreases_to!(*a => *x));
            }
            let fx: Value;
            if multiline {
                let np = ml_prefix_exec(&value_decor(x).prefix);
                let ns = trim(&value_decor(x).suffix, atn_ts(), true, true);
                let fv = self.format_value(x, false);
                fx = set_decor_exec(fv, Decor { prefix: np, suffix: ns });
                proof {
                    assert(value_view(fx) == ml_elem(self@, value_view(vs0[n])));
                }
            } else {
                fx = self.format_value(x, false);
            }
            fmtd.push(fx);
            i = i + 1;
            proof {
                let cfgv = self@;
                let tn = vs0.subrange(0, n);
                let tn1 = vs0.subrange(0, n + 1);
                assert(fmtd@ =~= fo + seq![fx]);
                lemma_values_view_index(fmtd@);
                lemma_values_view_index(fo);
                assert(forall|k: int| 0 <= k < fo.len() ==> fmtd@[k] == fo[k]);
                lemma_values_view_index(tn);
                lemma_values_view_index(tn1);
                assert(forall|k: int| 0 <= k < n ==> tn1[k] == tn[k]);
                assert(values_view(tn1) =~= values_view(tn) + seq![value_view(vs0[n])]);
                assert(values_view(fo).len() == n);
                if multiline {
                    lemma_ml_elems_index(cfgv, values_view(tn));
                    lemma_ml_elems_index(cfgv, values_view(tn1));
                    assert forall|k: int| 0 <= k < n + 1 implies values_view(fmtd@)[k]
                        == ml_elems(cfgv, values_view(tn1))[k] by {
                        if k < n {
                            assert(values_view(fmtd@)[k] == value_view(fmtd@[k]));
                            assert(fmtd@[k] == fo[k]);
                            assert(values_view(fo)[k] == ml_elems(cfgv, values_view(tn))[k]);
                            assert(ml_elems(cfgv, values_view(tn))[k] == ml_elem(
                                cfgv,
                                values_view(tn)[k],
                            ));
                            assert(values_view(tn)[k] == value_view(tn[k]));
                            assert(values_view(tn1)[k] == value_view(tn1[k]));
                        } else {
                            assert(fmtd@[k] == fx);
                            assert(values_view(tn1)[k] == value_view(vs0[n]));
                        }
                    }
                    assert(values_view(fmtd@) =~= ml_elems(cfgv, values_view(tn1)));
                } else {
                    lemma_fmt_vals_index(cfgv, values_view(tn));
                    lemma_fmt_vals_index(cfgv, values_view(tn1));
                    assert forall|k: int| 0 <= k < n + 1 implies values_view(fmtd@)[k]
                        == fmt_vals(cfgv, values_view(tn1))[k] by {
                        if k < n {
                            assert(values_view(fmtd@)[k] == value_view(fmtd@[k]));
                            assert(fmtd@[k] == fo[k]);
                            assert(values_view(fo)[k] == fmt_vals(cfgv, values_view(tn))[k]);
                            assert(fmt_vals(cfgv, values_view(tn))[k] == fmt_value(
                                cfgv,
                                values_view(tn)[k],
                                false,
                            ));
                            assert(values_view(tn)[k] == value_view(tn[k]));
                            assert(values_view(tn1)[k] == value_view(tn1[k]));
                        } else {
                            assert(fmtd@[k] == fx);
                            assert(values_view(tn1)[k] == value_view(vs0[n]));
                        }
                    }
                    assert(values_view(fmtd@) =~= fmt_vals(cfgv, values_view(tn1)));
                }
            }
        }
        proof {
            assert(vs0.subrange(0, vs0.len() as int) =~= vs0);
        }
        let sorted = if self.sort_string_arrays {
            sort_values(fmtd)
        } else {
            fmtd
        };
        if multiline {
            let r = Array {
                values: sorted,
                trailing: copy_vec(&a.trailing),
                trailing_comma: true,
                decor: Decor {
                    prefix: one_space(),
                    suffix: if last {
                        one_space()
                    } else {
                        Vec::new()
                    },
                },
            };
            proof {
                assert(array_view(r).decor =~~= outer_decor(last));
                assert(array_view(r) =~~= fmt_array(self@, array_view(*a), last));
            }
            r
        } else {
            let mut vs = sorted;
            let ghost sv = values_view(vs@);
            if vs.len() > 0 {
                let ghost vold = vs@;
                let lastv = vs.remove(vs.len() - 1);
                let lastv2 = push_space_exec(lastv);
                vs.push(lastv2);
                proof {
                    assert(lastv == vold[vold.len() - 1]);
                    assert(vs@ =~= vold.subrange(0, vold.len() - 1) + seq![lastv2]);
                    lemma_values_view_index(vs@);
                    lemma_values_view_index(vold);
                    assert(forall|k: int| 0 <= k < vold.len() - 1 ==> vs@[k] == vold[k]);
                    assert(values_view(vs@) =~= space_last(sv));
                }
            } else {
                proof {
                    assert(values_view(vs@) =~= space_last(sv));
                }
            }
            let r = Array {
                values: vs,
                trailing: Vec::new(),
                trailing_comma: false,
                decor: Decor {
                    prefix: one_space(),
                    suffix: if last {
                        one_space()
                    } else {
                        Vec::new()
                    },
                },
            };
            proof {
                assert(array_view(r).decor =~~= outer_decor(last));
                assert(array_view(r) =~~= fmt_array(self@, array_view(*a), last));
            }
            r
        }
    }

    /// Format an inline table: entries re-spaced, sorted under the inline
    /// priority list, the last value given the closing-brace space.
    pub fn format_inline_table(&self, t: &InlineTable, last: bool) -> (r: InlineTable)
        ensures
            inline_view(r) == fmt_inline(self@, inline_view(*t), last),
        decreases *t, 0int,
    {
        let ghost es0 = t.entries@;
        let mut fmtd: Vec<InlineEntry> = Vec::new();
        let mut i: usize = 0;
        proof {
            assert(es0.subrange(0, 0).len() == 0);
            assert(inline_entries_view(fmtd@) =~= fmt_ientries(
                self@,
                inline_entries_view(es0.subrange(0, 0)),
            ));
        }
        while i < t.entries.len()
            invariant
                0 <= i <= es0.len(),
                es0 == t.entries@,
                inline_entries_view(fmtd@) == fmt_ientries(
                    self@,
                    inline_entries_view(es0.subrange(0, i as int)),
                ),
            decreases es0.len() - i,
        {
            let ghost n = i as int;
            let ghost fo = fmtd@;
            let e = &t.entries[i];
            proof {
                assert(*e == es0[n]);
                assert(decreases_to!(*t => t.entries));
                assert(decreases_to!(t.entries => t.entries@[n]));
                assert(decreases_to!(es0[n] => es0[n].value));
                assert(decreases_to!(*t => e.value));
            }
            let fv = self.format_value(&e.value, false);
            let fe = InlineEntry {
                key: copy_vec(&e.key),
                decor: Decor { prefix: one_space(), suffix: one_space() },
                value: fv,
            };
            proof {
                assert(inline_entry_view(fe) == fmt_ientry(self@, inline_entry_view(es0[n])));
            }
            fmtd.push(fe);
            i = i + 1;
            proof {
                let cfgv = self@;
                let tn = es0.subrange(0, n);
                let tn1 = es0.subrange(0, n + 1);
                assert(fmtd@ =~= fo + seq![fe]);
                lemma_inline_entries_view_index(fmtd@);
                lemma_inline_entries_view_index(fo);
                assert(forall|k: int| 0 <= k < fo.len() ==> fmtd@[k] == fo[k]);
                lemma_inline_entries_view_index(tn);
                lemma_inline_entries_view_index(tn1);
                assert(forall|k: int| 0 <= k < n ==> tn1[k] == tn[k]);
                assert(inline_entries_view(tn1) =~= inline_entries_view(tn) + seq![
                    inline_entry_view(es0[n]),
                ]);
                lemma_fmt_ientries_index(cfgv, inline_entries_view(tn));
                lemma_fmt_ientries_index(cfgv, inline_entries_view(tn1));
                assert(inline_entries_view(fo).len() == n);
                assert forall|k: int| 0 <= k < n + 1 implies inline_entries_view(fmtd@)[k]
                    == fmt_ientries(cfgv, inline_entries_view(tn1))[k] by {
                    if k < n {
                        assert(inline_entries_view(fmtd@)[k] == inline_entry_view(fmtd@[k]));
                        assert(fmtd@[k] == fo[k]);
                        assert(inline_entries_view(fo)[k] == fmt_ientries(
                            cfgv,
                            inline_entries_view(tn),
                        )[k]);
                        assert(fmt_ientries(cfgv, inline_entries_view(tn))[k] == fmt_ientry(
                            cfgv,
                            inline_entries_view(tn)[k],
                        ));
                        assert(inline_entries_view(tn)[k] == inline_entry_view(tn[k]));
                        assert(inline_entries_view(tn1)[k] == inline_entry_view(tn1[k]));
                    } else {
                        assert(fmtd@[k] == fe);
                        assert(inline_entries_view(tn1)[k] == inline_entry_view(es0[n]));
                    }
                }
                assert(inline_entries_view(fmtd@) =~= fmt_ientries(cfgv, inline_entries_view(tn1)));
            }
        }
        proof {
            assert(es0.subrange(0, es0.len() as int) =~= es0);
        }
        let mut es = sort_inline_entries(self, fmtd);
        let ghost sv = inline_entries_view(es@);
        let ghost eold = es@;
        if es.len() > 0 {
            let le = es.remove(es.len() - 1);
            let InlineEntry { key, decor, value } = le;
            let fe = InlineEntry { key, decor, value: push_space_exec(value) };
            es.push(fe);
            proof {
                assert(le == eold[eold.len() - 1]);
                assert(es@ =~= eold.subrange(0, eold.len() - 1) + seq![fe]);
                lemma_inline_entries_view_index(es@);
                lemma_inline_entries_view_index(eold);
                assert(forall|k: int| 0 <= k < eold.len() - 1 ==> es@[k] == eold[k]);
                assert(inline_entry_view(fe) == InlineEntryView {
                    value: push_space_suffix(inline_entry_view(le).value),
                    ..inline_entry_view(le)
                });
                assert(inline_entries_view(es@) =~= space_last_entry(sv));
            }
        } else {
            proof {
                assert(inline_entries_view(es@) =~= space_last_entry(sv));
            }
        }
        let r = InlineTable {
            entries: es,
            decor: Decor {
                prefix: one_space(),
                suffix: if last {
                    one_space()
                } else {
                    Vec::new()
                },
            },
        };
        proof {
            assert(inline_view(r).decor =~~= outer_decor(last));
            assert(inline_view(r) =~~= fmt_inline(self@, inline_view(*t), last));
        }
        r
    }

    /// Format one table item; array-of-tables items pass through unmodified.
    fn format_item(&self, it: &Item) -> (r: Item)
        ensures
            item_view(r) == fmt_item(self@, item_view(*it)),
        decreases *it, 0int,
    {
        match it {
            Item::Nothing => Item::Nothing,
            Item::Val { value } => {
                Item::Val { value: self.format_value(value, false) }
            },
            Item::Tab { table } => {
                Item::Tab { table: self.format_table(table) }
            },
            Item::ArrayOfTables { handle } => Item::ArrayOfTables { handle: *handle },
        }
    }

    /// Emit one finished section onto `out`: sort it and reattach the
    /// section's leading trivia to the entry that sorted first.
    fn flush_section(&self, out: &mut Vec<TableEntry>, cur: Vec<TableEntry>, lead: Vec<u8>)
        ensures
            table_entries_view(final(out)@) == table_entries_view(old(out)@) + emit_section(
                self@.keys,
                lead@,
                table_entries_view(cur@),
            ),
    {
        let ghost curv = table_entries_view(cur@);
        let ghost outv0 = table_entries_view(out@);
        let mut sorted = sort_table_entries(self, cur);
        let ghost sold = sorted@;
        let ghost sortedv = table_entries_view(sorted@);
        if lead.len() > 0 && sorted.len() > 0 {
            let first = sorted.remove(0);
            let TableEntry { key, decor, item } = first;
            let fe = TableEntry { key, decor: Decor { prefix: lead, suffix: decor.suffix }, item };
            sorted.insert(0, fe);
            proof {
                assert(first == sold[0]);
                assert(sorted@ =~= sold.update(0, fe));
                lemma_table_entries_view_index(sorted@);
                lemma_table_entries_view_index(sold);
                assert(forall|k: int| 1 <= k < sold.len() ==> sorted@[k] == sold[k]);
                assert(table_entry_view(fe) == set_prefix(sortedv[0], lead@));
                assert(table_entries_view(sorted@) =~= sortedv.update(
                    0,
                    set_prefix(sortedv[0], lead@),
                ));
            }
        }
        let ghost emitted = table_entries_view(sorted@);
        let ghost sfinal = sorted@;
        proof {
            assert(emitted == emit_section(self@.keys, lead@, curv));
        }
        append_entries(out, sorted);
        proof {
            assert(out@ == old(out)@ + sfinal);
            lemma_table_entries_view_index(out@);
            lemma_table_entries_view_index(old(out)@);
            lemma_table_entries_view_index(sfinal);
            assert(forall|k: int| 0 <= k < old(out)@.len() ==> out@[k] == old(out)@[k]);
            assert(forall|k: int| 0 <= k < sfinal.len() ==> out@[old(out)@.len() + k] == sfinal[k]);
            assert(table_entries_view(out@) =~= outv0 + emitted);
        }
    }

    /// Format a table: each entry's item is formatted (nested tables
    /// recursively), trailing newlines are stripped from key suffixes, and
    /// the entries are sorted section by section, where a section boundary
    /// is a key whose prefix trivia starts with a blank line.
    pub fn format_table(&self, t: &Table) -> (r: Table)
        ensures
            table_view(r) == fmt_table(self@, table_view(*t)),
        decreases *t, 0int,
    {
        let ghost es0 = t.entries@;
        let mut pre: Vec<TableEntry> = Vec::new();
        let mut i: usize = 0;
        proof {
            assert(es0.subrange(0, 0).len() == 0);
            assert(table_entries_view(pre@) =~= pre_entries(
                self@,
                table_entries_view(es0.subrange(0, 0)),
            ));
        }
        while i < t.entries.len()
            invariant
                0 <= i <= es0.len(),
                es0 == t.entries@,
                table_entries_view(pre@) == pre_entries(
                    self@,
                    table_entries_view(es0.subrange(0, i as int)),
                ),
            decreases es0.len() - i,
        {
            let ghost n = i as int;
            let ghost fo = pre@;
            let e = &t.entries[i];
            proof {
                assert(*e == es0[n]);
                assert(decreases_to!(*t => t.entries));
                assert(decreases_to!(t.entries => t.entries@[n]));
                assert(decreases_to!(es0[n] => es0[n].item));
                assert(decreases_to!(*t => e.item));
            }
            let nsfx = trim(&e.decor.suffix, nl_ts(), false, true);
            let nitem = self.format_item(&e.item);
            let fe = TableEntry {
                key: copy_vec(&e.key),
                decor: Decor { prefix: copy_vec(&e.decor.prefix), suffix: nsfx },
                item: nitem,
            };
            proof {
                assert(table_entry_view(fe) == pre_entry(self@, table_entry_view(es0[n])));
            }
            pre.push(fe);
            i = i + 1;
            proof {
                let cfgv = self@;
                let tn = es0.subrange(0, n);
                let tn1 = es0.subrange(0, n + 1);
                assert(pre@ =~= fo + seq![fe]);
                lemma_table_entries_view_index(pre@);
                lemma_table_entries_view_index(fo);
                assert(forall|k: int| 0 <= k < fo.len() ==> pre@[k] == fo[k]);
                lemma_table_entries_view_index(tn);
                lemma_table_entries_view_index(tn1);
                assert(forall|k: int| 0 <= k < n ==> tn1[k] == tn[k]);
                assert(table_entries_view(tn1) =~= table_entries_view(tn) + seq![
                    table_entry_view(es0[n]),
                ]);
                lemma_pre_entries_index(cfgv, table_entries_view(tn));
                lemma_pre_entries_index(cfgv, table_entries_view(tn1));
                assert(table_entries_view(fo).len() == n);
                assert forall|k: int| 0 <= k < n + 1 implies table_entries_view(pre@)[k]
                    == pre_entries(cfgv, table_entries_view(tn1))[k] by {
                    if k < n {
                        assert(table_entries_view(pre@)[k] == table_entry_view(pre@[k]));
                        assert(pre@[k] == fo[k]);
                        assert(table_entries_view(fo)[k] == pre_entries(
                            cfgv,
                            table_entries_view(tn),
                        )[k]);
                        assert(pre_entries(cfgv, table_entries_view(tn))[k] == pre_entry(
                            cfgv,
                            table_entries_view(tn)[k],
                        ));
                        assert(table_entries_view(tn)[k] == table_entry_view(tn[k]));
                        assert(table_entries_view(tn1)[k] == table_entry_view(tn1[k]));
                    } else {
                        assert(pre@[k] == fe);
                        assert(table_entries_view(tn1)[k] == table_entry_view(es0[n]));
                    }
                }
                assert(table_entries_view(pre@) =~= pre_entries(cfgv, table_entries_view(tn1)));
            }
        }
        proof {
            assert(es0.subrange(0, es0.len() as int) =~= es0);
        }
        let ghost pre0 = pre@;
        let ghost pv = table_entries_view(pre0);
        let ghost nv = self@.keys;
        proof {
            lemma_table_entries_view_index(pre0);
        }
        let mut rest2 = pre;
        let mut out: Vec<TableEntry> = Vec::new();
        let mut cur: Vec<TableEntry> = Vec::new();
        let mut curlead: Vec<u8> = Vec::new();
        let ghost mut secstart: int = 0;
        proof {
            assert(table_entries_view(out@) =~= fmt_sections(nv, pv.subrange(0, 0)));
        }
        while rest2.len() > 0
            invariant
                rest2@.len() <= pre0.len(),
                pre0.len() == pv.len(),
                forall|k: int| 0 <= k < pv.len() ==> pv[k] == table_entry_view(pre0[k]),
                rest2@ == pre0.subrange(pre0.len() - rest2@.len(), pre0.len() as int),
                0 <= secstart <= pre0.len() - rest2@.len(),
                table_entries_view(out@) == fmt_sections(nv, pv.subrange(0, secstart)),
                secstart == 0 || is_boundary(pv[secstart]),
                secstart < pre0.len() - rest2@.len() ==> curlead@ == pv[secstart].decor.prefix,
                secstart < pre0.len() - rest2@.len() ==> table_entries_view(cur@) == pv.subrange(
                    secstart,
                    pre0.len() - rest2@.len(),
                ).update(0, clear_prefix(pv[secstart])),
                secstart < pre0.len() - rest2@.len() ==> (forall|k: int|
                    secstart < k < pre0.len() - rest2@.len() ==> !is_boundary(pv[k])),
                cur@.len() == 0 <==> secstart == pre0.len() - rest2@.len(),
                secstart == pre0.len() - rest2@.len() ==> secstart == 0,
                nv == self@.keys,
            decreases rest2@.len(),
        {
            let ghost n = pre0.len() - rest2@.len();
            let ghost co = cur@;
            let e = rest2.remove(0);
            proof {
                assert(e == pre0[n]);
                assert(rest2@ =~= pre0.subrange(n + 1, pre0.len() as int));
                assert(table_entry_view(e) == pv[n]);
            }
            let isb = starts_with(&e.decor.prefix, 10);
            if cur.len() == 0 {
                // the first entry of the table starts the first section
                let TableEntry { key, decor: ed, item } = e;
                curlead = ed.prefix;
                let ce = TableEntry {
                    key,
                    decor: Decor { prefix: Vec::new(), suffix: ed.suffix },
                    item,
                };
                cur.push(ce);
                proof {
                    assert(cur@ =~= seq![ce]);
                    lemma_table_entries_view_index(cur@);
                    assert(table_entries_view(cur@) =~= pv.subrange(n, n + 1).update(
                        0,
                        clear_prefix(pv[n]),
                    ));
                }
            } else if isb {
                // a blank-line prefix opens a new section: flush the current one
                proof {
                    assert(is_boundary(pv[n]));
                }
                let fcur = cur;
                let flead = curlead;
                let ghost fc = fcur@;
                self.flush_section(&mut out, fcur, flead);
                proof {
                    let sec = pv.subrange(secstart, n);
                    assert(sec[0] == pv[secstart]);
                    assert(table_entries_view(fc) == sec.update(0, clear_prefix(sec[0])));
                    assert(emit_section(nv, flead@, table_entries_view(fc)) == fmt_section(
                        nv,
                        sec,
                    ));
                    lemma_sections_single(nv, sec);
                    if secstart == 0 {
                        assert(pv.subrange(0, secstart).len() == 0);
                        assert(pv.subrange(0, secstart) + sec =~= sec);
                        assert(fmt_sections(nv, pv.subrange(0, secstart)).len() == 0);
                    } else {
                        lemma_sections_split(nv, pv.subrange(0, secstart), sec);
                    }
                    assert(pv.subrange(0, secstart) + sec =~= pv.subrange(0, n));
                    assert(table_entries_view(out@) =~= fmt_sections(nv, pv.subrange(0, n)));
                }
                cur = Vec::new();
                let TableEntry { key, decor: ed, item } = e;
                curlead = ed.prefix;
                let ce = TableEntry {
                    key,
                    decor: Decor { prefix: Vec::new(), suffix: ed.suffix },
                    item,
                };
                cur.push(ce);
                proof {
                    secstart = n;
                    assert(cur@ =~= seq![ce]);
                    lemma_table_entries_view_index(cur@);
                    assert(table_entries_view(cur@) =~= pv.subrange(n, n + 1).update(
                        0,
                        clear_prefix(pv[n]),
                    ));
                }
            } else {
                cur.push(e);
                proof {
                    assert(cur@ =~= co + seq![e]);
                    lemma_table_entries_view_index(cur@);
                    lemma_table_entries_view_index(co);
                    assert(forall|k: int| 0 <= k < co.len() ==> cur@[k] == co[k]);
                    assert(co.len() == n - secstart);
                    let goal = pv.subrange(secstart, n + 1).update(0, clear_prefix(pv[secstart]));
                    assert forall|k: int| 0 <= k < n + 1 - secstart implies table_entries_view(
                        cur@,
                    )[k] == goal[k] by {
                        if k < n - secstart {
                            assert(table_entries_view(cur@)[k] == table_entry_view(cur@[k]));
                            assert(cur@[k] == co[k]);
                            assert(table_entries_view(co)[k] == pv.subrange(secstart, n).update(
                                0,
                                clear_prefix(pv[secstart]),
                            )[k]);
                        } else {
                            assert(cur@[k] == e);
                            assert(goal[k] == pv[n]);
                        }
                    }
                    assert(table_entries_view(cur@) =~= goal);
                }
            }
        }
        if cur.len() > 0 {
            let ghost nend = pre0.len() as int;
            let fcur = cur;
            let flead = curlead;
            let ghost fc = fcur@;
            self.flush_section(&mut out, fcur, flead);
            proof {
                let sec = pv.subrange(secstart, nend);
                assert(sec[0] == pv[secstart]);
                assert(table_entries_view(fc) == sec.update(0, clear_prefix(sec[0])));
                assert(emit_section(nv, flead@, table_entries_view(fc)) == fmt_section(nv, sec));
                lemma_sections_single(nv, sec);
                if secstart == 0 {
                    assert(pv.subrange(0, secstart).len() == 0);
                    assert(pv.subrange(0, secstart) + sec =~= sec);
                    assert(fmt_sections(nv, pv.subrange(0, secstart)).len() == 0);
                } else {
                    lemma_sections_split(nv, pv.subrange(0, secstart), sec);
                }
                assert(pv.subrange(0, secstart) + sec =~= pv.subrange(0, nend));
                assert(table_entries_view(out@) =~= fmt_sections(nv, pv.subrange(0, nend)));
            }
        }
        proof {
            assert(pv.subrange(0, pv.len() as int) =~= pv);
            assert(table_entries_view(out@) == fmt_sections(nv, pv));
        }
        let r = Table { entries: out, decor: Decor {
            prefix: copy_vec(&t.decor.prefix),
            suffix: copy_vec(&t.decor.suffix),
        } };
        proof {
            assert(table_view(r) =~~= fmt_table(self@, table_view(*t)));
        }
        r
    }

    /// Format a whole document: the root table is transformed, the
    /// document's trailing trivia is kept verbatim.
    pub fn format_document(&self, d: &Doc) -> (r: Doc)
        ensures
            table_view(r.root) == fmt_table(self@, table_view(d.root)),
            r@.trailing == d@.trailing,
    {
        Doc { root: self.format_table(&d.root), trailing: copy_vec(&d.trailing) }
    }
}

} // verus!
