//! Stable sorting of table entries, inline-table entries and array values.
//!
//! Each sort is a stable insertion sort: an element is inserted after every
//! element it is not strictly less than, so equal elements keep their
//! original relative order.
use vstd::prelude::*;
use crate::config::key_lt;
use crate::config::ProcessedConfig;
use crate::model::InlineEntry;
use crate::model::InlineEntryView;
use crate::model::TableEntry;
use crate::model::TableEntryView;
use crate::model::Value;
use crate::model::ValueView;
use crate::model::lemma_table_entries_view_index;
use crate::model::lemma_inline_entries_view_index;
use crate::model::lemma_values_view_index;
use crate::model::table_entries_view;
use crate::model::inline_entries_view;
use crate::model::values_view;
use crate::model::value_view;
use crate::text::lex_lt;
use crate::text::lex_lt_exec;

verus! {

/// Order of two table entries: by key, under the table priority list.
pub open spec fn tbl_lt(names: Seq<Seq<u8>>, a: TableEntryView, b: TableEntryView) -> bool {
    key_lt(names, a.key, b.key)
}

/// Order of two inline-table entries: by key, under the inline priority list.
pub open spec fn inl_lt(names: Seq<Seq<u8>>, a: InlineEntryView, b: InlineEntryView) -> bool {
    key_lt(names, a.key, b.key)
}

pub open spec fn val_is_string(v: ValueView) -> bool {
    match v {
        ValueView::Scalar { scalar, .. } => scalar.is_string,
        _ => false,
    }
}

pub open spec fn val_content(v: ValueView) -> Seq<u8> {
    match v {
        ValueView::Scalar { scalar, .. } => scalar.content,
        _ => Seq::empty(),
    }
}

/// Order of two array values under string-array sorting: string values
/// come before all others, ordered by their content; everything else is
/// left alone.
pub open spec fn val_lt(a: ValueView, b: ValueView) -> bool {
    if val_is_string(a) {
        if val_is_string(b) {
            lex_lt(val_content(a), val_content(b))
        } else {
            true
        }
    } else {
        false
    }
}

pub open spec fn insert_tbl(names: Seq<Seq<u8>>, x: TableEntryView, s: Seq<TableEntryView>) -> Seq<
    TableEntryView,
>
    decreases s.len(),
{
    if s.len() == 0 {
        seq![x]
    } else if tbl_lt(names, x, s[0]) {
        seq![x] + s
    } else {
        seq![s[0]] + insert_tbl(names, x, s.subrange(1, s.len() as int))
    }
}

/// Stable insertion sort of table entries.
pub open spec fn sort_tbl(names: Seq<Seq<u8>>, s: Seq<TableEntryView>) -> Seq<TableEntryView>
    decreases s.len(),
{
    if s.len() == 0 {
        s
    } else {
        insert_tbl(names, s[s.len() - 1], sort_tbl(names, s.subrange(0, s.len() - 1)))
    }
}

pub open spec fn insert_inl(names: Seq<Seq<u8>>, x: InlineEntryView, s: Seq<InlineEntryView>) -> Seq<
    InlineEntryView,
>
    decreases s.len(),
{
    if s.len() == 0 {
        seq![x]
    } else if inl_lt(names, x, s[0]) {
        seq![x] + s
    } else {
        seq![s[0]] + insert_inl(names, x, s.subrange(1, s.len() as int))
    }
}

/// Stable insertion sort of inline-table entries.
pub open spec fn sort_inl(names: Seq<Seq<u8>>, s: Seq<InlineEntryView>) -> Seq<InlineEntryView>
    decreases s.len(),
{
    if s.len() == 0 {
        s
    } else {
        insert_inl(names, s[s.len() - 1], sort_inl(names, s.subrange(0, s.len() - 1)))
    }
}

pub open spec fn insert_val(x: ValueView, s: Seq<ValueView>) -> Seq<ValueView>
    decreases s.len(),
{
    if s.len() == 0 {
        seq![x]
    } else if val_lt(x, s[0]) {
        seq![x] + s
    } else {
        seq![s[0]] + insert_val(x, s.subrange(1, s.len() as int))
    }
}

/// Stable partition sort of array values: strings first, by content; the
/// rest keep their original order.
pub open spec fn sort_val(s: Seq<ValueView>) -> Seq<ValueView>
    decreases s.len(),
{
    if s.len() == 0 {
        s
    } else {
        insert_val(s[s.len() - 1], sort_val(s.subrange(0, s.len() - 1)))
    }
}

pub proof fn lemma_insert_tbl_at(names: Seq<Seq<u8>>, x: TableEntryView, s: Seq<TableEntryView>, j: int)
    requires
        0 <= j <= s.len(),
        forall|k: int| 0 <= k < j ==> !tbl_lt(names, x, s[k]),
        j < s.len() ==> tbl_lt(names, x, s[j]),
    ensures
        insert_tbl(names, x, s) == s.subrange(0, j) + seq![x] + s.subrange(j, s.len() as int),
    decreases s.len(),
{
    if s.len() == 0 {
        assert(insert_tbl(names, x, s) =~= s.subrange(0, j) + seq![x] + s.subrange(j, s.len() as int));
    } else if tbl_lt(names, x, s[0]) {
        assert(j == 0);
        assert(insert_tbl(names, x, s) =~= s.subrange(0, j) + seq![x] + s.subrange(j, s.len() as int));
    } else {
        assert(j >= 1);
        let t = s.subrange(1, s.len() as int);
        assert(forall|k: int| 0 <= k < j - 1 ==> t[k] == s[k + 1]);
        lemma_insert_tbl_at(names, x, t, j - 1);
        assert(insert_tbl(names, x, s) =~= s.subrange(0, j) + seq![x] + s.subrange(j, s.len() as int));
    }
}

pub proof fn lemma_insert_inl_at(names: Seq<Seq<u8>>, x: InlineEntryView, s: Seq<InlineEntryView>, j: int)
    requires
        0 <= j <= s.len(),
        forall|k: int| 0 <= k < j ==> !inl_lt(names, x, s[k]),
        j < s.len() ==> inl_lt(names, x, s[j]),
    ensures
        insert_inl(names, x, s) == s.subrange(0, j) + seq![x] + s.subrange(j, s.len() as int),
    decreases s.len(),
{
    if s.len() == 0 {
        assert(insert_inl(names, x, s) =~= s.subrange(0, j) + seq![x] + s.subrange(j, s.len() as int));
    } else if inl_lt(names, x, s[0]) {
        assert(j == 0);
        assert(insert_inl(names, x, s) =~= s.subrange(0, j) + seq![x] + s.subrange(j, s.len() as int));
    } else {
        assert(j >= 1);
        let t = s.subrange(1, s.len() as int);
        assert(forall|k: int| 0 <= k < j - 1 ==> t[k] == s[k + 1]);
        lemma_insert_inl_at(names, x, t, j - 1);
        assert(insert_inl(names, x, s) =~= s.subrange(0, j) + seq![x] + s.subrange(j, s.len() as int));
    }
}

pub proof fn lemma_insert_val_at(x: ValueView, s: Seq<ValueView>, j: int)
    requires
        0 <= j <= s.len(),
        forall|k: int| 0 <= k < j ==> !val_lt(x, s[k]),
        j < s.len() ==> val_lt(x, s[j]),
    ensures
        insert_val(x, s) == s.subrange(0, j) + seq![x] + s.subrange(j, s.len() as int),
    decreases s.len(),
{
    if s.len() == 0 {
        assert(insert_val(x, s) =~= s.subrange(0, j) + seq![x] + s.subrange(j, s.len() as int));
    } else if val_lt(x, s[0]) {
        assert(j == 0);
        assert(insert_val(x, s) =~= s.subrange(0, j) + seq![x] + s.subrange(j, s.len() as int));
    } else {
        assert(j >= 1);
        let t = s.subrange(1, s.len() as int);
        assert(forall|k: int| 0 <= k < j - 1 ==> t[k] == s[k + 1]);
        lemma_insert_val_at(x, t, j - 1);
        assert(insert_val(x, s) =~= s.subrange(0, j) + seq![x] + s.subrange(j, s.len() as int));
    }
}

pub proof fn lemma_sort_tbl_len(names: Seq<Seq<u8>>, s: Seq<TableEntryView>)
    ensures
        sort_tbl(names, s).len() == s.len(),
    decreases s.len(),
{
    if s.len() > 0 {
        lemma_sort_tbl_len(names, s.subrange(0, s.len() - 1));
        lemma_insert_len_tbl(names, s[s.len() - 1], sort_tbl(names, s.subrange(0, s.len() - 1)));
    }
}

proof fn lemma_insert_len_tbl(names: Seq<Seq<u8>>, x: TableEntryView, s: Seq<TableEntryView>)
    ensures
        insert_tbl(names, x, s).len() == s.len() + 1,
    decreases s.len(),
{
    if s.len() > 0 && !tbl_lt(names, x, s[0]) {
        lemma_insert_len_tbl(names, x, s.subrange(1, s.len() as int));
    }
}

pub proof fn lemma_sort_inl_len(names: Seq<Seq<u8>>, s: Seq<InlineEntryView>)
    ensures
        sort_inl(names, s).len() == s.len(),
    decreases s.len(),
{
    if s.len() > 0 {
        lemma_sort_inl_len(names, s.subrange(0, s.len() - 1));
        lemma_insert_len_inl(names, s[s.len() - 1], sort_inl(names, s.subrange(0, s.len() - 1)));
    }
}

proof fn lemma_insert_len_inl(names: Seq<Seq<u8>>, x: InlineEntryView, s: Seq<InlineEntryView>)
    ensures
        insert_inl(names, x, s).len() == s.len() + 1,
    decreases s.len(),
{
    if s.len() > 0 && !inl_lt(names, x, s[0]) {
        lemma_insert_len_inl(names, x, s.subrange(1, s.len() as int));
    }
}

pub proof fn lemma_sort_val_len(s: Seq<ValueView>)
    ensures
        sort_val(s).len() == s.len(),
    decreases s.len(),
{
    if s.len() > 0 {
        lemma_sort_val_len(s.subrange(0, s.len() - 1));
        lemma_insert_len_val(s[s.len() - 1], sort_val(s.subrange(0, s.len() - 1)));
    }
}

proof fn lemma_insert_len_val(x: ValueView, s: Seq<ValueView>)
    ensures
        insert_val(x, s).len() == s.len() + 1,
    decreases s.len(),
{
    if s.len() > 0 && !val_lt(x, s[0]) {
        lemma_insert_len_val(x, s.subrange(1, s.len() as int));
    }
}

/// Compare two array values as the string-array sort does.
pub fn val_lt_exec(a: &Value, b: &Value) -> (r: bool)
    ensures
        r == val_lt(value_view(*a), value_view(*b)),
{
    match a {
        Value::Scalar { scalar: sa, .. } => {
            if !sa.is_string {
                false
            } else {
                match b {
                    Value::Scalar { scalar: sb, .. } => {
                        if sb.is_string {
                            lex_lt_exec(&sa.content, &sb.content)
                        } else {
                            true
                        }
                    },
                    _ => true,
                }
            }
        },
        _ => false,
    }
}


/// First position in `out` whose entry is strictly greater than `x`.
fn find_pos_tbl(cfg: &ProcessedConfig, x: &TableEntry, out: &Vec<TableEntry>) -> (j: usize)
    ensures
        0 <= j <= out@.len(),
        forall|k: int|
            0 <= k < j ==> !tbl_lt(
                cfg@.keys,
                crate::model::table_entry_view(*x),
                table_entries_view(out@)[k],
            ),
        j < out@.len() ==> tbl_lt(
            cfg@.keys,
            crate::model::table_entry_view(*x),
            table_entries_view(out@)[j as int],
        ),
{
    proof {
        lemma_table_entries_view_index(out@);
    }
    let mut j: usize = 0;
    while j < out.len()
        invariant
            0 <= j <= out@.len(),
            table_entries_view(out@).len() == out@.len(),
            forall|k: int|
                0 <= k < out@.len() ==> table_entries_view(out@)[k]
                    == crate::model::table_entry_view(out@[k]),
            forall|k: int|
                0 <= k < j ==> !tbl_lt(
                    cfg@.keys,
                    crate::model::table_entry_view(*x),
                    table_entries_view(out@)[k],
                ),
        decreases out@.len() - j,
    {
        if cfg.key_lt_table(&x.key, &out[j].key) {
            return j;
        }
        j = j + 1;
    }
    j
}

/// First position in `out` whose entry is strictly greater than `x`.
fn find_pos_inl(cfg: &ProcessedConfig, x: &InlineEntry, out: &Vec<InlineEntry>) -> (j: usize)
    ensures
        0 <= j <= out@.len(),
        forall|k: int|
            0 <= k < j ==> !inl_lt(
                cfg@.inline_keys,
                crate::model::inline_entry_view(*x),
                inline_entries_view(out@)[k],
            ),
        j < out@.len() ==> inl_lt(
            cfg@.inline_keys,
            crate::model::inline_entry_view(*x),
            inline_entries_view(out@)[j as int],
        ),
{
    proof {
        lemma_inline_entries_view_index(out@);
    }
    let mut j: usize = 0;
    while j < out.len()
        invariant
            0 <= j <= out@.len(),
            inline_entries_view(out@).len() == out@.len(),
            forall|k: int|
                0 <= k < out@.len() ==> inline_entries_view(out@)[k]
                    == crate::model::inline_entry_view(out@[k]),
            forall|k: int|
                0 <= k < j ==> !inl_lt(
                    cfg@.inline_keys,
                    crate::model::inline_entry_view(*x),
                    inline_entries_view(out@)[k],
                ),
        decreases out@.len() - j,
    {
        if cfg.key_lt_inline(&x.key, &out[j].key) {
            return j;
        }
        j = j + 1;
    }
    j
}

/// First position in `out` whose value is strictly greater than `x`.
fn find_pos_val(x: &Value, out: &Vec<Value>) -> (j: usize)
    ensures
        0 <= j <= out@.len(),
        forall|k: int| 0 <= k < j ==> !val_lt(value_view(*x), values_view(out@)[k]),
        j < out@.len() ==> val_lt(value_view(*x), values_view(out@)[j as int]),
{
    proof {
        lemma_values_view_index(out@);
    }
    let mut j: usize = 0;
    while j < out.len()
        invariant
            0 <= j <= out@.len(),
            values_view(out@).len() == out@.len(),
            forall|k: int| 0 <= k < out@.len() ==> values_view(out@)[k] == value_view(out@[k]),
            forall|k: int| 0 <= k < j ==> !val_lt(value_view(*x), values_view(out@)[k]),
        decreases out@.len() - j,
    {
        if val_lt_exec(x, &out[j]) {
            return j;
        }
        j = j + 1;
    }
    j
}

/// Sort table entries of one section, stably, under the table priority list.
pub fn sort_table_entries(cfg: &ProcessedConfig, v: Vec<TableEntry>) -> (r: Vec<TableEntry>)
    ensures
        table_entries_view(r@) == sort_tbl(cfg@.keys, table_entries_view(v@)),
{
    let ghost v0 = v@;
    let ghost nv = cfg@.keys;
    let mut rest = v;
    let mut out: Vec<TableEntry> = Vec::new();
    proof {
        assert(v0.subrange(0, 0).len() == 0);
        assert(table_entries_view(out@) =~= sort_tbl(nv, table_entries_view(v0.subrange(0, 0))));
    }
    while rest.len() > 0
        invariant
            rest@.len() <= v0.len(),
            rest@ == v0.subrange(v0.len() - rest@.len(), v0.len() as int),
            table_entries_view(out@) == sort_tbl(
                nv,
                table_entries_view(v0.subrange(0, v0.len() - rest@.len())),
            ),
            nv == cfg@.keys,
        decreases rest@.len(),
    {
        let ghost n = v0.len() - rest@.len();
        let x = rest.remove(0);
        proof {
            assert(x == v0[n]);
            assert(rest@ =~= v0.subrange(n + 1, v0.len() as int));
            lemma_table_entries_view_index(out@);
        }
        let ghost outv = table_entries_view(out@);
        let ghost xv = crate::model::table_entry_view(x);
        let j = find_pos_tbl(cfg, &x, &out);
        proof {
            lemma_insert_tbl_at(nv, xv, outv, j as int);
        }
        out.insert(j, x);
        proof {
            lemma_table_entries_view_index(out@);
            assert(table_entries_view(out@) =~= outv.subrange(0, j as int) + seq![xv] + outv.subrange(
                j as int,
                outv.len() as int,
            ));
            let pre1 = v0.subrange(0, n + 1);
            assert(pre1.subrange(0, pre1.len() - 1) =~= v0.subrange(0, n));
            assert(pre1[pre1.len() - 1] == v0[n]);
            lemma_table_entries_view_index(pre1);
            let tv1 = table_entries_view(pre1);
            assert(tv1.subrange(0, tv1.len() - 1) =~= table_entries_view(v0.subrange(0, n))) by {
                lemma_table_entries_view_index(v0.subrange(0, n));
                assert(forall|k: int| 0 <= k < n ==> pre1[k] == v0.subrange(0, n)[k]);
            }
            assert(tv1[tv1.len() - 1] == xv);
            assert(sort_tbl(nv, tv1) == insert_tbl(nv, xv, sort_tbl(nv, tv1.subrange(0, tv1.len() - 1))));
            assert(table_entries_view(out@) == sort_tbl(nv, table_entries_view(v0.subrange(0, n + 1))));
        }
    }
    proof {
        assert(v0.subrange(0, v0.len() as int) =~= v0);
    }
    out
}

/// Sort inline-table entries, stably, under the inline priority list.
pub fn sort_inline_entries(cfg: &ProcessedConfig, v: Vec<InlineEntry>) -> (r: Vec<InlineEntry>)
    ensures
        inline_entries_view(r@) == sort_inl(cfg@.inline_keys, inline_entries_view(v@)),
{
    let ghost v0 = v@;
    let ghost nv = cfg@.inline_keys;
    let mut rest = v;
    let mut out: Vec<InlineEntry> = Vec::new();
    proof {
        assert(v0.subrange(0, 0).len() == 0);
        assert(inline_entries_view(out@) =~= sort_inl(nv, inline_entries_view(v0.subrange(0, 0))));
    }
    while rest.len() > 0
        invariant
            rest@.len() <= v0.len(),
            rest@ == v0.subrange(v0.len() - rest@.len(), v0.len() as int),
            inline_entries_view(out@) == sort_inl(
                nv,
                inline_entries_view(v0.subrange(0, v0.len() - rest@.len())),
            ),
            nv == cfg@.inline_keys,
        decreases rest@.len(),
    {
        let ghost n = v0.len() - rest@.len();
        let x = rest.remove(0);
        proof {
            assert(x == v0[n]);
            assert(rest@ =~= v0.subrange(n + 1, v0.len() as int));
            lemma_inline_entries_view_index(out@);
        }
        let ghost outv = inline_entries_view(out@);
        let ghost xv = crate::model::inline_entry_view(x);
        let j = find_pos_inl(cfg, &x, &out);
        proof {
            lemma_insert_inl_at(nv, xv, outv, j as int);
        }
        out.insert(j, x);
        proof {
            lemma_inline_entries_view_index(out@);
            assert(inline_entries_view(out@) =~= outv.subrange(0, j as int) + seq![xv] + outv.subrange(
                j as int,
                outv.len() as int,
            ));
            let pre1 = v0.subrange(0, n + 1);
            assert(pre1.subrange(0, pre1.len() - 1) =~= v0.subrange(0, n));
            assert(pre1[pre1.len() - 1] == v0[n]);
            lemma_inline_entries_view_index(pre1);
            let tv1 = inline_entries_view(pre1);
            assert(tv1.subrange(0, tv1.len() - 1) =~= inline_entries_view(v0.subrange(0, n))) by {
                lemma_inline_entries_view_index(v0.subrange(0, n));
                assert(forall|k: int| 0 <= k < n ==> pre1[k] == v0.subrange(0, n)[k]);
            }
            assert(tv1[tv1.len() - 1] == xv);
            assert(sort_inl(nv, tv1) == insert_inl(nv, xv, sort_inl(nv, tv1.subrange(0, tv1.len() - 1))));
            assert(inline_entries_view(out@) == sort_inl(nv, inline_entries_view(v0.subrange(0, n + 1))));
        }
    }
    proof {
        assert(v0.subrange(0, v0.len() as int) =~= v0);
    }
    out
}

/// Sort array values: the stable string partition.
pub fn sort_values(v: Vec<Value>) -> (r: Vec<Value>)
    ensures
        values_view(r@) == sort_val(values_view(v@)),
{
    let ghost v0 = v@;
    let mut rest = v;
    let mut out: Vec<Value> = Vec::new();
    proof {
        assert(v0.subrange(0, 0).len() == 0);
        assert(values_view(out@) =~= sort_val(values_view(v0.subrange(0, 0))));
    }
    while rest.len() > 0
        invariant
            rest@.len() <= v0.len(),
            rest@ == v0.subrange(v0.len() - rest@.len(), v0.len() as int),
            values_view(out@) == sort_val(values_view(v0.subrange(0, v0.len() - rest@.len()))),
        decreases rest@.len(),
    {
        let ghost n = v0.len() - rest@.len();
        let x = rest.remove(0);
        proof {
            assert(x == v0[n]);
            assert(rest@ =~= v0.subrange(n + 1, v0.len() as int));
            lemma_values_view_index(out@);
        }
        let ghost outv = values_view(out@);
        let ghost xv = value_view(x);
        let j = find_pos_val(&x, &out);
        proof {
            lemma_insert_val_at(xv, outv, j as int);
        }
        out.insert(j, x);
        proof {
            lemma_values_view_index(out@);
            assert(values_view(out@) =~= outv.subrange(0, j as int) + seq![xv] + outv.subrange(
                j as int,
                outv.len() as int,
            ));
            let pre1 = v0.subrange(0, n + 1);
            assert(pre1.subrange(0, pre1.len() - 1) =~= v0.subrange(0, n));
            assert(pre1[pre1.len() - 1] == v0[n]);
            lemma_values_view_index(pre1);
            let tv1 = values_view(pre1);
            assert(tv1.subrange(0, tv1.len() - 1) =~= values_view(v0.subrange(0, n))) by {
                lemma_values_view_index(v0.subrange(0, n));
                assert(forall|k: int| 0 <= k < n ==> pre1[k] == v0.subrange(0, n)[k]);
            }
            assert(tv1[tv1.len() - 1] == xv);
            assert(sort_val(tv1) == insert_val(xv, sort_val(tv1.subrange(0, tv1.len() - 1))));
            assert(values_view(out@) == sort_val(values_view(v0.subrange(0, n + 1))));
        }
    }
    proof {
        assert(v0.subrange(0, v0.len() as int) =~= v0);
    }
    out
}

} // verus!
