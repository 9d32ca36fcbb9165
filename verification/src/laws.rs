//! Stated and proved properties of the formatting engine.
use vstd::prelude::*;
use crate::config::ConfigView;
use crate::format::fmt_section;
use crate::format::fmt_sections;
use crate::format::fmt_table;
use crate::format::is_boundary;
use crate::format::pre_entries;
use crate::format::requotable;
use crate::format::requote;
use crate::format::lemma_sections_single;
use crate::format::lemma_sections_split;
use crate::format::clear_prefix;
use crate::format::set_prefix;
use crate::model::ScalarView;
use crate::model::TableEntryView;
use crate::sorting::insert_tbl;
use crate::sorting::sort_tbl;
use crate::sorting::tbl_lt;
use crate::sorting::inl_lt;
use crate::sorting::val_lt;
use crate::sorting::val_is_string;
use crate::sorting::val_content;
use crate::model::InlineEntryView;
use crate::model::ValueView;
use crate::sorting::lemma_insert_tbl_at;
use crate::sorting::lemma_insert_inl_at;
use crate::sorting::lemma_insert_val_at;
use crate::sorting::insert_inl;
use crate::sorting::insert_val;
use crate::sorting::sort_inl;
use crate::sorting::sort_val;
use crate::config::key_lt;
use crate::config::rank_of;
use crate::text::lex_lt;
use crate::text::contains_byte;
use crate::text::TrimSet;
use crate::text::in_set;
use crate::text::run_back;
use crate::text::trim_both;
use crate::text::trim_front;
use crate::text::trim_back;
use crate::text::lemma_run_front_bounds;
use crate::text::lemma_run_back_bounds;
use crate::text::lemma_run_front_is;
use crate::text::lemma_run_back_is;
use crate::text::ws_set;
use crate::format::fmt_scalar;
use crate::format::fmt_value;
use crate::format::norm_prefix;
use crate::format::norm_suffix;
use crate::format::spaced;
use crate::format::fmt_array;
use crate::format::fmt_inline;
use crate::format::ml_prefix;
use crate::format::push_space_suffix;
use crate::format::fmt_item;
use crate::format::pre_entry;
use crate::format::run_plain;
use crate::model::ItemView;
use crate::model::TableView;
use crate::text::nl_set;
use crate::format::vdecor;
use crate::format::with_decor;
use crate::format::ml_elem;
use crate::format::ml_elems;
use crate::format::fmt_vals;
use crate::format::fmt_ientries;
use crate::format::fmt_ientry;
use crate::format::space_last;
use crate::format::space_last_entry;
use crate::format::lemma_fmt_vals_index;
use crate::format::lemma_ml_elems_index;
use crate::format::lemma_fmt_ientries_index;
use crate::model::ArrayView;
use crate::model::InlineView;
use crate::text::atn_set;
use crate::text::run_front;
use crate::text::starts_with_byte;
use crate::model::DecorView;

verus! {

/// The keys of a run of table entries, in order.
pub open spec fn keys_of(s: Seq<TableEntryView>) -> Seq<Seq<u8>> {
    s.map_values(|e: TableEntryView| e.key)
}

proof fn lemma_insert_tbl_multiset(names: Seq<Seq<u8>>, x: TableEntryView, s: Seq<TableEntryView>)
    ensures
        insert_tbl(names, x, s).to_multiset() == s.to_multiset().insert(x),
    decreases s.len(),
{
    broadcast use vstd::seq_lib::group_to_multiset_ensures;

    if s.len() == 0 {
        assert(insert_tbl(names, x, s) =~= seq![x]);
        assert(seq![x] =~= Seq::<TableEntryView>::empty().push(x));
        assert(Seq::<TableEntryView>::empty().push(x).to_multiset() =~= s.to_multiset().insert(x));
    } else if tbl_lt(names, x, s[0]) {
        assert(seq![x] + s =~= s.insert(0, x));
        assert(s.insert(0, x).to_multiset() =~= s.to_multiset().insert(x));
    } else {
        let t = s.subrange(1, s.len() as int);
        lemma_insert_tbl_multiset(names, x, t);
        assert(seq![s[0]] + insert_tbl(names, x, t) =~= insert_tbl(names, x, t).insert(0, s[0]));
        assert(insert_tbl(names, x, t).insert(0, s[0]).to_multiset() =~= insert_tbl(
            names,
            x,
            t,
        ).to_multiset().insert(s[0]));
        assert(s =~= t.insert(0, s[0]));
        assert(s.to_multiset() =~= t.to_multiset().insert(s[0]));
        assert(insert_tbl(names, x, s).to_multiset() =~= s.to_multiset().insert(x));
    }
}

/// Sorting permutes: the sorted entries are exactly the input entries.
pub proof fn lemma_sort_tbl_multiset(names: Seq<Seq<u8>>, s: Seq<TableEntryView>)
    ensures
        sort_tbl(names, s).to_multiset() == s.to_multiset(),
    decreases s.len(),
{
    broadcast use vstd::seq_lib::group_to_multiset_ensures;

    if s.len() > 0 {
        let t = s.subrange(0, s.len() - 1);
        lemma_sort_tbl_multiset(names, t);
        lemma_insert_tbl_multiset(names, s[s.len() - 1], sort_tbl(names, t));
        assert(s =~= t.push(s[s.len() - 1]));
        assert(t.push(s[s.len() - 1]).to_multiset() =~= t.to_multiset().insert(s[s.len() - 1]));
    }
}

/// Section isolation, first half: formatting distributes over a section
/// boundary. Entries before the boundary and entries after it never mix:
/// the formatted table is the formatted first part followed by the
/// formatted second part.
pub proof fn lemma_section_isolation(
    names: Seq<Seq<u8>>,
    before: Seq<TableEntryView>,
    after: Seq<TableEntryView>,
)
    requires
        after.len() > 0,
        is_boundary(after[0]),
    ensures
        fmt_sections(names, before + after) == fmt_sections(names, before) + fmt_sections(
            names,
            after,
        ),
{
    lemma_sections_split(names, before, after);
}

/// Section isolation, second half: one section's output holds exactly the
/// keys of that section — sorting only permutes entries inside it, with
/// their decor changed and nothing added or dropped.
pub proof fn lemma_section_keys(names: Seq<Seq<u8>>, sec: Seq<TableEntryView>)
    requires
        sec.len() > 0,
        forall|k: int| 1 <= k < sec.len() ==> !is_boundary(sec[k]),
    ensures
        fmt_sections(names, sec).len() == sec.len(),
        keys_of(fmt_sections(names, sec)).to_multiset() == keys_of(sec).to_multiset(),
{
    broadcast use vstd::seq_lib::group_to_multiset_ensures;

    lemma_sections_single(names, sec);
    let cleared = sec.update(0, clear_prefix(sec[0]));
    let sorted = sort_tbl(names, cleared);
    crate::sorting::lemma_sort_tbl_len(names, cleared);
    lemma_sort_tbl_multiset(names, cleared);
    let out = fmt_sections(names, sec);
    assert(out.len() == sec.len());
    lemma_keys_multiset_from_entries(sorted, cleared);
    // reattaching or clearing a prefix never changes a key
    assert(keys_of(out) =~= keys_of(sorted));
    assert(keys_of(cleared) =~= keys_of(sec));
    lemma_keys_of_multiset(out, sorted);
    lemma_keys_of_multiset(cleared, sec);
}

/// Equal entry multisets give equal key multisets.
proof fn lemma_keys_multiset_from_entries(a: Seq<TableEntryView>, b: Seq<TableEntryView>)
    requires
        a.to_multiset() == b.to_multiset(),
    ensures
        keys_of(a).to_multiset() == keys_of(b).to_multiset(),
    decreases a.len(),
{
    broadcast use vstd::seq_lib::group_to_multiset_ensures;

    if a.len() == 0 {
        assert(b.to_multiset().len() == 0);
        assert(b.len() == 0);
        assert(keys_of(a) =~= keys_of(b));
    } else {
        let x = a[0];
        assert(a.to_multiset().contains(x));
        assert(b.to_multiset().contains(x));
        assert(b.contains(x));
        let j = choose|j: int| 0 <= j < b.len() && b[j] == x;
        let a1 = a.subrange(1, a.len() as int);
        let b1 = b.remove(j);
        assert(a =~= a1.insert(0, x));
        assert(a.to_multiset() =~= a1.to_multiset().insert(x));
        assert(b =~= b1.insert(j, x));
        assert(b1.insert(j, x).to_multiset() =~= b1.to_multiset().insert(x));
        assert(a1.to_multiset() =~= b1.to_multiset()) by {
            assert(a1.to_multiset().insert(x) =~= b1.to_multiset().insert(x));
            assert(forall|y: TableEntryView|
                a1.to_multiset().count(y) == b1.to_multiset().count(y));
        }
        lemma_keys_multiset_from_entries(a1, b1);
        assert(keys_of(a) =~= keys_of(a1).insert(0, x.key));
        assert(keys_of(a1).insert(0, x.key).to_multiset() =~= keys_of(a1).to_multiset().insert(
            x.key,
        ));
        assert(keys_of(b) =~= keys_of(b1).insert(j, x.key));
        assert(keys_of(b1).insert(j, x.key).to_multiset() =~= keys_of(b1).to_multiset().insert(
            x.key,
        ));
        assert(keys_of(a).to_multiset() =~= keys_of(b).to_multiset());
    }
}

proof fn lemma_keys_of_multiset(a: Seq<TableEntryView>, b: Seq<TableEntryView>)
    requires
        keys_of(a) == keys_of(b),
    ensures
        keys_of(a).to_multiset() == keys_of(b).to_multiset(),
{
}

/// Comment anchoring: a section whose first entry carries leading trivia
/// hands that trivia to whichever entry sorts into first position; every
/// other entry keeps its own decor through the sort.
pub proof fn lemma_comment_anchoring(names: Seq<Seq<u8>>, sec: Seq<TableEntryView>)
    requires
        sec.len() > 0,
        forall|k: int| 1 <= k < sec.len() ==> !is_boundary(sec[k]),
        sec[0].decor.prefix.len() > 0,
    ensures
        fmt_sections(names, sec).len() == sec.len(),
        fmt_sections(names, sec)[0].decor.prefix == sec[0].decor.prefix,
{
    lemma_sections_single(names, sec);
    let cleared = sec.update(0, clear_prefix(sec[0]));
    crate::sorting::lemma_sort_tbl_len(names, cleared);
    let sorted = sort_tbl(names, cleared);
    assert(fmt_sections(names, sec) == sorted.update(0, set_prefix(sorted[0], sec[0].decor.prefix)));
}

/// Quote normalization leaves alone a token that starts with a doubled
/// single quote (a raw or multi-line marker).
pub proof fn lemma_requote_doubled(s: ScalarView)
    requires
        s.repr.len() >= 2,
        s.repr[0] == 39,
        s.repr[1] == 39,
    ensures
        requote(s) == s,
{
}

/// Quote normalization leaves alone a token containing a backslash or a
/// double quote: rewriting it would need escaping and change its meaning.
pub proof fn lemma_requote_escape(s: ScalarView)
    requires
        contains_byte(s.repr, 92) || contains_byte(s.repr, 34),
    ensures
        requote(s) == s,
{
}

/// Quote normalization rewrites exactly the plain single-quoted tokens,
/// keeping the delimited content and changing only the delimiters.
pub proof fn lemma_requote_rewrites(s: ScalarView)
    requires
        requotable(s.repr),
    ensures
        requote(s).is_string,
        requote(s).repr == seq![34u8] + requote(s).content + seq![34u8],
{
}

/// A trimmed text has no trimmable byte left at either end.
pub proof fn lemma_trim_both_trimmed(ts: TrimSet, s: Seq<u8>)
    ensures
        trim_both(ts, s).len() > 0 ==> !in_set(ts, trim_both(ts, s)[0]),
        trim_both(ts, s).len() > 0 ==> !in_set(ts, trim_both(ts, s)[trim_both(ts, s).len() - 1]),
{
    let f = trim_front(ts, s);
    lemma_run_front_bounds(ts, s);
    lemma_run_back_bounds(ts, f);
    let t = trim_back(ts, f);
    if t.len() > 0 {
        assert(t[0] == f[0]);
        assert(f.len() > 0);
        assert(!in_set(ts, f[0]));
        assert(t[t.len() - 1] == f[t.len() - 1]);
        assert(run_back(ts, f) < f.len());
        assert(!in_set(ts, f[f.len() - 1 - run_back(ts, f)]));
    }
}

/// Trimming is idempotent.
pub proof fn lemma_trim_both_idempotent(ts: TrimSet, s: Seq<u8>)
    ensures
        trim_both(ts, trim_both(ts, s)) == trim_both(ts, s),
{
    let t = trim_both(ts, s);
    lemma_trim_both_trimmed(ts, s);
    if t.len() == 0 {
        lemma_run_front_is(ts, t, 0);
        lemma_run_back_is(ts, t, 0);
        assert(trim_both(ts, t) =~= t);
    } else {
        lemma_run_front_is(ts, t, 0);
        assert(trim_front(ts, t) =~= t);
        lemma_run_back_is(ts, t, t.len() as int);
        assert(trim_both(ts, t) =~= t);
    }
}

/// Unwrapping what the formatter wrapped: trimming the re-wrapped trivia
/// gives back the trimmed text, for any wrap made of trim-set bytes.
pub proof fn lemma_trim_wrap(ts: TrimSet, w1: Seq<u8>, c: Seq<u8>, w2: Seq<u8>)
    requires
        forall|k: int| 0 <= k < w1.len() ==> in_set(ts, w1[k]),
        forall|k: int| 0 <= k < w2.len() ==> in_set(ts, w2[k]),
        c.len() > 0 ==> !in_set(ts, c[0]),
        c.len() > 0 ==> !in_set(ts, c[c.len() - 1]),
    ensures
        trim_both(ts, w1 + c + w2) == c,
{
    let s = w1 + c + w2;
    if c.len() == 0 {
        lemma_run_front_is(ts, s, s.len() as int);
        assert(trim_front(ts, s).len() == 0);
        lemma_run_back_is(ts, trim_front(ts, s), 0);
        assert(trim_both(ts, s) =~= c);
    } else {
        lemma_run_front_is(ts, s, w1.len() as int);
        let f = trim_front(ts, s);
        assert(f =~= c + w2);
        lemma_run_back_is(ts, f, c.len() as int);
        assert(trim_both(ts, s) =~= c);
    }
}

/// Quote normalization is idempotent: a rewritten token is double-quoted
/// and is never rewritten again.
pub proof fn lemma_requote_idempotent(s: ScalarView)
    ensures
        requote(requote(s)) == requote(s),
{
    if requotable(s.repr) {
        let r = requote(s);
        assert(r.repr[0] == 34);
        assert(!requotable(r.repr));
    }
}

/// Scalar normalization is idempotent: formatting an already formatted
/// scalar value changes nothing.
pub proof fn lemma_fmt_scalar_idempotent(cfg: ConfigView, s: ScalarView, d: DecorView, last: bool)
    ensures
        fmt_value(cfg, fmt_scalar(s, d, last), last) == fmt_scalar(s, d, last),
{
    let v = fmt_scalar(s, d, last);
    lemma_requote_idempotent(s);
    let c = trim_both(ws_set(), d.prefix);
    lemma_trim_both_trimmed(ws_set(), d.prefix);
    assert(norm_prefix(d.prefix) =~= spaced_wrap(c) + seq![32u8] + Seq::<u8>::empty()) by {
        assert(spaced(c) + seq![32u8] =~= spaced_wrap(c) + seq![32u8] + Seq::<u8>::empty());
    }
    lemma_trim_wrap(ws_set(), spaced_wrap_front(c), c, seq![32u8]);
    assert(norm_prefix(d.prefix) =~= spaced_wrap_front(c) + c + seq![32u8]);
    assert(trim_both(ws_set(), norm_prefix(d.prefix)) == c);
    let cs = trim_both(ws_set(), d.suffix);
    lemma_trim_both_trimmed(ws_set(), d.suffix);
    if last {
        lemma_trim_wrap(ws_set(), spaced_wrap_front(cs), cs, seq![32u8]);
        assert(norm_suffix(d.suffix, last) =~= spaced_wrap_front(cs) + cs + seq![32u8]);
    } else {
        lemma_trim_wrap(ws_set(), spaced_wrap_front(cs), cs, Seq::<u8>::empty());
        assert(norm_suffix(d.suffix, last) =~= spaced_wrap_front(cs) + cs + Seq::<u8>::empty());
    }
    assert(trim_both(ws_set(), norm_suffix(d.suffix, last)) == cs);
    lemma_trim_both_idempotent(ws_set(), d.prefix);
    lemma_trim_both_idempotent(ws_set(), d.suffix);
}

/// The leading space that `spaced` puts before non-empty trivia.
pub open spec fn spaced_wrap_front(c: Seq<u8>) -> Seq<u8> {
    if c.len() == 0 {
        Seq::empty()
    } else {
        seq![32u8]
    }
}

/// `spaced` written as a wrap: the optional leading space, then the text.
pub open spec fn spaced_wrap(c: Seq<u8>) -> Seq<u8> {
    spaced_wrap_front(c) + c
}

/// Byte-lexicographic order is asymmetric.
pub proof fn lemma_lex_asym(a: Seq<u8>, b: Seq<u8>)
    requires
        lex_lt(a, b),
    ensures
        !lex_lt(b, a),
    decreases a.len(),
{
    if b.len() > 0 && a.len() > 0 && a[0] == b[0] {
        lemma_lex_asym(a.subrange(1, a.len() as int), b.subrange(1, b.len() as int));
    }
}

/// Byte-lexicographic order is transitive.
pub proof fn lemma_lex_trans(a: Seq<u8>, b: Seq<u8>, c: Seq<u8>)
    requires
        lex_lt(a, b),
        lex_lt(b, c),
    ensures
        lex_lt(a, c),
    decreases a.len(),
{
    if a.len() > 0 && b.len() > 0 && c.len() > 0 && a[0] == b[0] && b[0] == c[0] {
        lemma_lex_trans(
            a.subrange(1, a.len() as int),
            b.subrange(1, b.len() as int),
            c.subrange(1, c.len() as int),
        );
    }
}

/// The priority key order is asymmetric.
pub proof fn lemma_key_lt_asym(names: Seq<Seq<u8>>, a: Seq<u8>, b: Seq<u8>)
    requires
        key_lt(names, a, b),
    ensures
        !key_lt(names, b, a),
{
    if rank_of(names, a) is None && rank_of(names, b) is None {
        lemma_lex_asym(a, b);
    }
}

/// The priority key order is transitive.
pub proof fn lemma_key_lt_trans(names: Seq<Seq<u8>>, a: Seq<u8>, b: Seq<u8>, c: Seq<u8>)
    requires
        key_lt(names, a, b),
        key_lt(names, b, c),
    ensures
        key_lt(names, a, c),
{
    if rank_of(names, a) is None && rank_of(names, b) is None && rank_of(names, c) is None {
        lemma_lex_trans(a, b, c);
    }
}

/// The string-partition order on array values is asymmetric.
pub proof fn lemma_val_lt_asym(a: ValueView, b: ValueView)
    requires
        val_lt(a, b),
    ensures
        !val_lt(b, a),
{
    if val_is_string(a) && val_is_string(b) {
        lemma_lex_asym(val_content(a), val_content(b));
    }
}

/// The string-partition order on array values is transitive.
pub proof fn lemma_val_lt_trans(a: ValueView, b: ValueView, c: ValueView)
    requires
        val_lt(a, b),
        val_lt(b, c),
    ensures
        val_lt(a, c),
{
    if val_is_string(a) && val_is_string(b) && val_is_string(c) {
        lemma_lex_trans(val_content(a), val_content(b), val_content(c));
    }
}

/// No later entry is strictly less than an earlier one.
pub open spec fn tbl_sorted(names: Seq<Seq<u8>>, s: Seq<TableEntryView>) -> bool {
    forall|i: int, j: int| 0 <= i < j < s.len() ==> !tbl_lt(names, s[j], s[i])
}

pub open spec fn val_sorted(s: Seq<ValueView>) -> bool {
    forall|i: int, j: int| 0 <= i < j < s.len() ==> !val_lt(s[j], s[i])
}

pub open spec fn inl_sorted(names: Seq<Seq<u8>>, s: Seq<InlineEntryView>) -> bool {
    forall|i: int, j: int| 0 <= i < j < s.len() ==> !inl_lt(names, s[j], s[i])
}

/// The position at which a stable insert places `x`: before the first
/// strictly greater entry.
spec fn ins_pos_tbl(names: Seq<Seq<u8>>, x: TableEntryView, s: Seq<TableEntryView>) -> int
    decreases s.len(),
{
    if s.len() == 0 {
        0
    } else if tbl_lt(names, x, s[0]) {
        0
    } else {
        1 + ins_pos_tbl(names, x, s.subrange(1, s.len() as int))
    }
}

proof fn lemma_ins_pos_tbl(names: Seq<Seq<u8>>, x: TableEntryView, s: Seq<TableEntryView>)
    ensures
        0 <= ins_pos_tbl(names, x, s) <= s.len(),
        forall|k: int| 0 <= k < ins_pos_tbl(names, x, s) ==> !tbl_lt(names, x, s[k]),
        ins_pos_tbl(names, x, s) < s.len() ==> tbl_lt(names, x, s[ins_pos_tbl(names, x, s)]),
    decreases s.len(),
{
    if s.len() > 0 && !tbl_lt(names, x, s[0]) {
        let tail = s.subrange(1, s.len() as int);
        lemma_ins_pos_tbl(names, x, tail);
        assert(forall|k: int| 0 <= k < tail.len() ==> tail[k] == s[k + 1]);
        assert forall|k: int| 0 <= k < ins_pos_tbl(names, x, s) implies !tbl_lt(
            names,
            x,
            s[k],
        ) by {
            if k > 0 {
                assert(s[k] == tail[k - 1]);
                assert(!tbl_lt(names, x, tail[k - 1]));
            }
        }
    }
}

/// Inserting into a sorted run keeps it sorted.
proof fn lemma_insert_tbl_sorted(names: Seq<Seq<u8>>, x: TableEntryView, s: Seq<TableEntryView>)
    requires
        tbl_sorted(names, s),
    ensures
        tbl_sorted(names, insert_tbl(names, x, s)),
{
    let p = ins_pos_tbl(names, x, s);
    lemma_ins_pos_tbl(names, x, s);
    lemma_insert_tbl_at(names, x, s, p);
    let r = s.subrange(0, p) + seq![x] + s.subrange(p, s.len() as int);
    assert forall|i: int, j: int| 0 <= i < j < r.len() implies !tbl_lt(names, r[j], r[i]) by {
        if i < p && j < p {
        } else if i < p && j == p {
            assert(r[j] == x && r[i] == s[i]);
        } else if i == p {
            let e = s[j - 1];
            assert(r[j] == e && r[i] == x);
            if tbl_lt(names, e, x) {
                assert(tbl_lt(names, x, s[p]));
                lemma_key_lt_trans(names, e.key, x.key, s[p].key);
                if j - 1 > p {
                    assert(!tbl_lt(names, s[j - 1], s[p]));
                } else {
                    lemma_key_lt_asym(names, x.key, s[p].key);
                }
            }
        } else if i > p && j > p {
            assert(r[i] == s[i - 1] && r[j] == s[j - 1]);
        } else if i < p && j > p {
            assert(r[i] == s[i] && r[j] == s[j - 1]);
        }
    }
}

/// A sort's output is sorted.
pub proof fn lemma_sort_tbl_sorted(names: Seq<Seq<u8>>, s: Seq<TableEntryView>)
    ensures
        tbl_sorted(names, sort_tbl(names, s)),
    decreases s.len(),
{
    if s.len() > 0 {
        let t = s.subrange(0, s.len() - 1);
        lemma_sort_tbl_sorted(names, t);
        lemma_insert_tbl_sorted(names, s[s.len() - 1], sort_tbl(names, t));
    }
}

/// A sorted run is a fixed point of the sort: the stable sort changes
/// nothing the second time around.
pub proof fn lemma_sort_tbl_fixed(names: Seq<Seq<u8>>, s: Seq<TableEntryView>)
    requires
        tbl_sorted(names, s),
    ensures
        sort_tbl(names, s) == s,
    decreases s.len(),
{
    if s.len() > 0 {
        let t = s.subrange(0, s.len() - 1);
        let x = s[s.len() - 1];
        lemma_sort_tbl_fixed(names, t);
        let p = ins_pos_tbl(names, x, t);
        lemma_ins_pos_tbl(names, x, t);
        if p < t.len() {
            assert(tbl_lt(names, x, t[p]));
            assert(!tbl_lt(names, s[s.len() - 1], s[p]));
            assert(false);
        }
        lemma_insert_tbl_at(names, x, t, t.len() as int);
        assert(sort_tbl(names, s) =~= s);
    }
}

/// The position at which a stable insert places `x`: before the first
/// strictly greater entry.
spec fn ins_pos_inl(names: Seq<Seq<u8>>, x: InlineEntryView, s: Seq<InlineEntryView>) -> int
    decreases s.len(),
{
    if s.len() == 0 {
        0
    } else if inl_lt(names, x, s[0]) {
        0
    } else {
        1 + ins_pos_inl(names, x, s.subrange(1, s.len() as int))
    }
}

proof fn lemma_ins_pos_inl(names: Seq<Seq<u8>>, x: InlineEntryView, s: Seq<InlineEntryView>)
    ensures
        0 <= ins_pos_inl(names, x, s) <= s.len(),
        forall|k: int| 0 <= k < ins_pos_inl(names, x, s) ==> !inl_lt(names, x, s[k]),
        ins_pos_inl(names, x, s) < s.len() ==> inl_lt(names, x, s[ins_pos_inl(names, x, s)]),
    decreases s.len(),
{
    if s.len() > 0 && !inl_lt(names, x, s[0]) {
        let tail = s.subrange(1, s.len() as int);
        lemma_ins_pos_inl(names, x, tail);
        assert(forall|k: int| 0 <= k < tail.len() ==> tail[k] == s[k + 1]);
        assert forall|k: int| 0 <= k < ins_pos_inl(names, x, s) implies !inl_lt(
            names,
            x,
            s[k],
        ) by {
            if k > 0 {
                assert(s[k] == tail[k - 1]);
                assert(!inl_lt(names, x, tail[k - 1]));
            }
        }
    }
}

/// Inserting into a sorted run keeps it sorted.
proof fn lemma_insert_inl_sorted(names: Seq<Seq<u8>>, x: InlineEntryView, s: Seq<InlineEntryView>)
    requires
        inl_sorted(names, s),
    ensures
        inl_sorted(names, insert_inl(names, x, s)),
{
    let p = ins_pos_inl(names, x, s);
    lemma_ins_pos_inl(names, x, s);
    lemma_insert_inl_at(names, x, s, p);
    let r = s.subrange(0, p) + seq![x] + s.subrange(p, s.len() as int);
    assert forall|i: int, j: int| 0 <= i < j < r.len() implies !inl_lt(names, r[j], r[i]) by {
        if i < p && j < p {
        } else if i < p && j == p {
            assert(r[j] == x && r[i] == s[i]);
        } else if i == p {
            let e = s[j - 1];
            assert(r[j] == e && r[i] == x);
            if inl_lt(names, e, x) {
                assert(inl_lt(names, x, s[p]));
                lemma_key_lt_trans(names, e.key, x.key, s[p].key);
                if j - 1 > p {
                    assert(!inl_lt(names, s[j - 1], s[p]));
                } else {
                    lemma_key_lt_asym(names, x.key, s[p].key);
                }
            }
        } else if i > p && j > p {
            assert(r[i] == s[i - 1] && r[j] == s[j - 1]);
        } else if i < p && j > p {
            assert(r[i] == s[i] && r[j] == s[j - 1]);
        }
    }
}

/// A sort's output is sorted.
pub proof fn lemma_sort_inl_sorted(names: Seq<Seq<u8>>, s: Seq<InlineEntryView>)
    ensures
        inl_sorted(names, sort_inl(names, s)),
    decreases s.len(),
{
    if s.len() > 0 {
        let t = s.subrange(0, s.len() - 1);
        lemma_sort_inl_sorted(names, t);
        lemma_insert_inl_sorted(names, s[s.len() - 1], sort_inl(names, t));
    }
}

/// A sorted run is a fixed point of the sort: the stable sort changes
/// nothing the second time around.
pub proof fn lemma_sort_inl_fixed(names: Seq<Seq<u8>>, s: Seq<InlineEntryView>)
    requires
        inl_sorted(names, s),
    ensures
        sort_inl(names, s) == s,
    decreases s.len(),
{
    if s.len() > 0 {
        let t = s.subrange(0, s.len() - 1);
        let x = s[s.len() - 1];
        lemma_sort_inl_fixed(names, t);
        let p = ins_pos_inl(names, x, t);
        lemma_ins_pos_inl(names, x, t);
        if p < t.len() {
            assert(inl_lt(names, x, t[p]));
            assert(!inl_lt(names, s[s.len() - 1], s[p]));
            assert(false);
        }
        lemma_insert_inl_at(names, x, t, t.len() as int);
        assert(sort_inl(names, s) =~= s);
    }
}

/// The position at which a stable insert places `x`: before the first
/// strictly greater entry.
spec fn ins_pos_val(x: ValueView, s: Seq<ValueView>) -> int
    decreases s.len(),
{
    if s.len() == 0 {
        0
    } else if val_lt(x, s[0]) {
        0
    } else {
        1 + ins_pos_val(x, s.subrange(1, s.len() as int))
    }
}

proof fn lemma_ins_pos_val(x: ValueView, s: Seq<ValueView>)
    ensures
        0 <= ins_pos_val(x, s) <= s.len(),
        forall|k: int| 0 <= k < ins_pos_val(x, s) ==> !val_lt(x, s[k]),
        ins_pos_val(x, s) < s.len() ==> val_lt(x, s[ins_pos_val(x, s)]),
    decreases s.len(),
{
    if s.len() > 0 && !val_lt(x, s[0]) {
        let tail = s.subrange(1, s.len() as int);
        lemma_ins_pos_val(x, tail);
        assert(forall|k: int| 0 <= k < tail.len() ==> tail[k] == s[k + 1]);
        assert forall|k: int| 0 <= k < ins_pos_val(x, s) implies !val_lt(x,
            s[k],
        ) by {
            if k > 0 {
                assert(s[k] == tail[k - 1]);
                assert(!val_lt(x, tail[k - 1]));
            }
        }
    }
}

/// Inserting into a sorted run keeps it sorted.
proof fn lemma_insert_val_sorted(x: ValueView, s: Seq<ValueView>)
    requires
        val_sorted(s),
    ensures
        val_sorted(insert_val(x, s)),
{
    let p = ins_pos_val(x, s);
    lemma_ins_pos_val(x, s);
    lemma_insert_val_at(x, s, p);
    let r = s.subrange(0, p) + seq![x] + s.subrange(p, s.len() as int);
    assert forall|i: int, j: int| 0 <= i < j < r.len() implies !val_lt(r[j], r[i]) by {
        if i < p && j < p {
        } else if i < p && j == p {
            assert(r[j] == x && r[i] == s[i]);
        } else if i == p {
            let e = s[j - 1];
            assert(r[j] == e && r[i] == x);
            if val_lt(e, x) {
                assert(val_lt(x, s[p]));
                lemma_val_lt_trans(e, x, s[p]);
                if j - 1 > p {
                    assert(!val_lt(s[j - 1], s[p]));
                } else {
                    lemma_val_lt_asym(x, s[p]);
                }
            }
        } else if i > p && j > p {
            assert(r[i] == s[i - 1] && r[j] == s[j - 1]);
        } else if i < p && j > p {
            assert(r[i] == s[i] && r[j] == s[j - 1]);
        }
    }
}

/// A sort's output is sorted.
pub proof fn lemma_sort_val_sorted(s: Seq<ValueView>)
    ensures
        val_sorted(sort_val(s)),
    decreases s.len(),
{
    if s.len() > 0 {
        let t = s.subrange(0, s.len() - 1);
        lemma_sort_val_sorted(t);
        lemma_insert_val_sorted(s[s.len() - 1], sort_val(t));
    }
}

/// A sorted run is a fixed point of the sort: the stable sort changes
/// nothing the second time around.
pub proof fn lemma_sort_val_fixed(s: Seq<ValueView>)
    requires
        val_sorted(s),
    ensures
        sort_val(s) == s,
    decreases s.len(),
{
    if s.len() > 0 {
        let t = s.subrange(0, s.len() - 1);
        let x = s[s.len() - 1];
        lemma_sort_val_fixed(t);
        let p = ins_pos_val(x, t);
        lemma_ins_pos_val(x, t);
        if p < t.len() {
            assert(val_lt(x, t[p]));
            assert(!val_lt(s[s.len() - 1], s[p]));
            assert(false);
        }
        lemma_insert_val_at(x, t, t.len() as int);
        assert(sort_val(s) =~= s);
    }
}

proof fn lemma_insert_val_multiset(x: ValueView, s: Seq<ValueView>)
    ensures
        insert_val(x, s).to_multiset() == s.to_multiset().insert(x),
    decreases s.len(),
{
    broadcast use vstd::seq_lib::group_to_multiset_ensures;

    if s.len() == 0 {
        assert(insert_val(x, s) =~= seq![x]);
        assert(seq![x] =~= Seq::<ValueView>::empty().push(x));
        assert(Seq::<ValueView>::empty().push(x).to_multiset() =~= s.to_multiset().insert(x));
    } else if val_lt(x, s[0]) {
        assert(seq![x] + s =~= s.insert(0, x));
        assert(s.insert(0, x).to_multiset() =~= s.to_multiset().insert(x));
    } else {
        let t = s.subrange(1, s.len() as int);
        lemma_insert_val_multiset(x, t);
        assert(seq![s[0]] + insert_val(x, t) =~= insert_val(x, t).insert(0, s[0]));
        assert(insert_val(x, t).insert(0, s[0]).to_multiset() =~= insert_val(
            x,
            t,
        ).to_multiset().insert(s[0]));
        assert(s =~= t.insert(0, s[0]));
        assert(s.to_multiset() =~= t.to_multiset().insert(s[0]));
        assert(insert_val(x, s).to_multiset() =~= s.to_multiset().insert(x));
    }
}

/// The string-partition sort permutes the array values.
pub proof fn lemma_sort_val_multiset(s: Seq<ValueView>)
    ensures
        sort_val(s).to_multiset() == s.to_multiset(),
    decreases s.len(),
{
    broadcast use vstd::seq_lib::group_to_multiset_ensures;

    if s.len() > 0 {
        let t = s.subrange(0, s.len() - 1);
        lemma_sort_val_multiset(t);
        lemma_insert_val_multiset(s[s.len() - 1], sort_val(t));
        assert(s =~= t.push(s[s.len() - 1]));
        assert(t.push(s[s.len() - 1]).to_multiset() =~= t.to_multiset().insert(s[s.len() - 1]));
    }
}

proof fn lemma_insert_inl_multiset(names: Seq<Seq<u8>>, x: InlineEntryView, s: Seq<InlineEntryView>)
    ensures
        insert_inl(names, x, s).to_multiset() == s.to_multiset().insert(x),
    decreases s.len(),
{
    broadcast use vstd::seq_lib::group_to_multiset_ensures;

    if s.len() == 0 {
        assert(insert_inl(names, x, s) =~= seq![x]);
        assert(seq![x] =~= Seq::<InlineEntryView>::empty().push(x));
        assert(Seq::<InlineEntryView>::empty().push(x).to_multiset() =~= s.to_multiset().insert(x));
    } else if inl_lt(names, x, s[0]) {
        assert(seq![x] + s =~= s.insert(0, x));
        assert(s.insert(0, x).to_multiset() =~= s.to_multiset().insert(x));
    } else {
        let t = s.subrange(1, s.len() as int);
        lemma_insert_inl_multiset(names, x, t);
        assert(seq![s[0]] + insert_inl(names, x, t) =~= insert_inl(names, x, t).insert(0, s[0]));
        assert(insert_inl(names, x, t).insert(0, s[0]).to_multiset() =~= insert_inl(
            names,
            x,
            t,
        ).to_multiset().insert(s[0]));
        assert(s =~= t.insert(0, s[0]));
        assert(s.to_multiset() =~= t.to_multiset().insert(s[0]));
        assert(insert_inl(names, x, s).to_multiset() =~= s.to_multiset().insert(x));
    }
}

/// The inline-table sort permutes the entries.
pub proof fn lemma_sort_inl_multiset(names: Seq<Seq<u8>>, s: Seq<InlineEntryView>)
    ensures
        sort_inl(names, s).to_multiset() == s.to_multiset(),
    decreases s.len(),
{
    broadcast use vstd::seq_lib::group_to_multiset_ensures;

    if s.len() > 0 {
        let t = s.subrange(0, s.len() - 1);
        lemma_sort_inl_multiset(names, t);
        lemma_insert_inl_multiset(names, s[s.len() - 1], sort_inl(names, t));
        assert(s =~= t.push(s[s.len() - 1]));
        assert(t.push(s[s.len() - 1]).to_multiset() =~= t.to_multiset().insert(s[s.len() - 1]));
    }
}

/// Appending a space changes nothing that trimming keeps.
proof fn lemma_trim_snoc_space(s: Seq<u8>)
    ensures
        trim_both(ws_set(), s + seq![32u8]) == trim_both(ws_set(), s),
{
    let ts = ws_set();
    let e = s + seq![32u8];
    lemma_run_front_bounds(ts, s);
    if run_front(ts, s) == s.len() {
        lemma_run_front_is(ts, e, e.len() as int);
        assert(trim_front(ts, e).len() == 0);
        lemma_run_back_is(ts, trim_front(ts, e), 0);
        lemma_run_front_is(ts, s, s.len() as int);
        assert(trim_front(ts, s).len() == 0);
        lemma_run_back_is(ts, trim_front(ts, s), 0);
        assert(trim_both(ts, e) =~= trim_both(ts, s));
    } else {
        let p = run_front(ts, s);
        lemma_run_front_is(ts, e, p);
        let f = trim_front(ts, s);
        let fe = trim_front(ts, e);
        assert(fe =~= f + seq![32u8]);
        lemma_run_back_bounds(ts, f);
        let rb = run_back(ts, f);
        lemma_run_back_is(ts, fe, f.len() - rb);
        assert(trim_both(ts, e) =~= trim_both(ts, s));
    }
}

/// The closing space a last element receives does not change how the
/// element formats: the formatter trims it away again.
proof fn lemma_fmt_value_push_space(cfg: ConfigView, v: ValueView)
    ensures
        fmt_value(cfg, push_space_suffix(v), false) == fmt_value(cfg, v, false),
{
    match v {
        ValueView::Scalar { scalar, decor } => {
            lemma_trim_snoc_space(decor.suffix);
        },
        ValueView::Arr { arr } => {
            lemma_fmt_array_decor_blind(
                cfg,
                arr,
                ArrayView {
                    decor: DecorView {
                        prefix: arr.decor.prefix,
                        suffix: arr.decor.suffix + seq![32u8],
                    },
                    ..arr
                },
                false,
            );
        },
        ValueView::Inline { table } => {
            lemma_fmt_inline_decor_blind(
                cfg,
                table,
                InlineView {
                    decor: DecorView {
                        prefix: table.decor.prefix,
                        suffix: table.decor.suffix + seq![32u8],
                    },
                    ..table
                },
                false,
            );
        },
    }
}

/// An array's own decor never enters its formatting.
proof fn lemma_fmt_array_decor_blind(cfg: ConfigView, a: ArrayView, b: ArrayView, last: bool)
    requires
        a.values == b.values,
        a.trailing == b.trailing,
    ensures
        fmt_array(cfg, a, last) == fmt_array(cfg, b, last),
{
}

/// An inline table's own decor never enters its formatting.
proof fn lemma_fmt_inline_decor_blind(cfg: ConfigView, a: InlineView, b: InlineView, last: bool)
    requires
        a.entries == b.entries,
    ensures
        fmt_inline(cfg, a, last) == fmt_inline(cfg, b, last),
{
}

/// The multi-line element prefix is stable: unwrapping and re-wrapping it
/// gives it back.
proof fn lemma_ml_prefix_idempotent(p: Seq<u8>)
    ensures
        ml_prefix(ml_prefix(p)) == ml_prefix(p),
{
    let ts = atn_set();
    let c = trim_both(ts, p);
    lemma_trim_both_trimmed(ts, p);
    if c.len() == 0 {
        lemma_trim_wrap(ts, seq![10u8, 9u8], Seq::empty(), Seq::empty());
        assert(seq![10u8, 9u8] + Seq::<u8>::empty() + Seq::<u8>::empty() =~= ml_prefix(p));
    } else {
        lemma_trim_wrap(ts, seq![10u8, 9u8], c, seq![10u8, 9u8]);
        assert(seq![10u8, 9u8] + c + seq![10u8, 9u8] =~= ml_prefix(p));
    }
}

/// Formatting a value is idempotent.
pub proof fn lemma_fmt_value_idempotent(cfg: ConfigView, v: ValueView, last: bool)
    ensures
        fmt_value(cfg, fmt_value(cfg, v, last), last) == fmt_value(cfg, v, last),
    decreases v, 2int,
{
    match v {
        ValueView::Scalar { scalar, decor } => {
            lemma_fmt_scalar_idempotent(cfg, scalar, decor, last);
        },
        ValueView::Arr { arr } => {
            lemma_fmt_array_idempotent(cfg, arr, last);
        },
        ValueView::Inline { table } => {
            lemma_fmt_inline_idempotent(cfg, table, last);
        },
    }
}

/// Formatting a multi-line array element is idempotent.
proof fn lemma_ml_elem_idempotent(cfg: ConfigView, v: ValueView)
    ensures
        ml_elem(cfg, ml_elem(cfg, v)) == ml_elem(cfg, v),
    decreases v, 3int,
{
    let f = fmt_value(cfg, v, false);
    let d = DecorView {
        prefix: ml_prefix(vdecor(v).prefix),
        suffix: trim_both(atn_set(), vdecor(v).suffix),
    };
    let w = ml_elem(cfg, v);
    assert(w == with_decor(f, d));
    assert(vdecor(w) == d);
    lemma_ml_prefix_idempotent(vdecor(v).prefix);
    lemma_trim_both_idempotent(atn_set(), vdecor(v).suffix);
    let d2 = DecorView {
        prefix: ml_prefix(vdecor(w).prefix),
        suffix: trim_both(atn_set(), vdecor(w).suffix),
    };
    assert(d2 == d);
    // the formatted content of `w` is the content of `f`
    match v {
        ValueView::Scalar { scalar, decor } => {
            lemma_requote_idempotent(scalar);
            assert(fmt_value(cfg, w, false) matches ValueView::Scalar { scalar: s2, .. }
                && s2 == requote(scalar));
        },
        ValueView::Arr { arr } => {
            let a1 = fmt_array(cfg, arr, false);
            assert(w == ValueView::Arr { arr: ArrayView { decor: d, ..a1 } });
            lemma_fmt_array_decor_blind(cfg, ArrayView { decor: d, ..a1 }, a1, false);
            lemma_fmt_array_idempotent(cfg, arr, false);
            assert(fmt_value(cfg, w, false) == ValueView::Arr { arr: a1 });
        },
        ValueView::Inline { table } => {
            let a1 = fmt_inline(cfg, table, false);
            assert(w == ValueView::Inline { table: InlineView { decor: d, ..a1 } });
            lemma_fmt_inline_decor_blind(cfg, InlineView { decor: d, ..a1 }, a1, false);
            lemma_fmt_inline_idempotent(cfg, table, false);
            assert(fmt_value(cfg, w, false) == ValueView::Inline { table: a1 });
        },
    }
    assert(with_decor(fmt_value(cfg, w, false), d2) == w);
}

/// Formatting an array is idempotent.
proof fn lemma_fmt_array_idempotent(cfg: ConfigView, a: ArrayView, last: bool)
    ensures
        fmt_array(cfg, fmt_array(cfg, a, last), last) == fmt_array(cfg, a, last),
    decreases a, 0int,
{
    broadcast use vstd::seq_lib::group_to_multiset_ensures;

    let f1 = fmt_array(cfg, a, last);
    if starts_with_byte(a.trailing, 10) {
        let elems = ml_elems(cfg, a.values);
        lemma_ml_elems_index(cfg, a.values);
        let sorted = if cfg.sort_string_arrays { sort_val(elems) } else { elems };
        assert(f1.values == sorted);
        if cfg.sort_string_arrays {
            lemma_sort_val_multiset(elems);
            crate::sorting::lemma_sort_val_len(elems);
        }
        // every element of the first pass is a formatted multi-line element
        assert forall|k: int| 0 <= k < sorted.len() implies ml_elem(cfg, sorted[k])
            == sorted[k] by {
            assert(elems.to_multiset().contains(sorted[k])) by {
                assert(sorted.to_multiset().contains(sorted[k]));
            }
            assert(elems.contains(sorted[k]));
            let j = choose|j: int| 0 <= j < elems.len() && elems[j] == sorted[k];
            assert(elems[j] == ml_elem(cfg, a.values[j]));
            lemma_ml_elem_idempotent(cfg, a.values[j]);
        }
        let elems2 = ml_elems(cfg, f1.values);
        lemma_ml_elems_index(cfg, f1.values);
        assert(elems2 =~= sorted);
        if cfg.sort_string_arrays {
            lemma_sort_val_sorted(elems);
            lemma_sort_val_fixed(sorted);
        }
        assert(starts_with_byte(f1.trailing, 10));
        assert(fmt_array(cfg, f1, last) =~~= f1);
    } else {
        let elems = fmt_vals(cfg, a.values);
        lemma_fmt_vals_index(cfg, a.values);
        let sorted = if cfg.sort_string_arrays { sort_val(elems) } else { elems };
        assert(f1.values == space_last(sorted));
        if cfg.sort_string_arrays {
            lemma_sort_val_multiset(elems);
            crate::sorting::lemma_sort_val_len(elems);
        }
        assert forall|k: int| 0 <= k < sorted.len() implies fmt_value(cfg, sorted[k], false)
            == sorted[k] by {
            assert(elems.to_multiset().contains(sorted[k])) by {
                assert(sorted.to_multiset().contains(sorted[k]));
            }
            assert(elems.contains(sorted[k]));
            let j = choose|j: int| 0 <= j < elems.len() && elems[j] == sorted[k];
            assert(elems[j] == fmt_value(cfg, a.values[j], false));
            lemma_fmt_value_idempotent(cfg, a.values[j], false);
        }
        let elems2 = fmt_vals(cfg, f1.values);
        lemma_fmt_vals_index(cfg, f1.values);
        assert forall|k: int| 0 <= k < elems2.len() implies elems2[k] == sorted[k] by {
            if k == sorted.len() - 1 {
                lemma_fmt_value_push_space(cfg, sorted[k]);
                assert(f1.values[k] == push_space_suffix(sorted[k]));
            } else {
                assert(f1.values[k] == sorted[k]);
            }
        }
        assert(elems2 =~= sorted);
        if cfg.sort_string_arrays {
            lemma_sort_val_sorted(elems);
            lemma_sort_val_fixed(sorted);
        }
        assert(!starts_with_byte(f1.trailing, 10));
        assert(fmt_array(cfg, f1, last) =~~= f1);
    }
}

/// Formatting an inline table is idempotent.
proof fn lemma_fmt_inline_idempotent(cfg: ConfigView, t: InlineView, last: bool)
    ensures
        fmt_inline(cfg, fmt_inline(cfg, t, last), last) == fmt_inline(cfg, t, last),
    decreases t, 0int,
{
    broadcast use vstd::seq_lib::group_to_multiset_ensures;

    let f1 = fmt_inline(cfg, t, last);
    let names = cfg.inline_keys;
    let elems = fmt_ientries(cfg, t.entries);
    lemma_fmt_ientries_index(cfg, t.entries);
    let sorted = sort_inl(names, elems);
    crate::sorting::lemma_sort_inl_len(names, elems);
    lemma_sort_inl_multiset(names, elems);
    assert(f1.entries == space_last_entry(sorted));
    assert forall|k: int| 0 <= k < sorted.len() implies fmt_ientry(cfg, sorted[k])
        == sorted[k] by {
        assert(elems.to_multiset().contains(sorted[k])) by {
            assert(sorted.to_multiset().contains(sorted[k]));
        }
        assert(elems.contains(sorted[k]));
        let j = choose|j: int| 0 <= j < elems.len() && elems[j] == sorted[k];
        assert(elems[j] == fmt_ientry(cfg, t.entries[j]));
        lemma_fmt_value_idempotent(cfg, t.entries[j].value, false);
    }
    let elems2 = fmt_ientries(cfg, f1.entries);
    lemma_fmt_ientries_index(cfg, f1.entries);
    assert forall|k: int| 0 <= k < elems2.len() implies elems2[k] == sorted[k] by {
        if k == sorted.len() - 1 {
            let e = sorted[k];
            assert(f1.entries[k] == InlineEntryView { value: push_space_suffix(e.value), ..e });
            lemma_fmt_value_push_space(cfg, e.value);
            assert(fmt_ientry(cfg, f1.entries[k]) == fmt_ientry(cfg, e));
        } else {
            assert(f1.entries[k] == sorted[k]);
        }
    }
    assert(elems2 =~= sorted);
    lemma_sort_inl_sorted(names, elems);
    lemma_sort_inl_fixed(names, sorted);
    assert(fmt_inline(cfg, f1, last) =~~= f1);
}

/// Trimming the back is idempotent on its own.
proof fn lemma_trim_back_idempotent(ts: TrimSet, s: Seq<u8>)
    ensures
        trim_back(ts, trim_back(ts, s)) == trim_back(ts, s),
{
    lemma_run_back_bounds(ts, s);
    let b = trim_back(ts, s);
    if b.len() == 0 {
        lemma_run_back_is(ts, b, 0);
        assert(trim_back(ts, b) =~= b);
    } else {
        assert(b[b.len() - 1] == s[b.len() - 1]);
        assert(!in_set(ts, s[s.len() - 1 - run_back(ts, s)]));
        lemma_run_back_is(ts, b, b.len() as int);
        assert(trim_back(ts, b) =~= b);
    }
}

/// What the run of plain entries says entry by entry.
proof fn lemma_run_plain_all(s: Seq<TableEntryView>)
    ensures
        0 <= run_plain(s) <= s.len(),
        forall|k: int| 0 <= k < run_plain(s) ==> !is_boundary(s[k]),
        run_plain(s) < s.len() ==> is_boundary(s[run_plain(s)]),
    decreases s.len(),
{
    if s.len() > 0 && !is_boundary(s[0]) {
        let tail = s.subrange(1, s.len() as int);
        lemma_run_plain_all(tail);
        assert(forall|k: int| 0 <= k < tail.len() ==> tail[k] == s[k + 1]);
        assert forall|k: int| 0 <= k < run_plain(s) implies !is_boundary(s[k]) by {
            if k > 0 {
                assert(s[k] == tail[k - 1]);
                assert(!is_boundary(tail[k - 1]));
            }
        }
    }
}

/// Sortedness transfers between runs with the same keys.
proof fn lemma_sorted_same_keys(
    names: Seq<Seq<u8>>,
    a: Seq<TableEntryView>,
    b: Seq<TableEntryView>,
)
    requires
        tbl_sorted(names, a),
        a.len() == b.len(),
        forall|k: int| 0 <= k < a.len() ==> a[k].key == b[k].key,
    ensures
        tbl_sorted(names, b),
{
    assert forall|i: int, j: int| 0 <= i < j < b.len() implies !tbl_lt(names, b[j], b[i]) by {
        assert(!tbl_lt(names, a[j], a[i]));
    }
}

/// Formatting one section is idempotent.
proof fn lemma_fmt_section_idempotent(names: Seq<Seq<u8>>, sec: Seq<TableEntryView>)
    requires
        sec.len() > 0,
    ensures
        fmt_section(names, fmt_section(names, sec)) == fmt_section(names, sec),
{
    let lead = sec[0].decor.prefix;
    let cleared = sec.update(0, clear_prefix(sec[0]));
    let sorted = sort_tbl(names, cleared);
    crate::sorting::lemma_sort_tbl_len(names, cleared);
    lemma_sort_tbl_sorted(names, cleared);
    let so1 = fmt_section(names, sec);
    if lead.len() == 0 {
        assert(so1 == sorted);
        let cleared2 = sorted.update(0, clear_prefix(sorted[0]));
        lemma_sorted_same_keys(names, sorted, cleared2);
        lemma_sort_tbl_fixed(names, cleared2);
        if sorted[0].decor.prefix.len() == 0 {
            assert(clear_prefix(sorted[0]) == sorted[0]) by {
                assert(clear_prefix(sorted[0]).decor.prefix =~= sorted[0].decor.prefix);
            }
            assert(cleared2 =~= sorted);
            assert(fmt_section(names, so1) == sorted);
        } else {
            assert(set_prefix(cleared2[0], sorted[0].decor.prefix) == sorted[0]);
            assert(cleared2.update(0, sorted[0]) =~= sorted);
            assert(fmt_section(names, so1) == sorted);
        }
    } else {
        assert(so1 == sorted.update(0, set_prefix(sorted[0], lead)));
        assert(so1[0].decor.prefix == lead);
        let cleared2 = so1.update(0, clear_prefix(so1[0]));
        assert(cleared2 =~= sorted.update(0, clear_prefix(sorted[0])));
        lemma_sorted_same_keys(names, sorted, cleared2);
        lemma_sort_tbl_fixed(names, cleared2);
        assert(set_prefix(cleared2[0], lead) == set_prefix(sorted[0], lead));
        assert(cleared2.update(0, set_prefix(cleared2[0], lead)) =~= so1);
        assert(fmt_section(names, so1) == so1);
    }
}

/// A run that starts at a section boundary keeps that boundary's trivia on
/// its first formatted entry.
proof fn lemma_fmt_sections_first(names: Seq<Seq<u8>>, s: Seq<TableEntryView>)
    requires
        s.len() > 0,
        is_boundary(s[0]),
    ensures
        fmt_sections(names, s).len() > 0,
        fmt_sections(names, s)[0].decor.prefix == s[0].decor.prefix,
{
    let n = 1 + run_plain(s.subrange(1, s.len() as int));
    crate::format::lemma_run_plain_bounds(s.subrange(1, s.len() as int));
    let sec = s.subrange(0, n);
    let lead = sec[0].decor.prefix;
    assert(lead.len() > 0);
    let cleared = sec.update(0, clear_prefix(sec[0]));
    crate::sorting::lemma_sort_tbl_len(names, cleared);
    let so1 = fmt_section(names, sec);
    assert(so1[0].decor.prefix == lead);
    assert(fmt_sections(names, s)[0] == so1[0]);
}

/// Every formatted entry comes from the input, with only its prefix trivia
/// possibly changed: any prefix-blind fact about all entries survives.
proof fn lemma_sections_preserve(
    names: Seq<Seq<u8>>,
    s: Seq<TableEntryView>,
    q: spec_fn(TableEntryView) -> bool,
)
    requires
        forall|k: int| 0 <= k < s.len() ==> q(s[k]),
        forall|e: TableEntryView, p: Seq<u8>| q(e) ==> #[trigger] q(set_prefix(e, p)),
    ensures
        forall|k: int|
            0 <= k < fmt_sections(names, s).len() ==> #[trigger] q(fmt_sections(names, s)[k]),
    decreases s.len(),
{
    broadcast use vstd::seq_lib::group_to_multiset_ensures;

    if s.len() > 0 {
        let n = 1 + run_plain(s.subrange(1, s.len() as int));
        crate::format::lemma_run_plain_bounds(s.subrange(1, s.len() as int));
        let sec = s.subrange(0, n);
        let rest = s.subrange(n, s.len() as int);
        lemma_sections_preserve(names, rest, q);
        let cleared = sec.update(0, clear_prefix(sec[0]));
        assert(clear_prefix(sec[0]) == set_prefix(sec[0], Seq::empty()));
        assert(forall|k: int| 0 <= k < cleared.len() ==> q(cleared[k]));
        let sorted = sort_tbl(names, cleared);
        lemma_sort_tbl_multiset(names, cleared);
        crate::sorting::lemma_sort_tbl_len(names, cleared);
        assert forall|k: int| 0 <= k < sorted.len() implies q(sorted[k]) by {
            assert(cleared.to_multiset().contains(sorted[k])) by {
                assert(sorted.to_multiset().contains(sorted[k]));
            }
            assert(cleared.contains(sorted[k]));
        }
        let so1 = fmt_section(names, sec);
        assert(forall|k: int| 0 <= k < so1.len() ==> q(so1[k]));
        assert(fmt_sections(names, s) == so1 + fmt_sections(names, rest));
        assert forall|k: int| 0 <= k < fmt_sections(names, s).len() implies q(
            fmt_sections(names, s)[k],
        ) by {
            if k < so1.len() {
                assert(fmt_sections(names, s)[k] == so1[k]);
            } else {
                assert(fmt_sections(names, s)[k] == fmt_sections(names, rest)[k - so1.len()]);
            }
        }
    }
}

/// Section-aware sorting is idempotent.
proof fn lemma_fmt_sections_idempotent(names: Seq<Seq<u8>>, s: Seq<TableEntryView>)
    ensures
        fmt_sections(names, fmt_sections(names, s)) == fmt_sections(names, s),
    decreases s.len(),
{
    broadcast use vstd::seq_lib::group_to_multiset_ensures;

    if s.len() == 0 {
    } else {
        let tail = s.subrange(1, s.len() as int);
        let n = 1 + run_plain(tail);
        lemma_run_plain_all(tail);
        let sec = s.subrange(0, n);
        let rest = s.subrange(n, s.len() as int);
        let so1 = fmt_section(names, sec);
        let cleared = sec.update(0, clear_prefix(sec[0]));
        let sorted = sort_tbl(names, cleared);
        crate::sorting::lemma_sort_tbl_len(names, cleared);
        lemma_sort_tbl_multiset(names, cleared);
        assert(so1.len() == sec.len());
        // the emitted section has no interior boundary
        assert forall|k: int| 1 <= k < so1.len() implies !is_boundary(so1[k]) by {
            assert(so1[k] == sorted[k]);
            assert(cleared.to_multiset().contains(sorted[k])) by {
                assert(sorted.to_multiset().contains(sorted[k]));
            }
            assert(cleared.contains(sorted[k]));
            let j = choose|j: int| 0 <= j < cleared.len() && cleared[j] == sorted[k];
            if j == 0 {
                assert(cleared[0].decor.prefix.len() == 0);
            } else {
                assert(cleared[j] == sec[j]);
                assert(sec[j] == tail[j - 1]);
                assert(!is_boundary(tail[j - 1]));
            }
        }
        lemma_fmt_section_idempotent(names, sec);
        if rest.len() == 0 {
            assert(fmt_sections(names, rest).len() == 0);
            assert(fmt_sections(names, s) =~= so1);
            lemma_sections_single(names, so1);
            assert(fmt_sections(names, fmt_sections(names, s)) == fmt_section(names, so1));
            assert(fmt_section(names, so1) == so1);
        } else {
            assert(rest[0] == s[n]);
            assert(is_boundary(s[n])) by {
                assert(s[n] == tail[n - 1]);
            }
            lemma_fmt_sections_idempotent(names, rest);
            lemma_fmt_sections_first(names, rest);
            let fr = fmt_sections(names, rest);
            assert(is_boundary(fr[0]));
            assert(fmt_sections(names, s) == so1 + fr);
            lemma_sections_split(names, so1, fr);
            lemma_sections_single(names, so1);
            assert(fmt_sections(names, so1) == so1);
            assert(fmt_sections(names, fmt_sections(names, s)) == so1 + fr);
        }
    }
}

/// Idempotence: formatting an already formatted table with the same
/// configuration changes nothing.
pub proof fn lemma_format_idempotent(cfg: ConfigView, t: TableView)
    ensures
        fmt_table(cfg, fmt_table(cfg, t)) == fmt_table(cfg, t),
    decreases t, 0int,
{
    let nv = cfg.keys;
    let pre1 = pre_entries(cfg, t.entries);
    crate::format::lemma_pre_entries_index(cfg, t.entries);
    let out = fmt_sections(nv, pre1);
    let q = |e: TableEntryView|
        trim_back(nl_set(), e.decor.suffix) == e.decor.suffix && fmt_item(cfg, e.item) == e.item;
    assert forall|k: int| 0 <= k < pre1.len() implies q(pre1[k]) by {
        let e0 = t.entries[k];
        assert(pre1[k] == pre_entry(cfg, e0));
        lemma_trim_back_idempotent(nl_set(), e0.decor.suffix);
        match e0.item {
            ItemView::Nothing => {},
            ItemView::Val { value } => {
                lemma_fmt_value_idempotent(cfg, value, false);
            },
            ItemView::Tab { table } => {
                lemma_format_idempotent(cfg, table);
            },
            ItemView::ArrayOfTables { handle } => {},
        }
    }
    assert(forall|e: TableEntryView, p: Seq<u8>| q(e) ==> #[trigger] q(set_prefix(e, p)));
    lemma_sections_preserve(nv, pre1, q);
    let pre2 = pre_entries(cfg, out);
    crate::format::lemma_pre_entries_index(cfg, out);
    assert forall|k: int| 0 <= k < out.len() implies pre2[k] == out[k] by {
        assert(q(out[k]));
    }
    assert(pre2 =~= out);
    lemma_fmt_sections_idempotent(nv, pre1);
}

} // verus!
