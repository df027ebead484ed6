//! Laws relating filterings of one value by different predicates and paths.

use vstd::prelude::*;
use crate::numerals::decimal;
use crate::yaml_parsing::{filter_entries, filter_items, filter_value, join_path, key_text, YamlValue};

verus! {

/// `v` holds no sequence among the values it reaches through mappings (keys aside).
pub open spec fn sequence_free(v: YamlValue) -> bool
    decreases v,
{
    match v {
        YamlValue::Array(_) => false,
        YamlValue::Hash(entries) => forall|i: int|
            0 <= i < entries.len() ==> sequence_free(#[trigger] entries[i].1),
        _ => true,
    }
}

/// The predicate that accepts a path when both `f` and `g` accept it.
pub open spec fn both(f: spec_fn(Seq<char>) -> bool, g: spec_fn(Seq<char>) -> bool) -> spec_fn(
    Seq<char>,
) -> bool {
    |p: Seq<char>| f(p) && g(p)
}

proof fn lemma_filter_entries_push(
    xs: Seq<(YamlValue, YamlValue)>,
    e: (YamlValue, YamlValue),
    path: Seq<char>,
    keep: spec_fn(Seq<char>) -> bool,
)
    ensures
        filter_entries(xs.push(e), path, keep) == (if keep(join_path(path, key_text(e.0))) {
            filter_entries(xs, path, keep).push(
                (e.0, filter_value(e.1, join_path(path, key_text(e.0)), keep)),
            )
        } else {
            filter_entries(xs, path, keep)
        }),
{
    assert(xs.push(e).drop_last() =~= xs);
}

proof fn lemma_filter_items_push(
    xs: Seq<YamlValue>,
    x: YamlValue,
    path: Seq<char>,
    keep: spec_fn(Seq<char>) -> bool,
)
    ensures
        filter_items(xs.push(x), path, keep) == (if keep(
            join_path(path, decimal(xs.len())),
        ) {
            filter_items(xs, path, keep).push(
                filter_value(x, join_path(path, decimal(xs.len())), keep),
            )
        } else {
            filter_items(xs, path, keep)
        }),
{
    assert(xs.push(x).drop_last() =~= xs);
}

/// On a value without sequences, filtering by `f` and then by `g` is filtering once by
/// the predicate that asks both. (With sequences it is not so: the elements that stay
/// are numbered anew, so their paths change.)
pub proof fn lemma_filter_twice(
    v: YamlValue,
    path: Seq<char>,
    f: spec_fn(Seq<char>) -> bool,
    g: spec_fn(Seq<char>) -> bool,
)
    requires
        sequence_free(v),
    ensures
        filter_value(filter_value(v, path, f), path, g) == filter_value(v, path, both(f, g)),
    decreases v,
{
    match v {
        YamlValue::Hash(entries) => {
            assert(decreases_to!(v => v->Hash_0));
            lemma_filter_entries_twice(entries, path, f, g);
        },
        _ => {},
    }
}

proof fn lemma_filter_entries_twice(
    entries: Seq<(YamlValue, YamlValue)>,
    path: Seq<char>,
    f: spec_fn(Seq<char>) -> bool,
    g: spec_fn(Seq<char>) -> bool,
)
    requires
        forall|i: int| 0 <= i < entries.len() ==> sequence_free(#[trigger] entries[i].1),
    ensures
        filter_entries(filter_entries(entries, path, f), path, g) == filter_entries(
            entries,
            path,
            both(f, g),
        ),
    decreases entries,
{
    if entries.len() > 0 {
        let n = entries.len() - 1;
        let rest = entries.drop_last();
        let last = entries[n];
        assert(decreases_to!(entries => rest));
        assert(decreases_to!(entries => last));
        assert(decreases_to!(last => last.1));
        assert(forall|i: int| 0 <= i < rest.len() ==> #[trigger] rest[i] == entries[i]);
        assert(sequence_free(entries[n].1));
        lemma_filter_entries_twice(rest, path, f, g);
        let kf = filter_entries(rest, path, f);
        let p = join_path(path, key_text(last.0));
        assert(entries == rest.push(last));
        lemma_filter_entries_push(rest, last, path, f);
        lemma_filter_entries_push(rest, last, path, both(f, g));
        if f(p) {
            let e = (last.0, filter_value(last.1, p, f));
            lemma_filter_entries_push(kf, e, path, g);
            lemma_filter_twice(last.1, p, f, g);
        }
    }
}

/// On a value without sequences, filtering twice by the same predicate is filtering
/// once.
pub proof fn lemma_filter_idempotent(v: YamlValue, path: Seq<char>, keep: spec_fn(Seq<char>) -> bool)
    requires
        sequence_free(v),
    ensures
        filter_value(filter_value(v, path, keep), path, keep) == filter_value(v, path, keep),
{
    lemma_filter_twice(v, path, keep, keep);
    assert(both(keep, keep) =~= keep);
}

/// `a` is `b` with some sequence elements and mapping entries deleted, at any depth:
/// the rest stays, in order, with mapping keys unchanged.
pub open spec fn pruned_from(a: YamlValue, b: YamlValue) -> bool
    decreases b,
{
    match b {
        YamlValue::Array(ys) => match a {
            YamlValue::Array(xs) => pruned_items(xs, ys),
            _ => false,
        },
        YamlValue::Hash(ys) => match a {
            YamlValue::Hash(xs) => pruned_entries(xs, ys),
            _ => false,
        },
        _ => a == b,
    }
}

/// `xs` is a selection of the elements of `ys`, in order, each pruned from its match.
pub open spec fn pruned_items(xs: Seq<YamlValue>, ys: Seq<YamlValue>) -> bool
    decreases ys,
{
    if xs.len() == 0 {
        true
    } else if ys.len() == 0 {
        false
    } else {
        (pruned_from(xs.last(), ys.last()) && pruned_items(xs.drop_last(), ys.drop_last()))
            || pruned_items(xs, ys.drop_last())
    }
}

/// `xs` is a selection of the entries of `ys`, in order, each with the same key and a
/// value pruned from its match's.
pub open spec fn pruned_entries(
    xs: Seq<(YamlValue, YamlValue)>,
    ys: Seq<(YamlValue, YamlValue)>,
) -> bool
    decreases ys,
{
    if xs.len() == 0 {
        true
    } else if ys.len() == 0 {
        false
    } else {
        (xs.last().0 == ys.last().0 && pruned_from(xs.last().1, ys.last().1) && pruned_entries(
            xs.drop_last(),
            ys.drop_last(),
        )) || pruned_entries(xs, ys.drop_last())
    }
}

/// Filtering by a stronger predicate `f` (every path `f` accepts, `g` accepts) gives
/// the result of filtering by `g` with some elements and entries deleted: it never adds
/// or changes what stays.
pub proof fn lemma_stronger_filter_prunes(
    v: YamlValue,
    path: Seq<char>,
    f: spec_fn(Seq<char>) -> bool,
    g: spec_fn(Seq<char>) -> bool,
)
    requires
        forall|p: Seq<char>| #[trigger] f(p) ==> g(p),
    ensures
        pruned_from(filter_value(v, path, f), filter_value(v, path, g)),
    decreases v,
{
    match v {
        YamlValue::Array(items) => {
            assert(decreases_to!(v => v->Array_0));
            lemma_stronger_filter_prunes_items(items, path, f, g);
        },
        YamlValue::Hash(entries) => {
            assert(decreases_to!(v => v->Hash_0));
            lemma_stronger_filter_prunes_entries(entries, path, f, g);
        },
        _ => {},
    }
}

proof fn lemma_stronger_filter_prunes_items(
    items: Seq<YamlValue>,
    path: Seq<char>,
    f: spec_fn(Seq<char>) -> bool,
    g: spec_fn(Seq<char>) -> bool,
)
    requires
        forall|p: Seq<char>| #[trigger] f(p) ==> g(p),
    ensures
        pruned_items(filter_items(items, path, f), filter_items(items, path, g)),
    decreases items,
{
    if items.len() > 0 {
        let n = items.len() - 1;
        let rest = items.drop_last();
        let last = items[n];
        assert(decreases_to!(items => rest));
        assert(decreases_to!(items => last));
        lemma_stronger_filter_prunes_items(rest, path, f, g);
        assert(items == rest.push(last));
        lemma_filter_items_push(rest, last, path, f);
        lemma_filter_items_push(rest, last, path, g);
        let kf = filter_items(rest, path, f);
        let kg = filter_items(rest, path, g);
        let p = join_path(path, decimal(rest.len()));
        if f(p) {
            lemma_stronger_filter_prunes(last, p, f, g);
            let a = filter_value(last, p, f);
            let b = filter_value(last, p, g);
            assert(kf.push(a).drop_last() =~= kf);
            assert(kg.push(b).drop_last() =~= kg);
        } else if g(p) {
            let b = filter_value(last, p, g);
            assert(kg.push(b).drop_last() =~= kg);
        }
    }
}

proof fn lemma_stronger_filter_prunes_entries(
    entries: Seq<(YamlValue, YamlValue)>,
    path: Seq<char>,
    f: spec_fn(Seq<char>) -> bool,
    g: spec_fn(Seq<char>) -> bool,
)
    requires
        forall|p: Seq<char>| #[trigger] f(p) ==> g(p),
    ensures
        pruned_entries(filter_entries(entries, path, f), filter_entries(entries, path, g)),
    decreases entries,
{
    if entries.len() > 0 {
        let n = entries.len() - 1;
        let rest = entries.drop_last();
        let last = entries[n];
        assert(decreases_to!(entries => rest));
        assert(decreases_to!(entries => last));
        assert(decreases_to!(last => last.1));
        lemma_stronger_filter_prunes_entries(rest, path, f, g);
        assert(entries == rest.push(last));
        lemma_filter_entries_push(rest, last, path, f);
        lemma_filter_entries_push(rest, last, path, g);
        let kf = filter_entries(rest, path, f);
        let kg = filter_entries(rest, path, g);
        let p = join_path(path, key_text(last.0));
        if f(p) {
            lemma_stronger_filter_prunes(last.1, p, f, g);
            let a = (last.0, filter_value(last.1, p, f));
            let b = (last.0, filter_value(last.1, p, g));
            assert(kf.push(a).drop_last() =~= kf);
            assert(kg.push(b).drop_last() =~= kg);
        } else if g(p) {
            let b = (last.0, filter_value(last.1, p, g));
            assert(kg.push(b).drop_last() =~= kg);
        }
    }
}

/// Every mapping key that filtering `v` meets (keys of keys aside) has a non-empty
/// text.
pub open spec fn keys_have_text(v: YamlValue) -> bool
    decreases v,
{
    match v {
        YamlValue::Array(items) => forall|i: int|
            0 <= i < items.len() ==> keys_have_text(#[trigger] items[i]),
        YamlValue::Hash(entries) => forall|i: int|
            0 <= i < entries.len() ==> key_text(#[trigger] entries[i].0).len() > 0
                && keys_have_text(entries[i].1),
        _ => true,
    }
}

/// The predicate that accepts a path `s` when `keep` accepts `s` placed under `path`.
pub open spec fn under(path: Seq<char>, keep: spec_fn(Seq<char>) -> bool) -> spec_fn(
    Seq<char>,
) -> bool {
    |s: Seq<char>| keep(join_path(path, s))
}

proof fn lemma_decimal_nonempty(n: nat)
    ensures
        decimal(n).len() > 0,
{
}

proof fn lemma_join_path_assoc(p: Seq<char>, q: Seq<char>, k: Seq<char>)
    requires
        q.len() > 0,
    ensures
        join_path(join_path(p, q), k) == join_path(p, join_path(q, k)),
{
    if p.len() > 0 {
        assert(p + seq!['.'] + q + seq!['.'] + k =~= p + seq!['.'] + (q + seq!['.'] + k));
    }
}

/// The path given to filtering only prefixes the paths that the predicate is asked
/// about: filtering at `path` by `keep` is filtering at the top level by the predicate
/// that asks `keep` about each path placed under `path`, where every key met has a
/// non-empty text.
pub proof fn lemma_filter_path_prefixes(v: YamlValue, path: Seq<char>, keep: spec_fn(Seq<char>) -> bool)
    requires
        keys_have_text(v),
    ensures
        filter_value(v, path, keep) == filter_value(v, Seq::empty(), under(path, keep)),
{
    if path.len() == 0 {
        assert(under(path, keep) =~= keep);
        assert(path =~= Seq::<char>::empty());
    } else {
        match v {
            YamlValue::Array(items) => lemma_top_items(items, path, keep),
            YamlValue::Hash(entries) => lemma_top_entries(entries, path, keep),
            _ => {},
        }
    }
}

proof fn lemma_top_items(items: Seq<YamlValue>, path: Seq<char>, keep: spec_fn(Seq<char>) -> bool)
    requires
        path.len() > 0,
        forall|i: int| 0 <= i < items.len() ==> keys_have_text(#[trigger] items[i]),
    ensures
        filter_items(items, path, keep) == filter_items(items, Seq::empty(), under(path, keep)),
    decreases items.len(),
{
    if items.len() > 0 {
        let n = items.len() - 1;
        let rest = items.drop_last();
        let last = items[n];
        assert(forall|i: int| 0 <= i < rest.len() ==> #[trigger] rest[i] == items[i]);
        lemma_top_items(rest, path, keep);
        assert(items == rest.push(last));
        lemma_filter_items_push(rest, last, path, keep);
        lemma_filter_items_push(rest, last, Seq::empty(), under(path, keep));
        let k = decimal(rest.len());
        lemma_decimal_nonempty(rest.len());
        assert(join_path(Seq::empty(), k) == k);
        assert(keys_have_text(items[n]));
        lemma_filter_under(last, path, k, keep);
    }
}

proof fn lemma_top_entries(
    entries: Seq<(YamlValue, YamlValue)>,
    path: Seq<char>,
    keep: spec_fn(Seq<char>) -> bool,
)
    requires
        path.len() > 0,
        forall|i: int|
            0 <= i < entries.len() ==> key_text(#[trigger] entries[i].0).len() > 0
                && keys_have_text(entries[i].1),
    ensures
        filter_entries(entries, path, keep) == filter_entries(
            entries,
            Seq::empty(),
            under(path, keep),
        ),
    decreases entries.len(),
{
    if entries.len() > 0 {
        let n = entries.len() - 1;
        let rest = entries.drop_last();
        let last = entries[n];
        assert(forall|i: int| 0 <= i < rest.len() ==> #[trigger] rest[i] == entries[i]);
        lemma_top_entries(rest, path, keep);
        assert(entries == rest.push(last));
        lemma_filter_entries_push(rest, last, path, keep);
        lemma_filter_entries_push(rest, last, Seq::empty(), under(path, keep));
        let k = key_text(last.0);
        assert(key_text(entries[n].0).len() > 0);
        assert(join_path(Seq::empty(), k) == k);
        lemma_filter_under(last.1, path, k, keep);
    }
}

/// Below a non-empty path `q`, filtering at `path` then `q` by `keep` is filtering at
/// `q` by the predicate that places each path under `path`.
proof fn lemma_filter_under(
    v: YamlValue,
    path: Seq<char>,
    q: Seq<char>,
    keep: spec_fn(Seq<char>) -> bool,
)
    requires
        q.len() > 0,
        keys_have_text(v),
    ensures
        filter_value(v, join_path(path, q), keep) == filter_value(v, q, under(path, keep)),
    decreases v,
{
    match v {
        YamlValue::Array(items) => {
            assert(decreases_to!(v => v->Array_0));
            lemma_filter_under_items(items, path, q, keep);
        },
        YamlValue::Hash(entries) => {
            assert(decreases_to!(v => v->Hash_0));
            lemma_filter_under_entries(entries, path, q, keep);
        },
        _ => {},
    }
}

proof fn lemma_filter_under_items(
    items: Seq<YamlValue>,
    path: Seq<char>,
    q: Seq<char>,
    keep: spec_fn(Seq<char>) -> bool,
)
    requires
        q.len() > 0,
        forall|i: int| 0 <= i < items.len() ==> keys_have_text(#[trigger] items[i]),
    ensures
        filter_items(items, join_path(path, q), keep) == filter_items(
            items,
            q,
            under(path, keep),
        ),
    decreases items,
{
    if items.len() > 0 {
        let n = items.len() - 1;
        let rest = items.drop_last();
        let last = items[n];
        assert(decreases_to!(items => rest));
        assert(decreases_to!(items => last));
        assert(forall|i: int| 0 <= i < rest.len() ==> #[trigger] rest[i] == items[i]);
        lemma_filter_under_items(rest, path, q, keep);
        assert(items == rest.push(last));
        lemma_filter_items_push(rest, last, join_path(path, q), keep);
        lemma_filter_items_push(rest, last, q, under(path, keep));
        let k = decimal(rest.len());
        lemma_join_path_assoc(path, q, k);
        assert(keys_have_text(items[n]));
        lemma_filter_under(last, path, join_path(q, k), keep);
    }
}

proof fn lemma_filter_under_entries(
    entries: Seq<(YamlValue, YamlValue)>,
    path: Seq<char>,
    q: Seq<char>,
    keep: spec_fn(Seq<char>) -> bool,
)
    requires
        q.len() > 0,
        forall|i: int|
            0 <= i < entries.len() ==> key_text(#[trigger] entries[i].0).len() > 0
                && keys_have_text(entries[i].1),
    ensures
        filter_entries(entries, join_path(path, q), keep) == filter_entries(
            entries,
            q,
            under(path, keep),
        ),
    decreases entries,
{
    if entries.len() > 0 {
        let n = entries.len() - 1;
        let rest = entries.drop_last();
        let last = entries[n];
        assert(decreases_to!(entries => rest));
        assert(decreases_to!(entries => last));
        assert(decreases_to!(last => last.1));
        assert(forall|i: int| 0 <= i < rest.len() ==> #[trigger] rest[i] == entries[i]);
        lemma_filter_under_entries(rest, path, q, keep);
        assert(entries == rest.push(last));
        lemma_filter_entries_push(rest, last, join_path(path, q), keep);
        lemma_filter_entries_push(rest, last, q, under(path, keep));
        let k = key_text(last.0);
        lemma_join_path_assoc(path, q, k);
        assert(key_text(entries[n].0).len() > 0);
        lemma_filter_under(last.1, path, join_path(q, k), keep);
    }
}

} // verus!
