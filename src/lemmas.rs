use vstd::prelude::*;

use crate::component_group::{appended, field_keys, valid_record, ComponentGroup, TypeKey};
use crate::component_group_store::{has_group, pushed, query_1, query_2, store_invariant, zip_2};

verus! {

/// The set of keys of a record.
pub open spec fn key_set<V>(fields: Seq<(TypeKey, V)>) -> Set<TypeKey> {
    field_keys(fields).to_set()
}

/// How many of `records` have exactly the key set `ks`.
pub open spec fn count_schema<V>(records: Seq<Seq<(TypeKey, V)>>, ks: Set<TypeKey>) -> nat
    decreases records.len(),
{
    if records.len() == 0 {
        0
    } else {
        count_schema(records.drop_last(), ks) + if key_set(records.last()) == ks {
            1nat
        } else {
            0nat
        }
    }
}

/// The number of rows, over all groups whose schema holds `a`.
pub open spec fn rows_holding<V>(groups: Seq<ComponentGroup<V>>, a: TypeKey) -> nat
    decreases groups.len(),
{
    if groups.len() == 0 {
        0
    } else {
        rows_holding(groups.drop_last(), a) + if groups.last().schema().contains(a) {
            groups.last().row_count()
        } else {
            0nat
        }
    }
}

/// Adding a row whose keys are the group's schema adds one to the row count.
pub proof fn lemma_appended_row_count<V>(
    before: ComponentGroup<V>,
    after: ComponentGroup<V>,
    fields: Seq<(TypeKey, V)>,
)
    requires
        before.well_formed(),
        valid_record(fields),
        key_set(fields) == before.schema(),
        appended(before, after, fields),
    ensures
        after.row_count() == before.row_count() + 1,
        after.schema() == before.schema(),
{
    let k0 = before.key_seq()[0];
    assert(before.schema().contains(k0));
    assert(field_keys(fields).to_set().contains(k0));
    let t = choose|t: int| 0 <= t < field_keys(fields).len() && field_keys(fields)[t] == k0;
    assert(fields[t].0 == k0);
    assert(after.columns()[0] == before.columns()[0].push(fields[t].1));
}

/// After a record is stored, some group has exactly its key set.
pub proof fn lemma_pushed_has_group<V>(
    before: Seq<ComponentGroup<V>>,
    after: Seq<ComponentGroup<V>>,
    fields: Seq<(TypeKey, V)>,
)
    requires
        pushed(before, after, fields),
    ensures
        has_group(after, key_set(fields)),
{
    let ks = key_set(fields);
    if has_group(before, ks) {
        let i = choose|i: int| 0 <= i < before.len() && (#[trigger] before[i]).schema() == ks;
        assert(after[i].key_seq() == before[i].key_seq());
        assert(after[i].schema() == ks);
    } else {
        assert(after[after.len() - 1].schema() == ks);
    }
}

/// Two records with the same set of keys land in the same group, whatever their
/// values and the order of their fields: once the first is stored, storing the
/// second adds no group and adds its row to the group that holds the first.
pub proof fn lemma_grouping_determinism<V>(
    s0: Seq<ComponentGroup<V>>,
    s1: Seq<ComponentGroup<V>>,
    s2: Seq<ComponentGroup<V>>,
    r1: Seq<(TypeKey, V)>,
    r2: Seq<(TypeKey, V)>,
)
    requires
        store_invariant(s0),
        valid_record(r1),
        valid_record(r2),
        pushed(s0, s1, r1),
        pushed(s1, s2, r2),
        key_set(r1) == key_set(r2),
    ensures
        has_group(s1, key_set(r1)),
        s2.len() == s1.len(),
        forall|i: int|
            0 <= i < s1.len() ==> if (#[trigger] s1[i]).schema() == key_set(r1) {
                appended(s1[i], s2[i], r2)
            } else {
                s2[i] == s1[i]
            },
{
    lemma_pushed_has_group(s0, s1, r1);
}

/// After a run of pushes from an empty store, there is one group for each
/// distinct key set pushed and no other, and each group holds as many rows as
/// records with its schema were pushed.
pub proof fn lemma_insert_count<V>(
    states: Seq<Seq<ComponentGroup<V>>>,
    records: Seq<Seq<(TypeKey, V)>>,
)
    requires
        states.len() == records.len() + 1,
        states[0].len() == 0,
        forall|k: int|
            0 <= k < records.len() ==> valid_record(#[trigger] records[k]) && pushed(
                states[k],
                states[k + 1],
                records[k],
            ) && store_invariant(states[k + 1]),
    ensures
        forall|i: int|
            0 <= i < states.last().len() ==> (#[trigger] states.last()[i]).row_count()
                == count_schema(records, states.last()[i].schema()),
        forall|ks: Set<TypeKey>|
            #[trigger] has_group(states.last(), ks) <==> count_schema(records, ks) > 0,
    decreases records.len(),
{
    let n = records.len();
    let last = states.last();
    if n == 0 {
        assert forall|ks: Set<TypeKey>| !#[trigger] has_group(last, ks) by {}
    } else {
        let prev = states[n - 1];
        let rec = records[n - 1];
        let ks = key_set(rec);
        let ps = states.drop_last();
        let pr = records.drop_last();
        assert forall|k: int| 0 <= k < pr.len() implies valid_record(#[trigger] pr[k]) && pushed(
            ps[k],
            ps[k + 1],
            pr[k],
        ) && store_invariant(ps[k + 1]) by {
            assert(pr[k] == records[k]);
            assert(ps[k] == states[k]);
            assert(ps[k + 1] == states[k + 1]);
        }
        lemma_insert_count(ps, pr);
        assert(ps.last() == prev);
        assert(valid_record(rec) && pushed(prev, last, rec));
        if n >= 2 {
            assert(store_invariant(states[n - 1]));
        }
        assert(store_invariant(prev));
        if has_group(prev, ks) {
            assert forall|i: int| 0 <= i < last.len() implies (#[trigger] last[i]).row_count()
                == count_schema(records, last[i].schema()) by {
                assert(prev[i].well_formed());
                if prev[i].schema() == ks {
                    lemma_appended_row_count(prev[i], last[i], rec);
                } else {
                    assert(last[i] == prev[i]);
                }
            }
            assert forall|ks2: Set<TypeKey>| #[trigger] has_group(last, ks2) <==> count_schema(
                records,
                ks2,
            ) > 0 by {
                if has_group(last, ks2) {
                    let i = choose|i: int| 0 <= i < last.len() && (#[trigger] last[i]).schema() == ks2;
                    if prev[i].schema() == ks {
                        assert(prev[i].well_formed());
                        lemma_appended_row_count(prev[i], last[i], rec);
                    } else {
                        assert(last[i] == prev[i]);
                    }
                    assert(has_group(prev, ks2));
                }
                if count_schema(records, ks2) > 0 && ks2 != ks {
                    assert(has_group(prev, ks2));
                    let i = choose|i: int| 0 <= i < prev.len() && (#[trigger] prev[i]).schema() == ks2;
                    assert(last[i] == prev[i]);
                }
            }
        } else {
            assert forall|i: int| 0 <= i < last.len() implies (#[trigger] last[i]).row_count()
                == count_schema(records, last[i].schema()) by {
                if i < prev.len() {
                    assert(last[i] == last.take(prev.len() as int)[i]);
                    assert(last[i] == prev[i]);
                    assert(prev[i].schema() != ks);
                } else {
                    assert(last[i].schema() == ks);
                    assert(last[i].columns()[0].len() == 1);
                    assert(count_schema(pr, ks) == 0);
                }
            }
            assert forall|ks2: Set<TypeKey>| #[trigger] has_group(last, ks2) <==> count_schema(
                records,
                ks2,
            ) > 0 by {
                if has_group(last, ks2) && ks2 != ks {
                    let i = choose|i: int| 0 <= i < last.len() && (#[trigger] last[i]).schema() == ks2;
                    assert(i < prev.len());
                    assert(last[i] == last.take(prev.len() as int)[i]);
                    assert(has_group(prev, ks2));
                }
                if count_schema(records, ks2) > 0 && ks2 != ks {
                    assert(has_group(prev, ks2));
                    let i = choose|i: int| 0 <= i < prev.len() && (#[trigger] prev[i]).schema() == ks2;
                    assert(last[i] == last.take(prev.len() as int)[i]);
                }
                if ks2 == ks {
                    assert(last[last.len() - 1].schema() == ks);
                }
            }
        }
    }
}

/// In a well-formed group whose schema holds `a`, the column of `a` has one value per row.
pub proof fn lemma_column_len<V>(g: ComponentGroup<V>, a: TypeKey)
    requires
        g.well_formed(),
        g.schema().contains(a),
    ensures
        g.column_of(a).len() == g.row_count(),
{
    assert(g.key_seq().contains(a));
    let j = g.key_seq().index_of(a);
    assert(0 <= j < g.columns().len());
}

/// The rows that the first `m` groups give a one-key query begin the rows of all groups.
pub proof fn lemma_query_1_prefix<V>(groups: Seq<ComponentGroup<V>>, a: TypeKey, m: int)
    requires
        0 <= m <= groups.len(),
    ensures
        query_1(groups.take(m), a).len() <= query_1(groups, a).len(),
        forall|i: int|
            0 <= i < query_1(groups.take(m), a).len() ==> #[trigger] query_1(groups.take(m), a)[i]
                == query_1(groups, a)[i],
    decreases groups.len(),
{
    if m == groups.len() {
        assert(groups.take(m) =~= groups);
    } else {
        let g = groups.drop_last();
        assert(groups.take(m) =~= g.take(m));
        lemma_query_1_prefix(g, a, m);
    }
}

/// The rows that the first `m` groups give a two-key query begin the rows of all groups.
pub proof fn lemma_query_2_prefix<V>(
    groups: Seq<ComponentGroup<V>>,
    a: TypeKey,
    b: TypeKey,
    m: int,
)
    requires
        0 <= m <= groups.len(),
    ensures
        query_2(groups.take(m), a, b).len() <= query_2(groups, a, b).len(),
        forall|i: int|
            0 <= i < query_2(groups.take(m), a, b).len() ==> #[trigger] query_2(groups.take(m), a, b)[i]
                == query_2(groups, a, b)[i],
    decreases groups.len(),
{
    if m == groups.len() {
        assert(groups.take(m) =~= groups);
    } else {
        let g = groups.drop_last();
        assert(groups.take(m) =~= g.take(m));
        lemma_query_2_prefix(g, a, b, m);
    }
}

/// A one-key query yields exactly as many rows as the groups whose schema holds
/// the key have together. With `lemma_query_1_row`, which puts every row of those
/// groups in the result, this says it yields nothing from any other group.
pub proof fn lemma_query_1_len<V>(groups: Seq<ComponentGroup<V>>, a: TypeKey)
    requires
        store_invariant(groups),
    ensures
        query_1(groups, a).len() == rows_holding(groups, a),
    decreases groups.len(),
{
    if groups.len() > 0 {
        let g = groups.drop_last();
        assert(store_invariant(g)) by {
            assert forall|i: int| 0 <= i < g.len() implies (#[trigger] g[i]).well_formed() by {
                assert(g[i] == groups[i]);
            }
            assert forall|i: int, j: int| 0 <= i < j < g.len() implies (#[trigger] g[i]).schema()
                != (#[trigger] g[j]).schema() by {
                assert(g[i] == groups[i]);
                assert(g[j] == groups[j]);
            }
        }
        lemma_query_1_len(g, a);
        let last = groups.last();
        assert(last.well_formed());
        if last.schema().contains(a) {
            lemma_column_len(last, a);
        }
    }
}

/// Row `k` of a group whose schema holds `a` comes out of the one-key query as
/// that row's `a` value, after the rows of the matching groups before it.
pub proof fn lemma_query_1_row<V>(groups: Seq<ComponentGroup<V>>, a: TypeKey, gi: int, k: int)
    requires
        store_invariant(groups),
        0 <= gi < groups.len(),
        groups[gi].schema().contains(a),
        0 <= k < groups[gi].row_count(),
    ensures
        ({
            let off = query_1(groups.take(gi), a).len();
            &&& off + k < query_1(groups, a).len()
            &&& query_1(groups, a)[off + k] == groups[gi].column_of(a)[k]
        }),
{
    let t = groups.take(gi + 1);
    assert(t.drop_last() =~= groups.take(gi));
    assert(t.last() == groups[gi]);
    assert(groups[gi].well_formed());
    lemma_column_len(groups[gi], a);
    lemma_query_1_prefix(groups, a, gi + 1);
    let p = query_1(groups.take(gi), a);
    let c = groups[gi].column_of(a);
    assert(query_1(t, a) == p + c);
    assert((p + c)[p.len() + k] == c[k]);
    assert(query_1(t, a)[p.len() + k] == query_1(groups, a)[p.len() + k]);
}

/// Row alignment: row `k` of a group whose schema holds `a` and `b` comes out of
/// the two-key query as the pair of that row's `a` and `b` values, after the
/// rows of the matching groups before it.
pub proof fn lemma_row_alignment<V>(
    groups: Seq<ComponentGroup<V>>,
    a: TypeKey,
    b: TypeKey,
    gi: int,
    k: int,
)
    requires
        store_invariant(groups),
        0 <= gi < groups.len(),
        groups[gi].schema().contains(a),
        groups[gi].schema().contains(b),
        0 <= k < groups[gi].row_count(),
    ensures
        ({
            let off = query_2(groups.take(gi), a, b).len();
            &&& off + k < query_2(groups, a, b).len()
            &&& query_2(groups, a, b)[off + k] == (groups[gi].column_of(a)[k], groups[gi].column_of(
                b,
            )[k])
        }),
{
    let t = groups.take(gi + 1);
    assert(t.drop_last() =~= groups.take(gi));
    assert(t.last() == groups[gi]);
    assert(groups[gi].well_formed());
    lemma_column_len(groups[gi], a);
    lemma_query_2_prefix(groups, a, b, gi + 1);
    let p = query_2(groups.take(gi), a, b);
    let z = zip_2(groups[gi].column_of(a), groups[gi].column_of(b));
    assert(query_2(t, a, b) == p + z);
    assert((p + z)[p.len() + k] == z[k]);
    assert(query_2(t, a, b)[p.len() + k] == query_2(groups, a, b)[p.len() + k]);
}

} // verus!
