use vstd::prelude::*;

use crate::component_group::{
    appended, distinct_keys, field_keys, key_position, seed_columns, valid_record, Component,
    ComponentGroup,
    IntoComponentGroup, IntoComponentGroupKey, TypeKey,
};

verus! {

/// Every group is well formed and no two groups share a schema.
pub open spec fn store_invariant<V>(groups: Seq<ComponentGroup<V>>) -> bool {
    &&& forall|i: int| 0 <= i < groups.len() ==> (#[trigger] groups[i]).well_formed()
    &&& forall|i: int, j: int|
        0 <= i < j < groups.len() ==> (#[trigger] groups[i]).schema() != (#[trigger] groups[j]).schema()
}

/// Some group of `groups` has exactly the schema `ks`.
pub open spec fn has_group<V>(groups: Seq<ComponentGroup<V>>, ks: Set<TypeKey>) -> bool {
    exists|i: int| 0 <= i < groups.len() && (#[trigger] groups[i]).schema() == ks
}

/// `after` is `before` with the record `fields` stored: as one more row of the group
/// whose schema is the record's key set, or as a new one-row group at the end when
/// no group has that schema.
pub open spec fn pushed<V>(
    before: Seq<ComponentGroup<V>>,
    after: Seq<ComponentGroup<V>>,
    fields: Seq<(TypeKey, V)>,
) -> bool {
    let ks = field_keys(fields).to_set();
    if has_group(before, ks) {
        &&& after.len() == before.len()
        &&& forall|i: int|
            0 <= i < before.len() ==> if (#[trigger] before[i]).schema() == ks {
                appended(before[i], after[i], fields)
            } else {
                after[i] == before[i]
            }
    } else {
        &&& after.len() == before.len() + 1
        &&& after.take(before.len() as int) == before
        &&& after.last().key_seq() == field_keys(fields)
        &&& after.last().columns() == seed_columns(fields)
    }
}

/// The values of type `a`, group after group, of every group whose schema holds `a`.
pub open spec fn query_1<V>(groups: Seq<ComponentGroup<V>>, a: TypeKey) -> Seq<V>
    decreases groups.len(),
{
    if groups.len() == 0 {
        Seq::empty()
    } else {
        let g = groups.last();
        query_1(groups.drop_last(), a) + if g.schema().contains(a) {
            g.column_of(a)
        } else {
            Seq::empty()
        }
    }
}

/// Row `k` of `x` beside row `k` of `y`.
pub open spec fn zip_2<V>(x: Seq<V>, y: Seq<V>) -> Seq<(V, V)> {
    Seq::new(x.len(), |k: int| (x[k], y[k]))
}

/// Row `k` of `x`, `y` and `z` together.
pub open spec fn zip_3<V>(x: Seq<V>, y: Seq<V>, z: Seq<V>) -> Seq<(V, V, V)> {
    Seq::new(x.len(), |k: int| (x[k], y[k], z[k]))
}

/// The rows of (`a`, `b`), group after group, of every group whose schema holds both.
pub open spec fn query_2<V>(groups: Seq<ComponentGroup<V>>, a: TypeKey, b: TypeKey) -> Seq<(V, V)>
    decreases groups.len(),
{
    if groups.len() == 0 {
        Seq::empty()
    } else {
        let g = groups.last();
        query_2(groups.drop_last(), a, b) + if g.schema().contains(a) && g.schema().contains(b) {
            zip_2(g.column_of(a), g.column_of(b))
        } else {
            Seq::empty()
        }
    }
}

/// The rows of (`a`, `b`, `c`), group after group, of every group whose schema holds all three.
pub open spec fn query_3<V>(
    groups: Seq<ComponentGroup<V>>,
    a: TypeKey,
    b: TypeKey,
    c: TypeKey,
) -> Seq<(V, V, V)>
    decreases groups.len(),
{
    if groups.len() == 0 {
        Seq::empty()
    } else {
        let g = groups.last();
        query_3(groups.drop_last(), a, b, c) + if g.schema().contains(a) && g.schema().contains(b)
            && g.schema().contains(c) {
            zip_3(g.column_of(a), g.column_of(b), g.column_of(c))
        } else {
            Seq::empty()
        }
    }
}

/// The values behind a sequence of references.
pub open spec fn deref_all<V>(s: Seq<&V>) -> Seq<V> {
    s.map_values(|x: &V| *x)
}

/// The values behind a sequence of pairs of references.
pub open spec fn deref_pairs<V>(s: Seq<(&V, &V)>) -> Seq<(V, V)> {
    s.map_values(|x: (&V, &V)| (*x.0, *x.1))
}

/// The values behind a sequence of triples of references.
pub open spec fn deref_triples<V>(s: Seq<(&V, &V, &V)>) -> Seq<(V, V, V)> {
    s.map_values(|x: (&V, &V, &V)| (*x.0, *x.1, *x.2))
}

/// Whether `k` is one of `key`.
fn has_key(key: &Vec<TypeKey>, k: TypeKey) -> (r: bool)
    ensures
        r == key@.contains(k),
{
    let mut j: usize = 0;
    while j < key.len()
        invariant
            j <= key@.len(),
            forall|s: int| 0 <= s < j ==> key@[s] != k,
        decreases key@.len() - j,
    {
        if key[j] == k {
            return true;
        }
        j += 1;
    }
    false
}

/// Whether every key of `a` is one of `b`.
fn is_subset(a: &Vec<TypeKey>, b: &Vec<TypeKey>) -> (r: bool)
    ensures
        r == a@.to_set().subset_of(b@.to_set()),
{
    let mut i: usize = 0;
    while i < a.len()
        invariant
            i <= a@.len(),
            forall|s: int| 0 <= s < i ==> b@.contains(#[trigger] a@[s]),
        decreases a@.len() - i,
    {
        if !has_key(b, a[i]) {
            assert(a@.to_set().contains(a@[i as int]));
            return false;
        }
        i += 1;
    }
    assert forall|k: TypeKey| a@.to_set().contains(k) implies b@.to_set().contains(k) by {
        let s = choose|s: int| 0 <= s < a@.len() && a@[s] == k;
        assert(b@.contains(a@[s]));
    }
    true
}

/// Whether `a` and `b` hold the same keys.
fn same_schema(a: &Vec<TypeKey>, b: &Vec<TypeKey>) -> (r: bool)
    ensures
        r == (a@.to_set() == b@.to_set()),
{
    let r = is_subset(a, b) && is_subset(b, a);
    if r {
        assert(a@.to_set() =~= b@.to_set());
    }
    r
}

/// In a key sequence without repeats, the position of a key is the one found.
proof fn lemma_index_of_distinct(key: Seq<TypeKey>, j: int)
    requires
        distinct_keys(key),
        0 <= j < key.len(),
    ensures
        key.index_of(key[j]) == j,
{
    let i = key.index_of(key[j]);
    assert(key.contains(key[j]));
    if i < j {
        assert(key[i] != key[j]);
    } else if j < i {
        assert(key[j] != key[i]);
    }
}

/// All stored records, partitioned into groups by schema.
pub struct ComponentGroupStore<V> {
    component_groups: Vec<ComponentGroup<V>>,
}

impl<V> ComponentGroupStore<V> {
    /// The groups, in order of creation.
    pub closed spec fn groups(&self) -> Seq<ComponentGroup<V>> {
        self.component_groups@
    }

    /// Every group aligned, and one group per schema.
    pub open spec fn well_formed(&self) -> bool {
        store_invariant(self.groups())
    }

    /// An empty store.
    pub fn new() -> (s: Self)
        ensures
            s.groups() == Seq::<ComponentGroup<V>>::empty(),
            s.well_formed(),
    {
        ComponentGroupStore { component_groups: Vec::new() }
    }

    /// The position of the group whose schema is exactly the keys of `key`.
    fn find_group(&self, key: &Vec<TypeKey>) -> (r: Option<usize>)
        ensures
            match r {
                Some(i) => i < self.groups().len() && self.groups()[i as int].schema()
                    == key@.to_set(),
                None => !has_group(self.groups(), key@.to_set()),
            },
    {
        let mut i: usize = 0;
        while i < self.component_groups.len()
            invariant
                i <= self.groups().len(),
                forall|s: int| 0 <= s < i ==> (#[trigger] self.groups()[s]).schema() != key@.to_set(),
            decreases self.groups().len() - i,
        {
            if same_schema(self.component_groups[i].get_key(), key) {
                return Some(i);
            }
            i += 1;
        }
        None
    }

    /// Stores one record: in the group with exactly its schema, or in a new group.
    pub fn push<I: IntoComponentGroupPush<V>>(&mut self, values: I)
        requires
            old(self).well_formed(),
            valid_record(values.record_fields()),
        ensures
            final(self).well_formed(),
            pushed(old(self).groups(), final(self).groups(), values.record_fields()),
    {
        values.push(self);
    }
}

impl<V> ComponentGroupStore<V> {
    /// The values of type `a` of every group whose schema holds `a`, group after
    /// group in creation order, rows in insertion order within a group.
    pub fn get_1(&self, a: TypeKey) -> (r: Vec<&V>)
        requires
            self.well_formed(),
        ensures
            deref_all(r@) == query_1(self.groups(), a),
    {
        let mut r: Vec<&V> = Vec::new();
        let mut i: usize = 0;
        while i < self.component_groups.len()
            invariant
                i <= self.groups().len(),
                self.well_formed(),
                deref_all(r@) == query_1(self.groups().take(i as int), a),
            decreases self.groups().len() - i,
        {
            let g = &self.component_groups[i];
            let key = g.get_key();
            proof {
                assert(self.groups().take(i + 1).drop_last() =~= self.groups().take(i as int));
                assert(self.groups()[i as int].well_formed());
            }
            if has_key(key, a) {
                let j = key_position(key, a);
                proof {
                    lemma_index_of_distinct(key@, j as int);
                }
                let col = &g.get_store()[j];
                extend_refs(&mut r, col);
            }
            i += 1;
        }
        assert(self.groups().take(self.groups().len() as int) =~= self.groups());
        r
    }

    /// The rows of (`a`, `b`) of every group whose schema holds both, group after
    /// group in creation order; the two values of a row come from one record.
    pub fn get_2(&self, a: TypeKey, b: TypeKey) -> (r: Vec<(&V, &V)>)
        requires
            self.well_formed(),
        ensures
            deref_pairs(r@) == query_2(self.groups(), a, b),
    {
        let mut r: Vec<(&V, &V)> = Vec::new();
        let mut i: usize = 0;
        while i < self.component_groups.len()
            invariant
                i <= self.groups().len(),
                self.well_formed(),
                deref_pairs(r@) == query_2(self.groups().take(i as int), a, b),
            decreases self.groups().len() - i,
        {
            let g = &self.component_groups[i];
            let key = g.get_key();
            proof {
                assert(self.groups().take(i + 1).drop_last() =~= self.groups().take(i as int));
                assert(self.groups()[i as int].well_formed());
            }
            if has_key(key, a) && has_key(key, b) {
                let ja = key_position(key, a);
                let jb = key_position(key, b);
                proof {
                    lemma_index_of_distinct(key@, ja as int);
                    lemma_index_of_distinct(key@, jb as int);
                }
                let cols = g.get_store();
                proof {
                    assert(g.columns()[ja as int] == cols@[ja as int]@);
                    assert(g.columns()[jb as int] == cols@[jb as int]@);
                }
                extend_pairs(&mut r, &cols[ja], &cols[jb]);
            }
            i += 1;
        }
        assert(self.groups().take(self.groups().len() as int) =~= self.groups());
        r
    }

    /// The rows of (`a`, `b`, `c`) of every group whose schema holds all three, group
    /// after group in creation order; the values of a row come from one record.
    pub fn get_3(&self, a: TypeKey, b: TypeKey, c: TypeKey) -> (r: Vec<(&V, &V, &V)>)
        requires
            self.well_formed(),
        ensures
            deref_triples(r@) == query_3(self.groups(), a, b, c),
    {
        let mut r: Vec<(&V, &V, &V)> = Vec::new();
        let mut i: usize = 0;
        while i < self.component_groups.len()
            invariant
                i <= self.groups().len(),
                self.well_formed(),
                deref_triples(r@) == query_3(self.groups().take(i as int), a, b, c),
            decreases self.groups().len() - i,
        {
            let g = &self.component_groups[i];
            let key = g.get_key();
            proof {
                assert(self.groups().take(i + 1).drop_last() =~= self.groups().take(i as int));
                assert(self.groups()[i as int].well_formed());
            }
            if has_key(key, a) && has_key(key, b) && has_key(key, c) {
                let ja = key_position(key, a);
                let jb = key_position(key, b);
                let jc = key_position(key, c);
                proof {
                    lemma_index_of_distinct(key@, ja as int);
                    lemma_index_of_distinct(key@, jb as int);
                    lemma_index_of_distinct(key@, jc as int);
                }
                let cols = g.get_store();
                let mut rows = zip_three(&cols[ja], &cols[jb], &cols[jc]);
                let ghost r0 = r@;
                let ghost rows0 = rows@;
                r.append(&mut rows);
                proof {
                    let col_a = g.column_of(a);
                    assert(deref_triples(rows0) =~= zip_3(col_a, g.column_of(b), g.column_of(c)));
                    assert(deref_triples(r@) =~= deref_triples(r0) + deref_triples(rows0));
                }
            }
            i += 1;
        }
        assert(self.groups().take(self.groups().len() as int) =~= self.groups());
        r
    }
}

/// Appends a reference to each value of `col`, in order.
fn extend_refs<'a, V>(r: &mut Vec<&'a V>, col: &'a Vec<V>)
    ensures
        deref_all(final(r)@) == deref_all(old(r)@) + col@,
{
    let ghost start = deref_all(r@);
    let mut k: usize = 0;
    while k < col.len()
        invariant
            k <= col@.len(),
            deref_all(r@) == start + col@.take(k as int),
        decreases col@.len() - k,
    {
        let ghost prev = r@;
        r.push(&col[k]);
        assert(deref_all(r@) =~= deref_all(prev).push(col@[k as int]));
        k += 1;
        assert(deref_all(r@) =~= start + col@.take(k as int));
    }
    assert(col@.take(col@.len() as int) =~= col@);
}

/// Appends the pairs of row `k` of `x` and `y`, in order.
fn extend_pairs<'a, V>(r: &mut Vec<(&'a V, &'a V)>, x: &'a Vec<V>, y: &'a Vec<V>)
    requires
        x@.len() == y@.len(),
    ensures
        deref_pairs(final(r)@) == deref_pairs(old(r)@) + zip_2(x@, y@),
{
    let ghost start = deref_pairs(r@);
    let mut k: usize = 0;
    while k < x.len()
        invariant
            k <= x@.len(),
            x@.len() == y@.len(),
            deref_pairs(r@) == start + zip_2(x@, y@).take(k as int),
        decreases x@.len() - k,
    {
        let ghost prev = r@;
        r.push((&x[k], &y[k]));
        assert(deref_pairs(r@) =~= deref_pairs(prev).push((x@[k as int], y@[k as int])));
        k += 1;
        assert(deref_pairs(r@) =~= start + zip_2(x@, y@).take(k as int));
    }
    assert(zip_2(x@, y@).take(x@.len() as int) =~= zip_2(x@, y@));
}

/// Relies on itertools::multizip: it yields the `k`-th items of the three
/// iterators together, for as long as each of them has one.
#[verifier::external_body]
fn zip_three<'a, V>(x: &'a Vec<V>, y: &'a Vec<V>, z: &'a Vec<V>) -> (r: Vec<(&'a V, &'a V, &'a V)>)
    ensures
        r@.len() == vstd::math::min(vstd::math::min(x@.len() as int, y@.len() as int), z@.len() as int),
        forall|k: int|
            0 <= k < r@.len() ==> *(#[trigger] r@[k]).0 == x@[k] && *r@[k].1 == y@[k] && *r@[k].2
                == z@[k],
{
    itertools::multizip((x.iter(), y.iter(), z.iter())).collect()
}

impl<V> Default for ComponentGroupStore<V> {
    fn default() -> (s: Self)
        ensures
            s.groups() == Seq::<ComponentGroup<V>>::empty(),
            s.well_formed(),
    {
        Self::new()
    }
}

/// A record that can be stored in a `ComponentGroupStore`.
pub trait IntoComponentGroupPush<V>: IntoComponentGroup<V> {
    fn push(self, store: &mut ComponentGroupStore<V>)
        requires
            old(store).well_formed(),
            valid_record(self.record_fields()),
        ensures
            final(store).well_formed(),
            pushed(old(store).groups(), final(store).groups(), self.record_fields()),
    ;
}

impl<V: Component> IntoComponentGroupPush<V> for Vec<(TypeKey, V)> {
    fn push(self, store: &mut ComponentGroupStore<V>) {
        let ghost fs = self@;
        let ghost before = store.groups();
        let key = self.get_key();
        match store.find_group(&key) {
            Some(i) => {
                store.component_groups[i].append_row(self);
                proof {
                    let after = store.groups();
                    assert forall|s: int| 0 <= s < after.len() implies
                        (#[trigger] after[s]).schema() == before[s].schema() by {
                        if s == i {
                            assert(after[s].key_seq() == before[s].key_seq());
                        }
                    }
                    assert forall|s: int, t: int| 0 <= s < t < after.len() implies
                        (#[trigger] after[s]).schema() != (#[trigger] after[t]).schema() by {
                        assert(after[s].schema() == before[s].schema());
                        assert(after[t].schema() == before[t].schema());
                    }
                    assert forall|s: int| 0 <= s < before.len() && s != i implies
                        (#[trigger] before[s]).schema() != field_keys(fs).to_set() by {
                        if s < i {
                            assert(before[s].schema() != before[i as int].schema());
                        } else {
                            assert(before[i as int].schema() != before[s].schema());
                        }
                    }
                }
            },
            None => {
                let g = self.into_component_group();
                store.component_groups.push(g);
                proof {
                    let after = store.groups();
                    assert(after.take(before.len() as int) =~= before);
                    assert forall|s: int, t: int| 0 <= s < t < after.len() implies
                        (#[trigger] after[s]).schema() != (#[trigger] after[t]).schema() by {
                        if t == before.len() {
                            assert(after[s] == before[s]);
                        } else {
                            assert(after[s] == before[s]);
                            assert(after[t] == before[t]);
                        }
                    }
                    assert forall|s: int| 0 <= s < after.len() implies
                        (#[trigger] after[s]).well_formed() by {
                        if s < before.len() {
                            assert(after[s] == before[s]);
                        }
                    }
                }
            },
        }
    }
}

} // verus!
