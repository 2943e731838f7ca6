use vstd::prelude::*;

verus! {

/// Identifies one concrete kind of component value. A host program gives each
/// component type a key of its own.
pub type TypeKey = u64;

/// Marker for the values that a store can hold.
pub trait Component: 'static {
}

impl<A: 'static> Component for A {
}

/// No key occurs twice in `s`.
pub open spec fn distinct_keys(s: Seq<TypeKey>) -> bool {
    forall|i: int, j: int| 0 <= i < j < s.len() ==> s[i] != s[j]
}

/// The keys of a record's fields, in field order.
pub open spec fn field_keys<V>(fields: Seq<(TypeKey, V)>) -> Seq<TypeKey> {
    fields.map_values(|f: (TypeKey, V)| f.0)
}

/// A record that can be stored: at least one field, and no key twice.
pub open spec fn valid_record<V>(fields: Seq<(TypeKey, V)>) -> bool {
    fields.len() > 0 && distinct_keys(field_keys(fields))
}

/// The columns of a group made from one record: one single-value column per field.
pub open spec fn seed_columns<V>(fields: Seq<(TypeKey, V)>) -> Seq<Seq<V>> {
    Seq::new(fields.len(), |t: int| seq![fields[t].1])
}

/// The rows of one schema: `key[j]` names the type of the values in column `j`,
/// and row `i` is the `i`-th value of every column.
pub struct ComponentGroup<V> {
    key: Vec<TypeKey>,
    store: Vec<Vec<V>>,
}

impl<V> ComponentGroup<V> {
    /// The group's type keys, one per column.
    pub closed spec fn key_seq(&self) -> Seq<TypeKey> {
        self.key@
    }

    /// The group's columns as vectors.
    pub closed spec fn column_vecs(&self) -> Vec<Vec<V>> {
        self.store
    }

    /// The group's columns as sequences of values.
    pub open spec fn columns(&self) -> Seq<Seq<V>> {
        self.column_vecs()@.map_values(|c: Vec<V>| c@)
    }

    /// The set of component types the group holds.
    pub open spec fn schema(&self) -> Set<TypeKey> {
        self.key_seq().to_set()
    }

    /// The column that holds values of type `k`.
    pub open spec fn column_of(&self, k: TypeKey) -> Seq<V> {
        self.columns()[self.key_seq().index_of(k)]
    }

    /// One column per key, no key twice, at least one column, all columns of one length.
    pub open spec fn well_formed(&self) -> bool {
        &&& self.key_seq().len() > 0
        &&& distinct_keys(self.key_seq())
        &&& self.columns().len() == self.key_seq().len()
        &&& forall|j: int|
            0 <= j < self.columns().len() ==> #[trigger] self.columns()[j].len()
                == self.columns()[0].len()
    }

    /// The number of rows: the length of every column.
    pub open spec fn row_count(&self) -> nat {
        self.columns()[0].len()
    }

    /// A group with the keys `key` and the columns `store`, column `j` holding the
    /// values of type `key[j]`. The store keeps columns aligned; the group checks nothing.
    pub fn new(key: Vec<TypeKey>, store: Vec<Vec<V>>) -> (r: Self)
        ensures
            r.key_seq() == key@,
            r.column_vecs() == store,
    {
        ComponentGroup { key, store }
    }

    /// The group's keys, one per column.
    pub fn get_key(&self) -> (r: &Vec<TypeKey>)
        ensures
            r@ == self.key_seq(),
    {
        &self.key
    }

    /// The group's columns.
    pub fn get_store(&self) -> (r: &Vec<Vec<V>>)
        ensures
            *r == self.column_vecs(),
    {
        &self.store
    }

    /// The group's columns, for appending rows; the keys stay as they are.
    pub fn get_store_mut(&mut self) -> (r: &mut Vec<Vec<V>>)
        ensures
            *r == old(self).column_vecs(),
            final(self).key_seq() == old(self).key_seq(),
            final(self).column_vecs() == *final(r),
    {
        &mut self.store
    }
}

/// Appends `v` to column `j`, leaving the other columns as they are.
fn push_to_column<V>(cols: &mut Vec<Vec<V>>, j: usize, v: V)
    requires
        j < old(cols)@.len(),
    ensures
        final(cols)@.len() == old(cols)@.len(),
        final(cols)@[j as int]@ == old(cols)@[j as int]@.push(v),
        forall|t: int| 0 <= t < old(cols)@.len() && t != j ==> final(cols)@[t] == old(cols)@[t],
{
    cols[j].push(v);
}

/// Some field at index `m` or later has key `k`.
pub open spec fn placed<V>(fields: Seq<(TypeKey, V)>, m: int, k: TypeKey) -> bool {
    exists|t: int| m <= t < fields.len() && #[trigger] fields[t].0 == k
}

/// `after` is `before` with the record `fields` added as one more row: each column
/// gains the value of the field with the column's key.
pub open spec fn appended<V>(
    before: ComponentGroup<V>,
    after: ComponentGroup<V>,
    fields: Seq<(TypeKey, V)>,
) -> bool {
    &&& after.key_seq() == before.key_seq()
    &&& after.columns().len() == before.columns().len()
    &&& forall|j: int, t: int|
        #![trigger after.columns()[j], fields[t]]
        0 <= j < before.columns().len() && 0 <= t < fields.len() && fields[t].0
            == before.key_seq()[j] ==> after.columns()[j] == before.columns()[j].push(fields[t].1)
}

/// Where `k` stands in `key`.
pub(crate) fn key_position(key: &Vec<TypeKey>, k: TypeKey) -> (j: usize)
    requires
        key@.contains(k),
    ensures
        j < key@.len(),
        key@[j as int] == k,
{
    let mut j: usize = 0;
    while j < key.len()
        invariant
            j <= key@.len(),
            key@.contains(k),
            forall|s: int| 0 <= s < j ==> key@[s] != k,
        decreases key@.len() - j,
    {
        if key[j] == k {
            return j;
        }
        j += 1;
    }
    proof {
        let s = choose|s: int| 0 <= s < key@.len() && key@[s] == k;
        assert(key@[s] != k);
    }
    0
}

impl<V> ComponentGroup<V> {
    /// Adds the record `fields`, whose keys are exactly this group's schema, as one row.
    pub(crate) fn append_row(&mut self, fields: Vec<(TypeKey, V)>)
        requires
            old(self).well_formed(),
            valid_record(fields@),
            field_keys(fields@).to_set() == old(self).schema(),
        ensures
            final(self).well_formed(),
            appended(*old(self), *final(self), fields@),
            final(self).row_count() == old(self).row_count() + 1,
    {
        let ghost before = *self;
        let ghost fs = fields@;
        let ghost n = before.columns().len();
        let mut values = fields;
        while values.len() > 0
            invariant
                values@ == fs.take(values@.len() as int),
                values@.len() <= fs.len(),
                before.well_formed(),
                valid_record(fs),
                field_keys(fs).to_set() == before.schema(),
                n == before.columns().len(),
                self.key_seq() == before.key_seq(),
                self.columns().len() == n,
                forall|j: int, t: int|
                    #![trigger self.columns()[j], fs[t]]
                    0 <= j < n && values@.len() <= t < fs.len() && fs[t].0 == before.key_seq()[j]
                        ==> self.columns()[j] == before.columns()[j].push(fs[t].1),
                forall|j: int|
                    0 <= j < n && !placed(fs, values@.len() as int, before.key_seq()[j])
                        ==> #[trigger] self.columns()[j] == before.columns()[j],
            decreases values@.len(),
        {
            let m = values.len() - 1;
            let p = values.pop().unwrap();
            let (k, v) = p;
            assert(fs[m as int] == p);
            assert(field_keys(fs)[m as int] == k);
            assert(before.schema().contains(k));
            let j = key_position(self.get_key(), k);
            let ghost mid = *self;
            let cols = self.get_store_mut();
            push_to_column(cols, j, v);
            proof {
                assert(self.columns()[j as int] == mid.columns()[j as int].push(v));
                assert forall|i: int| 0 <= i < n && i != j implies #[trigger] self.columns()[i]
                    == mid.columns()[i] by {
                    assert(self.column_vecs()@[i] == mid.column_vecs()@[i]);
                }
                assert(!placed(fs, m + 1, k)) by {
                    if placed(fs, m + 1, k) {
                        let t = choose|t: int| m + 1 <= t < fs.len() && #[trigger] fs[t].0 == k;
                        assert(field_keys(fs)[t] == k);
                    }
                }
                assert forall|i: int| 0 <= i < n && i != j implies
                    #[trigger] before.key_seq()[i] != k by {
                    assert(before.key_seq()[j as int] == k);
                }
                assert forall|i: int, t: int|
                    #![trigger self.columns()[i], fs[t]]
                    0 <= i < n && m <= t < fs.len() && fs[t].0 == before.key_seq()[i]
                        implies self.columns()[i] == before.columns()[i].push(fs[t].1) by {
                    if t == m {
                        assert(i == j);
                    }
                }
                assert forall|i: int|
                    0 <= i < n && !placed(fs, m as int, before.key_seq()[i])
                        implies #[trigger] self.columns()[i] == before.columns()[i] by {
                    assert(fs[m as int].0 != before.key_seq()[i]);
                    if placed(fs, m + 1, before.key_seq()[i]) {
                        let t = choose|t: int|
                            m + 1 <= t < fs.len() && #[trigger] fs[t].0 == before.key_seq()[i];
                        assert(m <= t);
                    }
                }
            }
        }
        proof {
            assert forall|j: int| 0 <= j < n implies #[trigger] placed(fs, 0, before.key_seq()[j]) by {
                assert(before.schema().contains(before.key_seq()[j]));
                assert(field_keys(fs).to_set().contains(before.key_seq()[j]));
                let t = choose|t: int|
                    0 <= t < field_keys(fs).len() && field_keys(fs)[t] == before.key_seq()[j];
                assert(fs[t].0 == before.key_seq()[j]);
            }
            assert forall|j: int| 0 <= j < n implies #[trigger] self.columns()[j].len()
                == self.columns()[0].len() by {
                assert(placed(fs, 0, before.key_seq()[0]));
                assert(placed(fs, 0, before.key_seq()[j]));
                let t = choose|t: int| 0 <= t < fs.len() && #[trigger] fs[t].0 == before.key_seq()[j];
                let u = choose|t: int| 0 <= t < fs.len() && #[trigger] fs[t].0 == before.key_seq()[0];
                assert(self.columns()[j] == before.columns()[j].push(fs[t].1));
                assert(self.columns()[0] == before.columns()[0].push(fs[u].1));
                assert(before.columns()[j].len() == before.columns()[0].len());
            }
        }
    }
}

/// A record whose schema can be computed: the keys of its fields.
pub trait IntoComponentGroupKey {
    spec fn record_keys(&self) -> Seq<TypeKey>;

    /// The record's keys, in field order.
    fn get_key(&self) -> (r: Vec<TypeKey>)
        ensures
            r@ == self.record_keys(),
    ;
}

/// A record that can seed a new group of its own.
pub trait IntoComponentGroup<V>: Sized {
    spec fn record_fields(&self) -> Seq<(TypeKey, V)>;

    /// A one-row group whose schema is the record's keys.
    fn into_component_group(self) -> (g: ComponentGroup<V>)
        requires
            valid_record(self.record_fields()),
        ensures
            g.well_formed(),
            g.key_seq() == field_keys(self.record_fields()),
            g.columns() == seed_columns(self.record_fields()),
            g.row_count() == 1,
    ;
}

impl<V: Component> IntoComponentGroupKey for Vec<(TypeKey, V)> {
    open spec fn record_keys(&self) -> Seq<TypeKey> {
        field_keys(self@)
    }

    fn get_key(&self) -> (r: Vec<TypeKey>) {
        let mut r: Vec<TypeKey> = Vec::new();
        let mut t: usize = 0;
        while t < self.len()
            invariant
                t <= self@.len(),
                r@ == field_keys(self@).take(t as int),
            decreases self@.len() - t,
        {
            r.push(self[t].0);
            t += 1;
            assert(r@ =~= field_keys(self@).take(t as int));
        }
        assert(r@ =~= field_keys(self@));
        r
    }
}

impl<V: Component> IntoComponentGroup<V> for Vec<(TypeKey, V)> {
    open spec fn record_fields(&self) -> Seq<(TypeKey, V)> {
        self@
    }

    fn into_component_group(self) -> (g: ComponentGroup<V>) {
        let ghost fs = self@;
        let key = self.get_key();
        let n = self.len();
        let mut cols: Vec<Vec<V>> = Vec::new();
        let mut t: usize = 0;
        while t < n
            invariant
                t <= n,
                cols@.len() == t,
                forall|s: int| 0 <= s < t ==> (#[trigger] cols@[s])@ == Seq::<V>::empty(),
            decreases n - t,
        {
            cols.push(Vec::new());
            t += 1;
        }
        let mut values = self;
        while values.len() > 0
            invariant
                values@ == fs.take(values@.len() as int),
                values@.len() <= fs.len(),
                n == fs.len(),
                cols@.len() == n,
                forall|s: int| 0 <= s < values@.len() ==> (#[trigger] cols@[s])@ == Seq::<V>::empty(),
                forall|s: int| values@.len() <= s < n ==> (#[trigger] cols@[s])@ == seq![fs[s].1],
            decreases values@.len(),
        {
            let m = values.len() - 1;
            let p = values.pop().unwrap();
            assert(fs[m as int] == p);
            push_to_column(&mut cols, m, p.1);
            assert(cols@[m as int]@ =~= seq![fs[m as int].1]);
        }
        let g = ComponentGroup::new(key, cols);
        assert(g.columns() =~= seed_columns(fs));
        g
    }
}

} // verus!
