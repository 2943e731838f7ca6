use component_groups::{
    ComponentGroup, ComponentGroupStore, IntoComponentGroup, IntoComponentGroupKey, TypeKey,
};

#[derive(Debug, Clone, PartialEq)]
enum Comp {
    Player,
    Enemy,
    Obstacle,
    Name(&'static str),
    Position(f32, f32),
}

const PLAYER: TypeKey = 1;
const ENEMY: TypeKey = 2;
const OBSTACLE: TypeKey = 3;
const NAME: TypeKey = 4;
const POSITION: TypeKey = 5;

fn name(s: &'static str) -> (TypeKey, Comp) {
    (NAME, Comp::Name(s))
}

fn position(x: f32, y: f32) -> (TypeKey, Comp) {
    (POSITION, Comp::Position(x, y))
}

fn demo_store() -> ComponentGroupStore<Comp> {
    let mut store = ComponentGroupStore::default();
    store.push(vec![(PLAYER, Comp::Player), name("Player"), position(5.0, 15.0)]);
    for x in [3.0, 4.0, 5.0, 6.0] {
        store.push(vec![(OBSTACLE, Comp::Obstacle), name("Wall"), position(x, 10.0)]);
    }
    store.push(vec![(OBSTACLE, Comp::Obstacle), name("Wall")]);
    store.push(vec![(ENEMY, Comp::Enemy), name("Enemy"), position(5.0, 5.0)]);
    store
}

#[test]
fn demo_query_counts() {
    let store = demo_store();
    assert_eq!(store.get_1(POSITION).len(), 6);
    assert_eq!(store.get_2(OBSTACLE, NAME).len(), 5);
    assert_eq!(store.get_3(ENEMY, NAME, POSITION).len(), 1);
}

#[test]
fn demo_query_values() {
    let store = demo_store();
    let positions: Vec<Comp> = store.get_1(POSITION).into_iter().cloned().collect();
    assert_eq!(
        positions,
        vec![
            Comp::Position(5.0, 15.0),
            Comp::Position(3.0, 10.0),
            Comp::Position(4.0, 10.0),
            Comp::Position(5.0, 10.0),
            Comp::Position(6.0, 10.0),
            Comp::Position(5.0, 5.0),
        ]
    );
    let enemy = store.get_3(ENEMY, NAME, POSITION);
    assert_eq!(enemy[0], (&Comp::Enemy, &Comp::Name("Enemy"), &Comp::Position(5.0, 5.0)));
    let obstacles = store.get_2(OBSTACLE, NAME);
    for (o, n) in obstacles {
        assert_eq!(o, &Comp::Obstacle);
        assert_eq!(n, &Comp::Name("Wall"));
    }
}

#[test]
fn field_order_does_not_change_the_group() {
    let mut store = ComponentGroupStore::new();
    store.push(vec![name("a"), position(1.0, 1.0)]);
    store.push(vec![name("b"), (PLAYER, Comp::Player)]);
    store.push(vec![position(2.0, 2.0), name("c")]);
    let names: Vec<Comp> = store.get_1(NAME).into_iter().cloned().collect();
    assert_eq!(names, vec![Comp::Name("a"), Comp::Name("c"), Comp::Name("b")]);
}

#[test]
fn pairs_stay_aligned() {
    let mut store = ComponentGroupStore::new();
    store.push(vec![name("a"), position(1.0, 1.0)]);
    store.push(vec![position(2.0, 2.0), name("b")]);
    store.push(vec![name("c"), position(3.0, 3.0), (ENEMY, Comp::Enemy)]);
    let rows = store.get_2(POSITION, NAME);
    assert_eq!(
        rows,
        vec![
            (&Comp::Position(1.0, 1.0), &Comp::Name("a")),
            (&Comp::Position(2.0, 2.0), &Comp::Name("b")),
            (&Comp::Position(3.0, 3.0), &Comp::Name("c")),
        ]
    );
}

#[test]
fn subset_schema_excluded() {
    let mut store = ComponentGroupStore::new();
    store.push(vec![name("only")]);
    store.push(vec![name("both"), position(0.0, 1.0)]);
    assert_eq!(store.get_2(NAME, POSITION).len(), 1);
    assert_eq!(store.get_1(NAME).len(), 2);
    assert_eq!(store.get_1(POSITION), vec![&Comp::Position(0.0, 1.0)]);
}

#[test]
fn empty_store_yields_nothing() {
    let store: ComponentGroupStore<Comp> = ComponentGroupStore::new();
    assert!(store.get_1(NAME).is_empty());
    assert!(store.get_2(NAME, POSITION).is_empty());
    assert!(store.get_3(PLAYER, NAME, POSITION).is_empty());
}

#[test]
fn unknown_key_yields_nothing() {
    let store = demo_store();
    assert!(store.get_1(99).is_empty());
    assert!(store.get_2(NAME, 99).is_empty());
}

#[test]
fn same_key_twice_in_query() {
    let mut store = ComponentGroupStore::new();
    store.push(vec![name("x")]);
    assert_eq!(store.get_2(NAME, NAME), vec![(&Comp::Name("x"), &Comp::Name("x"))]);
}

#[test]
fn record_key_in_field_order() {
    let record = vec![position(1.0, 2.0), name("n"), (PLAYER, Comp::Player)];
    assert_eq!(record.get_key(), vec![POSITION, NAME, PLAYER]);
}

#[test]
fn record_seeds_one_row_group() {
    let record = vec![name("n"), (ENEMY, Comp::Enemy)];
    let group = record.into_component_group();
    assert_eq!(group.get_key(), &vec![NAME, ENEMY]);
    assert_eq!(group.get_store(), &vec![vec![Comp::Name("n")], vec![Comp::Enemy]]);
}

#[test]
fn group_accessors() {
    let mut group = ComponentGroup::new(vec![NAME], vec![vec![Comp::Name("a")]]);
    assert_eq!(group.get_key(), &vec![NAME]);
    group.get_store_mut()[0].push(Comp::Name("b"));
    assert_eq!(group.get_store(), &vec![vec![Comp::Name("a"), Comp::Name("b")]]);
}

#[test]
fn insert_count_by_schema() {
    let mut store = ComponentGroupStore::new();
    store.push(vec![name("a1")]);
    store.push(vec![name("ab1"), (ENEMY, Comp::Enemy)]);
    store.push(vec![name("a2")]);
    store.push(vec![(ENEMY, Comp::Enemy), name("ab2")]);
    store.push(vec![(ENEMY, Comp::Enemy)]);
    store.push(vec![name("ab3"), (ENEMY, Comp::Enemy)]);
    let names: Vec<Comp> = store.get_1(NAME).into_iter().cloned().collect();
    assert_eq!(
        names,
        vec![
            Comp::Name("a1"),
            Comp::Name("a2"),
            Comp::Name("ab1"),
            Comp::Name("ab2"),
            Comp::Name("ab3"),
        ]
    );
    assert_eq!(store.get_2(NAME, ENEMY).len(), 3);
    assert_eq!(store.get_1(ENEMY).len(), 4);
}

#[test]
fn triples_follow_group_order() {
    let mut store = ComponentGroupStore::new();
    store.push(vec![name("p"), position(1.0, 0.0), (PLAYER, Comp::Player)]);
    store.push(vec![(ENEMY, Comp::Enemy), name("e"), position(2.0, 0.0), (PLAYER, Comp::Player)]);
    store.push(vec![(PLAYER, Comp::Player), position(3.0, 0.0), name("q")]);
    let rows = store.get_3(NAME, POSITION, PLAYER);
    assert_eq!(
        rows,
        vec![
            (&Comp::Name("p"), &Comp::Position(1.0, 0.0), &Comp::Player),
            (&Comp::Name("q"), &Comp::Position(3.0, 0.0), &Comp::Player),
            (&Comp::Name("e"), &Comp::Position(2.0, 0.0), &Comp::Player),
        ]
    );
}
