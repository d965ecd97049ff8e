use asset_store::assets::{
    Asset, Assets, ConvertableRenderAsset, LoadableAsset, RenderAsset, WriteableAsset,
};
use asset_store::handle::AssetHandle;
use asset_store::shared::ArcHandle;
use std::collections::hash_map::DefaultHasher;
use std::collections::HashSet;
use std::hash::{Hash, Hasher};

#[derive(Debug, Clone, PartialEq)]
struct Person {
    name: String,
    age: u32,
    writes: Vec<(String, u32)>,
}

impl Person {
    fn new(name: &str, age: u32) -> Person {
        Person { name: name.to_string(), age, writes: Vec::new() }
    }

    fn parse(text: &str) -> Person {
        let mut words = text.split_whitespace();
        let name = words.next().unwrap();
        let age = words.next().unwrap().parse::<u32>().unwrap();
        Person::new(name, age)
    }
}

impl Asset for Person {}

// Files are simulated: the text of the file at a path is "<path> <length of path>".
impl LoadableAsset for Person {
    fn load(path: &str) -> Self {
        Person::parse(&format!("{} {}", path, path.len()))
    }
}

// A write is recorded in the value itself: the path and the age saved.
impl WriteableAsset for Person {
    fn write(&mut self, path: &str) {
        self.writes.push((path.to_string(), self.age));
    }
}

#[derive(Debug, PartialEq)]
struct Badge {
    text: String,
}

impl RenderAsset for Badge {}

impl ConvertableRenderAsset for Badge {
    type SourceAsset = Person;
    type Params = u32;

    fn convert(source: &Person, params: &u32) -> Self {
        Badge { text: format!("{}:{}", source.name, source.age + *params) }
    }
}

fn registry() -> Assets<Person, Badge> {
    Assets::new()
}

#[test]
fn handles_are_unique() {
    let mut assets = registry();
    let a = assets.insert(Person::new("a", 1));
    let b = assets.load_async("b", false, false);
    let c = assets.load_sync("cc", false, false);
    let d = assets.insert(Person::new("a", 1));
    let e = assets.load("eee", true, true, false);
    let handles = [a, b, c, d, e];
    for i in 0..handles.len() {
        for j in 0..handles.len() {
            assert_eq!(handles[i] == handles[j], i == j);
        }
    }
    assert_eq!(a.id(), 0);
    assert_eq!(e.id(), 4);
}

#[test]
fn handle_equality_ignores_type_tag() {
    let mut assets = registry();
    let a = assets.insert(Person::new("a", 1));
    let erased: AssetHandle<()> = a.clone_typed();
    assert_eq!(erased.id(), a.id());
    let back: AssetHandle<Person> = erased.clone_typed();
    assert!(back == a);
    let copy = a;
    assert!(copy == a);
}

#[test]
fn read_after_insert() {
    let mut assets = registry();
    let h = assets.insert(Person::new("bro", 12));
    assert_eq!(assets.get(h), Some(&Person::new("bro", 12)));
    assert_eq!(assets.get(h), Some(&Person::new("bro", 12)));
    assert!(!assets.is_dirty(h));
}

#[test]
fn get_mut_changes_value_and_marks_dirty() {
    let mut assets = registry();
    let h = assets.insert(Person::new("bro", 12));
    assets.get_mut(h).unwrap().age += 1;
    assert_eq!(assets.get(h).unwrap().age, 13);
    assert!(assets.is_dirty(h));
}

#[test]
fn get_on_pending_is_none() {
    let mut assets = registry();
    let h = assets.load_async("p", false, false);
    assert!(assets.get(h).is_none());
    assert!(assets.get_mut(h).is_none());
    assert!(assets.is_dirty(h));
}

#[test]
fn sync_load_is_ready_at_once() {
    let mut assets = registry();
    let h = assets.load("alice", false, false, true);
    assert_eq!(assets.get(h), Some(&Person::new("alice", 5)));
    let h = assets.load_sync("bob", false, false);
    assert_eq!(assets.get(h), Some(&Person::new("bob", 3)));
    let h = assets.load("carol", false, false, false);
    assert!(assets.get(h).is_none());
}

#[test]
fn insert_loaded_binds_as_asked() {
    let mut assets = registry();
    let h = assets.insert_loaded(Person::new("ann", 7), "ann.person", true, true);
    assert_eq!(assets.get(h), Some(&Person::new("ann", 7)));
    assets.get_mut(h);
    let written = assets.poll_write();
    assert_eq!(written, vec![h]);
    assert_eq!(assets.get(h).unwrap().writes, vec![("ann.person".to_string(), 7)]);
    assets.force_reload("ann.person".to_string());
    assert_eq!(assets.poll_reload(), vec![h]);
    assert_eq!(assets.get(h), Some(&Person::new("ann.person", 10)));
}

#[test]
fn async_load_visible_after_poll() {
    let mut assets = registry();
    let h = assets.load_async("p", false, false);
    assert!(assets.get(h).is_none());
    assert!(assets.get(h).is_none());
    assets.poll_loaded(vec![(h, Person::parse("alice 30"))]);
    let person = assets.get(h).unwrap();
    assert_eq!(person.name, "alice");
    assert_eq!(person.age, 30);
    let again = assets.get(h).unwrap();
    assert_eq!(again.name, "alice");
    assert_eq!(again.age, 30);
}

#[test]
fn later_completion_wins() {
    let mut assets = registry();
    let h = assets.load_async("p", false, false);
    let other = assets.insert(Person::new("o", 1));
    assets.poll_loaded(vec![
        (h, Person::new("first", 1)),
        (other, Person::new("o", 2)),
        (h, Person::new("second", 2)),
    ]);
    assert_eq!(assets.get(h), Some(&Person::new("second", 2)));
    assert_eq!(assets.get(other), Some(&Person::new("o", 2)));
}

#[test]
fn empty_poll_changes_nothing() {
    let mut assets = registry();
    let h = assets.insert(Person::new("x", 1));
    assets.poll_loaded(Vec::new());
    assert_eq!(assets.poll_reload(), Vec::new());
    assert_eq!(assets.poll_write(), Vec::new());
    assert_eq!(assets.get(h), Some(&Person::new("x", 1)));
}

#[test]
fn completion_drops_derived() {
    let mut assets = registry();
    let h = assets.load_async("p", false, false);
    assets.poll_loaded(vec![(h, Person::new("a", 1))]);
    let first = assets.convert(h, &0).unwrap();
    assert_eq!(first.text, "a:1");
    assets.poll_loaded(vec![(h, Person::new("b", 2))]);
    let second = assets.convert(h, &0).unwrap();
    assert_eq!(second.text, "b:2");
    assert!(first != second);
}

#[test]
fn convert_is_memoized() {
    let mut assets = registry();
    let h = assets.insert(Person::new("shader", 100));
    let first = assets.convert(h, &1).unwrap();
    let second = assets.convert(h, &5).unwrap();
    assert!(first == second);
    assert_eq!(first.id(), second.id());
    assert_eq!(second.text, "shader:101");
}

#[test]
fn convert_of_pending_is_none() {
    let mut assets = registry();
    let h = assets.load_async("p", false, false);
    assert!(assets.convert(h, &1).is_none());
    assets.poll_loaded(vec![(h, Person::new("late", 1))]);
    assert_eq!(assets.convert(h, &1).unwrap().text, "late:2");
}

#[test]
fn mutation_invalidates_derived() {
    let mut assets = registry();
    let h = assets.insert(Person::new("s", 1));
    let first = assets.convert(h, &0).unwrap();
    assets.get_mut(h);
    let second = assets.convert(h, &0).unwrap();
    assert!(first != second);
    assert_eq!(second.text, "s:1");
    assets.get_mut(h).unwrap().age = 7;
    let third = assets.convert(h, &0).unwrap();
    assert_eq!(third.text, "s:7");
    assert_eq!(first.text, "s:1");
}

#[test]
fn derived_ids_are_fresh() {
    let mut assets = registry();
    let a = assets.insert(Person::new("a", 1));
    let b = assets.insert(Person::new("b", 1));
    let da = assets.convert(a, &0).unwrap();
    let db = assets.convert(b, &0).unwrap();
    assert_eq!(da.id(), 0);
    assert_eq!(db.id(), 1);
}

#[test]
fn insert_derived_memoizes_given_value() {
    let mut assets = registry();
    let h = assets.insert(Person::new("a", 1));
    let d = assets.insert_derived(h, Badge { text: "made".to_string() });
    assert_eq!(d.text, "made");
    let again = assets.convert(h, &9).unwrap();
    assert!(again == d);
    assert_eq!(again.text, "made");
}

#[test]
fn write_back_scenario() {
    let mut assets = registry();
    let a = assets.insert(Person::new("x", 1));
    assets.get_mut(a).unwrap().age = 2;
    assert!(assets.is_dirty(a));
    assert_eq!(assets.poll_write(), Vec::new());
    assert!(!assets.is_dirty(a));
    assert!(assets.get(a).unwrap().writes.is_empty());

    assets.write(a, "a.person");
    assets.get_mut(a).unwrap().age = 3;
    assert_eq!(assets.poll_write(), vec![a]);
    assert_eq!(assets.get(a).unwrap().writes, vec![("a.person".to_string(), 3)]);
    assert!(!assets.is_dirty(a));
    assert_eq!(assets.poll_write(), Vec::new());
    assert_eq!(assets.get(a).unwrap().writes.len(), 1);
}

#[test]
fn write_back_order_and_filter() {
    let mut assets = registry();
    let a = assets.insert_loaded(Person::new("a", 1), "a", false, true);
    let b = assets.insert_loaded(Person::new("b", 1), "b", false, true);
    let c = assets.insert(Person::new("c", 1));
    let p = assets.load_async("p", false, true);
    assets.get_mut(b);
    assets.get_mut(c);
    assets.get_mut(p);
    assets.get_mut(a);
    assets.get_mut(b);
    assert_eq!(assets.poll_write(), vec![b, a]);
    for h in [a, b, c, p] {
        assert!(!assets.is_dirty(h));
    }
}

#[test]
fn reload_once_per_notification() {
    let mut assets = registry();
    let h = assets.insert_loaded(Person::new("old", 1), "file", true, false);
    let before = assets.convert(h, &0).unwrap();
    assets.force_reload("file".to_string());
    assert_eq!(assets.poll_reload(), vec![h]);
    assert_eq!(assets.get(h), Some(&Person::new("file", 4)));
    let after = assets.convert(h, &0).unwrap();
    assert!(before != after);
    assert_eq!(after.text, "file:4");
    assert_eq!(assets.poll_reload(), Vec::new());
    assert!(assets.convert(h, &0).unwrap() == after);
}

#[test]
fn reload_of_unwatched_path_does_nothing() {
    let mut assets = registry();
    let h = assets.insert_loaded(Person::new("old", 1), "file", false, false);
    assets.force_reload("file".to_string());
    assets.force_reload("other".to_string());
    assert_eq!(assets.poll_reload(), Vec::new());
    assert_eq!(assets.get(h), Some(&Person::new("old", 1)));
}

#[test]
fn reload_each_notification_in_order() {
    let mut assets = registry();
    let a = assets.insert_loaded(Person::new("a", 1), "one", true, false);
    let b = assets.insert_loaded(Person::new("b", 1), "three", true, false);
    assets.force_reload("three".to_string());
    assets.force_reload("one".to_string());
    assets.force_reload("three".to_string());
    assert_eq!(assets.poll_reload(), vec![b, a, b]);
    assert_eq!(assets.get(a), Some(&Person::new("one", 3)));
    assert_eq!(assets.get(b), Some(&Person::new("three", 5)));
}

#[test]
fn rewatching_moves_path_to_newer_handle() {
    let mut assets = registry();
    let a = assets.insert_loaded(Person::new("a", 1), "shared", true, false);
    let b = assets.insert_loaded(Person::new("b", 1), "shared", true, false);
    assets.force_reload("shared".to_string());
    assert_eq!(assets.poll_reload(), vec![b]);
    assert_eq!(assets.get(a), Some(&Person::new("a", 1)));
    assert_eq!(assets.get(b), Some(&Person::new("shared", 6)));
    assets.watch(a, "shared");
    assets.force_reload("shared".to_string());
    assert_eq!(assets.poll_reload(), vec![a]);
}

#[test]
fn reload_fills_pending_handle() {
    let mut assets = registry();
    let h = assets.load_async("pending", true, false);
    assert!(assets.get(h).is_none());
    assets.force_reload("pending".to_string());
    assert_eq!(assets.poll_reload(), vec![h]);
    assert_eq!(assets.get(h), Some(&Person::new("pending", 7)));
}

#[test]
fn issued_and_free_ids() {
    let mut assets = registry();
    let mut other = registry();
    let h = assets.insert(Person::new("a", 1));
    other.insert(Person::new("b", 1));
    let foreign = other.insert(Person::new("c", 1));
    assert!(assets.issued(&h));
    assert!(!assets.issued(&foreign));
    assert!(assets.has_free_id());
}

#[test]
fn shared_handle_basics() {
    let a = ArcHandle::new(String::from("gpu"), 7);
    let b = a.clone();
    assert_eq!(a.id(), 7);
    assert!(a == b);
    assert!(std::sync::Arc::ptr_eq(&a.handle, &b.handle));
    assert_eq!(b.as_str(), "gpu");
    let r: &String = b.as_ref();
    assert_eq!(r, "gpu");
    let c = ArcHandle::new(String::from("gpu"), 8);
    assert!(a != c);
}

#[test]
fn handles_hash_by_id() {
    let mut assets = registry();
    let a = assets.insert(Person::new("a", 1));
    let b = assets.insert(Person::new("b", 1));
    let mut set = HashSet::new();
    set.insert(a);
    set.insert(a.clone_typed::<()>().clone_typed::<Person>());
    set.insert(b);
    assert_eq!(set.len(), 2);
    let x = ArcHandle::new(String::from("x"), 7);
    let y = ArcHandle::new(String::from("y"), 7);
    let mut hx = DefaultHasher::new();
    x.hash(&mut hx);
    let mut hy = DefaultHasher::new();
    y.hash(&mut hy);
    assert!(x == y);
    assert_eq!(hx.finish(), hy.finish());
}

#[test]
fn new_handles_start_clean() {
    let mut assets = registry();
    let a = assets.insert(Person::new("a", 1));
    assets.get_mut(a);
    let b = assets.insert(Person::new("b", 1));
    let c = assets.load_async("c", false, true);
    assert!(assets.is_dirty(a));
    assert!(!assets.is_dirty(b));
    assert!(!assets.is_dirty(c));
    assert_eq!(assets.poll_write(), Vec::new());
}
