use btreec::BTreeC;
use std::cmp::Ordering;

#[derive(Debug, Default, Clone)]
struct User {
    first: &'static str,
    last: &'static str,
    age: i64,
}

impl User {
    fn new(first: &'static str, last: &'static str, age: i64) -> Self {
        Self { first, last, age }
    }
}

#[test]
fn btreec_new() {
    let compare_fn = Box::new(|a: &u64, b: &u64| {
        let mask = 0x12345678u64;
        let a = *a ^ mask;
        let b = *b ^ mask;
        a.cmp(&b)
    });
    let btree = BTreeC::new(compare_fn);
    assert_eq!(btree.count(), 0);
    assert_eq!(btree.height(), 0);
    assert!(!btree.oom());
}

#[test]
fn basic() {
    #[derive(Debug, Default, Clone)]
    struct TestItem {
        key: String,
        text: String,
        value: i64,
    }

    let compare_fn = Box::new(|a: &TestItem, b: &TestItem| a.key.cmp(&b.key));
    let mut btree = BTreeC::new(compare_fn);

    // this item serves for querying the tree: its value is ignored, because
    // the comparison looks at keys only
    let key = TestItem { key: "foo".to_string(), ..Default::default() };

    let item1 = TestItem { key: "foo".to_string(), text: "hello world".to_string(), value: 1 };
    let maybe_prev = btree.set(item1);
    assert!(maybe_prev.is_none());
    assert_eq!(btree.count(), 1);

    let item2 = TestItem { key: "foo".to_string(), text: "hello world2".to_string(), value: 2 };
    let prev = btree.set(item2).unwrap();
    assert_eq!(prev.key, "foo");
    assert_eq!(prev.value, 1);
    assert_eq!(prev.text, "hello world");
    assert_eq!(btree.count(), 1);

    let item = btree.get(key.clone()).unwrap();
    assert_eq!(item.value, 2);
    assert_eq!(item.text, "hello world2");

    assert!(btree.delete(key.clone()).is_some());
    assert!(btree.get(key).is_none());
}

#[test]
fn min_max_pop() {
    let compare_fn = Box::new(|a: &i64, b: &i64| a.cmp(b));
    let mut btree = BTreeC::new(compare_fn);
    btree.set(3);
    btree.set(4);
    btree.set(5);

    let min_ = btree.min().unwrap();
    assert_eq!(min_, &3);
    let min_ = btree.pop_min().unwrap();
    assert_eq!(min_, 3);
    let max_ = btree.max().unwrap();
    assert_eq!(max_, &5);
    let max_ = btree.pop_max().unwrap();
    assert_eq!(max_, 5);
    assert_eq!(btree.count(), 1);
}

#[test]
fn ascend_descend() {
    let mut ascending = vec![];
    let mut ascending_with_pivot = vec![];
    let mut descending = vec![];
    let mut descending_with_pivot = vec![];

    let compare_fn = Box::new(|a: &User, b: &User| {
        let mut result = a.last.cmp(&b.last);

        if result == Ordering::Equal {
            result = a.first.cmp(&b.first);
        }

        result
    });
    let mut btree = BTreeC::new(compare_fn);

    btree.set(User::new("Dale", "Murphy", 44));
    btree.set(User::new("Roger", "Craig", 68));
    btree.set(User::new("Jane", "Murphy", 47));
    assert_eq!(btree.count(), 3);

    btree.ascend(None, |item| {
        ascending.push(format!("{} {} {}", item.first, item.last, item.age));
        true
    });
    assert_eq!(ascending, vec!["Roger Craig 68", "Dale Murphy 44", "Jane Murphy 47"]);

    let pivot = User::new("", "Murphy", 0);
    btree.ascend(Some(pivot), |item| {
        ascending_with_pivot.push(format!("{} {} {}", item.first, item.last, item.age));
        true
    });
    assert_eq!(ascending_with_pivot, vec!["Dale Murphy 44", "Jane Murphy 47"]);

    btree.descend(None, |item| {
        descending.push(format!("{} {} {}", item.first, item.last, item.age));
        true
    });
    assert_eq!(descending, vec!["Jane Murphy 47", "Dale Murphy 44", "Roger Craig 68"]);

    let pivot = User::new("", "Murphy", 0);
    btree.descend(Some(pivot), |item| {
        descending_with_pivot.push(format!("{} {} {}", item.first, item.last, item.age));
        true
    });
    assert_eq!(descending_with_pivot, vec!["Roger Craig 68"]);
}

#[test]
fn db_item() {
    /// Meta information about an item.
    #[derive(Clone, Debug, Eq, PartialEq)]
    pub struct DbItemOpts {
        /// does this item expire?
        ex: bool,
        /// when does this item expire?
        exat: std::time::Instant,
    }

    #[derive(Clone, Debug, Eq, PartialEq)]
    pub struct DbItem {
        // the binary key
        key: &'static str,
        // the binary value
        val: &'static str,
        // optional meta information
        opts: Option<DbItemOpts>,
        // keyless item for scanning
        keyless: bool,
    }

    let mut ascending = vec![];
    let compare_fn = Box::new(|a: &DbItem, b: &DbItem| a.key.cmp(&b.key));
    let mut btree = BTreeC::new(compare_fn);

    btree.set(DbItem { key: "foo", val: "bar", opts: None, keyless: false });
    btree.set(DbItem {
        key: "fizz",
        val: "buzz",
        opts: Some(DbItemOpts { ex: true, exat: std::time::Instant::now() }),
        keyless: false,
    });
    assert_eq!(btree.count(), 2);

    btree.ascend(None, |item| {
        println!("item {:#?}", item);
        ascending.push(format!("{} {} {:#?}", item.key, item.val, item.opts));
        true
    });
    assert_eq!(ascending.len(), 2);
    assert!(ascending[0].starts_with("fizz buzz"));
    assert!(ascending[1].starts_with("foo bar"));
}
