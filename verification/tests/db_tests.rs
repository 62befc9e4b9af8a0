use zcached::{apply_request, Database, Request, Response, DB};

#[test]
fn get_misses_then_hits_after_set() {
    let mut db = DB::new();
    assert_eq!(apply_request(&Request::Get("abc"), &mut db), Response::Get(None));
    assert_eq!(apply_request(&Request::Put { key: "abc", value: "123" }, &mut db), Response::Put);
    assert_eq!(
        apply_request(&Request::Get("abc"), &mut db),
        Response::Get(Some("123".to_string()))
    );
}

#[test]
fn setting_and_getting_a_key_works() {
    let mut db = DB::new();
    let key = "abc";
    let value = "123".to_string();
    assert!(db.get(key).is_none());
    db.insert(key.to_string(), value.clone());
    assert_eq!(db.get(key).unwrap(), value);
}

#[test]
fn deleting_a_key_works() {
    let mut db = DB::new();
    let key = "abc";
    let value = "123".to_string();
    db.insert(key.to_string(), value.clone());
    assert_eq!(db.get(key).unwrap(), value);
    db.remove(key);
    assert!(db.get(key).is_none());
}

#[test]
fn flushing_works() {
    let mut db = DB::new();
    let key_1 = "abc";
    let key_2 = "def";
    let value = "123".to_string();
    db.insert(key_1.to_string(), value.clone());
    db.insert(key_2.to_string(), value.clone());
    assert_eq!(db.get(key_1).unwrap(), value);
    assert_eq!(db.get(key_2).unwrap(), value);
    db.clear();
    assert!(db.get(key_1).is_none());
    assert!(db.get(key_2).is_none());
}

#[test]
fn insert_overwrites_the_previous_binding() {
    let mut db = DB::with_capacity(16);
    db.insert("k".to_string(), "first".to_string());
    db.insert("k".to_string(), "second".to_string());
    assert_eq!(db.get("k").unwrap(), "second");
}

#[test]
fn removing_an_absent_key_is_a_no_op() {
    let mut db = DB::new();
    db.insert("a".to_string(), "1".to_string());
    db.remove("b");
    assert_eq!(db.get("a").unwrap(), "1");
    assert!(db.get("b").is_none());
}

#[test]
fn keys_are_independent() {
    let mut db = DB::new();
    for i in 0..20 {
        db.insert(format!("key-{i}"), format!("value-{i}"));
    }
    db.remove("key-7");
    for i in 0..20 {
        if i == 7 {
            assert!(db.get("key-7").is_none());
        } else {
            assert_eq!(db.get(&format!("key-{i}")).unwrap(), format!("value-{i}"));
        }
    }
}

#[test]
fn database_trait_operations_always_succeed() {
    let mut db = DB::new();
    assert_eq!(Database::get(&db, "k").unwrap(), None);
    Database::insert(&mut db, "k".to_string(), "v".to_string()).unwrap();
    assert_eq!(Database::get(&db, "k").unwrap(), Some("v".to_string()));
    Database::remove(&mut db, "k").unwrap();
    assert_eq!(Database::get(&db, "k").unwrap(), None);
    Database::insert(&mut db, "k".to_string(), "v".to_string()).unwrap();
    Database::clear(&mut db).unwrap();
    assert_eq!(Database::get(&db, "k").unwrap(), None);
}

#[test]
fn default_database_is_empty() {
    let db = DB::default();
    assert!(db.get("anything").is_none());
}
