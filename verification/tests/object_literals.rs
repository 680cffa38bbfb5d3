//! Objects built the way a nested literal builds them: the entries that follow
//! a key are stored before the key itself.
use dynamic_object::Object;

#[derive(Debug, PartialEq, PartialOrd)]
struct Foo {
    bar: i32,
}

#[test]
fn works_with_empty_object() {
    let mut empty = Object::new();
    assert_eq!(empty.get_as::<&str>("foo"), None);
    empty.insert("foo", "bar");
    assert_eq!(empty.get_as::<&str>("foo"), Some(&"bar"));
}

#[test]
fn works_with_simple_object() {
    let x = {
        let mut map = {
            let mut map = Object::new();
            map.insert("bar", 123);
            map
        };
        map.insert("foo", Foo { bar: 123 });
        map
    };
    assert_eq!(x.get_as::<Foo>("foo"), Some(&Foo { bar: 123 }));
    assert_eq!(x.get_as::<i32>("bar"), Some(&123));
}

#[test]
fn works_with_nested_object() {
    let y = {
        let mut map = {
            let mut map = {
                let mut map = Object::new();
                map.insert("baz", {
                    let mut map = Object::new();
                    map.insert("inner", "value");
                    map
                });
                map
            };
            map.insert("bar", 123);
            map
        };
        map.insert("foo", "fpp");
        map
    };
    assert_eq!(y.get_as::<&str>("foo"), Some(&"fpp"));
    assert_eq!(y.get_as::<i32>("bar"), Some(&123));
    let baz = y.get_as::<Object>("baz");
    assert!(baz.is_some());
    let baz_inner = baz.and_then(|v| v.get_as::<&str>("inner"));
    assert!(baz_inner.is_some());
    assert_eq!(baz_inner, Some(&"value"));
}

fn deep_another() -> Object {
    let mut map = {
        let mut map = Object::new();
        map.insert("d", "tr4vvyr00lz");
        map
    };
    map.insert("inner", 420);
    map
}

fn deep_c() -> Object {
    let mut map = {
        let mut map = Object::new();
        map.insert("another", deep_another());
        map
    };
    map.insert("inner", "value");
    map
}

#[test]
fn works_with_deeply_nested_object() {
    let z = {
        let mut map = {
            let mut map = {
                let mut map = Object::new();
                map.insert("c", deep_c());
                map
            };
            map.insert("b", 69);
            map
        };
        map.insert("a", "xyz");
        map
    };
    assert_eq!(z.get_as::<&str>("a"), Some(&"xyz"));
    assert_eq!(z.get_as::<i32>("b"), Some(&69));
    let c = z.get_as::<Object>("c");
    assert!(c.is_some());
    let c_inner = c.and_then(|v| v.get_as::<&str>("inner"));
    assert_eq!(c_inner, Some(&"value"));
    let c_inner_another = c.and_then(|v| v.get_as::<Object>("another"));
    assert!(c_inner_another.is_some());
    let c_inner_another_inner = c_inner_another.and_then(|v| v.get_as::<i32>("inner"));
    assert_eq!(c_inner_another_inner, Some(&420));
    let c_inner_another_d = c_inner_another.and_then(|v| v.get_as::<&str>("d"));
    assert_eq!(c_inner_another_d, Some(&"tr4vvyr00lz"));
}

#[test]
fn works_with_mixed_object() {
    let mixed = {
        let mut map = {
            let mut map = {
                let mut map = {
                    let mut map = Object::new();
                    map.insert("d", Foo { bar: 123 });
                    map
                };
                map.insert("c", deep_c());
                map
            };
            map.insert("b", 69);
            map
        };
        map.insert("a", "xyz");
        map
    };
    assert_eq!(mixed.get_as::<&str>("a"), Some(&"xyz"));
    assert_eq!(mixed.get_as::<i32>("b"), Some(&69));
    let c = mixed.get_as::<Object>("c");
    assert!(c.is_some());
    let c_inner = c.and_then(|v| v.get_as::<&str>("inner"));
    assert_eq!(c_inner, Some(&"value"));
    let c_inner_another = c.and_then(|v| v.get_as::<Object>("another"));
    assert!(c_inner_another.is_some());
    let c_inner_another_inner = c_inner_another.and_then(|v| v.get_as::<i32>("inner"));
    assert_eq!(c_inner_another_inner, Some(&420));
    let c_inner_another_d = c_inner_another.and_then(|v| v.get_as::<&str>("d"));
    assert_eq!(c_inner_another_d, Some(&"tr4vvyr00lz"));
    assert_eq!(mixed.get_as::<Foo>("d"), Some(&Foo { bar: 123 }));
}

#[test]
fn works_like_a_map() {
    let mut map = Object::new();
    assert!(map.get("foo").is_none());
    map.insert("foo", "bar");
    map.get_or_insert_as::<&str>("foo", "lol");
    assert_eq!(
        map.get("foo").and_then(|v| v.downcast_ref::<&str>()),
        Some(&"bar")
    );
    map.get_or_insert_as::<&str>("bar", "baz");
    assert_eq!(
        map.get("bar").and_then(|v| v.downcast_ref::<&str>()),
        Some(&"baz")
    );
}

#[test]
fn nested_literal_with_two_levels() {
    let obj = {
        let mut map = {
            let mut map = Object::new();
            map.insert("b", {
                let mut map = Object::new();
                map.insert("inner", 1);
                map
            });
            map
        };
        map.insert("a", "x");
        map
    };
    assert_eq!(obj.get_as::<&str>("a"), Some(&"x"));
    let b = obj.get_as::<Object>("b");
    assert!(b.is_some());
    assert_eq!(b.and_then(|v| v.get_as::<i32>("inner")), Some(&1));
}

#[test]
fn first_of_two_equal_keys_in_a_literal_stays() {
    let obj = {
        let mut map = {
            let mut map = Object::new();
            map.insert("a", 2);
            map
        };
        map.insert("a", 1);
        map
    };
    assert_eq!(obj.get_as::<i32>("a"), Some(&1));
    assert_eq!(obj.len(), 1);
}
