//! The type-erased cell on concrete values: casts, comparison, debug text.
use dynamic_object::key_order::{compare_keys, KeyOrder};
use dynamic_object::{AnyType, Object, Relation};
use std::cmp::Ordering;

fn cell<T: AnyType>(v: T) -> Box<dyn AnyType> {
    Box::new(v)
}

#[test]
fn downcast_ref_checks_the_type() {
    let c = cell(5i32);
    assert_eq!(c.downcast_ref::<i32>(), Some(&5));
    assert_eq!(c.downcast_ref::<u32>(), None);
    assert_eq!(c.downcast_ref::<i64>(), None);
    assert_eq!(c.downcast_ref::<&str>(), None);
}

#[test]
fn downcast_mut_writes_through() {
    let mut c = cell(5i32);
    assert_eq!(c.downcast_mut::<u8>(), None);
    if let Some(v) = c.downcast_mut::<i32>() {
        *v = 6;
    }
    assert_eq!(c.downcast_ref::<i32>(), Some(&6));
}

#[test]
fn as_any_hands_out_the_value() {
    let c = cell("text");
    assert_eq!((*c).as_any().downcast_ref::<&str>(), Some(&"text"));
    assert_eq!((*c).as_any().downcast_ref::<String>(), None);
    let plain = 12u8;
    assert_eq!(plain.as_any().downcast_ref::<u8>(), Some(&12));
}

#[test]
fn a_boxed_cell_is_a_value_of_its_own_type() {
    let c = cell(5i32);
    assert_eq!(c.as_any().downcast_ref::<i32>(), None);
    assert!(c.as_any().downcast_ref::<Box<dyn AnyType>>().is_some());
}

#[test]
fn cells_of_one_type_compare_by_their_values() {
    let three = cell(3i32);
    let five = cell(5i32);
    assert_eq!((*three).partial_cmp(&*five), Some(Ordering::Less));
    assert_eq!((*five).partial_cmp(&*three), Some(Ordering::Greater));
    assert_eq!((*three).partial_cmp(&*cell(3i32)), Some(Ordering::Equal));
    assert!(*three == *cell(3i32));
    assert!(*three != *five);
    assert!(*three < *five);
}

#[test]
fn dyn_cmp_gives_the_relation() {
    let three = cell(3i32);
    let five = cell(5i32);
    assert_eq!((*three).dyn_cmp((*five).as_any()), Some(Relation::Less));
    assert_eq!((*five).dyn_cmp((*three).as_any()), Some(Relation::Greater));
    assert_eq!((*five).dyn_cmp((*five).as_any()), Some(Relation::Equal));
    assert_eq!(3i32.dyn_cmp(5i32.as_any()), Some(Relation::Less));
    assert_eq!("b".dyn_cmp("a".as_any()), Some(Relation::Greater));
    assert_eq!("b".dyn_cmp(1i32.as_any()), None);
}

#[test]
fn integer_and_string_are_unrelated() {
    let number = cell(3i32);
    let text = cell("3");
    assert_eq!((*number).partial_cmp(&*text), None);
    assert_eq!((*text).partial_cmp(&*number), None);
    assert!(*number != *text);
    assert!(!(*number == *text));
    assert!(!(*number < *text));
    assert!(!(*number > *text));
}

#[test]
fn integers_of_different_width_are_unrelated() {
    let a = cell(3i32);
    let b = cell(3i64);
    assert_eq!((*a).partial_cmp(&*b), None);
    assert!(*a != *b);
}

#[test]
fn incomparable_values_of_one_type_are_not_equal() {
    let a = cell(f64::NAN);
    let b = cell(f64::NAN);
    assert_eq!((*a).partial_cmp(&*b), None);
    assert!(*a != *b);
    let one = cell(1.0f64);
    let two = cell(2.0f64);
    assert_eq!((*one).partial_cmp(&*two), Some(Ordering::Less));
}

#[test]
fn debug_text_is_that_of_the_value() {
    assert_eq!(format!("{:?}", cell(3i32)), "3");
    assert_eq!(format!("{:?}", cell("3")), "\"3\"");
    assert_eq!(format!("{:?}", cell(vec![1u8, 2u8])), "[1, 2]");
    assert_eq!(format!("{:?}", cell(Some('x'))), "Some('x')");
}

#[test]
fn debug_text_of_an_object_shows_its_entries() {
    let mut obj = Object::new();
    obj.insert("b", "x");
    obj.insert("a", 1i32);
    let text = format!("{:?}", obj);
    assert!(text.contains("\"a\""));
    assert!(text.contains("\"b\""));
    assert!(text.contains("\"x\""));
    assert!(text.contains('1'));
}

#[test]
fn compare_keys_orders_by_bytes() {
    assert_eq!(compare_keys("a", "b"), KeyOrder::Before);
    assert_eq!(compare_keys("b", "a"), KeyOrder::After);
    assert_eq!(compare_keys("a", "a"), KeyOrder::Same);
    assert_eq!(compare_keys("", ""), KeyOrder::Same);
    assert_eq!(compare_keys("", "a"), KeyOrder::Before);
    assert_eq!(compare_keys("ab", "a"), KeyOrder::After);
    assert_eq!(compare_keys("a", "ab"), KeyOrder::Before);
    assert_eq!(compare_keys("Z", "a"), KeyOrder::Before);
    assert_eq!(compare_keys("z", "é"), KeyOrder::Before);
    assert_eq!(compare_keys("é", "€"), KeyOrder::Before);
    assert_eq!(compare_keys("abc", "abd"), KeyOrder::Before);
}

#[test]
fn compare_keys_agrees_with_the_standard_order() {
    let words = ["", "a", "ab", "b", "Z", "é", "€", "zz", "😀", "a\u{0}"];
    for x in words {
        for y in words {
            let expected = match x.cmp(y) {
                Ordering::Less => KeyOrder::Before,
                Ordering::Equal => KeyOrder::Same,
                Ordering::Greater => KeyOrder::After,
            };
            assert_eq!(compare_keys(x, y), expected);
        }
    }
}
