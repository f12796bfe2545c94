use bencode::equality::same;
use bencode::error::ErrorKind;
use bencode::order::{bytes_equal, bytes_less};
use bencode::value::{duplicate, find_entry, is_well_formed, keys_are_distinct, Kind};

fn text(s: &str) -> Kind {
    Kind::ByteString(s.as_bytes().to_vec())
}

#[test]
fn constructors_make_the_four_shapes() {
    assert_eq!(Kind::byte_string(b"ab".to_vec()), Kind::ByteString(b"ab".to_vec()));
    assert_eq!(Kind::integer(-3), Kind::Integer(-3));
    assert_eq!(Kind::list(vec![Kind::Integer(1)]), Kind::List(vec![Kind::Integer(1)]));
    let entries = vec![(b"b".to_vec(), Kind::Integer(1)), (b"a".to_vec(), Kind::Integer(2))];
    let made = Kind::dictionary(entries.clone()).unwrap();
    assert_eq!(made, Kind::Dictionary(entries));
}

#[test]
fn dictionary_with_a_repeated_key_is_refused() {
    let entries = vec![
        (b"a".to_vec(), Kind::Integer(1)),
        (b"b".to_vec(), Kind::Integer(2)),
        (b"a".to_vec(), Kind::Integer(3)),
    ];
    assert_eq!(Kind::dictionary(entries).unwrap_err(), ErrorKind::KeyOrderViolation);
}

#[test]
fn accessors_give_the_content_of_the_matching_shape() {
    assert_eq!(text("ab").as_byte_string().unwrap(), &b"ab".to_vec());
    assert_eq!(Kind::Integer(5).as_integer().unwrap(), 5);
    let list = Kind::List(vec![Kind::Integer(1), text("x")]);
    assert_eq!(list.as_list().unwrap().len(), 2);
    assert_eq!(list.as_list().unwrap()[1], text("x"));
    let dictionary = Kind::Dictionary(vec![(b"k".to_vec(), Kind::Integer(1))]);
    let entries = dictionary.as_dictionary().unwrap();
    assert_eq!(entries.len(), 1);
    assert_eq!(entries[0].0, b"k".to_vec());
    assert_eq!(entries[0].1, Kind::Integer(1));
}

#[test]
fn accessors_refuse_another_shape() {
    let values = [
        text("ab"),
        Kind::Integer(5),
        Kind::List(vec![]),
        Kind::Dictionary(vec![]),
    ];
    for (i, value) in values.iter().enumerate() {
        assert_eq!(value.as_byte_string().is_ok(), i == 0);
        assert_eq!(value.as_integer().is_ok(), i == 1);
        assert_eq!(value.as_list().is_ok(), i == 2);
        assert_eq!(value.as_dictionary().is_ok(), i == 3);
        assert_eq!(value.get(b"k").is_ok(), i == 3);
        if i != 0 {
            assert_eq!(value.as_byte_string().unwrap_err(), ErrorKind::TypeMismatch);
        }
        if i != 1 {
            assert_eq!(value.as_integer().unwrap_err(), ErrorKind::TypeMismatch);
        }
        if i != 2 {
            assert_eq!(value.as_list().unwrap_err(), ErrorKind::TypeMismatch);
        }
        if i != 3 {
            assert_eq!(value.as_dictionary().unwrap_err(), ErrorKind::TypeMismatch);
            assert_eq!(value.get(b"k").unwrap_err(), ErrorKind::TypeMismatch);
        }
    }
}

#[test]
fn lookup_by_key() {
    let dictionary = Kind::Dictionary(vec![
        (b"foo".to_vec(), text("bar")),
        (b"hello".to_vec(), Kind::Integer(52)),
        (b"foo".to_vec(), text("baz")),
    ]);
    assert_eq!(dictionary.get(b"hello").unwrap(), Some(&Kind::Integer(52)));
    assert_eq!(dictionary.get(b"foo").unwrap(), Some(&text("baz")));
    assert_eq!(dictionary.get(b"fo").unwrap(), None);
    assert_eq!(dictionary.get(b"").unwrap(), None);
}

#[test]
fn last_entry_with_a_key() {
    let entries = vec![
        (b"a".to_vec(), Kind::Integer(1)),
        (b"b".to_vec(), Kind::Integer(2)),
        (b"a".to_vec(), Kind::Integer(3)),
    ];
    assert_eq!(find_entry(&entries, b"a"), Some(2));
    assert_eq!(find_entry(&entries, b"b"), Some(1));
    assert_eq!(find_entry(&entries, b"c"), None);
    assert!(!keys_are_distinct(&entries));
    assert!(keys_are_distinct(&entries[..2].to_vec()));
    assert!(keys_are_distinct(&vec![]));
}

#[test]
fn equality_is_by_shape_and_content() {
    assert_eq!(text("a"), text("a"));
    assert_ne!(text("a"), text("b"));
    assert_ne!(text("a"), text("ab"));
    assert_ne!(text("1"), Kind::Integer(1));
    assert_eq!(Kind::Integer(1), Kind::Integer(1));
    assert_ne!(Kind::Integer(1), Kind::Integer(-1));
    assert_ne!(Kind::List(vec![]), Kind::Dictionary(vec![]));
}

#[test]
fn lists_are_equal_item_by_item_in_order() {
    let a = Kind::List(vec![Kind::Integer(1), Kind::Integer(2)]);
    let b = Kind::List(vec![Kind::Integer(2), Kind::Integer(1)]);
    let c = Kind::List(vec![Kind::Integer(1)]);
    assert_eq!(a, a.clone());
    assert_ne!(a, b);
    assert_ne!(a, c);
    assert_ne!(c, a);
    assert!(same(&a, &a));
    assert!(!same(&a, &b));
}

#[test]
fn dictionaries_are_equal_whatever_the_stored_order() {
    let a = Kind::Dictionary(vec![
        (b"x".to_vec(), Kind::Integer(1)),
        (b"y".to_vec(), Kind::List(vec![text("z")])),
    ]);
    let b = Kind::Dictionary(vec![
        (b"y".to_vec(), Kind::List(vec![text("z")])),
        (b"x".to_vec(), Kind::Integer(1)),
    ]);
    assert_eq!(a, b);
    assert_eq!(b, a);
}

#[test]
fn dictionaries_differ_by_a_key_or_a_value() {
    let a = Kind::Dictionary(vec![
        (b"x".to_vec(), Kind::Integer(1)),
        (b"y".to_vec(), Kind::Integer(2)),
    ]);
    let other_value = Kind::Dictionary(vec![
        (b"x".to_vec(), Kind::Integer(1)),
        (b"y".to_vec(), Kind::Integer(3)),
    ]);
    let other_key = Kind::Dictionary(vec![
        (b"x".to_vec(), Kind::Integer(1)),
        (b"z".to_vec(), Kind::Integer(2)),
    ]);
    let fewer = Kind::Dictionary(vec![(b"x".to_vec(), Kind::Integer(1))]);
    assert_ne!(a, other_value);
    assert_ne!(a, other_key);
    assert_ne!(a, fewer);
    assert_ne!(fewer, a);
}

#[test]
fn a_repeated_key_counts_with_its_last_entry() {
    let twice = Kind::Dictionary(vec![
        (b"x".to_vec(), Kind::Integer(1)),
        (b"x".to_vec(), Kind::Integer(2)),
    ]);
    let once = Kind::Dictionary(vec![(b"x".to_vec(), Kind::Integer(2))]);
    let first = Kind::Dictionary(vec![(b"x".to_vec(), Kind::Integer(1))]);
    assert_eq!(twice, once);
    assert_eq!(once, twice);
    assert_ne!(twice, first);
}

#[test]
fn a_copy_has_the_same_content() {
    let value = Kind::Dictionary(vec![
        (b"b".to_vec(), Kind::List(vec![Kind::Integer(1), text("x")])),
        (b"a".to_vec(), Kind::Dictionary(vec![])),
    ]);
    let copy = duplicate(&value);
    assert_eq!(copy, value);
    assert_eq!(copy.as_dictionary().unwrap()[0].0, b"b".to_vec());
    assert_eq!(value.clone(), value);
}

#[test]
fn byte_strings_are_ordered_byte_by_byte() {
    assert!(bytes_less(b"a", b"b"));
    assert!(!bytes_less(b"b", b"a"));
    assert!(bytes_less(b"a", b"ab"));
    assert!(!bytes_less(b"ab", b"a"));
    assert!(!bytes_less(b"a", b"a"));
    assert!(bytes_less(b"", b"a"));
    assert!(!bytes_less(b"", b""));
    assert!(bytes_less(b"Z", b"a"));
    assert!(bytes_less(b"foo", b"hello"));
    assert!(bytes_less(&[0x7f], &[0x80]));
    assert!(bytes_equal(b"abc", b"abc"));
    assert!(!bytes_equal(b"abc", b"abd"));
    assert!(!bytes_equal(b"abc", b"ab"));
    assert!(bytes_equal(b"", b""));
}

#[test]
fn a_value_is_well_formed_where_no_dictionary_repeats_a_key() {
    let good = Kind::List(vec![
        Kind::Dictionary(vec![
            (b"a".to_vec(), Kind::Integer(1)),
            (b"b".to_vec(), Kind::Dictionary(vec![(b"a".to_vec(), text("x"))])),
        ]),
        Kind::Integer(2),
    ]);
    assert!(is_well_formed(&good));
    assert!(is_well_formed(&text("a")));
    assert!(is_well_formed(&Kind::Dictionary(vec![])));
    let repeated = Kind::Dictionary(vec![
        (b"a".to_vec(), Kind::Integer(1)),
        (b"a".to_vec(), Kind::Integer(1)),
    ]);
    assert!(!is_well_formed(&repeated));
    let inside = Kind::List(vec![Kind::Integer(1), Kind::List(vec![repeated.clone()])]);
    assert!(!is_well_formed(&inside));
    let under_key = Kind::Dictionary(vec![(b"k".to_vec(), repeated)]);
    assert!(!is_well_formed(&under_key));
}
