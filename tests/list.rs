use testutils::{CodecError, LinkedList, ListLink, ListNode};

fn chain(vals: &[i32]) -> ListLink {
    let mut head: ListLink = None;
    for &v in vals.iter().rev() {
        head = Some(Box::new(ListNode { val: v, next: head }));
    }
    head
}

#[test]
fn test_list_serialize() {
    let list = LinkedList(chain(&[1, 2, 3]));
    let serialized = list.encode();
    assert_eq!(serialized, "[1,2,3]");
}

#[test]
fn test_list_deserialize() {
    let serialized = "[1,2,3]";
    let list = LinkedList::decode(serialized).unwrap();
    assert_eq!(list, LinkedList(chain(&[1, 2, 3])));

    let serialized = "[]";
    let list = LinkedList::decode(serialized).unwrap();
    assert!(list.0.is_none());

    let serialized = "[true]";
    let list = LinkedList::decode(serialized);
    assert!(list.is_err());
}

#[test]
fn list_empty_encodes_as_empty_array() {
    assert_eq!(LinkedList(None).encode(), "[]");
    assert_eq!(LinkedList::decode("[]").unwrap(), LinkedList(None));
}

#[test]
fn list_boolean_element_is_type_mismatch() {
    assert_eq!(LinkedList::decode("[true]"), Err(CodecError::TypeMismatch));
}

#[test]
fn list_null_element_is_type_mismatch() {
    assert_eq!(LinkedList::decode("[1,null]"), Err(CodecError::TypeMismatch));
}

#[test]
fn list_out_of_range_element_is_type_mismatch() {
    assert_eq!(LinkedList::decode("[2147483648]"), Err(CodecError::TypeMismatch));
}

#[test]
fn list_bad_syntax_is_parse_error() {
    assert_eq!(LinkedList::decode("[1,"), Err(CodecError::ParseError));
    assert_eq!(LinkedList::decode("abc"), Err(CodecError::ParseError));
}

#[test]
fn list_round_trip_keeps_values() {
    let vals = vec![-2147483648, -7, 0, 42, 2147483647];
    let list = LinkedList::from_values(&vals);
    let text = list.encode();
    assert_eq!(text, "[-2147483648,-7,0,42,2147483647]");
    let back = LinkedList::decode(&text).unwrap();
    assert_eq!(back, list);
    assert_eq!(back.values(), vals);
}

#[test]
fn list_from_values_keeps_order() {
    let list = LinkedList::from_values(&vec![5, 6]);
    assert_eq!(list, LinkedList(chain(&[5, 6])));
    let head: ListLink = list.into();
    assert_eq!(head.unwrap().val, 5);
}

#[test]
fn list_from_slots_needs_every_value() {
    assert_eq!(
        LinkedList::from_slots(vec![Some(1), Some(2)]),
        Ok(LinkedList(chain(&[1, 2])))
    );
    assert_eq!(LinkedList::from_slots(vec![Some(1), None]), Err(CodecError::TypeMismatch));
}
