use data_service_consumer::tuple_len::TupleLen;

#[test]
fn tuple_len() {
    assert_eq!((1,).len(), 1);
    assert_eq!((1, 2,).len(), 2);
    assert_eq!((1, 2, 3,).len(), 3);
    assert_eq!((1, 2, 3, 4,).len(), 4);
}

#[test]
fn tuple_len_tuple_len() {
    assert_eq!((1,).len(), 1);
    assert_eq!((1, 2,).len(), 2);
    assert_eq!((1, 2, 3,).len(), 3);
    assert_eq!((1, 2, 3, 4,).len(), 4);
}
