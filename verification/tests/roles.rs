use cao_queue::Role;

#[test]
fn test_roles() {
    let role = Role::Producer;

    assert!(role.is_producer());
    assert!(!role.is_consumer());

    let role = Role::Consumer;

    assert!(!role.is_producer());
    assert!(role.is_consumer());

    let role = Role::ProdCon;

    assert!(role.is_producer());
    assert!(role.is_consumer());
}

#[test]
fn no_role_is_neither_producer_nor_consumer() {
    let role = Role::NoRole;
    assert!(!role.is_producer());
    assert!(!role.is_consumer());
    assert_eq!(role.bits(), 0);
    assert_eq!(Role::ProdCon.bits(), 3);
}
