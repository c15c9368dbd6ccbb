use sc_delegation::affected_user_id_vec::affected_users_sort_dedup;

#[test]
fn test_affected_users_sort_dedup_empty() {
    let mut affected_users: Vec<usize> = Vec::new();
    affected_users_sort_dedup(&mut affected_users);
    assert!(affected_users.is_empty());
}

#[test]
fn test_affected_users_sort_dedup_singleton() {
    let mut affected_users: Vec<usize> = vec![1];
    affected_users_sort_dedup(&mut affected_users);
    assert_eq!(affected_users.as_slice(), [1]);
}

#[test]
fn test_affected_users_sort_dedup_more() {
    let mut affected_users: Vec<usize> = vec![1, 2, 1, 3, 3, 1, 2, 1];
    affected_users_sort_dedup(&mut affected_users);
    assert_eq!(affected_users.as_slice(), [1, 2, 3]);
}
