use sorted_lists::linked_list::LinkedList;

fn list_of(vals: &[i32]) -> LinkedList<i32> {
    let mut list = LinkedList::<i32>::new();
    for v in vals {
        list.add(*v);
    }
    list
}

fn values(list: &LinkedList<i32>) -> Vec<i32> {
    let mut out = Vec::new();
    let mut i: i32 = 0;
    while let Some(v) = list.get(i) {
        out.push(*v);
        i += 1;
    }
    out
}

#[test]
fn create_numeric_list() {
    let mut list = LinkedList::<i32>::new();
    list.add(1);
    list.add(2);
    list.add(3);
    println!("Linked List is {}", list.render());
    assert_eq!(3, list.length());
}

#[test]
fn create_string_list() {
    let mut list_str = LinkedList::<String>::new();
    list_str.add("A".to_string());
    list_str.add("B".to_string());
    list_str.add("C".to_string());
    println!("Linked List is {}", list_str.render());
    assert_eq!(3, list_str.length());
}

#[test]
fn test_merge_linked_list_1() {
    let mut list_a = LinkedList::<i32>::new();
    let mut list_b = LinkedList::<i32>::new();
    let vec_a = vec![1, 3, 5, 7];
    let vec_b = vec![2, 4, 6, 8];
    let target_vec = vec![1, 2, 3, 4, 5, 6, 7, 8];

    for i in 0..vec_a.len() {
        list_a.add(vec_a[i]);
    }
    for i in 0..vec_b.len() {
        list_b.add(vec_b[i]);
    }
    println!("list a {} list b {}", list_a.render(), list_b.render());
    let list_c = LinkedList::<i32>::merge(list_a, list_b);
    println!("merged List is {}", list_c.render());
    for i in 0..target_vec.len() {
        assert_eq!(target_vec[i], *list_c.get(i as i32).unwrap());
    }
}

#[test]
fn test_merge_linked_list_2() {
    let mut list_a = LinkedList::<i32>::new();
    let mut list_b = LinkedList::<i32>::new();
    let vec_a = vec![11, 33, 44, 88, 89, 90, 100];
    let vec_b = vec![1, 22, 30, 45];
    let target_vec = vec![1, 11, 22, 30, 33, 44, 45, 88, 89, 90, 100];

    for i in 0..vec_a.len() {
        list_a.add(vec_a[i]);
    }
    for i in 0..vec_b.len() {
        list_b.add(vec_b[i]);
    }
    println!("list a {} list b {}", list_a.render(), list_b.render());
    let list_c = LinkedList::<i32>::merge(list_a, list_b);
    println!("merged List is {}", list_c.render());
    for i in 0..target_vec.len() {
        assert_eq!(target_vec[i], *list_c.get(i as i32).unwrap());
    }
}

#[test]
fn merge_keeps_total_length() {
    let merged = LinkedList::merge(list_of(&[2, 2, 9]), list_of(&[-4, 0, 3, 10]));
    assert_eq!(merged.length(), 7);
}

#[test]
fn merge_result_is_nondecreasing() {
    let merged = LinkedList::merge(list_of(&[-5, 0, 0, 7, 12]), list_of(&[-6, 0, 8]));
    let vals = values(&merged);
    for w in vals.windows(2) {
        assert!(w[0] <= w[1]);
    }
}

#[test]
fn merge_keeps_every_value() {
    let a = [3, 5, 5, 20];
    let b = [1, 5, 21];
    let merged = LinkedList::merge(list_of(&a), list_of(&b));
    let mut expected: Vec<i32> = a.iter().chain(b.iter()).copied().collect();
    expected.sort();
    assert_eq!(values(&merged), expected);
}

#[test]
fn merge_with_empty_right_gives_left() {
    let merged = LinkedList::merge(list_of(&[4, 6, 6]), LinkedList::new());
    assert_eq!(values(&merged), vec![4, 6, 6]);
}

#[test]
fn merge_with_empty_left_gives_right() {
    let merged = LinkedList::merge(LinkedList::new(), list_of(&[-1, 2]));
    assert_eq!(values(&merged), vec![-1, 2]);
}

#[test]
fn merge_of_two_empty_lists_is_empty() {
    let merged = LinkedList::<i32>::merge(LinkedList::new(), LinkedList::new());
    assert_eq!(merged.length(), 0);
    assert!(merged.get(0).is_none());
}

#[test]
fn merge_empty_with_single_value() {
    let merged = LinkedList::merge(LinkedList::new(), list_of(&[5]));
    assert_eq!(values(&merged), vec![5]);
}

#[test]
fn merge_with_equal_values() {
    let merged = LinkedList::merge(list_of(&[1, 1, 2]), list_of(&[1]));
    assert_eq!(merged.length(), 4);
    assert_eq!(values(&merged), vec![1, 1, 1, 2]);
}

#[test]
fn merge_where_one_side_is_entirely_smaller() {
    let merged = LinkedList::merge(list_of(&[7, 8, 9]), list_of(&[1, 2]));
    assert_eq!(values(&merged), vec![1, 2, 7, 8, 9]);
}

#[test]
fn appended_values_read_back_in_order() {
    let vals = [9, -3, 9, 0, 42];
    let list = list_of(&vals);
    for (i, v) in vals.iter().enumerate() {
        assert_eq!(list.get(i as i32), Some(v));
    }
}

#[test]
fn get_out_of_range_is_absent() {
    let list = list_of(&[10, 20, 30]);
    assert!(list.get(-1).is_none());
    assert!(list.get(3).is_none());
    assert!(list.get(i32::MIN).is_none());
    assert_eq!(list.get(2), Some(&30));
}

#[test]
fn get_on_empty_list_is_absent() {
    let list = LinkedList::<i32>::new();
    assert!(list.get(0).is_none());
    assert_eq!(list.length(), 0);
}

#[test]
fn concat_splices_whole_chain() {
    let mut a = list_of(&[1, 2]);
    a.concat(list_of(&[3, 4, 5]));
    assert_eq!(values(&a), vec![1, 2, 3, 4, 5]);
    assert_eq!(a.length(), 5);
    let mut e = LinkedList::new();
    e.concat(list_of(&[6]));
    assert_eq!(values(&e), vec![6]);
    e.concat(LinkedList::new());
    assert_eq!(values(&e), vec![6]);
}

#[test]
fn divide_by_carves_run_up_to_threshold() {
    let (run, rest, other) = LinkedList::divide_by(list_of(&[1, 3, 3, 5, 8]), list_of(&[3, 4]));
    assert_eq!(values(&run), vec![1, 3, 3]);
    assert_eq!(values(&rest.unwrap()), vec![5, 8]);
    assert_eq!(values(&other.unwrap()), vec![3, 4]);
}

#[test]
fn divide_by_takes_all_when_every_value_fits() {
    let (run, rest, other) = LinkedList::divide_by(list_of(&[1, 2]), list_of(&[2]));
    assert_eq!(values(&run), vec![1, 2]);
    assert!(rest.is_none());
    assert_eq!(values(&other.unwrap()), vec![2]);
}

#[test]
fn split_divides_the_side_with_smaller_head() {
    let (run, rem_a, rem_b) = LinkedList::split(list_of(&[10, 20]), list_of(&[1, 2, 15]));
    assert_eq!(values(&run), vec![1, 2]);
    assert_eq!(values(&rem_a.unwrap()), vec![10, 20]);
    assert_eq!(values(&rem_b.unwrap()), vec![15]);
}

#[test]
fn split_prefers_first_list_on_equal_heads() {
    let (run, rest, other) = LinkedList::split(list_of(&[4, 9]), list_of(&[4, 5]));
    assert_eq!(values(&run), vec![4]);
    assert_eq!(values(&rest.unwrap()), vec![9]);
    assert_eq!(values(&other.unwrap()), vec![4, 5]);
}

#[test]
fn render_joins_values_with_commas() {
    assert_eq!(list_of(&[1, -2, 30]).render(), "1, -2, 30");
    assert_eq!(list_of(&[7]).render(), "7");
    assert_eq!(LinkedList::<i32>::new().render(), "");
}

#[test]
fn render_string_values() {
    let mut list = LinkedList::<String>::new();
    list.add("A".to_string());
    list.add("B".to_string());
    assert_eq!(list.render(), "A, B");
}

#[test]
fn render_merged_list() {
    let merged = LinkedList::merge(list_of(&[1, 3, 5, 7]), list_of(&[2, 4, 6, 8]));
    assert_eq!(merged.render(), "1, 2, 3, 4, 5, 6, 7, 8");
}

#[test]
fn default_list_is_empty() {
    let list: LinkedList<i32> = Default::default();
    assert_eq!(list.length(), 0);
    assert_eq!(list.render(), "");
}

#[test]
fn merge_string_lists() {
    let mut a = LinkedList::<String>::new();
    let mut b = LinkedList::<String>::new();
    for s in ["apple", "cherry", "plum"] {
        a.add(s.to_string());
    }
    for s in ["banana", "cherry"] {
        b.add(s.to_string());
    }
    let merged = LinkedList::merge(a, b);
    assert_eq!(merged.length(), 5);
    assert_eq!(merged.render(), "apple, banana, cherry, cherry, plum");
}

#[test]
fn split_keeps_leftovers_in_their_own_slots() {
    let (run, rem_a, rem_b) = LinkedList::split(list_of(&[5]), list_of(&[1]));
    assert_eq!(values(&run), vec![1]);
    assert_eq!(values(&rem_a.unwrap()), vec![5]);
    assert!(rem_b.is_none());
}
