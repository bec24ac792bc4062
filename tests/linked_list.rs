use list_merge::LinkedList;

/// Ordered by `key` alone, so that equal keys can still be told apart.
struct Tagged {
    key: i32,
    tag: char,
}

impl PartialEq for Tagged {
    fn eq(&self, other: &Tagged) -> bool {
        self.key == other.key
    }
}

impl PartialOrd for Tagged {
    fn partial_cmp(&self, other: &Tagged) -> Option<std::cmp::Ordering> {
        self.key.partial_cmp(&other.key)
    }
}

fn list_of(values: &[i32]) -> LinkedList<i32> {
    let mut list = LinkedList::<i32>::new();
    for v in values {
        list.add(*v);
    }
    list
}

fn values_of(list: &LinkedList<i32>) -> Vec<i32> {
    let mut out = Vec::new();
    for i in 0..list.length() {
        out.push(*list.get(i as i32).unwrap());
    }
    out
}

#[test]
fn create_numeric_list() {
    let mut list = LinkedList::<i32>::new();
    list.add(1);
    list.add(2);
    list.add(3);
    assert_eq!(3, list.length());
}

#[test]
fn create_string_list() {
    let mut list_str = LinkedList::<String>::new();
    list_str.add("A".to_string());
    list_str.add("B".to_string());
    list_str.add("C".to_string());
    assert_eq!(3, list_str.length());
}

#[test]
fn test_merge_linked_list_1() {
    let mut list_a = LinkedList::<i32>::new();
    let mut list_b = LinkedList::<i32>::new();
    let vec_a = vec![1, 3, 5, 7];
    let vec_b = vec![2, 4, 6, 8];
    let target_vec = vec![1, 2, 3, 4, 5, 6, 7, 8];

    for i in 0..vec_a.len() {
        list_a.add(vec_a[i]);
    }
    for i in 0..vec_b.len() {
        list_b.add(vec_b[i]);
    }
    let list_c = LinkedList::<i32>::merge(list_a, list_b);
    for i in 0..target_vec.len() {
        assert_eq!(target_vec[i], *list_c.get(i as i32).unwrap());
    }
}

#[test]
fn test_merge_linked_list_2() {
    let mut list_a = LinkedList::<i32>::new();
    let mut list_b = LinkedList::<i32>::new();
    let vec_a = vec![11, 33, 44, 88, 89, 90, 100];
    let vec_b = vec![1, 22, 30, 45];
    let target_vec = vec![1, 11, 22, 30, 33, 44, 45, 88, 89, 90, 100];

    for i in 0..vec_a.len() {
        list_a.add(vec_a[i]);
    }
    for i in 0..vec_b.len() {
        list_b.add(vec_b[i]);
    }
    let list_c = LinkedList::<i32>::merge(list_a, list_b);
    for i in 0..target_vec.len() {
        assert_eq!(target_vec[i], *list_c.get(i as i32).unwrap());
    }
}

#[test]
fn get_returns_values_in_append_order() {
    let list = list_of(&[10, -4, 7, 7, 0]);
    assert_eq!(list.length(), 5);
    assert_eq!(values_of(&list), vec![10, -4, 7, 7, 0]);
}

#[test]
fn get_out_of_range_is_none() {
    let list = list_of(&[5, 6, 7]);
    assert!(list.get(-1).is_none());
    assert!(list.get(i32::MIN).is_none());
    assert!(list.get(3).is_none());
    assert!(list.get(i32::MAX).is_none());
    let empty = LinkedList::<i32>::new();
    assert!(empty.get(0).is_none());
    assert_eq!(empty.length(), 0);
}

#[test]
fn default_is_empty() {
    let list: LinkedList<String> = LinkedList::default();
    assert_eq!(list.length(), 0);
    assert!(list.get(0).is_none());
}

#[test]
fn string_list_get() {
    let mut list = LinkedList::<String>::new();
    list.add("A".to_string());
    list.add("B".to_string());
    assert_eq!(list.get(0).map(|s| s.as_str()), Some("A"));
    assert_eq!(list.get(1).map(|s| s.as_str()), Some("B"));
    assert!(list.get(2).is_none());
}

#[test]
fn merge_ties_keep_length() {
    let merged = LinkedList::merge(list_of(&[2, 2]), list_of(&[2]));
    assert_eq!(merged.length(), 3);
    assert_eq!(values_of(&merged), vec![2, 2, 2]);
}

#[test]
fn merge_ties_take_left_first() {
    let mut a = LinkedList::<Tagged>::new();
    a.add(Tagged { key: 1, tag: 'a' });
    a.add(Tagged { key: 2, tag: 'b' });
    let mut b = LinkedList::<Tagged>::new();
    b.add(Tagged { key: 1, tag: 'x' });
    b.add(Tagged { key: 2, tag: 'y' });
    let merged = LinkedList::merge(a, b);
    assert_eq!(merged.length(), 4);
    let tags: Vec<char> = (0..4).map(|i| merged.get(i).unwrap().tag).collect();
    assert_eq!(tags, vec!['a', 'x', 'b', 'y']);
}

#[test]
fn merge_with_empty_keeps_other_list() {
    let left = LinkedList::merge(LinkedList::new(), list_of(&[3, 1, 2]));
    assert_eq!(values_of(&left), vec![3, 1, 2]);
    let right = LinkedList::merge(list_of(&[3, 1, 2]), LinkedList::new());
    assert_eq!(values_of(&right), vec![3, 1, 2]);
    let both = LinkedList::<i32>::merge(LinkedList::new(), LinkedList::new());
    assert_eq!(both.length(), 0);
    assert!(both.get(0).is_none());
}

#[test]
fn merge_is_sorted_permutation() {
    let merged = LinkedList::merge(list_of(&[-5, 0, 0, 9, 12]), list_of(&[-7, 0, 3, 12, 40]));
    let got = values_of(&merged);
    assert_eq!(got, vec![-7, -5, 0, 0, 0, 3, 9, 12, 12, 40]);
    let mut expected = vec![-5, 0, 0, 9, 12, -7, 0, 3, 12, 40];
    expected.sort();
    let mut sorted_got = got.clone();
    sorted_got.sort();
    assert_eq!(sorted_got, expected);
}

#[test]
fn merge_unsorted_input_is_not_a_sort() {
    let merged = LinkedList::merge(list_of(&[5, 1]), list_of(&[3]));
    assert_eq!(values_of(&merged), vec![3, 5, 1]);
}

#[test]
fn merge_strings() {
    let mut a = LinkedList::<String>::new();
    a.add("apple".to_string());
    a.add("pear".to_string());
    let mut b = LinkedList::<String>::new();
    b.add("fig".to_string());
    let merged = LinkedList::merge(a, b);
    assert_eq!(merged.get(0).map(|s| s.as_str()), Some("apple"));
    assert_eq!(merged.get(1).map(|s| s.as_str()), Some("fig"));
    assert_eq!(merged.get(2).map(|s| s.as_str()), Some("pear"));
}
