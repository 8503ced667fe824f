use exercises::tree::BinaryTree;

#[test]
fn given_empty_tree_when_convert_to_vec_then_returns_empty_vector() {
    // Arrange
    let bt: BinaryTree<i32> = BinaryTree::new_empty();

    // Act
    let vec = bt.convert_to_vec();

    // Assert
    assert_eq!(vec.len(), 0);
}

#[test]
fn given_binary_tree_when_convert_to_vec_then_returns_single_element() {
    // Arrange
    let bt = BinaryTree::new(5);

    // Act
    let vec = bt.convert_to_vec();

    // Assert
    assert_eq!(vec, vec![5]);
}

#[test]
fn empty_tree_traverses_to_empty_sequence() {
    let bt: BinaryTree<i32> = BinaryTree::new_empty();
    let vec: Vec<i32> = bt.convert_to_vec();
    assert_eq!(vec, Vec::<i32>::new());
}

#[test]
fn single_insert_traverses_to_single_value() {
    let bt: BinaryTree<i32> = BinaryTree::new_empty();
    let bt = bt.insert(5);
    assert_eq!(bt.convert_to_vec(), vec![5]);
}

#[test]
fn five_values_come_out_sorted() {
    let mut bt: BinaryTree<i32> = BinaryTree::new_empty();
    for v in [5, 3, 8, 1, 4] {
        bt = bt.insert(v);
    }
    assert_eq!(bt.convert_to_vec(), vec![1, 3, 4, 5, 8]);
}

#[test]
fn duplicates_are_kept_in_insertion_order() {
    let mut bt: BinaryTree<i32> = BinaryTree::new_empty();
    for v in [5, 5, 3] {
        bt = bt.insert(v);
    }
    assert_eq!(bt.convert_to_vec(), vec![3, 5, 5]);
}

#[test]
fn descending_input_still_comes_out_ascending() {
    let mut bt: BinaryTree<i32> = BinaryTree::new_empty();
    for v in [5, 4, 3, 2, 1] {
        bt = bt.insert(v);
    }
    assert_eq!(bt.convert_to_vec(), vec![1, 2, 3, 4, 5]);
}

#[test]
fn hundred_values_in_scrambled_order_come_out_strictly_ascending() {
    let mut bt: BinaryTree<i32> = BinaryTree::new_empty();
    // 37 is coprime to 100, so this walks all of 0..100 in a scrambled order.
    for i in 0..100 {
        bt = bt.insert((i * 37) % 100);
    }
    let out = bt.convert_to_vec();
    assert_eq!(out.len(), 100);
    for i in 1..out.len() {
        assert!(out[i - 1] < out[i]);
    }
}

#[test]
fn same_values_in_two_orders_give_the_same_output() {
    let mut a: BinaryTree<i32> = BinaryTree::new_empty();
    for v in [4, 2, 7, 2, 9] {
        a = a.insert(v);
    }
    let mut b: BinaryTree<i32> = BinaryTree::new_empty();
    for v in [9, 2, 4, 7, 2] {
        b = b.insert(v);
    }
    assert_eq!(a.convert_to_vec(), b.convert_to_vec());
}

#[test]
fn tree_made_by_new_accepts_further_inserts() {
    let bt = BinaryTree::new(5);
    let bt = bt.insert(3);
    let bt = bt.insert(8);
    assert_eq!(bt.convert_to_vec(), vec![3, 5, 8]);
}
