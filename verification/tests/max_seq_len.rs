use problems::max_seq_len::calculate_max_len;

#[test]
fn longest_run_of_the_example() {
    let data = [10, 22, 9, 33, 21, 50, 41, 60, 80, 70, 75, 90];
    assert_eq!(calculate_max_len(&data), 8);
}

#[test]
fn single_number() {
    assert_eq!(calculate_max_len(&[7]), 1);
}

#[test]
fn decreasing_and_equal_numbers() {
    assert_eq!(calculate_max_len(&[5, 4, 3, 2, 1]), 1);
    assert_eq!(calculate_max_len(&[3, 3, 3]), 1);
    assert_eq!(calculate_max_len(&[1, 2, 2, 3]), 3);
}

#[test]
fn increasing_numbers() {
    assert_eq!(calculate_max_len(&[-3, -1, 0, 4, 100]), 5);
    assert_eq!(calculate_max_len(&[i32::MIN, 0, i32::MAX]), 3);
}
