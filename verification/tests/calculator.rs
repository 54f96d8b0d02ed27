use pocket_apps::calculator::{add, apply_choice, divide, multiply, operation_is_defined, subtract};

#[test]
fn arithmetic_operations() {
    assert_eq!(add(2, 3), 5);
    assert_eq!(subtract(2, 3), -1);
    assert_eq!(multiply(-4, 6), -24);
    assert_eq!(divide(7, 2), 3);
}

#[test]
fn division_rounds_toward_zero() {
    assert_eq!(divide(7, -2), -3);
    assert_eq!(divide(-7, 2), -3);
    assert_eq!(divide(-7, -2), 3);
    assert_eq!(divide(i32::MIN, 1), i32::MIN);
    assert_eq!(divide(i32::MIN, 2), -1073741824);
    assert_eq!(divide(0, -5), 0);
}

#[test]
fn extreme_values_that_fit() {
    assert_eq!(add(i32::MAX, 0), i32::MAX);
    assert_eq!(subtract(i32::MIN + 1, 1), i32::MIN);
    assert_eq!(multiply(-1, i32::MAX), -i32::MAX);
}

#[test]
fn menu_choices() {
    assert_eq!(apply_choice(1, 10, 4), 14);
    assert_eq!(apply_choice(2, 10, 4), 6);
    assert_eq!(apply_choice(3, 10, 4), 40);
    assert_eq!(apply_choice(4, 10, 4), 2);
}

#[test]
fn defined_operations() {
    assert!(operation_is_defined(1, i32::MAX, 0));
    assert!(!operation_is_defined(1, i32::MAX, 1));
    assert!(operation_is_defined(2, -1, i32::MAX));
    assert!(!operation_is_defined(2, -2, i32::MAX));
    assert!(operation_is_defined(3, 46340, 46340));
    assert!(!operation_is_defined(3, 46341, 46341));
    assert!(operation_is_defined(4, 7, -2));
    assert!(!operation_is_defined(4, 7, 0));
    assert!(!operation_is_defined(4, i32::MIN, -1));
    assert!(operation_is_defined(4, i32::MIN, 1));
    assert!(!operation_is_defined(0, 1, 1));
    assert!(!operation_is_defined(5, 1, 1));
}
