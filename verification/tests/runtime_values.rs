use snake::tagged::{parse_snake_val, signed_to_unsigned, snake_error_message, sprint_snake_val, unsigned_to_signed, SnakeVal};
use snake::tagged_heap;
use snake::tagged_heap::{AllocError, Heap};

#[test]
fn reinterprets_bytes() {
    assert_eq!(unsigned_to_signed(u64::MAX), -1);
    assert_eq!(unsigned_to_signed(1 << 63), i64::MIN);
    assert_eq!(unsigned_to_signed(5), 5);
    assert_eq!(signed_to_unsigned(-1), u64::MAX);
    assert_eq!(signed_to_unsigned(i64::MIN), 1 << 63);
    for x in [0i64, 1, -1, 12345, -12345, i64::MAX, i64::MIN] {
        assert_eq!(unsigned_to_signed(signed_to_unsigned(x)), x);
    }
}

#[test]
fn parses_and_shows_snake_values() {
    assert_eq!(parse_snake_val("true"), SnakeVal(0b101));
    assert_eq!(parse_snake_val("false"), SnakeVal(0b001));
    assert_eq!(parse_snake_val("21"), SnakeVal(42));
    assert_eq!(parse_snake_val("-1"), SnakeVal(u64::MAX - 1));
    assert_eq!(sprint_snake_val(SnakeVal(42)), "21");
    assert_eq!(sprint_snake_val(SnakeVal(u64::MAX - 1)), "-1");
    assert_eq!(sprint_snake_val(SnakeVal(0b101)), "true");
    assert_eq!(sprint_snake_val(SnakeVal(0b001)), "false");
    assert_eq!(sprint_snake_val(SnakeVal(0b111)), "INVALID_SNAKE_VALUE");
    for s in ["0", "17", "-17", "4611686018427387903", "-4611686018427387904", "true", "false"] {
        assert_eq!(sprint_snake_val(parse_snake_val(s)), s);
    }
}

#[test]
fn error_messages() {
    assert_eq!(snake_error_message(0), "arithmetic operation expected integer input(s)");
    assert_eq!(snake_error_message(1), "comparison operation expected integer input(s)");
    assert_eq!(snake_error_message(2), "logical operation expected boolean input(s)");
    assert_eq!(snake_error_message(9), "BUG IN COMPILER: invalid error code 9");
}

#[test]
fn shows_arrays_and_other_words() {
    let a = SnakeVal(0x1000 | 0b11);
    assert!(tagged_heap::is_array(a));
    assert_eq!(tagged_heap::array_address(a), 0x1000);
    assert_eq!(tagged_heap::sprint_snake_val(a, 3), "Array(addr=0x0000000000001000, len=3)");
    assert_eq!(tagged_heap::sprint_snake_val(SnakeVal(0xdeadbeef0 | 0b11), 0), "Array(addr=0x0000000deadbeef0, len=0)");
    assert_eq!(tagged_heap::sprint_snake_val(SnakeVal(10), 0), "5");
    assert_eq!(tagged_heap::sprint_snake_val(SnakeVal(0b101), 0), "true");
    assert_eq!(tagged_heap::sprint_snake_val(SnakeVal(0b001), 0), "false");
    assert_eq!(tagged_heap::sprint_snake_val(SnakeVal(0b1001), 0), "INVALID_SnakeValUE");
    assert!(!tagged_heap::is_array(SnakeVal(0b101)));
}

#[test]
fn allocates_arrays_until_the_heap_is_full() {
    assert!(!tagged_heap::heap_misaligned(0x10000));
    assert!(tagged_heap::heap_misaligned(0x10001));
    let mut heap = Heap::new(0x10000);
    assert_eq!(heap.new_array(2), Ok(SnakeVal(0x10000 | 0b11)));
    assert_eq!(heap.next, 0x10000 + 24);
    assert_eq!(heap.new_array(0), Ok(SnakeVal((0x10000 + 24) | 0b11)));
    assert_eq!(heap.new_array(tagged_heap::HEAP_SIZE), Err(AllocError::OutOfMemory));
    assert_eq!(heap.next, 0x10000 + 32);
    let a = heap.new_array(1).unwrap();
    assert_eq!(tagged_heap::array_address(a), 0x10000 + 32);
}

#[test]
fn sums_nine_arguments() {
    let xs: Vec<i64> = vec![1, 2, 3, 4, 5, 6, 7, 8, 9];
    assert_eq!(snake::arguments::sum_arguments(&xs), 45);
}

#[test]
fn sums_ten_arguments_with_negatives() {
    let xs: Vec<i64> = vec![1, -2, 3, -4, 5, -6, 7, -8, 9, 100];
    assert_eq!(snake::arguments::sum_arguments(&xs), 105);
}

#[test]
fn sums_no_arguments() {
    let xs: Vec<i64> = Vec::new();
    assert_eq!(snake::arguments::sum_arguments(&xs), 0);
}
