use perfbook::sums::{wrapping_sum_i32_iter, wrapping_sum_i32_prefix};
use perfbook::arith::{
    abs_sum_range, add_auto, add_never, plain_call_total, plain_function, slow_square,
    slow_square_total, sum_with_add_auto, sum_with_add_never, tiny,
};
use perfbook::lists::{arena_list_sum, box_list_sum, build_arena_list, build_box_list, END};
use perfbook::sums::{byte_sum, strided_wrapping_sum, wrapping_range_sum, wrapping_sum, wrapping_sum_i32};
use perfbook::words::strided_word_sum;

#[test]
fn wrapping_range_sum_values() {
    assert_eq!(wrapping_range_sum(0), 0);
    assert_eq!(wrapping_range_sum(1), 0);
    assert_eq!(wrapping_range_sum(101), 5050);
    assert_eq!(wrapping_range_sum(100_000_000), 4_999_999_950_000_000);
}

#[test]
fn wrapping_sum_wraps() {
    assert_eq!(wrapping_sum(&[u64::MAX, 2]), 1);
    assert_eq!(wrapping_sum(&[]), 0);
    assert_eq!(wrapping_sum(&[1, 2, 3]), 6);
}

#[test]
fn strided_sum_every_eighth() {
    let data: Vec<u64> = (0..20).collect();
    assert_eq!(strided_wrapping_sum(&data, 8), 0 + 8 + 16);
    assert_eq!(strided_wrapping_sum(&data, 1), wrapping_sum(&data));
    assert_eq!(strided_wrapping_sum(&data, 100), 0);
    assert_eq!(strided_wrapping_sum(&[], 8), 0);
}

#[test]
fn byte_sum_exact() {
    assert_eq!(byte_sum(&[255, 255, 1]), 511);
    assert_eq!(byte_sum(&[7u8; 4096]), 28_672);
}

#[test]
fn i32_sum_wraps() {
    assert_eq!(wrapping_sum_i32(&[i32::MAX, 1]), i32::MIN);
    assert_eq!(wrapping_sum_i32(&[-5, 3]), -2);
    let v: Vec<i32> = (0..100_000).collect();
    let expected = (0..100_000i64).sum::<i64>() as i32;
    assert_eq!(wrapping_sum_i32(&v), expected);
}

#[test]
fn add_functions_wrap_alike() {
    assert_eq!(add_never(u64::MAX, 1), 0);
    assert_eq!(add_auto(u64::MAX, 1), 0);
    assert_eq!(add_never(2, 3), add_auto(2, 3));
    assert_eq!(sum_with_add_never(1000), 499_500);
    assert_eq!(sum_with_add_auto(1000), wrapping_range_sum(1000));
}

#[test]
fn slow_square_values() {
    assert_eq!(slow_square(0), 0);
    assert_eq!(slow_square(1), 1);
    assert_eq!(slow_square(2), 17520588382079786918);
    assert_eq!(slow_square(3), 3134284498752818119);
    let v: Vec<u64> = (0..10).collect();
    assert_eq!(slow_square_total(&v), 15476095756975367277);
}

#[test]
fn plain_function_and_total() {
    assert_eq!(plain_function(41), 42);
    assert_eq!(plain_function(-1), 0);
    assert_eq!(plain_call_total(5), 15);
    assert_eq!(plain_call_total(0), 0);
    assert_eq!(plain_call_total(-3), 0);
    assert_eq!(plain_call_total(5_000_000), 12_500_002_500_000);
}

#[test]
fn abs_sum_small_and_book_range() {
    assert_eq!(abs_sum_range(-3, 3), 9);
    assert_eq!(abs_sum_range(5, 2), 0);
    assert_eq!(abs_sum_range(-1000, 1000), 1_000_000);
}

#[test]
fn tiny_is_two() {
    assert_eq!(tiny(), 2);
}

#[test]
fn box_and_arena_lists_agree() {
    let head = build_box_list(5);
    let mut values = Vec::new();
    let mut cur = head.as_deref();
    while let Some(node) = cur {
        values.push(node.value);
        cur = node.next.as_deref();
    }
    assert_eq!(values, vec![4, 3, 2, 1, 0]);
    assert_eq!(box_list_sum(&head), 10);
    let (arena, ahead) = build_arena_list(5);
    assert_eq!(ahead, 4);
    assert_eq!(arena[0].next, END);
    assert_eq!(arena[3].next, 2);
    assert_eq!(arena_list_sum(&arena, ahead), 10);
    let big = build_box_list(1000);
    let (big_arena, big_head) = build_arena_list(1000);
    assert_eq!(box_list_sum(&big), arena_list_sum(&big_arena, big_head));
    assert_eq!(box_list_sum(&big), 499_500);
}

#[test]
fn empty_lists() {
    assert_eq!(box_list_sum(&build_box_list(0)), 0);
    let (arena, head) = build_arena_list(0);
    assert!(arena.is_empty());
    assert_eq!(head, END);
    assert_eq!(arena_list_sum(&arena, head), 0);
}

#[test]
fn strided_words_of_ones() {
    let slots = 4;
    let stride = 16;
    let buf = vec![1u8; slots * stride + 8];
    assert_eq!(strided_word_sum(&buf, slots, stride, 3), 868_082_074_056_920_076);
    let one = vec![2u8; 8];
    assert_eq!(strided_word_sum(&one, 1, 0, 1), 0x0202_0202_0202_0202);
}

#[test]
fn strided_words_read_each_slot() {
    // Each window reads the same in both byte orders, but the slots differ.
    let stride = 8;
    let slots = 3;
    let mut buf = vec![0u8; slots * stride + 8];
    buf[0..8].copy_from_slice(&[1, 0, 0, 0, 0, 0, 0, 1]);
    buf[8..16].copy_from_slice(&[2, 0, 0, 0, 0, 0, 0, 2]);
    buf[16..24].copy_from_slice(&[3, 3, 3, 3, 3, 3, 3, 3]);
    let expected = 2u64.wrapping_mul(
        0x0100_0000_0000_0001u64
            .wrapping_add(0x0200_0000_0000_0002)
            .wrapping_add(0x0303_0303_0303_0303),
    );
    assert_eq!(strided_word_sum(&buf, slots, stride, 2), expected);
}

#[test]
fn strided_words_native_order() {
    let buf: Vec<u8> = (0..40u8).collect();
    let mut expected = 0u64;
    for _ in 0..3 {
        for i in 0..4 {
            let p = i * 8;
            expected = expected.wrapping_add(u64::from_ne_bytes(buf[p..p + 8].try_into().unwrap()));
        }
    }
    assert_eq!(strided_word_sum(&buf, 4, 8, 3), expected);
    assert_eq!(strided_word_sum(&buf, 4, 8, 0), 0);
}

#[test]
fn i32_sum_forms_agree() {
    let v: Vec<i32> = vec![i32::MAX, 1, -7, 20];
    assert_eq!(wrapping_sum_i32_iter(&v), wrapping_sum_i32(&v));
    assert_eq!(wrapping_sum_i32_prefix(&v, 2), i32::MIN);
    assert_eq!(wrapping_sum_i32_prefix(&v, 0), 0);
    assert_eq!(wrapping_sum_i32_prefix(&v, 4), wrapping_sum_i32(&v));
}
