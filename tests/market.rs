use aoc24rust::market::{calculate, CalcResult, IntBuffer};

#[test]
fn market_example1() {
    let expected = vec![
        15887950, 16495136, 527345, 704524, 1553684, 12683156, 11100544, 12249484, 7753432,
        5908254,
    ];
    for (i, exp) in expected.into_iter().enumerate() {
        let result = calculate(123, i as i64 + 1);
        assert!(result.number == exp);
    }
}

#[test]
fn main_test_example2() {
    let input = vec![1, 2, 3, 2024];
    let results: Vec<CalcResult> = input.iter().map(|i| calculate(*i, 2000)).collect();
    let exp: i32 = IntBuffer::_pack(&[-2, 1, -1, 3]);
    let mut sum = 0;
    for r in results.iter() {
        let res = r.patterns.get(&exp).unwrap_or(&0);
        sum += res;
    }
    assert!(sum == 23);
    let res = results
        .iter()
        .fold(0, |acc, r| acc + r.patterns.get(&exp).unwrap_or(&0));
    assert!(res == 23);
}

#[test]
fn test_buffer() {
    let mut rb = IntBuffer::new();
    let test_values = vec![1, 2, 3, 4, 5, 6, 7];
    let items = rb.get();
    assert!(items == 0);
    assert!(rb.len() == 0);
    let concat_numbers =
        |items: &[i8]| -> i32 { items.iter().fold(0, |acc, i| acc * 256 + *i as i32) };

    rb.push(test_values[0]);
    let items = rb.get();
    let expected = concat_numbers(&test_values[0..1]);
    assert!(items == expected);
    assert!(rb.len() == 1);

    rb.push(test_values[1]);
    let items = rb.get();
    let expected = concat_numbers(&test_values[0..2]);
    assert!(items == expected);
    assert!(rb.len() == 2);

    rb.push(test_values[2]);
    let items = rb.get();
    assert!(items == concat_numbers(&test_values[0..3]));
    assert!(rb.len() == 3);

    rb.push(test_values[3]);
    let items = rb.get();
    assert!(items == concat_numbers(&test_values[0..4]));
    assert!(rb.len() == 4);

    rb.push(test_values[4]);
    let items = rb.get();
    assert!(items == concat_numbers(&test_values[1..5]));
    assert!(rb.len() == 4);
}

#[test]
fn test_buffer_pack_unpack() {
    const MIN: i8 = -9;
    const MAX: i8 = 10;
    for i in MIN..MAX {
        for j in MIN..MAX {
            for k in MIN..MAX {
                for l in MIN..MAX {
                    let packed = IntBuffer::_pack(&[i, j, k, l]);
                    let unpacked = IntBuffer::_unpack(packed);
                    let formatted = format!("({i}, {j}, {k}, {l})");
                    assert!(unpacked == formatted);
                }
            }
        }
    }
}

#[test]
fn unpack_reads_extreme_bytes() {
    assert_eq!(IntBuffer::_unpack(IntBuffer::_pack(&[-128, 127, 0, -1])), "(-128, 127, 0, -1)");
}

#[test]
fn pattern_keeps_first_price() {
    let r = calculate(123, 10);
    let key = IntBuffer::_pack(&[-3, 6, -1, -1]);
    assert_eq!(r.patterns.get(&key), Some(&4));
}
