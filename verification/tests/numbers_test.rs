use rgg::numbers::MasterOfNumbers;

#[test]
fn new_store_is_empty() {
    let m = MasterOfNumbers::new();
    assert_eq!(m.read_numbers(None), Vec::<usize>::new());
    assert_eq!(m.read_numbers(Some(5)), Vec::<usize>::new());
    assert_eq!(m.get_sum_count(), (0, 0));
}

#[test]
fn add_number_reports_new_and_known() {
    let mut m = MasterOfNumbers::new();
    assert!(m.add_number(5));
    assert!(m.add_number(7));
    assert!(!m.add_number(5));
    assert_eq!(m.read_numbers(None), vec![5, 7]);
}

#[test]
fn add_number_twice_changes_nothing() {
    let mut m = MasterOfNumbers::new();
    assert!(m.add_number(9));
    let before = m.read_numbers(None);
    assert!(!m.add_number(9));
    assert_eq!(m.read_numbers(None), before);
}

#[test]
fn get_sum_count_gives_count_then_sum() {
    let mut m = MasterOfNumbers::new();
    m.add_number(10);
    m.add_number(20);
    m.add_number(3);
    assert_eq!(m.get_sum_count(), (3, 33));
}

#[test]
fn extend_numbers_skips_known_and_repeats() {
    let mut m = MasterOfNumbers::new();
    m.add_number(1);
    let r = m.extend_numbers(&[2, 1, 3, 2]);
    assert_eq!(r, (3, 6));
    assert_eq!(m.read_numbers(None), vec![1, 2, 3]);
}

#[test]
fn extend_numbers_twice_is_extending_once() {
    let mut m = MasterOfNumbers::new();
    m.extend_numbers(&[4, 8, 15]);
    let once = m.read_numbers(None);
    let r = m.extend_numbers(&[4, 8, 15]);
    assert_eq!(m.read_numbers(None), once);
    assert_eq!(r, (3, 27));
}

#[test]
fn extend_numbers_keeps_old_numbers_first() {
    let mut m = MasterOfNumbers::new();
    m.extend_numbers(&[30, 10]);
    m.extend_numbers(&[20, 30, 40]);
    assert_eq!(m.read_numbers(None), vec![30, 10, 20, 40]);
}

#[test]
fn exchange_between_stores_converges() {
    let mut a = MasterOfNumbers::new();
    let mut b = MasterOfNumbers::new();
    a.extend_numbers(&[1, 2, 3]);
    b.extend_numbers(&[3, 4]);
    let a_numbers = a.read_numbers(None);
    let b_numbers = b.read_numbers(None);
    a.extend_numbers(&b_numbers);
    b.extend_numbers(&a_numbers);
    let mut sa = a.read_numbers(None);
    let mut sb = b.read_numbers(None);
    sa.sort();
    sb.sort();
    assert_eq!(sa, vec![1, 2, 3, 4]);
    assert_eq!(sa, sb);
}

#[test]
fn read_numbers_last_n_newest_first() {
    let mut m = MasterOfNumbers::new();
    m.extend_numbers(&[1, 2, 3, 4, 5]);
    assert_eq!(m.read_numbers(Some(2)), vec![5, 4]);
    assert_eq!(m.read_numbers(Some(0)), Vec::<usize>::new());
    assert_eq!(m.read_numbers(Some(10)), vec![5, 4, 3, 2, 1]);
    assert_eq!(m.read_numbers(None), vec![1, 2, 3, 4, 5]);
}

#[test]
fn checked_sum_count_reports_overflow() {
    let mut m = MasterOfNumbers::new();
    m.add_number(usize::MAX);
    assert_eq!(m.checked_sum_count(), Some((1, usize::MAX)));
    m.add_number(1);
    assert_eq!(m.checked_sum_count(), None);
}

#[test]
fn extend_numbers_checked_learns_even_on_overflow() {
    let mut m = MasterOfNumbers::new();
    m.add_number(usize::MAX);
    assert_eq!(m.extend_numbers_checked(&[2, 2]), None);
    assert_eq!(m.read_numbers(None), vec![usize::MAX, 2]);
    let mut n = MasterOfNumbers::new();
    assert_eq!(n.extend_numbers_checked(&[2, 2, 5]), Some((2, 7)));
}

#[test]
fn batch_order_does_not_change_count_or_sum() {
    let mut a = MasterOfNumbers::new();
    let mut b = MasterOfNumbers::new();
    a.add_number(1);
    b.add_number(1);
    a.extend_numbers(&[2, 3]);
    let ra = a.extend_numbers(&[3, 4, 5]);
    b.extend_numbers(&[3, 4, 5]);
    let rb = b.extend_numbers(&[2, 3]);
    assert_eq!(ra, rb);
    assert_eq!(ra, (5, 15));
    assert_eq!(a.read_numbers(None), vec![1, 2, 3, 4, 5]);
    assert_eq!(b.read_numbers(None), vec![1, 3, 4, 5, 2]);
}
