use river::operators::batch_process;
use river::operators::parallel_map;
use river::operators::WindowedOperator;

#[test]
fn window_fills_then_slides() {
    let mut w: WindowedOperator<i32> = WindowedOperator::new(3, "mean".to_string());
    assert!(!w.is_ready());
    w.push(1);
    w.push(2);
    assert!(!w.is_ready());
    w.push(3);
    assert!(w.is_ready());
    assert_eq!(w.get_window(), vec![1, 2, 3]);
    w.push(4);
    assert!(w.is_ready());
    assert_eq!(w.get_window(), vec![2, 3, 4]);
    assert_eq!(w.operation(), "mean");
}

#[test]
fn window_of_size_zero_is_never_ready() {
    let mut w: WindowedOperator<u8> = WindowedOperator::new(0, "sum".to_string());
    w.push(1);
    w.push(2);
    assert!(!w.is_ready());
    assert_eq!(w.get_window(), vec![2]);
}

#[test]
fn batches_in_order_with_short_last() {
    let out = batch_process(vec![1, 2, 3, 4, 5], 2, |chunk: &[i32]| vec![chunk.iter().sum::<i32>()]);
    assert_eq!(out, vec![3, 7, 5]);
}

#[test]
fn batches_of_empty_input() {
    let out = batch_process(Vec::<i32>::new(), 3, |chunk: &[i32]| chunk.to_vec());
    assert!(out.is_empty());
}

#[test]
fn batches_joined() {
    let out = batch_process(vec![1, 2, 3], 5, |chunk: &[i32]| chunk.iter().map(|x| x * 10).collect());
    assert_eq!(out, vec![10, 20, 30]);
}

#[test]
fn parallel_map_keeps_order() {
    let input: Vec<u64> = (0..1000).collect();
    let out = parallel_map(input, |x: u64| x * 2 + 1);
    assert_eq!(out.len(), 1000);
    for (i, v) in out.iter().enumerate() {
        assert_eq!(*v, 2 * i as u64 + 1);
    }
}
