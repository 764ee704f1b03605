use pl::queue::CostQueue;

#[test]
fn an_empty_queue_gives_nothing() {
    let mut queue = CostQueue::with_capacity(0);
    assert_eq!(queue.len(), 0);
    assert_eq!(queue.pop(), None);
    assert_eq!(queue.len(), 0);
    assert_eq!(queue.into_sorted_vec(), vec![]);
}

#[test]
fn entries_leave_in_order_of_cost() {
    let mut queue = CostQueue::with_capacity(4);
    let costs: [i128; 9] = [5, -3, 8, 0, 12, -7, 3, 1, 9];
    for (idx, cost) in costs.iter().enumerate() {
        queue.push(*cost, idx);
        assert_eq!(queue.len(), idx + 1);
    }
    let mut out = Vec::new();
    while let Some(entry) = queue.pop() {
        out.push(entry);
    }
    assert_eq!(
        out,
        vec![(-7, 5), (-3, 1), (0, 3), (1, 7), (3, 6), (5, 0), (8, 2), (9, 8), (12, 4)]
    );
    assert_eq!(queue.len(), 0);
}

#[test]
fn entries_of_equal_cost_all_leave() {
    let mut queue = CostQueue::with_capacity(8);
    queue.push(2, 10);
    queue.push(1, 11);
    queue.push(2, 12);
    queue.push(1, 13);
    queue.push(2, 14);
    let first = queue.pop().unwrap();
    let second = queue.pop().unwrap();
    assert_eq!((first.0, second.0), (1, 1));
    let mut ones = vec![first.1, second.1];
    ones.sort();
    assert_eq!(ones, vec![11, 13]);
    let mut twos = Vec::new();
    while let Some((cost, idx)) = queue.pop() {
        assert_eq!(cost, 2);
        twos.push(idx);
    }
    twos.sort();
    assert_eq!(twos, vec![10, 12, 14]);
}

#[test]
fn pushes_and_pops_may_alternate() {
    let mut queue = CostQueue::with_capacity(2);
    queue.push(4, 0);
    queue.push(2, 1);
    assert_eq!(queue.pop(), Some((2, 1)));
    queue.push(1, 2);
    queue.push(3, 3);
    assert_eq!(queue.pop(), Some((1, 2)));
    assert_eq!(queue.pop(), Some((3, 3)));
    queue.push(i128::MIN, 4);
    queue.push(i128::MAX, 5);
    assert_eq!(queue.pop(), Some((i128::MIN, 4)));
    assert_eq!(queue.pop(), Some((4, 0)));
    assert_eq!(queue.pop(), Some((i128::MAX, 5)));
    assert_eq!(queue.pop(), None);
}

#[test]
fn into_sorted_vec_runs_from_least_to_greatest() {
    let mut queue = CostQueue::with_capacity(16);
    let mut state: u64 = 12345;
    let mut pushed = Vec::new();
    for idx in 0..200usize {
        state = state.wrapping_mul(6364136223846793005).wrapping_add(1442695040888963407);
        let cost = ((state >> 33) % 50) as i128 - 25;
        queue.push(cost, idx);
        pushed.push((cost, idx));
    }
    let sorted = queue.into_sorted_vec();
    assert_eq!(sorted.len(), 200);
    for pair in sorted.windows(2) {
        assert!(pair[0].0 <= pair[1].0);
    }
    let mut got = sorted.clone();
    got.sort();
    pushed.sort();
    assert_eq!(got, pushed);
}
