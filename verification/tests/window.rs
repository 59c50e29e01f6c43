use timing_wheel::item::count_due;
use timing_wheel::{Timer, TimerItem};

const MS: u64 = 1_000_000;
const T0: u64 = 5_000 * MS;
const WIDTH: u64 = 10 * MS;
const BUCKETS: usize = 10;

fn wheel() -> Timer<u32> {
    Timer::new(T0, WIDTH, BUCKETS)
}

#[test]
fn item_time_is_its_due_time() {
    let e = TimerItem { time: 42, item: "x" };
    assert_eq!(TimerItem::time(&e), 42);
}

#[test]
fn count_due_counts_entries_due_by_a_time() {
    let bucket: Vec<TimerItem<char>> = [3u64, 5, 5, 5, 8, 13]
        .iter()
        .map(|t| TimerItem { time: *t, item: 'x' })
        .collect();
    assert_eq!(count_due(&bucket, 0), 0);
    assert_eq!(count_due(&bucket, 2), 0);
    assert_eq!(count_due(&bucket, 3), 1);
    assert_eq!(count_due(&bucket, 4), 1);
    assert_eq!(count_due(&bucket, 5), 4);
    assert_eq!(count_due(&bucket, 12), 5);
    assert_eq!(count_due(&bucket, 13), 6);
    assert_eq!(count_due(&bucket, u64::MAX), 6);
    assert_eq!(count_due(&Vec::<TimerItem<char>>::new(), 7), 0);
}

#[test]
fn span_is_width_times_buckets() {
    let t: Timer<()> = Timer::new(0, 7, 13);
    assert_eq!(t.span(), 91);
    let t: Timer<()> = Timer::new(0, 7, 0);
    assert_eq!(t.span(), 0);
    let t: Timer<()> = Timer::new(0, u64::MAX, 3);
    assert_eq!(t.span(), 3 * u128::from(u64::MAX));
}

#[test]
fn window_starts_where_told() {
    let t = wheel();
    assert_eq!(t.now(), T0);
    assert_eq!(t.next_time(), None);
}

#[test]
fn add_inside_window_leaves_it_in_place() {
    let mut t = wheel();
    t.add(T0 + 99 * MS, 1);
    assert_eq!(t.now(), T0);
    t.add(T0, 2);
    assert_eq!(t.now(), T0);
    assert_eq!(t.next_time(), Some(T0));
}

#[test]
fn add_beyond_window_moves_it_by_buckets() {
    let mut t = wheel();
    t.add(T0 + 100 * MS, 1);
    assert_eq!(t.now(), T0 + 10 * MS);
    let mut t = wheel();
    t.add(T0 + 117 * MS, 1);
    assert_eq!(t.now(), T0 + 20 * MS);
    let mut t = wheel();
    t.add(T0 + 189 * MS, 1);
    assert_eq!(t.now(), T0 + 90 * MS);
    assert_eq!(t.next_time(), Some(T0 + 189 * MS));
}

#[test]
fn add_far_beyond_window_moves_it_at_once() {
    let mut t = wheel();
    t.add(T0 + 190 * MS, 1);
    assert_eq!(t.now(), T0 + 100 * MS);
    let mut t = wheel();
    t.add(T0 + 892 * MS, 1);
    assert_eq!(t.now(), T0 + 802 * MS);
    assert_eq!(t.take_until(T0 + 892 * MS), vec![1]);
    let mut t = wheel();
    t.add(u64::MAX, 7);
    assert_eq!(t.now(), u64::MAX - 90 * MS);
    assert_eq!(t.next_time(), Some(u64::MAX));
    assert_eq!(t.take_until(u64::MAX), vec![7]);
}

#[test]
fn add_moves_window_past_empty_buckets_only() {
    let mut t = wheel();
    t.add(T0 + 35 * MS, 1);
    // The window may move up to the bucket that holds the stored entry.
    assert!(t.admits(T0 + 129 * MS));
    assert!(!t.admits(T0 + 140 * MS));
    assert!(!t.admits(T0 + 5_000 * MS));
    t.add(T0 + 129 * MS, 2);
    assert_eq!(t.now(), T0 + 30 * MS);
    assert_eq!(t.take_until(T0 + 129 * MS), vec![1, 2]);
}

#[test]
fn admits_nothing_before_the_window() {
    let mut t = wheel();
    assert!(t.admits(T0));
    assert!(!t.admits(T0 - 1));
    assert!(t.admits(T0 + 5_000 * MS));
    t.add(T0 + 25 * MS, 1);
    assert_eq!(t.take_until(T0 + 25 * MS), vec![1]);
    assert_eq!(t.now(), T0 + 20 * MS);
    assert!(t.admits(T0 + 20 * MS));
    assert!(!t.admits(T0 + 20 * MS - 1));
}

#[test]
fn wheel_without_buckets_holds_nothing() {
    let mut t: Timer<u32> = Timer::new(T0, WIDTH, 0);
    assert!(!t.admits(T0));
    assert_eq!(t.next_time(), None);
    assert_eq!(t.remove(T0, |_| true), None);
    assert_eq!(t.take_next(T0 + 15 * MS), None);
    assert_eq!(t.now(), T0 + 10 * MS);
    assert_eq!(t.take_until(T0 + 3 * MS), Vec::<u32>::new());
    assert_eq!(t.now(), T0 + 10 * MS);
    assert_eq!(t.take_until(T0 + 33 * MS), Vec::<u32>::new());
    assert_eq!(t.now(), T0 + 33 * MS);
}

#[test]
fn next_time_is_the_least_time_added() {
    let mut t = wheel();
    let offsets = [40u64, 91, 6, 3, 22, 40, 3, 0];
    let mut least = u64::MAX;
    for (i, off) in offsets.iter().enumerate() {
        t.add(T0 + off * MS, i as u32);
        least = least.min(T0 + off * MS);
        assert_eq!(t.next_time(), Some(least));
    }
}

#[test]
fn entries_due_together_keep_their_order() {
    let mut t = wheel();
    t.add(T0 + 5 * MS, 1);
    t.add(T0 + 3 * MS, 2);
    t.add(T0 + 5 * MS, 3);
    t.add(T0 + 3 * MS, 4);
    t.add(T0 + 5 * MS, 5);
    assert_eq!(t.take_until(T0 + 9 * MS), vec![2, 4, 1, 3, 5]);
}

#[test]
fn take_until_hands_out_what_is_due_and_keeps_the_rest() {
    let mut t = wheel();
    let offsets = [40u64, 91, 6, 3, 22, 40, 41, 39];
    for (i, off) in offsets.iter().enumerate() {
        t.add(T0 + off * MS, i as u32);
    }
    assert_eq!(t.take_until(T0 + 40 * MS), vec![3, 2, 4, 7, 0, 5]);
    assert_eq!(t.now(), T0 + 40 * MS);
    assert_eq!(t.next_time(), Some(T0 + 41 * MS));
    assert_eq!(t.take_until(T0 + 40 * MS), Vec::<u32>::new());
    assert_eq!(t.take_until(T0 + 1_000 * MS), vec![6, 1]);
    assert_eq!(t.now(), T0 + 1_000 * MS);
    assert_eq!(t.next_time(), None);
}

#[test]
fn take_until_with_rising_times_hands_out_each_entry_once() {
    let mut t = wheel();
    let offsets = [40u64, 91, 6, 3, 22, 40, 99, 0, 57];
    for (i, off) in offsets.iter().enumerate() {
        t.add(T0 + off * MS, i as u32);
    }
    let mut seen: Vec<u32> = Vec::new();
    let mut last: Option<u64> = None;
    for until in [0u64, 3, 4, 22, 39, 40, 56, 90, 98, 99, 250] {
        let part = t.take_until(T0 + until * MS);
        for i in &part {
            let off = offsets[*i as usize];
            assert!(off <= until);
            assert!(last.map_or(true, |before| off > before));
        }
        seen.extend(part);
        last = Some(until);
    }
    let mut sorted = seen.clone();
    sorted.sort();
    assert_eq!(sorted, (0..offsets.len() as u32).collect::<Vec<_>>());
    assert_eq!(t.next_time(), None);
}

#[test]
fn take_until_sets_the_window_start() {
    // A time inside the window: the start of its bucket.
    let mut t = wheel();
    t.add(T0 + 80 * MS, 1);
    assert_eq!(t.take_until(T0 + 37 * MS), Vec::<u32>::new());
    assert_eq!(t.now(), T0 + 30 * MS);
    // A time before the window: nothing moves.
    assert_eq!(t.take_until(T0), Vec::<u32>::new());
    assert_eq!(t.now(), T0 + 30 * MS);
    // The last tick of the window.
    assert_eq!(t.take_until(T0 + 129 * MS), vec![1]);
    assert_eq!(t.now(), T0 + 120 * MS);
    // The end of the window, and beyond: the time itself.
    assert_eq!(t.take_until(T0 + 220 * MS), Vec::<u32>::new());
    assert_eq!(t.now(), T0 + 220 * MS);
    assert_eq!(t.take_until(T0 + 999 * MS + 1), Vec::<u32>::new());
    assert_eq!(t.now(), T0 + 999 * MS + 1);
}

#[test]
fn take_until_splits_a_bucket() {
    let mut t = wheel();
    t.add(T0 + 51 * MS, 1);
    t.add(T0 + 55 * MS, 2);
    t.add(T0 + 55 * MS, 3);
    t.add(T0 + 56 * MS, 4);
    assert_eq!(t.take_until(T0 + 55 * MS), vec![1, 2, 3]);
    assert_eq!(t.next_time(), Some(T0 + 56 * MS));
    assert_eq!(t.take_until(T0 + 56 * MS - 1), Vec::<u32>::new());
    assert_eq!(t.take_until(T0 + 56 * MS), vec![4]);
}

#[test]
fn take_next_hands_out_entries_in_order() {
    let mut t = wheel();
    t.add(T0 + 45 * MS, 1);
    t.add(T0 + 5 * MS, 2);
    t.add(T0 + 45 * MS, 3);
    t.add(T0 + 72 * MS, 4);
    assert_eq!(t.take_next(T0 + 50 * MS), Some(2));
    assert_eq!(t.now(), T0);
    assert_eq!(t.take_next(T0 + 50 * MS), Some(1));
    assert_eq!(t.now(), T0 + 40 * MS);
    assert_eq!(t.take_next(T0 + 50 * MS), Some(3));
    assert_eq!(t.take_next(T0 + 50 * MS), None);
    assert_eq!(t.now(), T0 + 40 * MS);
    assert_eq!(t.next_time(), Some(T0 + 72 * MS));
}

#[test]
fn take_next_stops_one_bucket_short() {
    let mut t = wheel();
    assert_eq!(t.take_next(T0 + 35 * MS), None);
    assert_eq!(t.now(), T0 + 30 * MS);
    assert_eq!(t.take_next(T0 + 40 * MS), None);
    assert_eq!(t.now(), T0 + 30 * MS);
    assert_eq!(t.take_next(T0 + 40 * MS + 1), None);
    assert_eq!(t.now(), T0 + 40 * MS);
    assert_eq!(t.take_next(T0), None);
    assert_eq!(t.now(), T0 + 40 * MS);
}

#[test]
fn take_next_at_a_bucket_boundary() {
    // An entry due where a later bucket begins is not handed out at that
    // very time, only after it.
    let mut t = wheel();
    t.add(T0 + 10 * MS, 1);
    assert_eq!(t.take_next(T0 + 10 * MS), None);
    assert_eq!(t.now(), T0);
    assert_eq!(t.take_next(T0 + 10 * MS + 1), Some(1));
    assert_eq!(t.now(), T0 + 10 * MS);
    // In the current bucket it is handed out at its time.
    let mut t = wheel();
    t.add(T0, 2);
    assert_eq!(t.take_next(T0 - 1), None);
    assert_eq!(t.take_next(T0), Some(2));
}

#[test]
fn remove_takes_the_first_accepted_entry() {
    let mut t = wheel();
    t.add(T0 + 33 * MS, 10);
    t.add(T0 + 33 * MS, 11);
    t.add(T0 + 33 * MS, 12);
    t.add(T0 + 34 * MS, 13);
    t.add(T0 + 32 * MS, 14);
    let mut asked: Vec<u32> = Vec::new();
    let r = t.remove(T0 + 33 * MS, |x| {
        asked.push(*x);
        *x >= 11
    });
    assert_eq!(r, Some(11));
    assert_eq!(asked, vec![10, 11]);
    assert_eq!(t.take_until(T0 + 99 * MS), vec![14, 10, 12, 13]);
}

#[test]
fn remove_without_a_match_changes_nothing() {
    let mut t = wheel();
    t.add(T0 + 33 * MS, 10);
    t.add(T0 + 33 * MS, 11);
    t.add(T0 + 34 * MS, 12);
    let mut asked: Vec<u32> = Vec::new();
    let r = t.remove(T0 + 33 * MS, |x| {
        asked.push(*x);
        false
    });
    assert_eq!(r, None);
    assert_eq!(asked, vec![10, 11]);
    // No entry is due at these times: the selector is not asked.
    assert_eq!(t.remove(T0 + 33 * MS + 1, |_| true), None);
    assert_eq!(t.remove(T0 + 35 * MS, |_| true), None);
    assert_eq!(t.remove(0, |_| true), None);
    assert_eq!(t.now(), T0);
    assert_eq!(t.take_until(T0 + 99 * MS), vec![10, 11, 12]);
}

#[test]
fn remove_outside_the_window_finds_nothing() {
    let mut t = wheel();
    t.add(T0 + 33 * MS, 10);
    assert_eq!(t.remove(T0 - 1, |_| true), None);
    assert_eq!(t.remove(T0 + 100 * MS, |_| true), None);
    assert_eq!(t.remove(T0 + 133 * MS, |_| true), None);
    assert_eq!(t.remove(u64::MAX, |_| true), None);
    assert_eq!(t.now(), T0);
    assert_eq!(t.next_time(), Some(T0 + 33 * MS));
}

#[test]
fn add_then_remove_gives_the_payload_back() {
    let mut t = wheel();
    t.add(T0 + 20 * MS, 1);
    t.add(T0 + 25 * MS, 2);
    t.add(T0 + 25 * MS, 3);
    t.add(T0 + 70 * MS, 4);
    t.add(T0 + 25 * MS, 9);
    assert_eq!(t.remove(T0 + 25 * MS, |y| *y == 9), Some(9));
    assert_eq!(t.now(), T0);
    assert_eq!(t.take_until(T0 + 99 * MS), vec![1, 2, 3, 4]);
}

#[test]
fn add_then_remove_after_the_window_moved() {
    let mut t = wheel();
    t.add(T0 + 95 * MS, 1);
    t.add(T0 + 150 * MS, 9);
    assert_eq!(t.now(), T0 + 60 * MS);
    assert_eq!(t.remove(T0 + 150 * MS, |y| *y == 9), Some(9));
    assert_eq!(t.now(), T0 + 60 * MS);
    assert_eq!(t.next_time(), Some(T0 + 95 * MS));
    assert_eq!(t.take_until(T0 + 500 * MS), vec![1]);
}

#[test]
fn wheel_wraps_round_its_ring() {
    let mut t: Timer<u64> = Timer::new(0, 10, 4);
    let mut out: Vec<u64> = Vec::new();
    for step in 0..50u64 {
        let now = step * 7;
        out.extend(t.take_until(now));
        t.add(now + 29, step);
        t.add(now, 1_000 + step);
    }
    out.extend(t.take_until(10_000));
    let mut expect: Vec<(u64, u64)> = Vec::new();
    for step in 0..50u64 {
        expect.push((step * 7 + 29, step));
        expect.push((step * 7, 1_000 + step));
    }
    expect.sort_by_key(|e| e.0);
    let order: Vec<u64> = expect.iter().map(|e| e.1).collect();
    assert_eq!(out, order);
}

#[test]
fn single_bucket_wheel() {
    let mut t: Timer<u8> = Timer::new(100, 10, 1);
    assert_eq!(t.span(), 10);
    t.add(109, 1);
    t.add(100, 2);
    assert!(!t.admits(110));
    assert_eq!(t.take_next(105), Some(2));
    assert_eq!(t.remove(109, |_| true), Some(1));
    assert!(t.admits(110));
    t.add(110, 3);
    assert_eq!(t.now(), 110);
    assert_eq!(t.take_until(110), vec![3]);
}
