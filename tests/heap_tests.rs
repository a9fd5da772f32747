use hearp::Hearp;
use hearp::{_left_id, _parent_id, _right_id};
use rand::seq::SliceRandom;
use rand::thread_rng;

#[derive(Debug, Clone, PartialEq)]
struct Thing {
    value: i32,
}

#[derive(Debug, Clone, PartialEq)]
struct Job {
    priority: u32,
    name: u32,
}

#[test]
fn parent_id() {
    assert_eq!(_parent_id(1), 0);
    assert_eq!(_parent_id(2), 0);
    assert_eq!(_parent_id(3), 1);
    assert_eq!(_parent_id(4), 1);
    assert_eq!(_parent_id(5), 2);
    assert_eq!(_parent_id(6), 2);
}

#[test]
fn left_id() {
    assert_eq!(_left_id(0), 1);
    assert_eq!(_left_id(1), 3);
}

#[test]
fn right_id() {
    assert_eq!(_right_id(0), 2);
    assert_eq!(_right_id(1), 4);
}

#[test]
fn test_ints() {
    let src: Vec<i32> = (0..100).collect();
    let mut randsrc = src.clone();
    randsrc.shuffle(&mut thread_rng());
    let mut heep = Hearp::new(|x: &i32, y: &i32| x < y);
    for item in randsrc.iter() {
        heep.insert(item.clone());
    }
    let mut op: Vec<i32> = Vec::new();
    while let Some(item) = heep.pop() {
        op.push(item);
    }
    assert_eq!(op, src);
}

#[test]
fn test_things() {
    let src: Vec<Thing> = (0..100).map(|x| Thing { value: x }).collect();
    let mut randsrc = src.clone();
    randsrc.shuffle(&mut thread_rng());
    let mut heep = Hearp::new(|x: &Thing, y: &Thing| x.value < y.value);
    for item in randsrc.iter() {
        heep.insert(item.clone());
    }
    let mut op: Vec<Thing> = Vec::new();
    while let Some(item) = heep.pop() {
        op.push(item);
    }
    assert_eq!(op, src);
}

#[test]
fn parent_of_larger_positions() {
    assert_eq!(_parent_id(7), 3);
    assert_eq!(_parent_id(8), 3);
    assert_eq!(_left_id(5), 11);
    assert_eq!(_right_id(5), 12);
}

#[test]
fn empty_heap_signals_absence() {
    let mut heep = Hearp::new(|x: &i32, y: &i32| x < y);
    assert_eq!(heep.peek(), None);
    assert_eq!(heep.pop(), None);
    assert_eq!(heep.peek(), None);
}

#[test]
fn drained_heap_signals_absence() {
    let mut heep = Hearp::new(|x: &i32, y: &i32| x < y);
    heep.insert(4);
    heep.insert(9);
    assert_eq!(heep.pop(), Some(4));
    assert_eq!(heep.pop(), Some(9));
    assert_eq!(heep.peek(), None);
    assert_eq!(heep.pop(), None);
}

#[test]
fn single_element_round_trip() {
    let mut heep = Hearp::new(|x: &i32, y: &i32| x < y);
    heep.insert(42);
    assert_eq!(heep.peek(), Some(&42));
    assert_eq!(heep.pop(), Some(42));
    assert_eq!(heep.peek(), None);
    assert_eq!(heep.pop(), None);
}

#[test]
fn peek_shows_current_top_without_removing() {
    let mut heep = Hearp::new(|x: &i32, y: &i32| x < y);
    heep.insert(5);
    assert_eq!(heep.peek(), Some(&5));
    heep.insert(2);
    assert_eq!(heep.peek(), Some(&2));
    heep.insert(8);
    assert_eq!(heep.peek(), Some(&2));
    assert_eq!(heep.peek(), Some(&2));
    assert_eq!(heep.pop(), Some(2));
    assert_eq!(heep.peek(), Some(&5));
}

#[test]
fn reversed_predicate_gives_largest_first() {
    let mut heep = Hearp::new(|x: &i32, y: &i32| x > y);
    for item in [3, -7, 12, 0, 12, 5] {
        heep.insert(item);
    }
    let mut op: Vec<i32> = Vec::new();
    while let Some(item) = heep.pop() {
        op.push(item);
    }
    assert_eq!(op, vec![12, 12, 5, 3, 0, -7]);
}

#[test]
fn duplicates_are_all_returned() {
    let mut heep = Hearp::new(|x: &u8, y: &u8| x < y);
    for item in [2u8, 2, 1, 2, 1, 0, 2] {
        heep.insert(item);
    }
    let mut op: Vec<u8> = Vec::new();
    while let Some(item) = heep.pop() {
        op.push(item);
    }
    assert_eq!(op, vec![0, 1, 1, 2, 2, 2, 2]);
}

#[test]
fn records_with_shared_keys_keep_count() {
    let mut heep = Hearp::new(|x: &Job, y: &Job| x.priority < y.priority);
    let jobs: Vec<Job> = (0..40).map(|n| Job { priority: (n * 7) % 5, name: n }).collect();
    for job in jobs.iter() {
        heep.insert(job.clone());
    }
    let mut op: Vec<Job> = Vec::new();
    while let Some(job) = heep.pop() {
        op.push(job);
    }
    assert_eq!(op.len(), 40);
    for w in op.windows(2) {
        assert!(w[0].priority <= w[1].priority);
    }
    let mut names: Vec<u32> = op.iter().map(|j| j.name).collect();
    names.sort();
    assert_eq!(names, (0..40).collect::<Vec<u32>>());
}

#[test]
fn size_tracks_inserts() {
    let mut heep = Hearp::new(|x: &u64, y: &u64| x < y);
    for n in 0..57u64 {
        heep.insert((n * 31) % 13);
    }
    let mut count: usize = 0;
    while heep.pop().is_some() {
        count += 1;
    }
    assert_eq!(count, 57);
}

#[test]
fn interleaved_inserts_and_pops() {
    let mut heep = Hearp::new(|x: &i64, y: &i64| x < y);
    heep.insert(10);
    heep.insert(3);
    heep.insert(7);
    assert_eq!(heep.pop(), Some(3));
    heep.insert(1);
    heep.insert(8);
    assert_eq!(heep.pop(), Some(1));
    assert_eq!(heep.pop(), Some(7));
    heep.insert(2);
    assert_eq!(heep.pop(), Some(2));
    assert_eq!(heep.pop(), Some(8));
    assert_eq!(heep.pop(), Some(10));
    assert_eq!(heep.pop(), None);
}

#[test]
fn left_id_at_largest_index() {
    assert_eq!(_left_id((usize::MAX - 1) / 2), usize::MAX);
    assert_eq!(_right_id((usize::MAX - 3) / 2), usize::MAX - 1);
}

#[test]
fn pop_returns_the_element_peek_shows() {
    let mut heep = Hearp::new(|x: &Job, y: &Job| x.priority < y.priority);
    for n in 0..6u32 {
        heep.insert(Job { priority: n % 2, name: n });
    }
    while let Some(shown) = heep.peek().cloned() {
        assert_eq!(heep.pop(), Some(shown));
    }
}
