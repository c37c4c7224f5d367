use tanukioke::queue::Queue;

fn add(q: &mut Queue, singer: &str, song: &str) -> usize {
    q.add(singer.to_string(), song.to_string(), None, None)
}

#[test]
fn test_add_assigns_ids() {
    let mut q = Queue::new();
    assert!(q.is_empty());
    let a = add(&mut q, "Ann", "Song A");
    let b = add(&mut q, "Ben", "Song B");
    assert_eq!((a, b), (0, 1));
    assert_eq!(q.len(), 2);
    assert!(!q.is_empty());
    assert_eq!(q.get(a).unwrap().singer_name, "Ann");
    assert_eq!(q.get(99), None);
}

#[test]
fn test_remove_adjusts_current() {
    let mut q = Queue::new();
    let a = add(&mut q, "Ann", "A");
    let b = add(&mut q, "Ben", "B");
    let c = add(&mut q, "Cal", "C");
    q.next();
    q.next();
    assert_eq!(q.current().unwrap().id, b);
    // removing before the current entry shifts the index down
    let removed = q.remove(a).unwrap();
    assert_eq!(removed.id, a);
    assert_eq!(q.current().unwrap().id, b);
    // removing the current entry clears it
    q.remove(b);
    assert_eq!(q.current(), None);
    assert_eq!(q.len(), 1);
    assert_eq!(q.get(c).unwrap().id, c);
    assert_eq!(q.remove(42), None);
}

#[test]
fn test_move_up_down() {
    let mut q = Queue::new();
    let a = add(&mut q, "Ann", "A");
    let b = add(&mut q, "Ben", "B");
    let c = add(&mut q, "Cal", "C");
    assert!(!q.move_up(a));
    assert!(q.move_up(b));
    let order: Vec<usize> = q.entries.iter().map(|e| e.id).collect();
    assert_eq!(order, vec![b, a, c]);
    assert!(!q.move_down(c));
    assert!(q.move_down(b));
    let order: Vec<usize> = q.entries.iter().map(|e| e.id).collect();
    assert_eq!(order, vec![a, b, c]);
    assert!(!q.move_up(77));
}

#[test]
fn test_next_walks_the_queue() {
    let mut q = Queue::new();
    assert!(q.next().is_none());
    let a = add(&mut q, "Ann", "A");
    let b = add(&mut q, "Ben", "B");
    assert_eq!(q.next().unwrap().id, a);
    assert_eq!(q.next().unwrap().id, b);
    // at the end: no further entry, the current one stays
    assert!(q.next().is_none());
    assert_eq!(q.current().unwrap().id, b);
}

#[test]
fn test_clear_keeps_counting() {
    let mut q = Queue::new();
    add(&mut q, "Ann", "A");
    q.next();
    q.clear();
    assert!(q.is_empty());
    assert_eq!(q.current(), None);
    // ids are never reused after a clear
    let c = add(&mut q, "Cal", "C");
    assert_eq!(c, 1);
}

#[test]
fn test_get_mut_edits_in_place() {
    let mut q = Queue::new();
    let a = add(&mut q, "Ann", "A");
    q.get_mut(a).unwrap().singer_name = "Anna".to_string();
    assert_eq!(q.get(a).unwrap().singer_name, "Anna");
    assert!(q.get_mut(9).is_none());
}
