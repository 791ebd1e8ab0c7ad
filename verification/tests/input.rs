use mind_core::input::{key_from_serial, Key, Keyboard, Queue};

#[test]
fn queue_is_first_in_first_out() {
    let mut q: Queue<4> = Queue::new();
    assert!(q.is_empty());
    q.push(1);
    q.push(2);
    q.push(0); // zero is not queued
    assert!(!q.is_empty());
    assert_eq!(q.pop(), Some(1));
    assert_eq!(q.pop(), Some(2));
    assert_eq!(q.pop(), None);
}

#[test]
fn full_queue_keeps_the_latest_bytes() {
    let mut q: Queue<3> = Queue::new();
    for b in 1..=5 {
        q.push(b);
    }
    assert_eq!(q.pop(), Some(3));
    assert_eq!(q.pop(), Some(4));
    assert_eq!(q.pop(), Some(5));
    assert_eq!(q.pop(), None);
    q.push(9);
    q.clear();
    assert!(q.is_empty());
    assert_eq!(q.pop(), None);
}

#[test]
fn serial_bytes_become_keys() {
    let _keyboard = Keyboard::new();
    assert_eq!(
        key_from_serial(b'\r'),
        Key { app: b'\r', shell: b'\n', background: false }
    );
    assert_eq!(key_from_serial(127), Key { app: 127, shell: 8, background: false });
    assert_eq!(key_from_serial(26), Key { app: 26, shell: 26, background: true });
    assert_eq!(key_from_serial(b'q'), Key { app: b'q', shell: b'q', background: false });
}
