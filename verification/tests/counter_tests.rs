use tui2web::counter::{push_decimal, Counter};

#[test]
fn counter_starts_at_zero() {
    let c = Counter::new();
    assert_eq!(c.counter(), 0);
    assert_eq!(c.max_value(), 100);
    assert!(!c.should_quit());
    assert_eq!(
        c.status_message(),
        "Press j/\u{2193} to increment \u{b7} k/\u{2191} to decrement \u{b7} r to reset \u{b7} q to quit"
    );
    assert_eq!(c.percent(), 0);
}

#[test]
fn keys_move_the_counter() {
    let mut c = Counter::new();
    c.handle_input("k");
    assert_eq!(c.counter(), 0);
    assert_eq!(c.status_message(), "Counter: 0/100");
    c.handle_input("j");
    c.handle_input("ArrowDown");
    assert_eq!(c.counter(), 2);
    assert_eq!(c.status_message(), "Counter: 2/100");
    assert_eq!(c.percent(), 2);
    c.handle_input("ArrowUp");
    assert_eq!(c.counter(), 1);
    assert_eq!(c.status_message(), "Counter: 1/100");
    c.handle_input("x");
    c.handle_input("");
    c.handle_input("J");
    assert_eq!(c.counter(), 1);
    assert_eq!(c.status_message(), "Counter: 1/100");
    c.handle_input("r");
    assert_eq!(c.counter(), 0);
    assert_eq!(c.status_message(), "Counter reset to 0");
    assert!(!c.should_quit());
}

#[test]
fn counter_stops_at_the_maximum() {
    let mut c = Counter::new();
    for _ in 0..250 {
        c.handle_input("j");
    }
    assert_eq!(c.counter(), 100);
    assert_eq!(c.status_message(), "Counter: 100/100");
    assert_eq!(c.percent(), 100);
    c.handle_input("k");
    assert_eq!(c.counter(), 99);
    assert_eq!(c.percent(), 99);
}

#[test]
fn quit_keys() {
    let mut c = Counter::new();
    c.handle_input("j");
    c.handle_input("q");
    assert!(c.should_quit());
    assert_eq!(c.counter(), 1);
    assert_eq!(c.status_message(), "Counter: 1/100");
    let mut d = Counter::new();
    d.handle_input("Escape");
    assert!(d.should_quit());
}

#[test]
fn decimal_of_any_number() {
    for n in [0u32, 5, 10, 42, 100, 999, 1000, 65536, 1234567890, u32::MAX] {
        let mut s = String::from("#");
        push_decimal(&mut s, n);
        assert_eq!(s, format!("#{}", n));
    }
}
