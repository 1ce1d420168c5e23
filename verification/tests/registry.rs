use glore::{init, log, MemorySink, Registry, Sink};

#[test]
fn a_new_registry_is_empty() {
    let registry: Registry<MemorySink> = Registry::new();
    assert!(!registry.is_installed());
    assert!(registry.sink().is_none());
}

#[test]
fn a_new_memory_sink_is_empty() {
    let sink = MemorySink::new();
    assert!(sink.contents().is_empty());
}

#[test]
fn memory_sink_appends_in_order_and_never_fails() {
    let mut sink = MemorySink::new();
    assert_eq!(sink.append(b"ab"), Ok(()));
    assert_eq!(sink.append(b""), Ok(()));
    assert_eq!(sink.append(b"c\n"), Ok(()));
    assert_eq!(sink.contents(), b"abc\n");
}

#[test]
fn init_installs_and_hands_back_nothing_at_first() {
    let mut registry = Registry::new();
    let previous = init(&mut registry, MemorySink::new());
    assert!(previous.is_none());
    assert!(registry.is_installed());
    assert!(registry.sink().unwrap().contents().is_empty());
}

#[test]
fn init_does_not_write_to_the_sink() {
    let mut registry = Registry::new();
    let mut sink = MemorySink::new();
    sink.append(b"kept").unwrap();
    init(&mut registry, sink);
    assert_eq!(registry.sink().unwrap().contents(), b"kept");
}

#[test]
fn replacement_is_visible_to_the_next_call() {
    let mut registry = Registry::new();
    init(&mut registry, MemorySink::new());
    assert_eq!(log(&mut registry, "a.rs", 1, "to the first"), Ok(()));
    let first = init(&mut registry, MemorySink::new()).expect("the first sink comes back");
    assert_eq!(log(&mut registry, "a.rs", 2, "to the second"), Ok(()));
    assert_eq!(log(&mut registry, "a.rs", 3, "to the second again"), Ok(()));
    assert_eq!(first.contents(), b"a.rs line 1: to the first\n");
    assert_eq!(
        registry.sink().unwrap().contents(),
        b"a.rs line 2: to the second\na.rs line 3: to the second again\n"
    );
}

#[test]
fn the_replaced_sink_comes_back_as_it_was() {
    let mut registry = Registry::new();
    let mut sink = MemorySink::new();
    sink.append(b"before\n").unwrap();
    init(&mut registry, sink);
    assert_eq!(log(&mut registry, "a.rs", 9, "during"), Ok(()));
    let back = init(&mut registry, MemorySink::new()).unwrap();
    assert_eq!(back.contents(), b"before\na.rs line 9: during\n");
}

#[test]
fn repeated_init_leaves_the_last_sink_current() {
    let mut registry = Registry::new();
    let mut handed_back = Vec::new();
    for tag in 0..6u8 {
        let mut sink = MemorySink::new();
        sink.append(&[b'0' + tag]).unwrap();
        handed_back.push(init(&mut registry, sink));
        assert!(registry.is_installed());
        assert_eq!(registry.sink().unwrap().contents(), &[b'0' + tag]);
    }
    assert!(handed_back[0].is_none());
    for tag in 1..6u8 {
        let back = handed_back[tag as usize].as_ref().unwrap();
        assert_eq!(back.contents(), &[b'0' + tag - 1]);
    }
    assert_eq!(log(&mut registry, "a.rs", 1, "x"), Ok(()));
    assert_eq!(registry.sink().unwrap().contents(), b"5a.rs line 1: x\n");
}

#[test]
fn it_works() {
    let mut registry = Registry::new();

    init(&mut registry, MemorySink::new());
    assert_eq!(log(&mut registry, "src/lib.rs", 94, "hello ===="), Ok(()));
    assert_eq!(log(&mut registry, "src/lib.rs", 95, "world"), Ok(()));

    let first = init(&mut registry, MemorySink::new()).unwrap();
    assert_eq!(log(&mut registry, "src/lib.rs", 98, "hello ===="), Ok(()));
    for i in 0..10 {
        assert_eq!(log(&mut registry, "src/lib.rs", 103, &format!("{}- world", i)), Ok(()));
    }

    assert_eq!(
        first.contents(),
        b"src/lib.rs line 94: hello ====\nsrc/lib.rs line 95: world\n"
    );
    let mut expected = String::from("src/lib.rs line 98: hello ====\n");
    for i in 0..10 {
        expected.push_str(&format!("src/lib.rs line 103: {}- world\n", i));
    }
    assert_eq!(registry.sink().unwrap().contents(), expected.as_bytes());
}
