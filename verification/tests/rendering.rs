use stm::Stm;
use stm::TVar;
use stm::Transaction;
use stm::Value;
use stm::render_debug;
use stm::render_display;
use stm::render_i64;
use stm::render_u64;

#[test]
fn decimal_rendering_exact() {
    assert_eq!(render_u64(0), "0");
    assert_eq!(render_u64(42), "42");
    assert_eq!(render_u64(18446744073709551615), "18446744073709551615");
    assert_eq!(render_i64(105), "105");
    assert_eq!(render_i64(-1), "-1");
    assert_eq!(render_i64(i64::MIN), "-9223372036854775808");
}

#[test]
fn value_rendering_exact() {
    assert_eq!(render_display(&Value::Int(10)), "10");
    assert_eq!(render_display(&Value::Ints(vec![1, 2, 3, 4])), "[1, 2, 3, 4]");
    assert_eq!(render_display(&Value::Text(String::from("plain"))), "plain");
    assert_eq!(render_debug(&Value::Int(-7)), "-7");
    assert_eq!(render_debug(&Value::Ints(vec![])), "[]");
    assert_eq!(render_debug(&Value::Text(String::from("plain"))), "\"plain\"");
}

#[test]
fn messages_published_only_on_commit() {
    let mut store = Stm::new();
    let t = TVar::new(&mut store, 1i64);
    let space = t.get_mtx_ref().get_space();

    // An attempt whose commit fails publishes nothing.
    let mut tx = Transaction::new();
    t.display_value(&store, &mut tx, "before");
    assert!(space.write_version(&mut store, 0));
    assert!(!tx.commit(&mut store));
    assert_eq!(store.take_output(), Vec::<String>::new());

    // A committed attempt publishes its messages in queue order.
    let mut tx = Transaction::new();
    t.display_value(&store, &mut tx, "tvar0 before modify");
    t.write(&mut tx, 10i64).unwrap();
    t.display_value(&store, &mut tx, "tvar0 after modify");
    assert!(tx.commit(&mut store));
    assert_eq!(
        store.take_output(),
        vec![
            String::from("tvar0 before modify 1"),
            String::from("tvar0 after modify 10"),
        ]
    );
}

#[test]
fn atomically_publishes_messages() {
    let mut store = Stm::new();
    let t = TVar::new(&mut store, 2i64);
    stm::atomically(&mut store, |s, mut tx| {
        t.display_value(s, &mut tx, "seen");
        (tx, Ok(0i64))
    });
    assert_eq!(store.take_output(), vec![String::from("seen 2")]);
}

#[test]
fn debug_messages_quote_label() {
    let mut store = Stm::new();
    let t = TVar::new(&mut store, vec![1i64, 2, 3, 4]);
    let mut tx = Transaction::new();
    t.debug_value(&store, &mut tx, "tvar0");
    assert!(tx.commit(&mut store));
    assert_eq!(store.take_output(), vec![String::from("\"tvar0\" [1, 2, 3, 4]")]);
}
