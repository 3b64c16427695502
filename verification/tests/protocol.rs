use stm::Space;
use stm::Stm;
use stm::TVar;
use stm::Transaction;
use stm::atomically;

#[test]
fn counter_single_transaction() {
    let mut store = Stm::new();
    let t = TVar::new(&mut store, 5i64);
    let res = atomically(&mut store, |s, mut tx| {
        for _ in 0..100 {
            let v = t.read(s, &mut tx).unwrap();
            t.write(&mut tx, v + 1).unwrap();
        }
        let r = t.read(s, &mut tx);
        (tx, r)
    });
    assert_eq!(res, 105);
    assert_eq!(t.atomic_read(&store), 105);
}

#[test]
fn counter_shared_space_many_transactions() {
    let mut store = Stm::new();
    let space = Space::new(&mut store, 1);
    let t = TVar::new_with_space(&mut store, 0i64, &space);
    for _ in 0..100 {
        atomically(&mut store, |s, mut tx| {
            for _ in 0..1000 {
                let v = t.read(s, &mut tx).unwrap();
                t.write(&mut tx, v + 1).unwrap();
            }
            (tx, Ok(0i64))
        });
    }
    assert_eq!(t.atomic_read(&store), 100000);
}

#[test]
fn multi_space_disjoint_commit() {
    let mut store = Stm::new();
    let s1 = Space::new(&mut store, 1);
    let s2 = Space::new(&mut store, 2);
    let a = TVar::new_with_space(&mut store, 0i64, &s1);
    let b = TVar::new_with_space(&mut store, 0i64, &s2);
    let v1_before = s1.read_version(&store);
    let v2_before = s2.read_version(&store);
    atomically(&mut store, |_s, mut tx| {
        a.write(&mut tx, 10).unwrap();
        b.write(&mut tx, 20).unwrap();
        (tx, Ok(0i64))
    });
    assert_eq!(a.atomic_read(&store), 10);
    assert_eq!(b.atomic_read(&store), 20);
    assert_eq!(s1.read_version(&store), v1_before + 1);
    assert_eq!(s2.read_version(&store), v2_before + 1);
}

#[test]
fn stale_read_fails_commit_then_retry_succeeds() {
    let mut store = Stm::new();
    let space = Space::new(&mut store, 1);
    let a = TVar::new_with_space(&mut store, 1i64, &space);

    let mut tx = Transaction::new();
    let v = a.read(&store, &mut tx).unwrap();
    assert_eq!(v, 1);
    // Another committer publishes a new value and moves the version clock.
    a.atomic_write(&mut store, 999);
    assert!(space.write_version(&mut store, 0));
    a.write(&mut tx, v + 1).unwrap();
    assert!(!tx.commit(&mut store));
    // The aborted commit left the store untouched.
    assert_eq!(a.atomic_read(&store), 999);
    assert_eq!(space.read_version(&store), 1);
    // The cleared attempt re-reads the fresh state and commits.
    tx.clear();
    let v = a.read(&store, &mut tx).unwrap();
    assert_eq!(v, 999);
    a.write(&mut tx, v + 1).unwrap();
    assert!(tx.commit(&mut store));
    assert_eq!(a.atomic_read(&store), 1000);
}

#[test]
fn write_only_escapes_validation() {
    let mut store = Stm::new();
    let space = Space::new(&mut store, 1);
    let a = TVar::new_with_space(&mut store, 0i64, &space);
    let mut tx = Transaction::new();
    a.write(&mut tx, 7).unwrap();
    // Other commits bump the version several times meanwhile.
    assert!(space.write_version(&mut store, 0));
    assert!(space.write_version(&mut store, 1));
    assert!(space.write_version(&mut store, 2));
    // A transaction that never read validates nothing: one attempt wins.
    assert!(tx.commit(&mut store));
    assert_eq!(a.atomic_read(&store), 7);
    assert_eq!(space.read_version(&store), 4);
}

#[test]
fn mixed_write_then_read_promotes_group() {
    let mut store = Stm::new();
    let space = Space::new(&mut store, 1);
    let a = TVar::new_with_space(&mut store, 0i64, &space);
    let b = TVar::new_with_space(&mut store, 5i64, &space);

    // The blind write of `a` and the read of `b` share the space group, so
    // the group validates against the version `b` observed; here it is
    // still current and the commit passes.
    let mut tx = Transaction::new();
    a.write(&mut tx, 1).unwrap();
    assert_eq!(b.read(&store, &mut tx).unwrap(), 5);
    assert!(tx.commit(&mut store));
    assert_eq!(a.atomic_read(&store), 1);

    // The same shape with a version moved in between: the promotion forces
    // the validation, which fails.
    let mut tx = Transaction::new();
    a.write(&mut tx, 2).unwrap();
    assert_eq!(b.read(&store, &mut tx).unwrap(), 5);
    let v = space.read_version(&store);
    assert!(space.write_version(&mut store, v));
    assert!(!tx.commit(&mut store));
    assert_eq!(a.atomic_read(&store), 1);
}

#[test]
fn abort_rerun_is_fresh() {
    let mut store = Stm::new();
    let t = TVar::new(&mut store, 3i64);
    let mut tx = Transaction::new();
    let v = t.read(&store, &mut tx).unwrap();
    t.write(&mut tx, v * 2).unwrap();
    // The attempt aborts: nothing reached the store, the log is forgotten.
    tx.clear();
    assert_eq!(t.atomic_read(&store), 3);
    // The re-run sees exactly the state the first run saw, and commits to
    // exactly the state the first run would have produced.
    let v = t.read(&store, &mut tx).unwrap();
    assert_eq!(v, 3);
    t.write(&mut tx, v * 2).unwrap();
    assert!(tx.commit(&mut store));
    assert_eq!(t.atomic_read(&store), 6);
}

#[test]
fn anonymous_tvars_never_conflict() {
    let mut store = Stm::new();
    let x = TVar::new(&mut store, 0i64);
    let y = TVar::new(&mut store, 0i64);
    // Each anonymous variable lives in its own single-variable space.
    assert_ne!(
        x.get_mtx_ref().get_space().get_address(),
        y.get_mtx_ref().get_space().get_address()
    );
    let mut tx1 = Transaction::new();
    let mut tx2 = Transaction::new();
    x.write(&mut tx1, 1).unwrap();
    y.write(&mut tx2, 2).unwrap();
    assert!(tx1.commit(&mut store));
    assert!(tx2.commit(&mut store));
    assert_eq!(x.atomic_read(&store), 1);
    assert_eq!(y.atomic_read(&store), 2);
}

#[test]
fn read_your_writes_inside_transaction() {
    let mut store = Stm::new();
    let t = TVar::new(&mut store, 100i64);
    let seen = atomically(&mut store, |s, mut tx| {
        t.write(&mut tx, 42).unwrap();
        let r = t.read(s, &mut tx);
        (tx, r)
    });
    assert_eq!(seen, 42);
}
