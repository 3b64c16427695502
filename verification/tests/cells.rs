use stm::LogVar;
use stm::Mtx;
use stm::Space;
use stm::Stm;
use stm::TVar;
use stm::Value;
use stm::atomically;

#[test]
fn space_identity_and_versions() {
    let mut store = Stm::new();
    let space = Space::new_single_var_space(&mut store);
    assert_eq!(space.get_id(), 0);
    assert_eq!(space.read_version(&store), 0);
    assert_eq!(space.write_version(&mut store, 0), true);
    assert_eq!(space.write_version(&mut store, 1), true);
    assert_eq!(space.write_version(&mut store, 2), true);
    assert_eq!(space.write_version(&mut store, 7), false);
    assert_eq!(space.read_version(&store), 3);
}

#[test]
fn named_space_groups_cells() {
    let mut store = Stm::new();
    let space = Space::new(&mut store, 9);
    assert_eq!(space.get_id(), 9);
    let a = TVar::new_with_space(&mut store, 1i64, &space);
    let b = TVar::new_with_space(&mut store, 2i64, &space);
    assert_eq!(
        a.get_mtx_ref().get_space().get_address(),
        b.get_mtx_ref().get_space().get_address()
    );
    assert_ne!(a.get_mtx_ref().get_address(), b.get_mtx_ref().get_address());
}

#[test]
fn atomic_reads_and_writes() {
    let mut store = Stm::new();
    let space = Space::new(&mut store, 1);
    let tvar = TVar::new_with_space(&mut store, 0i64, &space);
    assert_eq!(tvar.atomic_read(&store), 0);
    tvar.atomic_write(&mut store, 5);
    assert_eq!(tvar.atomic_read(&store), 5);
    // A direct write moves no version clock.
    assert_eq!(space.read_version(&store), 0);
}

#[test]
fn mtx_snapshots_value_with_version() {
    let mut store = Stm::new();
    let space = Space::new(&mut store, 1);
    let cell = Mtx::new(&mut store, Value::Int(41), &space);
    let (value, version) = cell.read_atomic(&store);
    assert!(matches!(value, Value::Int(41)));
    assert_eq!(version, 0);
    assert_eq!(cell.get_space().get_id(), 1);
}

#[test]
fn log_entries_route_reads_and_writes() {
    let mut entry = LogVar::Read(Value::Int(5), 3);
    assert!(matches!(entry.read(), Value::Int(5)));
    assert_eq!(entry.observed_version(), Some(3));
    assert!(!entry.stages_write());
    entry.write(Value::Int(9));
    // The pending write wins, and the observed version is kept.
    assert!(matches!(entry.read(), Value::Int(9)));
    assert_eq!(entry.observed_version(), Some(3));
    assert!(entry.stages_write());

    let mut blind = LogVar::Write(Value::Int(1));
    assert!(matches!(blind.read(), Value::Int(1)));
    assert_eq!(blind.observed_version(), None);
    blind.write(Value::Int(2));
    assert!(matches!(blind.read(), Value::Int(2)));
    assert_eq!(blind.observed_version(), None);
}

#[test]
fn text_and_list_payloads_round_trip() {
    let mut store = Stm::new();
    let words = TVar::new(&mut store, String::from("alpha"));
    let nums = TVar::new(&mut store, vec![1i64, 2]);
    let (w, n) = atomically(&mut store, |s, mut tx| {
        words.write(&mut tx, String::from("beta")).unwrap();
        nums.write(&mut tx, vec![7i64]).unwrap();
        let w = words.read(s, &mut tx).unwrap();
        let n = nums.read(s, &mut tx).unwrap();
        (tx, Ok((w, n)))
    });
    assert_eq!(w, "beta");
    assert_eq!(n, vec![7]);
    assert_eq!(words.atomic_read(&store), "beta");
    assert_eq!(nums.atomic_read(&store), vec![7]);
}
