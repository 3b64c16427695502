use stm::Space;
use stm::Stm;
use stm::TVar;
use stm::atomically;

#[test]
fn test_display() {
    let mut store = Stm::new();
    let tvar0 = TVar::new(&mut store, 1i64);
    let tvar1 = TVar::new(&mut store, 2i64);
    let tvar2 = TVar::new(&mut store, 3i64);

    atomically(&mut store, |s, mut tx| {
        tvar0.display_value(s, &mut tx, "tvar0 before modify");
        tvar0.write(&mut tx, 10).unwrap();
        tvar0.display_value(s, &mut tx, "tvar0 after modify");

        tvar1.display_value(s, &mut tx, "tvar1 before modify");
        tvar1.write(&mut tx, 10).unwrap();
        tvar1.display_value(s, &mut tx, "tvar1 after modify");

        tvar2.display_value(s, &mut tx, "tvar2 before modify");
        tvar2.write(&mut tx, 10).unwrap();
        tvar2.display_value(s, &mut tx, "tvar2 after modify");

        let r = tvar1.read(s, &mut tx);
        (tx, r)
    });

    for line in store.take_output() {
        println!("{}", line);
    }
}

#[test]
fn test_multi_space() {
    let mut store = Stm::new();
    let space1 = Space::new(&mut store, 1);
    let space2 = Space::new(&mut store, 2);

    let tvar0 = TVar::new(&mut store, vec![1i64, 2, 3]);
    let tvar1 = TVar::new_with_space(&mut store, 5i64, &space1);
    let tvar2 = TVar::new_with_space(&mut store, 5i64, &space2);

    atomically(&mut store, |s, mut tx| {
        tvar0.write(&mut tx, vec![1i64, 2, 3, 4]).unwrap();
        tvar0.debug_value(s, &mut tx, "tvar0");
        tvar1.write(&mut tx, 10).unwrap();
        tvar2.write(&mut tx, 10).unwrap();
        (tx, Ok(1))
    });

    let res0 = atomically(&mut store, |s, mut tx| {
        let r = tvar0.read(s, &mut tx);
        (tx, r)
    });
    let res1 = atomically(&mut store, |s, mut tx| {
        let r = tvar1.read(s, &mut tx);
        (tx, r)
    });
    let res2 = atomically(&mut store, |s, mut tx| {
        let r = tvar2.read(s, &mut tx);
        (tx, r)
    });

    assert_eq!(res0, vec![1, 2, 3, 4]);
    assert_eq!(res1, 10);
    assert_eq!(res2, 10);
}

#[test]
fn test_single_thread() {
    for _ in 0..100 {
        let mut store = Stm::new();
        let tvar = TVar::new(&mut store, 5i64);
        let res = atomically(&mut store, |s, mut tx| {
            for _ in 0..100000 {
                let val = tvar.read(s, &mut tx).unwrap();
                tvar.write(&mut tx, val + 1).unwrap();
            }
            let r = tvar.read(s, &mut tx);
            (tx, r)
        });
        assert_eq!(res, 100005);
    }
}
