use cow_pool::cow::{null_handle, unwrap, wrap, Handle, Scope};

#[derive(Clone, Copy, PartialEq, Eq, Debug)]
enum Species {
    Chicken,
    Bull,
}

#[derive(Clone, Copy)]
struct Animal {
    name: &'static str,
    species: Species,
    characteristic: usize,
}

#[derive(Clone, Copy, PartialEq, Eq, Debug)]
struct Processed {
    flag: bool,
}

fn read_characteristic(a: Animal) -> usize {
    a.characteristic
}

fn mutated(a: Animal) -> Animal {
    Animal { characteristic: a.characteristic + 1, ..a }
}

#[test]
fn handles_get_freed() {
    let mut s: Scope<Animal, Processed> = Scope();
    s.handle(Animal { name: "henrietta", species: Species::Chicken, characteristic: 22 });
    s.handle(Animal { name: "ferdinand", species: Species::Bull, characteristic: 3 });
    assert_eq!(s.n_cells(), 2);
    assert_eq!(s.n_allocated(), 2);
    assert_eq!(s.n_live(), 2);
    s.reclaim();
    assert_eq!(s.n_cells(), 0);
    assert_eq!(s.n_live(), 0);
}

#[test]
fn interspersed_execution() {
    let mut s: Scope<Animal, Processed> = Scope();
    let henrietta =
        s.handle(Animal { name: "henrietta", species: Species::Chicken, characteristic: 0 });
    let ferdinand =
        s.handle(Animal { name: "ferdinand", species: Species::Bull, characteristic: 0 });

    let iter1: usize = 3;
    let iter2: usize = 22;

    for i in 0..iter1 {
        s.reader_forked();

        let hrc = read_characteristic(henrietta.read(&s));
        assert_eq!(hrc, i * iter2);

        let frc = read_characteristic(ferdinand.read(&s));
        assert_eq!(frc, i * iter2);

        for _ in 0..iter2 {
            assert_eq!(hrc, read_characteristic(henrietta.read(&s)));
            let h = s.read(&henrietta);
            s.write(&henrietta, mutated(h));
            assert_eq!(frc, read_characteristic(ferdinand.read(&s)));
            let f = s.read(&ferdinand);
            s.write(&ferdinand, mutated(f));
        }
        s.reader_joined();
    }

    assert_eq!(read_characteristic(henrietta.read(&s)), iter1 * iter2);
    assert_eq!(read_characteristic(ferdinand.read(&s)), iter1 * iter2);
}

#[test]
fn single_cell_round_trip() {
    let mut s: Scope<usize, ()> = Scope();
    let h = s.handle(7);
    s.reader_forked();
    assert_eq!(h.read(&s), 7);
    let v = s.read(&h);
    s.write(&h, v + 1);
    let v = s.read(&h);
    s.write(&h, v + 1);
    assert_eq!(h.read(&s), 7);
    s.reader_joined();
    assert_eq!(h.read(&s), 9);
}

#[test]
fn unforked_write() {
    let mut s: Scope<usize, ()> = Scope();
    let h = s.handle(5);
    assert_eq!(s.n_allocated(), 1);
    let v = s.read(&h);
    s.write(&h, v * 2);
    assert_eq!(h.read(&s), 10);
    assert_eq!(s.read(&h), 10);
    assert_eq!(s.n_allocated(), 1);
}

#[test]
fn fork_join_churn() {
    let mut s: Scope<usize, ()> = Scope();
    let a = s.handle(1);
    let b = s.handle(2);
    let allocated = s.n_allocated();
    let live = s.n_live();
    for _ in 0..100 {
        s.reader_forked();
        s.reader_joined();
    }
    assert_eq!(s.n_allocated(), allocated);
    assert_eq!(s.n_live(), live);
    assert_eq!(a.read(&s), 1);
    assert_eq!(b.read(&s), 2);
}

#[test]
fn aux_attach() {
    let mut s: Scope<usize, Processed> = Scope();
    let h = s.handle(11);
    assert!(!h.has_aux(&s));
    h.set_aux(&mut s, Processed { flag: true });
    assert!(h.has_aux(&s));
    assert_eq!(h.aux(&s), Processed { flag: true });
    let allocated = s.n_allocated();
    s.reader_forked();
    s.reader_joined();
    assert!(h.has_aux(&s));
    assert_eq!(h.aux(&s), Processed { flag: true });
    assert_eq!(s.n_allocated(), allocated);
}

#[test]
fn destruction_reclaims_dirty_cells() {
    let mut s: Scope<usize, ()> = Scope();
    let a = s.handle(1);
    let b = s.handle(2);
    let c = s.handle(3);
    s.reader_forked();
    s.write(&a, 10);
    s.write(&b, 20);
    s.write(&c, 30);
    assert_eq!(s.n_allocated(), 6);
    assert_eq!(s.n_live(), 6);
    assert_eq!(s.n_cells(), 3);
    s.reclaim();
    assert_eq!(s.n_live(), 0);
    assert_eq!(s.n_cells(), 0);
    assert_eq!(s.n_allocated(), 6);
}

#[test]
fn dirty_set_minimality_counts() {
    let mut s: Scope<usize, ()> = Scope();
    let h1 = s.handle(1);
    let h2 = s.handle(2);
    let h3 = s.handle(3);
    let allocated = s.n_allocated();
    let live = s.n_live();
    s.reader_forked();
    s.write(&h1, 10);
    s.write(&h1, 11);
    s.write(&h2, 20);
    s.reader_joined();
    assert_eq!(s.n_allocated(), allocated + 2);
    assert_eq!(s.n_live(), live);
    assert_eq!(h1.read(&s), 11);
    assert_eq!(h2.read(&s), 20);
    assert_eq!(h3.read(&s), 3);
}

#[test]
fn writer_sees_own_edits() {
    let mut s: Scope<usize, ()> = Scope();
    let h = s.handle(100);
    s.reader_forked();
    s.write(&h, 200);
    assert_eq!(s.read(&h), 200);
    assert_eq!(h.read(&s), 100);
    s.reader_joined();
    assert_eq!(s.read(&h), 200);
    assert_eq!(h.read(&s), 200);
}

#[test]
fn create_while_forked() {
    let mut s: Scope<usize, ()> = Scope();
    let a = s.handle(1);
    s.reader_forked();
    let b = s.handle(2);
    assert_eq!(b.read(&s), 2);
    assert_eq!(s.read(&b), 2);
    assert_eq!(a.read(&s), 1);
    s.reader_joined();
    assert_eq!(b.read(&s), 2);
}

#[test]
fn null_handle_is_null() {
    let h = null_handle();
    assert!(h.is_null());
    assert!(!h.is_not_null());
    let c = wrap(4);
    assert!(!c.is_null());
    assert!(c.is_not_null());
}

#[test]
fn wrap_unwrap_round_trip() {
    let h = wrap(9);
    assert_eq!(unwrap(h), 9);
    assert!(h.eq(&wrap(9)));
}

#[test]
fn handle_equality() {
    let mut s: Scope<usize, ()> = Scope();
    let a = s.handle(1);
    let b = s.handle(2);
    let a2 = a;
    assert!(a.eq(&a2));
    assert!(a.ne(&b));
    assert!(!a.eq(&b));
    assert_eq!(a, a2);
    assert_ne!(a, b);
    assert!(!a.eq(&Handle::Null));
}
