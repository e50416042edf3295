use isotope::compound::Compound;
use isotope::storage::{Entity, MoleculeStorage};

struct Label {
    name: String,
    id: u32,
}

struct Collar {
    name: String,
    address: String,
}

struct Whiskers {
    color: String,
    number: u32,
}

struct World {
    compound: Compound,
    labels: MoleculeStorage<Label>,
    collars: MoleculeStorage<Collar>,
    whiskers: MoleculeStorage<Whiskers>,
}

fn pets() -> World {
    let mut compound = Compound::new();
    let mut labels = MoleculeStorage::new();
    let mut collars = MoleculeStorage::new();
    let mut whiskers = MoleculeStorage::new();

    println!("Spawning new entity");
    let john = compound.spawn();
    compound.add_molecule(&mut labels, john, Label { name: "John".to_string(), id: 0 });
    compound.add_molecule(&mut whiskers, john, Whiskers { color: "Black".to_string(), number: 8 });

    println!("Spawning new entity");
    let sparky = compound.spawn();
    compound.add_molecule(&mut labels, sparky, Label { name: "Sparky".to_string(), id: 1 });
    compound.add_molecule(
        &mut collars,
        sparky,
        Collar { name: "Sparky".to_string(), address: "1 main St.".to_string() },
    );

    println!("Spawning new entity");
    let snivvy = compound.spawn();
    compound.add_molecule(&mut labels, snivvy, Label { name: "Snivvy".to_string(), id: 2 });
    compound.add_molecule(
        &mut collars,
        snivvy,
        Collar { name: "Snivvy".to_string(), address: "2 main St.".to_string() },
    );

    World { compound, labels, collars, whiskers }
}

#[test]
fn test_ecs_basics() {
    let world = pets();

    println!("Iterating over mol entities");
    let mut names = Vec::new();
    world.compound.iter_mol(&world.labels, |_entity, label: &Label| {
        println!("Name: {}", label.name);
        println!("Id: {}", label.id);
        names.push(label.name.clone());
    });
    assert_eq!(names, vec!["John".to_string(), "Sparky".to_string(), "Snivvy".to_string()]);

    println!("Iterating over duo entities");
    let mut pairs = Vec::new();
    world.compound.iter_duo(&world.labels, &world.collars, |_entity, label: &Label, collar: &Collar| {
        println!(
            "Name: {} Id: {} other name: {} address: {}",
            label.name, label.id, collar.name, collar.address
        );
        pairs.push((label.id, collar.address.clone()));
    });
    assert_eq!(pairs, vec![(1, "1 main St.".to_string()), (2, "2 main St.".to_string())]);
    assert_eq!(world.whiskers.get(0).map(|w| (w.color.clone(), w.number)), Some(("Black".to_string(), 8)));
}

#[test]
fn test_ecs_modified() {
    let mut world = pets();

    println!("First modified iter");
    let mut first = Vec::new();
    world.compound.iter_mol_mod(&world.labels, |entity, label: &Label| {
        println!("Entity: {}", entity);
        println!("Label: {}", label.name);
        first.push(entity);
    });
    assert_eq!(first, vec![0, 1, 2]);

    println!("Second modified iter");
    let mut second = Vec::new();
    world.compound.iter_mol_mod(&world.labels, |entity, label: &Label| {
        println!("Entity: {}", entity);
        println!("Label: {}", label.name);
        second.push(entity);
    });
    assert!(second.is_empty());

    println!("Modifying some");
    world.compound.iter_mut_duo(
        &mut world.labels,
        &mut world.collars,
        |_enity, label: &mut Label, _collar: &mut Collar| {
            label.id = 117;
            label.name = "New Name".to_string();
        },
    );

    println!("Third modified iter");
    let mut third = Vec::new();
    world.compound.iter_mol_mod(&world.labels, |entity, label: &Label| {
        println!("Entity: {}", entity);
        println!("Label: {}", label.name);
        println!("Label id: {}", label.id);
        third.push((entity, label.name.clone(), label.id));
    });
    assert_eq!(
        third,
        vec![(1, "New Name".to_string(), 117), (2, "New Name".to_string(), 117)]
    );
    assert_eq!(world.labels.get(0).map(|l| l.id), Some(0));
}

#[test]
fn entities_are_sequential_and_distinct() {
    let mut compound = Compound::new();
    let a = compound.create_entity();
    let b = compound.spawn();
    let c = compound.create_entity();
    assert_eq!((a, b, c), (0, 1, 2));
}

#[test]
fn add_molecule_replaces_previous() {
    let compound = Compound::new();
    let mut storage: MoleculeStorage<u32> = MoleculeStorage::new();
    compound.add_molecule(&mut storage, 7, 1);
    compound.add_molecule(&mut storage, 3, 2);
    compound.add_molecule(&mut storage, 7, 5);
    assert_eq!(storage.len(), 2);
    assert_eq!(storage.get(7), Some(&5));
    assert_eq!(storage.get(3), Some(&2));
    assert_eq!(storage.get(4), None);
    assert_eq!(storage.entity_at(0), 3);
    assert_eq!(storage.find(7), Some(1));
}

#[test]
fn entities_without_flags_are_skipped_by_mod_queries() {
    let mut compound = Compound::new();
    let mut storage: MoleculeStorage<u32> = MoleculeStorage::new();
    let plain = compound.create_entity();
    let spawned = compound.spawn();
    compound.add_molecule(&mut storage, plain, 10);
    compound.add_molecule(&mut storage, spawned, 20);

    let mut seen: Vec<Entity> = Vec::new();
    compound.iter_mut_mol_mod(&mut storage, |entity, value: &mut u32| {
        *value += 1;
        seen.push(entity);
    });
    assert_eq!(seen, vec![spawned]);
    assert_eq!(storage.get(plain), Some(&10));
    assert_eq!(storage.get(spawned), Some(&21));

    let mut all: Vec<Entity> = Vec::new();
    compound.iter_mut_mol(&mut storage, |entity, value: &mut u32| {
        *value *= 2;
        all.push(entity);
    });
    assert_eq!(all, vec![plain, spawned]);
    assert_eq!(storage.get(plain), Some(&20));

    let mut again: Vec<Entity> = Vec::new();
    compound.iter_mol_mod(&storage, |entity, _value: &u32| again.push(entity));
    assert_eq!(again, vec![spawned]);
}

#[test]
fn without_queries_exclude_holders() {
    let mut world = pets();
    let mut seen = Vec::new();
    world.compound.iter_without_mol(&world.collars, &world.labels, |entity, label: &Label| {
        seen.push((entity, label.name.clone()));
    });
    assert_eq!(seen, vec![(0, "John".to_string())]);

    let mut mod_seen = Vec::new();
    world.compound.iter_without_mol_mod(&world.whiskers, &world.labels, |entity, _l: &Label| {
        mod_seen.push(entity);
    });
    assert_eq!(mod_seen, vec![1, 2]);

    let mut mut_seen = Vec::new();
    world.compound.iter_mut_without_mol(&world.collars, &mut world.labels, |entity, label: &mut Label| {
        label.id = 40;
        mut_seen.push(entity);
    });
    assert_eq!(mut_seen, vec![0]);
    assert_eq!(world.labels.get(0).map(|l| l.id), Some(40));
    assert_eq!(world.labels.get(1).map(|l| l.id), Some(1));

    let mut mut_mod_seen = Vec::new();
    world.compound.iter_mut_without_mol_mod(&world.collars, &mut world.labels, |entity, _l: &mut Label| {
        mut_mod_seen.push(entity);
    });
    assert_eq!(mut_mod_seen, vec![0]);
}

#[test]
fn duo_and_trio_queries() {
    let mut compound = Compound::new();
    let mut a: MoleculeStorage<u32> = MoleculeStorage::new();
    let mut b: MoleculeStorage<u32> = MoleculeStorage::new();
    let mut c: MoleculeStorage<u32> = MoleculeStorage::new();
    let mut w: MoleculeStorage<bool> = MoleculeStorage::new();
    for i in 0..4u32 {
        let e = compound.spawn();
        compound.add_molecule(&mut a, e, i);
        if i != 1 {
            compound.add_molecule(&mut b, e, 10 * i);
        }
        if i != 2 {
            compound.add_molecule(&mut c, e, 100 * i);
        }
    }
    compound.add_molecule(&mut w, 3, true);

    let mut duo = Vec::new();
    compound.iter_duo(&a, &b, |e, x: &u32, y: &u32| duo.push((e, *x + *y)));
    assert_eq!(duo, vec![(0, 0), (2, 22), (3, 33)]);

    let mut without_duo = Vec::new();
    compound.iter_without_duo(&w, &a, &b, |e, _x: &u32, _y: &u32| without_duo.push(e));
    assert_eq!(without_duo, vec![0, 2]);

    let mut trio = Vec::new();
    compound.iter_trio(&a, &b, &c, |e, _x: &u32, _y: &u32, _z: &u32| trio.push(e));
    assert_eq!(trio, vec![0, 3]);

    let mut without_trio = Vec::new();
    compound.iter_without_trio(&w, &a, &b, &c, |e, _x: &u32, _y: &u32, _z: &u32| without_trio.push(e));
    assert_eq!(without_trio, vec![0]);

    let mut trio_mod = Vec::new();
    compound.iter_trio_mod(&a, &b, &c, |e, _x: &u32, _y: &u32, _z: &u32| trio_mod.push(e));
    assert_eq!(trio_mod, vec![0, 3]);

    // entity 2 is still flagged: it holds no `c` molecule
    let mut duo_mod = Vec::new();
    compound.iter_duo_mod(&a, &b, |e, _x: &u32, _y: &u32| duo_mod.push(e));
    assert_eq!(duo_mod, vec![2]);

    compound.iter_mut_trio(&mut a, &mut b, &mut c, |_e, x: &mut u32, y: &mut u32, z: &mut u32| {
        *x += 1;
        *y += 1;
        *z += 1;
    });
    assert_eq!(a.get(1), Some(&1));
    assert_eq!(a.get(3), Some(&4));
    assert_eq!(b.get(3), Some(&31));
    assert_eq!(c.get(0), Some(&1));

    let mut mut_trio_mod = Vec::new();
    compound.iter_mut_trio_mod(&mut a, &mut b, &mut c, |e, _x: &mut u32, _y: &mut u32, _z: &mut u32| {
        mut_trio_mod.push(e)
    });
    assert_eq!(mut_trio_mod, vec![0, 3]);

    let mut mut_without_trio = Vec::new();
    compound.iter_mut_without_trio(&w, &mut a, &mut b, &mut c, |e, _x: &mut u32, _y: &mut u32, _z: &mut u32| {
        mut_without_trio.push(e)
    });
    assert_eq!(mut_without_trio, vec![0]);

    let mut mut_without_trio_mod = Vec::new();
    compound.iter_mut_without_trio_mod(&w, &mut a, &mut b, &mut c, |e, _x: &mut u32, _y: &mut u32, _z: &mut u32| {
        mut_without_trio_mod.push(e)
    });
    assert_eq!(mut_without_trio_mod, vec![0]);

    let mut without_trio_mod = Vec::new();
    compound.iter_without_trio_mod(&w, &a, &b, &c, |e, _x: &u32, _y: &u32, _z: &u32| without_trio_mod.push(e));
    assert!(without_trio_mod.is_empty());

    let mut mut_without_duo = Vec::new();
    compound.iter_mut_without_duo(&w, &mut a, &mut b, |e, x: &mut u32, _y: &mut u32| {
        *x = 0;
        mut_without_duo.push(e)
    });
    assert_eq!(mut_without_duo, vec![0, 2]);
    assert_eq!(a.get(2), Some(&0));
    assert_eq!(a.get(3), Some(&4));

    let mut mut_duo_mod = Vec::new();
    compound.iter_mut_duo_mod(&mut a, &mut b, |e, _x: &mut u32, _y: &mut u32| mut_duo_mod.push(e));
    assert_eq!(mut_duo_mod, vec![0, 2]);

    let mut without_duo_mod = Vec::new();
    compound.iter_without_duo_mod(&w, &a, &b, |e, _x: &u32, _y: &u32| without_duo_mod.push(e));
    assert!(without_duo_mod.is_empty());

    let mut mol = Vec::new();
    compound.iter_mut_mol(&mut c, |e, _z: &mut u32| mol.push(e));
    assert_eq!(mol, vec![0, 1, 3]);
}
