use isotope::matter::{MatterError, MatterVault, SharedMatter};

#[test]
fn test_basic_matter_vault() {
    let mut matter_vault = MatterVault::new();

    _ = matter_vault.add("first_number", 10u32);
    _ = matter_vault.add("second_number", 11u32);

    assert!(
        matter_vault
            .read("first_number", |number: &u32| {
                println!("First Number is: {}", number);

                assert!(*number == 10u32);
            })
            .is_ok()
    );

    assert!(
        matter_vault
            .read("second_number", |number: &u32| {
                println!("Second Number is: {}", number);

                assert!(*number == 11u32);
            })
            .is_ok()
    );
}

#[test]
fn test_matter_vault_share() {
    let mut matter_vault = MatterVault::new();

    _ = matter_vault.add("first_number", 10u32);
    _ = matter_vault.add("second_number", 11u32);

    let first_number: SharedMatter<u32> = if let Ok(first_number) = matter_vault.share("first_number") {
        first_number
    } else {
        assert!(false, "Failed to share first_number");
        panic!();
    };

    first_number.read(|number| {
        println!("Shared First Number: {}", number);
    });

    let second_number: SharedMatter<u32> = if let Ok(second_number) = matter_vault.share("second_number") {
        second_number
    } else {
        assert!(false, "Failed to share second_number");
        panic!();
    };

    second_number.read(|number| {
        println!("Shared Second Number: {}", number);
    });
}

#[test]
fn empty_vault_reports_missing_type() {
    let vault: MatterVault<u32> = MatterVault::new();
    assert_eq!(vault.read("anything", |n: &u32| *n).err(), Some(MatterError::DataLabelDoesNotExist));
    assert_eq!(vault.share("anything").err(), Some(MatterError::DataLabelDoesNotExist));
}

#[test]
fn missing_specifier_is_reported() {
    let mut vault = MatterVault::new();
    _ = vault.add("present", 1u32);
    assert_eq!(vault.read("absent", |n: &u32| *n).err(), Some(MatterError::SpecifierDoesNotExist));
    assert_eq!(vault.write("absent", |n: &mut u32| *n += 1).err(), Some(MatterError::SpecifierDoesNotExist));
    assert_eq!(vault.read("present", |n: &u32| *n).ok(), Some(1));
}

#[test]
fn writes_are_seen_through_every_handle() {
    let mut vault = MatterVault::new();
    let added = vault.add("counter", 5u32).ok().unwrap();
    let shared = vault.share("counter").ok().unwrap();
    assert_eq!(vault.write("counter", |n: &mut u32| {
        *n += 2;
        *n
    }).ok(), Some(7));
    assert_eq!(shared.read(|n| *n), 7);
    added.write(|n| *n = 40);
    assert_eq!(vault.read("counter", |n: &u32| *n).ok(), Some(40));
    assert_eq!(shared.share().read(|n| *n), 40);
}

#[test]
fn add_replaces_what_was_filed() {
    let mut vault = MatterVault::new();
    let old = vault.add("x", 1u32).ok().unwrap();
    _ = vault.add("x", 2u32);
    assert_eq!(vault.read("x", |n: &u32| *n).ok(), Some(2));
    assert_eq!(old.read(|n| *n), 1);
}
