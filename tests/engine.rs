use wixpkgdep::{
    check_dependencies, check_dependents, exit_code, get_provider, Attributes, Data,
    Error, Key, Provider, Scope, Store, Version, E_ACCESS_DENIED, E_FILE_NOT_FOUND, ROOT_KEY,
};

fn provider(key: &str, name: &str, version: [u16; 4]) -> Provider {
    Provider {
        key: key.to_string(),
        name: name.to_string(),
        version: Version::from(version),
        id: None,
        attributes: None,
    }
}

fn add_dependent(store: &mut Store, scope: Scope, provider_key: &str, dependent: &str) {
    let path = format!("{}\\{}\\Dependents\\{}", ROOT_KEY, provider_key, dependent);
    Key::create(store, scope, &path).unwrap();
}

#[test]
fn register_then_read_provider() {
    let mut store = Store::new();
    let mut foo = provider("Foo", "Foo Package", [1, 2, 3, 4]);
    foo.id = Some("{PRODUCT}".to_string());
    foo.attributes = Some(Attributes::from_bits(0x100));
    foo.register(&mut store, Scope::Machine).unwrap();

    let read = get_provider(&store, "foo", Scope::Machine).unwrap();
    assert_eq!(read.key, "foo");
    assert_eq!(read.name, "Foo Package");
    assert_eq!(read.version, Version::from([1, 2, 3, 4]));
    assert_eq!(read.id, Some("{PRODUCT}".to_string()));
    assert_eq!(read.attributes, Some(Attributes::from_bits(0x100)));
    assert_eq!(read.to_string(), "Foo Package (foo)");

    assert_eq!(get_provider(&store, "Foo", Scope::User).unwrap_err(), Error::NotFound);
    assert_eq!(get_provider(&store, "Bar", Scope::Machine).unwrap_err(), Error::NotFound);
}

#[test]
fn provider_version_errors() {
    let mut store = Store::new();
    let path = format!("{}\\Broken", ROOT_KEY);
    let key = Key::create(&mut store, Scope::Machine, &path).unwrap();
    assert_eq!(get_provider(&store, "Broken", Scope::Machine).unwrap_err(), Error::NotFound);
    key.set_value(&mut store, "Version", &Data::String("one".to_string())).unwrap();
    assert_eq!(get_provider(&store, "Broken", Scope::Machine).unwrap_err(), Error::Format);
    key.set_value(&mut store, "version", &Data::QWord(281483566841860)).unwrap();
    let read = get_provider(&store, "Broken", Scope::Machine).unwrap();
    assert_eq!(read.version, Version::from([1, 2, 3, 4]));
    assert_eq!(read.name, "");
    assert_eq!(read.to_string(), "Broken");
}

#[test]
fn check_dependencies_missing_key_adds_bare_record() {
    let mut store = Store::new();
    provider("Other", "Other", [1, 0, 0, 0]).register(&mut store, Scope::Machine).unwrap();
    let mut violations = Vec::new();
    let r = check_dependencies(&store, "Missing", Scope::Machine, None, None, None, &mut violations);
    assert_eq!(r, Err(Error::NotFound));
    assert_eq!(violations.len(), 1);
    assert_eq!(violations[0].key, "Missing");
    assert_eq!(violations[0].name, "");
    assert_eq!(violations[0].to_string(), "Missing");

    let r = check_dependencies(&store, "MISSING", Scope::Machine, None, None, None, &mut violations);
    assert_eq!(r, Err(Error::NotFound));
    assert_eq!(violations.len(), 1);
}

#[test]
fn check_dependencies_below_exclusive_minimum() {
    let mut store = Store::new();
    provider("Dep", "Dep Package", [1, 2, 0, 0]).register(&mut store, Scope::Machine).unwrap();
    let mut violations = Vec::new();
    let r = check_dependencies(
        &store,
        "Dep",
        Scope::Machine,
        Some(Version::from([1, 3, 0, 0])),
        None,
        None,
        &mut violations,
    );
    assert_eq!(r, Err(Error::NotFound));
    assert_eq!(violations.len(), 1);
    assert_eq!(violations[0].name, "Dep Package");
    assert_eq!(violations[0].version, Version::from([1, 2, 0, 0]));

    let mut violations = Vec::new();
    let r = check_dependencies(
        &store,
        "Dep",
        Scope::Machine,
        Some(Version::from([1, 2, 0, 0])),
        None,
        None,
        &mut violations,
    );
    assert_eq!(r, Err(Error::NotFound));
    assert_eq!(violations.len(), 1);
}

#[test]
fn check_dependencies_inclusive_bounds() {
    let mut store = Store::new();
    provider("Dep", "Dep Package", [1, 2, 0, 0]).register(&mut store, Scope::User).unwrap();
    let mut violations = Vec::new();
    let min_inclusive = Attributes::from_bits(0x100);
    let r = check_dependencies(
        &store,
        "Dep",
        Scope::User,
        Some(Version::from([1, 2, 0, 0])),
        None,
        Some(min_inclusive),
        &mut violations,
    );
    assert_eq!(r, Ok(()));
    assert!(violations.is_empty());

    let r = check_dependencies(
        &store,
        "Dep",
        Scope::User,
        Some(Version::from([1, 0, 0, 0])),
        Some(Version::from([1, 2, 0, 0])),
        Some(min_inclusive),
        &mut violations,
    );
    assert_eq!(r, Err(Error::NotFound));
    assert_eq!(violations.len(), 1);

    let mut violations = Vec::new();
    let r = check_dependencies(
        &store,
        "Dep",
        Scope::User,
        Some(Version::from([1, 0, 0, 0])),
        Some(Version::from([1, 2, 0, 0])),
        Some(Attributes::from_bits(0x300)),
        &mut violations,
    );
    assert_eq!(r, Ok(()));
    assert!(violations.is_empty());

    let r = check_dependencies(&store, "Dep", Scope::User, None, None, None, &mut violations);
    assert_eq!(r, Ok(()));
}

#[test]
fn check_dependencies_missing_root_is_store_error() {
    let store = Store::new();
    let mut violations = Vec::new();
    let r = check_dependencies(&store, "Dep", Scope::Machine, None, None, None, &mut violations);
    assert_eq!(r, Err(Error::RegistryError(E_FILE_NOT_FOUND)));
    assert!(violations.is_empty());
}

#[test]
fn check_dependents_absent_chain_is_none() {
    let mut store = Store::new();
    assert!(check_dependents(&store, "Foo", Scope::Machine, None, None).unwrap().is_none());
    provider("Foo", "Foo", [1, 0, 0, 0]).register(&mut store, Scope::Machine).unwrap();
    assert!(check_dependents(&store, "Bar", Scope::Machine, None, None).unwrap().is_none());
    assert!(check_dependents(&store, "Foo", Scope::Machine, None, None).unwrap().is_none());
    let path = format!("{}\\Foo\\Dependents", ROOT_KEY);
    Key::create(&mut store, Scope::Machine, &path).unwrap();
    let found = check_dependents(&store, "Foo", Scope::Machine, None, None).unwrap().unwrap();
    assert!(found.is_empty());
    assert_eq!(exit_code(&Some(found)), 0);
}

#[test]
fn check_dependents_ignores_listed() {
    let mut store = Store::new();
    provider("Root", "Root", [1, 0, 0, 0]).register(&mut store, Scope::Machine).unwrap();
    provider("B", "B Package", [2, 0, 0, 0]).register(&mut store, Scope::Machine).unwrap();
    add_dependent(&mut store, Scope::Machine, "Root", "A");
    add_dependent(&mut store, Scope::Machine, "Root", "B");
    let ignore = vec!["A".to_string()];
    let found = check_dependents(&store, "Root", Scope::Machine, None, Some(&ignore))
        .unwrap()
        .unwrap();
    assert_eq!(found.len(), 1);
    assert_eq!(found[0].key, "B");
    assert_eq!(found[0].name, "B Package");
    assert_eq!(found[0].version, Version::from([2, 0, 0, 0]));

    let ignore = vec!["a".to_string()];
    let found = check_dependents(&store, "Root", Scope::Machine, None, Some(&ignore))
        .unwrap()
        .unwrap();
    assert_eq!(found.len(), 2);
    assert_eq!(found[0].to_string(), "A");
    assert_eq!(found[1].to_string(), "B Package (B)");
}

#[test]
fn end_to_end_dependents_scenario() {
    let mut store = Store::new();
    provider("Foo", "Foo Package", [1, 2, 3, 4]).register(&mut store, Scope::Machine).unwrap();
    provider("Bar", "Bar", [1, 0, 0, 0]).register(&mut store, Scope::Machine).unwrap();
    add_dependent(&mut store, Scope::Machine, "Bar", "Foo");

    let found = check_dependents(&store, "Bar", Scope::Machine, None, None).unwrap();
    let lines: Vec<String> = found.as_ref().unwrap().iter().map(|p| p.to_string()).collect();
    assert_eq!(lines, vec!["Foo Package (Foo)".to_string()]);
    assert_eq!(exit_code(&found), 1);

    let bar = get_provider(&store, "Bar", Scope::Machine).unwrap();
    assert_eq!(bar.to_string(), "Bar (Bar)");
    let from_method = bar.check_dependents(&store, Scope::Machine, None, None).unwrap().unwrap();
    assert_eq!(from_method.len(), 1);

    let none = check_dependents(&store, "Foo", Scope::Machine, None, None).unwrap();
    assert!(none.is_none());
    assert_eq!(exit_code(&none), 0);
}

#[test]
fn key_handles_follow_access() {
    let mut store = Store::new();
    let created = Key::create(&mut store, Scope::User, "A\\B\\C\\").unwrap();
    assert_eq!(created.name(), "C");
    let a = Key::open(&store, Scope::User, "a").unwrap();
    assert_eq!(a.name(), "a");
    assert!(Key::open(&store, Scope::Machine, "A").is_err());
    let b = a.open_subkey(&store, "b").unwrap();
    assert_eq!(
        b.set_value(&mut store, "x", &Data::DWord(1)),
        Err(Error::RegistryError(E_ACCESS_DENIED))
    );
    assert_eq!(b.create_subkey(&mut store, "D").unwrap_err(), Error::RegistryError(E_ACCESS_DENIED));
    assert_eq!(a.open_subkey(&store, "missing").unwrap_err(), Error::NotFound);

    let children = a.keys(&store).unwrap();
    assert_eq!(children.len(), 1);
    assert_eq!(children[0].name(), "B");

    let d = created.create_subkey(&mut store, "D").unwrap();
    d.set_value(&mut store, "x", &Data::DWord(1)).unwrap();
    d.set_value(&mut store, "X", &Data::DWord(2)).unwrap();
    d.set_value(&mut store, "y", &Data::String("why".to_string())).unwrap();
    let values = d.values(&store).unwrap();
    assert_eq!(values.len(), 2);
    assert_eq!(values[0].name, "x");
    assert_eq!(values[0].data, Data::DWord(2));
    assert_eq!(d.value(&store, "Y").unwrap().data, Data::String("why".to_string()));
    assert!(d.value(&store, "z").is_none());
    assert!(!d.is_root());
    let root = Key::open(&store, Scope::User, "").unwrap();
    assert!(root.is_root());
    assert_eq!(root.keys(&store).unwrap().len(), 1);
}

#[test]
fn scope_names() {
    assert_eq!("USER".parse::<Scope>(), Ok(Scope::User));
    assert_eq!(Scope::parse("Machine"), Ok(Scope::Machine));
    assert_eq!(Scope::parse("system"), Err(Error::NotSupported));
    assert_eq!(Scope::default(), Scope::Machine);
    assert_eq!(Scope::User.to_string(), "user");
    assert_eq!(Scope::Machine.to_string(), "machine");
    assert_eq!("mAcHiNe".parse::<Scope>(), Ok(Scope::Machine));
    assert_eq!("users".parse::<Scope>(), Err(Error::NotSupported));
    assert_eq!(Scope::User.to_string().parse::<Scope>(), Ok(Scope::User));
}

#[test]
fn error_descriptions() {
    assert_eq!(Error::Format.to_string(), "invalid format");
    assert_eq!(Error::NotFound.to_string(), "not found");
    assert_eq!(Error::NotSupported.to_string(), "not supported");
    assert_eq!(
        Error::RegistryError(E_ACCESS_DENIED).to_string(),
        "store error 0x80070005"
    );
    assert_eq!(Error::RegistryError(0x1f).to_string(), "store error 0x0000001f");
}

#[test]
fn open_needs_every_ancestor() {
    let mut store = Store::new();
    Key::create(&mut store, Scope::Machine, "A\\B\\C").unwrap();
    assert!(Key::open(&store, Scope::Machine, "A\\B\\C").is_ok());
    assert_eq!(Key::open(&store, Scope::Machine, "A\\X\\C").unwrap_err(), Error::NotFound);
    let a = Key::open(&store, Scope::Machine, "a").unwrap();
    assert_eq!(a.open_subkey(&store, "x\\c").unwrap_err(), Error::NotFound);
    assert!(a.open_subkey(&store, "b\\c").is_ok());
}
