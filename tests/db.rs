use const_oid::{Database, Error, NamedOid, ObjectIdentifier};

fn entry(oid: &str, name: &'static str) -> NamedOid<'static> {
    NamedOid {
        oid: ObjectIdentifier::new(oid).unwrap(),
        name,
    }
}

fn cn() -> NamedOid<'static> {
    entry("2.5.4.3", "cn")
}

fn attributes() -> Vec<NamedOid<'static>> {
    vec![
        entry("2.5.4.6", "c"),
        cn(),
        entry("0.9.2342.19200300.100.1.25", "dc"),
        entry("2.5.4.7", "l"),
        entry("2.5.4.10", "o"),
        entry("2.5.4.11", "ou"),
        entry("2.5.4.8", "st"),
        entry("0.9.2342.19200300.100.1.1", "uid"),
    ]
}

fn object_classes() -> Vec<NamedOid<'static>> {
    vec![
        entry("2.5.6.2", "country"),
        entry("1.3.6.1.4.1.1466.344", "dcObject"),
        entry("2.5.6.4", "organization"),
        entry("2.5.6.5", "organizationalUnit"),
        entry("2.5.6.6", "person"),
    ]
}

fn everything() -> Vec<NamedOid<'static>> {
    let mut all = attributes();
    all.extend(object_classes());
    all
}

#[test]
fn by_oid() {
    let all = everything();
    let attr = attributes();
    let obj = object_classes();
    let cn_entry = cn();

    let cn = Database::new(&all).by_oid(&cn_entry.oid).expect("cn not found");
    assert_eq!(&cn_entry, cn);

    let cn = Database::new(&attr).by_oid(&cn_entry.oid).expect("cn not found");
    assert_eq!(&cn_entry, cn);

    assert_eq!(None, Database::new(&obj).by_oid(&cn_entry.oid));
}

#[test]
fn by_name() {
    let all = everything();
    let attr = attributes();
    let obj = object_classes();
    let cn_entry = cn();

    let cn = Database::new(&all).by_name(cn_entry.name).expect("cn not found");
    assert_eq!(&cn_entry, cn);

    let cn = Database::new(&attr).by_name(cn_entry.name).expect("cn not found");
    assert_eq!(&cn_entry, cn);

    assert_eq!(None, Database::new(&obj).by_name(cn_entry.name));
}

#[test]
fn every_entry_found_by_its_keys() {
    let all = everything();
    let db = Database::new(&all);
    for e in &all {
        assert_eq!(db.by_oid(&e.oid).unwrap().name, e.name);
        assert_eq!(db.by_name(e.name).unwrap().oid, e.oid);
    }
}

#[test]
fn absent_oid_not_found() {
    let all = everything();
    let db = Database::new(&all);
    let oid = ObjectIdentifier::new("2.5.4.99").unwrap();
    assert_eq!(db.by_oid(&oid), None);
    assert_eq!(Database::new(&[]).by_oid(&oid), None);
}

#[test]
fn absent_name_not_found() {
    let all = everything();
    let db = Database::new(&all);
    assert_eq!(db.by_name("commonName"), None);
    assert_eq!(db.by_name(""), None);
    assert_eq!(Database::new(&[]).by_name("cn"), None);
}

#[test]
fn name_match_is_case_sensitive() {
    let all = everything();
    let db = Database::new(&all);
    assert_eq!(db.by_name("CN"), None);
    assert_eq!(db.by_name("cn "), None);
    assert_eq!(db.by_name("dcobject"), None);
    assert_eq!(db.by_name("dcObject").unwrap().name, "dcObject");
}

#[test]
fn first_match_wins_on_duplicates() {
    let table = vec![entry("2.5.4.3", "cn"), entry("2.5.4.3", "commonName"), entry("2.5.4.4", "cn")];
    let db = Database::new(&table);
    let oid = ObjectIdentifier::new("2.5.4.3").unwrap();
    assert_eq!(db.by_oid(&oid).unwrap().name, "cn");
    assert_eq!(db.by_name("cn").unwrap(), &table[0]);
    assert_eq!(db.resolve("2.5.4.3"), Ok("cn"));
}

#[test]
fn resolve_scenario() {
    let table = vec![entry("2.5.4.3", "CN")];
    let db = Database::new(&table);
    let oid = ObjectIdentifier::new("2.5.4.3").unwrap();
    assert_eq!(db.by_oid(&oid).unwrap().name, "CN");
    assert_eq!(db.by_name("CN").unwrap().oid, oid);
    assert_eq!(db.by_name("CN").unwrap().oid.to_bytes(), vec![2, 5, 4, 3]);
    assert_eq!(db.resolve("2.5.4.3"), Ok("CN"));
    assert_eq!(db.resolve("9.9.9.9"), Ok("9.9.9.9"));
    assert_eq!(db.resolve("not-an-oid"), Err(Error));
    let obj = object_classes();
    assert_eq!(Database::new(&obj).by_name("CN"), None);
}

#[test]
fn resolve_unnamed_returns_input() {
    let all = everything();
    let db = Database::new(&all);
    assert_eq!(db.resolve("1.2.840.113549.1.1.11"), Ok("1.2.840.113549.1.1.11"));
    assert_eq!(db.resolve("7"), Ok("7"));
    assert_eq!(db.resolve("2.5.4.03"), Ok("cn"));
    assert_eq!(db.resolve("0.9.2342.19200300.100.1.25"), Ok("dc"));
}

#[test]
fn resolve_malformed_is_error() {
    let all = everything();
    let db = Database::new(&all);
    for text in ["abc", "", "1..2", ".1", "1.", "2.5.4.3 ", "2.5.x.3", "2.5.4.4294967296", "２.5"] {
        assert_eq!(db.resolve(text), Err(Error), "{}", text);
    }
}

#[test]
fn partition_entries_found_in_full_table() {
    let all = everything();
    let attr = attributes();
    let full = Database::new(&all);
    let part = Database::new(&attr);
    for e in &attr {
        assert_eq!(part.by_oid(&e.oid), full.by_oid(&e.oid));
        assert_eq!(part.by_name(e.name), full.by_name(e.name));
    }
    let person = ObjectIdentifier::new("2.5.6.6").unwrap();
    assert!(full.by_oid(&person).is_some());
    assert_eq!(part.by_oid(&person), None);
}
