use std::collections::hash_map::DefaultHasher;
use std::hash::{Hash, Hasher};
use wixpkgdep::{Attributes, Dependency, Provider, Version};

#[test]
fn provider_fmt() {
    assert_eq!(
        Provider {
            key: "test".to_string(),
            ..Default::default()
        }
        .to_string(),
        "test"
    );
    assert_eq!(
        Provider {
            key: "test".to_string(),
            name: "display".to_string(),
            ..Default::default()
        }
        .to_string(),
        "display (test)"
    );
}

fn hash_of<T: Hash>(value: &T) -> u64 {
    let mut hasher = DefaultHasher::new();
    value.hash(&mut hasher);
    hasher.finish()
}

#[test]
fn provider_identity_ignores_case() {
    let a = Provider::new("Foo.Package");
    let b = Provider {
        key: "FOO.package".to_string(),
        name: "other".to_string(),
        version: Version::from([1, 0, 0, 0]),
        id: Some("x".to_string()),
        attributes: Some(Attributes::default()),
    };
    assert!(a == b);
    assert_eq!(hash_of(&a), hash_of(&b));
    assert!(a != Provider::new("Foo.Packages"));
    assert!(Dependency::new("abc") == Dependency::new("ABC"));
    assert_eq!(hash_of(&Dependency::new("abc")), hash_of(&Dependency::new("aBc")));
    assert!(Dependency::new("abc") != Dependency::new("abd"));
}

#[test]
fn provider_new_is_bare() {
    let p = Provider::new("Key");
    assert_eq!(p.key, "Key");
    assert_eq!(p.name, "");
    assert_eq!(p.version.to_u64(), 0);
    assert!(p.id.is_none());
    assert!(p.attributes.is_none());
    assert_eq!(Dependency::new("Key").key, "Key");
}

#[test]
fn attributes_bits() {
    let a = Attributes::from_bits(0x100);
    assert!(a.is_min_inclusive());
    assert!(!a.is_max_inclusive());
    assert_eq!(Attributes::from_bits(0x300).bits(), 0x300);
    assert_eq!(Attributes::from_bits(0x2ff).bits(), 0x200);
    assert_eq!(Attributes::default().bits(), 0);
}
