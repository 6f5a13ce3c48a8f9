use wixpkgdep::{Error, Version};

#[test]
fn version_to_string() {
    assert_eq!("1.2.3.4", Version::from([1, 2, 3, 4]).to_string());
}

#[test]
fn version_from_u64() {
    assert_eq!(
        Version::from(281483566841860u64),
        Version::from([1, 2, 3, 4])
    );
}

#[test]
fn version_into_u64() {
    assert_eq!(281483566841860u64, Version::from([1, 2, 3, 4]).into());
}

#[test]
fn version_partial_cmp() {
    assert!(Version::from([1, 2, 3, 4]) == Version::from([1, 2, 3, 4]));
    assert!(Version::from([1, 0, 0, 0]) < Version::from([1, 1, 0, 0]));
    assert!(Version::from([1, 1, 0, 0]) > Version::from([1, 0, 0, 0]));
    assert!(Version::from([1, 2, 0, 0]) <= Version::from([1, 2, 3, 0]));
    assert!(Version::from([1, 2, 3, 0]) >= Version::from([1, 2, 0, 0]));
}

#[test]
fn version_try_from_str_ok() {
    assert_eq!(Version::try_from("1").unwrap(), Version::from([1, 0, 0, 0]));
    assert_eq!(
        Version::try_from("1.2").unwrap(),
        Version::from([1, 2, 0, 0])
    );
    assert_eq!(
        Version::try_from("1.2.3").unwrap(),
        Version::from([1, 2, 3, 0])
    );
    assert_eq!(
        Version::try_from("1.2.3.4").unwrap(),
        Version::from([1, 2, 3, 4])
    );
}

#[test]
fn version_try_from_str_err_format() {
    assert_eq!(
        Version::try_from("test".to_string()).unwrap_err(),
        Error::Format
    );
}

#[test]
fn version_try_from_str_err_too_many() {
    assert_eq!(
        Version::try_from("1.2.3.4.5".to_string()).unwrap_err(),
        Error::Format
    );
}

#[test]
fn version_try_from_string_ok() {
    assert_eq!(
        Version::try_from("1".to_string()).unwrap(),
        Version::from([1, 0, 0, 0])
    );
    assert_eq!(
        Version::try_from("1.2".to_string()).unwrap(),
        Version::from([1, 2, 0, 0])
    );
    assert_eq!(
        Version::try_from("1.2.3".to_string()).unwrap(),
        Version::from([1, 2, 3, 0])
    );
    assert_eq!(
        Version::try_from("1.2.3.4".to_string()).unwrap(),
        Version::from([1, 2, 3, 4])
    );
}

#[test]
fn version_try_from_prefix_string_ok() {
    assert_eq!(
        Version::try_from("v1.2.3.4".to_string()).unwrap(),
        Version::from([1, 2, 3, 4])
    );
    assert_eq!(
        Version::try_from("V1.2.3.4".to_string()).unwrap(),
        Version::from([1, 2, 3, 4])
    );
}

#[test]
fn version_try_from_string_err_format() {
    assert_eq!(
        Version::try_from("test".to_string()).unwrap_err(),
        Error::Format
    );
}

#[test]
fn version_try_from_string_err_too_many() {
    assert_eq!(
        Version::try_from("1.2.3.4.5".to_string()).unwrap_err(),
        Error::Format
    );
}

#[test]
fn version_properties() {
    let version = Version::from([1, 2, 3, 4]);
    assert_eq!(version.major(), 1);
    assert_eq!(version.minor(), 2);
    assert_eq!(version.build(), 3);
    assert_eq!(version.revision(), 4);
}

#[test]
fn version_parse_format_round_trip() {
    assert_eq!(Version::parse("1.2").unwrap().to_string(), "1.2.0.0");
    assert_eq!(Version::parse("v7").unwrap().to_string(), "7.0.0.0");
    assert_eq!(Version::parse("01.002.3").unwrap().to_string(), "1.2.3.0");
    assert_eq!(Version::parse("+5.65535").unwrap().to_string(), "5.65535.0.0");
    assert_eq!(Version::parse("0.0.0.0").unwrap().to_string(), "0.0.0.0");
    assert_eq!(
        Version::parse("65535.65535.65535.65535").unwrap().to_u64(),
        u64::MAX
    );
}

#[test]
fn version_parse_rejects_malformed() {
    assert_eq!(Version::parse("1.2.3.4.5"), Err(Error::Format));
    assert_eq!(Version::parse("1.65536"), Err(Error::Format));
    assert_eq!(Version::parse("1.-2"), Err(Error::Format));
    assert_eq!(Version::parse("1..2"), Err(Error::Format));
    assert_eq!(Version::parse(""), Err(Error::Format));
    assert_eq!(Version::parse("v"), Err(Error::Format));
    assert_eq!(Version::parse("1.2."), Err(Error::Format));
    assert_eq!(Version::parse("+"), Err(Error::Format));
    assert_eq!(Version::parse("1.x"), Err(Error::Format));
    assert_eq!(Version::parse("99999999999"), Err(Error::Format));
}

#[test]
fn version_order_follows_fields() {
    let low = Version::from([1, 65535, 65535, 65535]);
    let high = Version::from([2, 0, 0, 0]);
    assert!(low < high);
    assert!(Version::from([3, 4, 5, 6]) < Version::from([3, 4, 5, 7]));
    assert!(Version::from([3, 4, 6, 0]) > Version::from([3, 4, 5, 9]));
    assert_eq!(
        Version::from([3, 4, 5, 6]).partial_cmp(&Version::from([3, 4, 5, 6])),
        Some(std::cmp::Ordering::Equal)
    );
    assert_eq!(Version::default().to_u64(), 0);
}

#[test]
fn version_fields_from_ordinal() {
    let v = Version::from_u64(0x0001_0002_0003_0004);
    assert_eq!((v.major(), v.minor(), v.build(), v.revision()), (1, 2, 3, 4));
    assert_eq!(Version::from_fields([1, 2, 3, 4]).to_u64(), 281483566841860);
}

#[test]
fn version_takes_one_prefix_only() {
    assert_eq!(Version::parse("vv1"), Err(Error::Format));
    assert_eq!(Version::try_from("Vv1.2").unwrap_err(), Error::Format);
    assert_eq!(Version::try_from("V1.2").unwrap(), Version::from([1, 2, 0, 0]));
    assert_eq!(Version::parse("1v"), Err(Error::Format));
}
