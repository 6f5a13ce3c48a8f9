use wixpkgdep::{
    get_name, next_read_step, Data, ReadOutcome, ReadStep, Value, REG_BINARY, REG_DWORD, REG_EXPAND_SZ, REG_MULTI_SZ, REG_QWORD, REG_SZ,
};

#[test]
fn get_name_terminated() {
    let path = "grandparent\\parent\\child\\";
    let name = get_name(path);
    assert_eq!(name, "child");
}

#[test]
fn get_name_unterminated() {
    let path = "grandparent\\parent\\child";
    let name = get_name(path);
    assert_eq!(name, "child");
}

#[test]
fn get_name_edges() {
    assert_eq!(get_name(""), "");
    assert_eq!(get_name("\\\\"), "");
    assert_eq!(get_name("single"), "single");
}

#[test]
fn data_from_dword() {
    let data = vec![0, 1, 2, 3];
    let data = Data::from(&data, REG_DWORD).unwrap();
    assert_eq!(data, Data::DWord(50462976));
}

#[test]
fn data_from_qword() {
    let data = vec![0, 1, 2, 3, 4, 5, 6, 7];
    let data = Data::from(&data, REG_QWORD).unwrap();
    assert_eq!(data, Data::QWord(506097522914230528));
}

#[test]
fn data_from_binary() {
    let data = vec![0, 1, 2, 3];
    let data = Data::from(&data, REG_BINARY).unwrap();
    assert_eq!(data, Data::Binary(vec![0, 1, 2, 3]));
}

#[test]
fn data_from_sz() {
    let data = b"h\0e\0l\0l\0o\0";
    let data = Data::from(data, REG_SZ).unwrap();
    assert_eq!(data, Data::String("hello".to_string()));
}

#[test]
fn data_from_expand_sz() {
    let data = b"h\0e\0l\0l\0o\0";
    let data = Data::from(data, REG_EXPAND_SZ).unwrap();
    assert_eq!(data, Data::String("hello".to_string()));
}

#[test]
fn data_from_multi_sz() {
    let data = b"h\0e\0l\0l\0o\0\0\0w\0o\0r\0l\0d\0\0\0\0\0";
    let data = Data::from(data, REG_MULTI_SZ).unwrap();
    assert_eq!(
        data,
        Data::MultiString(vec!["hello".to_string(), "world".to_string()])
    );
}

#[test]
fn data_from_empty_and_terminated_strings() {
    assert_eq!(Data::from(&[], REG_SZ).unwrap(), Data::String(String::new()));
    assert_eq!(
        Data::from(b"o\0k\0\0\0x\0", REG_SZ).unwrap(),
        Data::String("ok".to_string())
    );
    assert_eq!(
        Data::from(&[0x3D, 0xD8, 0x00, 0xDE], REG_SZ).unwrap(),
        Data::String("\u{1F600}".to_string())
    );
    assert_eq!(
        Data::from(&[0x00, 0xD8], REG_SZ).unwrap(),
        Data::String("\u{FFFD}".to_string())
    );
    assert_eq!(
        Data::from(b"\0\0a\0\0\0\0\0b\0", REG_MULTI_SZ).unwrap(),
        Data::MultiString(vec!["a".to_string(), "b".to_string()])
    );
    assert_eq!(
        Data::from(&[], REG_MULTI_SZ).unwrap(),
        Data::MultiString(vec![])
    );
}

#[test]
fn data_from_rejects_unknown_and_short() {
    assert!(Data::from(&[1, 2, 3, 4], 0).is_none());
    assert!(Data::from(&[1, 2, 3, 4], 99).is_none());
    assert!(Data::from(&[1, 2, 3], REG_DWORD).is_none());
    assert!(Data::from(&[1, 2, 3, 4], REG_QWORD).is_none());
    assert_eq!(Data::from(&[0xFF; 4], REG_DWORD).unwrap(), Data::DWord(u32::MAX));
}

#[test]
fn data_encode_round_trips() {
    let values = vec![
        Data::DWord(50462976),
        Data::QWord(506097522914230528),
        Data::Binary(vec![9, 8, 7]),
        Data::String("h\u{e9}llo".to_string()),
        Data::MultiString(vec!["hello".to_string(), "world".to_string()]),
    ];
    for d in values {
        let (kind, bytes) = d.encode();
        assert_eq!(Data::from(&bytes, kind).unwrap(), d);
    }
    assert_eq!(Data::DWord(50462976).encode(), (REG_DWORD, vec![0, 1, 2, 3]));
    assert_eq!(
        Data::String("ab".to_string()).encode(),
        (REG_SZ, vec![b'a', 0, b'b', 0, 0, 0])
    );
    assert_eq!(
        Data::MultiString(vec!["a".to_string()]).encode(),
        (REG_MULTI_SZ, vec![b'a', 0, 0, 0, 0, 0])
    );
}

#[test]
fn value_from_names_and_decodes() {
    let v = Value::from("Count", &[7, 0, 0, 0], REG_DWORD).unwrap();
    assert_eq!(v.name, "Count");
    assert_eq!(v.data, Data::DWord(7));
    assert!(Value::from("Count", &[7], REG_DWORD).is_none());
}

#[test]
fn value_read_retries_once() {
    assert_eq!(next_read_step(false, ReadOutcome::Done(4)), ReadStep::Accept(4));
    assert_eq!(next_read_step(false, ReadOutcome::MoreData(12)), ReadStep::Retry(12));
    assert_eq!(next_read_step(true, ReadOutcome::MoreData(16)), ReadStep::GiveUp);
    assert_eq!(next_read_step(true, ReadOutcome::Done(16)), ReadStep::Accept(16));
    assert_eq!(next_read_step(false, ReadOutcome::Failed(-2147024894)), ReadStep::GiveUp);
}

#[test]
fn multi_string_entries_are_non_empty() {
    let data = b"a\0\0\0\0\0b\0c\0\0\0";
    match Data::from(data, REG_MULTI_SZ).unwrap() {
        Data::MultiString(list) => {
            assert_eq!(list, vec!["a".to_string(), "bc".to_string()]);
            assert!(list.iter().all(|s| !s.is_empty() && !s.contains('\0')));
        }
        other => panic!("unexpected {:?}", other),
    }
    assert_eq!(Data::from(b"\0\0x\0", REG_SZ).unwrap(), Data::String(String::new()));
    assert_eq!(Data::from(b"x", REG_EXPAND_SZ).unwrap(), Data::String(String::new()));
}

#[test]
fn string_with_nul_reads_back_up_to_it() {
    let (kind, bytes) = Data::String("a\0b".to_string()).encode();
    assert_eq!(Data::from(&bytes, kind).unwrap(), Data::String("a".to_string()));
    let (kind, bytes) = Data::String(String::new()).encode();
    assert_eq!(Data::from(&bytes, kind).unwrap(), Data::String(String::new()));
}
