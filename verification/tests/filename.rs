use wickdb::db::filename::{generate_filename, parse_filename, FileType};

#[test]
fn test_generate_filename() {
    let dirname = "test";
    let mut tests = vec![
        (FileType::Log, 10, "test/000010.log"),
        (FileType::Lock, 1, "test/LOCK"),
        (FileType::Table, 123, "test/000123.sst"),
        (FileType::Manifest, 9, "test/MANIFEST-000009"),
        (FileType::Current, 1, "test/CURRENT"),
        (FileType::Temp, 100, "test/000100.dbtmp"),
        (FileType::InfoLog, 1, "test/LOG"),
        (FileType::OldInfoLog, 1, "test/LOG.old"),
    ];

    for (ft, seq, expect) in tests.drain(..) {
        let name = generate_filename(dirname, ft, seq);
        assert_eq!(name, expect.to_owned());
    }
}

#[test]
fn test_parse_filename() {
    let mut tests = vec![
        ("a/b/c/000123.log", Some((FileType::Log, 123))),
        ("a/b/c/LOCK", Some((FileType::Lock, 0))),
        ("a/b/c/010666.sst", Some((FileType::Table, 10666))),
        ("a/b/c/MANIFEST-000009", Some((FileType::Manifest, 9))),
        ("a/b/c/000123.dbtmp", Some((FileType::Temp, 123))),
        ("a/b/c/CURRENT", Some((FileType::Current, 0))),
        ("a/b/c/LOG", Some((FileType::InfoLog, 0))),
        ("a/b/c/LOG.old", Some((FileType::OldInfoLog, 0))),
        // invalid conditions
        ("a/b/c/test.123", None),
        ("a/b/c/LOG.", None),
        ("a/b/c/LOG.new", None),
        ("a/b/c/000def.log", None),
        ("a/b/c/MANIFEST-abcedf", None),
        ("a/b/c/MANIFEST", None),
        ("a/b/c/MANIFEST-123123-abcdef", None),
    ];

    for (filename, expect) in tests.drain(..) {
        let result = parse_filename(filename);
        assert_eq!(result, expect);
    }
}

#[test]
fn generated_names_edge_cases() {
    // numbers of more than six digits are written in full
    assert_eq!(generate_filename("d", FileType::Table, 1234567), "d/1234567.sst");
    assert_eq!(
        generate_filename("d", FileType::Log, u64::MAX),
        "d/18446744073709551615.log"
    );
    assert_eq!(generate_filename("d", FileType::Manifest, 0), "d/MANIFEST-000000");
    // no second slash after a directory that ends in one, none before a bare name
    assert_eq!(generate_filename("d/", FileType::Lock, 0), "d/LOCK");
    assert_eq!(generate_filename("", FileType::Current, 0), "CURRENT");
}

#[test]
fn parsed_names_edge_cases() {
    assert_eq!(parse_filename(""), None);
    assert_eq!(parse_filename("/"), None);
    assert_eq!(parse_filename("a/.."), None);
    assert_eq!(parse_filename("LOCK"), Some((FileType::Lock, 0)));
    assert_eq!(parse_filename("a/LOCK/"), Some((FileType::Lock, 0)));
    assert_eq!(parse_filename("a/LOCK/."), Some((FileType::Lock, 0)));
    assert_eq!(parse_filename("a/LOCK/.//./"), Some((FileType::Lock, 0)));
    assert_eq!(parse_filename("./LOCK"), Some((FileType::Lock, 0)));
    assert_eq!(parse_filename("a//000003.sst"), Some((FileType::Table, 3)));
    assert_eq!(parse_filename("."), None);
    assert_eq!(parse_filename("./"), None);
    assert_eq!(parse_filename("/."), None);
    assert_eq!(parse_filename("LOCK/.."), None);
    assert_eq!(parse_filename("a/LOCK."), Some((FileType::Lock, 0)));
    assert_eq!(parse_filename("CURRENT.bak"), Some((FileType::Current, 0)));
    assert_eq!(
        parse_filename("18446744073709551615.sst"),
        Some((FileType::Table, u64::MAX))
    );
    assert_eq!(parse_filename("18446744073709551616.sst"), None);
    assert_eq!(parse_filename("+12.log"), Some((FileType::Log, 12)));
    assert_eq!(parse_filename("-12.log"), None);
    assert_eq!(parse_filename(".log"), None);
    assert_eq!(parse_filename("12"), None);
    assert_eq!(parse_filename("12.txt"), None);
    assert_eq!(parse_filename("MANIFEST-"), None);
    assert_eq!(parse_filename("MANIFESTO-7"), Some((FileType::Manifest, 7)));
}

#[test]
fn parsing_undoes_generating() {
    for (ft, seq) in [
        (FileType::Log, 7u64),
        (FileType::Table, 1234567),
        (FileType::Manifest, 42),
        (FileType::Temp, 0),
    ] {
        let name = generate_filename("some/dir", ft, seq);
        assert_eq!(parse_filename(&name), Some((ft, seq)));
    }
    for ft in [
        FileType::Lock,
        FileType::Current,
        FileType::InfoLog,
        FileType::OldInfoLog,
    ] {
        let name = generate_filename("some/dir", ft, 99);
        assert_eq!(parse_filename(&name), Some((ft, 0)));
    }
}
