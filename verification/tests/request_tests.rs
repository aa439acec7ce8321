use kd_tree::request::{parse_count, parse_path, Request};

#[test]
fn counts_are_read_as_the_standard_library_reads_them() {
    for text in [
        "0",
        "7",
        "10",
        "007",
        "+5",
        "+",
        "",
        "-1",
        "1a",
        "a1",
        " 1",
        "1 ",
        "++1",
        "18446744073709551615",
        "18446744073709551616",
        "99999999999999999999999",
        "4294967295",
        "4294967296",
    ] {
        assert_eq!(parse_count(text.as_bytes()), text.parse::<usize>().ok(), "{:?}", text);
    }
    assert_eq!(parse_count(b"1234"), Some(1234));
    assert_eq!(parse_count(b"+0042"), Some(42));
    assert_eq!(parse_count(b"12x"), None);
}

#[test]
fn paths_name_what_is_asked() {
    assert_eq!(
        parse_path(b"/nn/10/CCO"),
        Request::Nearest { count: 10, smiles: b"CCO".to_vec() }
    );
    assert_eq!(
        parse_path(b"/nn/1/c1ccccc1/more"),
        Request::Nearest { count: 1, smiles: b"c1ccccc1".to_vec() }
    );
    assert_eq!(parse_path(b"/nn/10/"), Request::NoSmiles);
    assert_eq!(parse_path(b"/nn/10"), Request::NoSmiles);
    assert_eq!(parse_path(b"/nn/ten/CCO"), Request::BadCount);
    assert_eq!(parse_path(b"/nn//CCO"), Request::BadCount);
    assert_eq!(parse_path(b"/nn"), Request::BadCount);
    assert_eq!(parse_path(b"/test"), Request::Test);
    assert_eq!(parse_path(b"/test/anything"), Request::Test);
    assert_eq!(parse_path(b"/range/1"), Request::Unknown);
    assert_eq!(parse_path(b"/"), Request::Unknown);
    assert_eq!(parse_path(b""), Request::Unknown);
    assert_eq!(parse_path(b"nn/10/CCO"), Request::Unknown);
    assert_eq!(parse_path(b"x/nn/10/CCO"), Request::Nearest { count: 10, smiles: b"CCO".to_vec() });
    assert_eq!(parse_path(b"/NN/10/CCO"), Request::Unknown);
    assert_eq!(parse_path(b"/tests"), Request::Unknown);
}
