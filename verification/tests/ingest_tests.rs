use kd_tree::error::Error;
use kd_tree::ingest::{clean_number, file_stem, read_line, split_fields, strip_extension};

fn text(bytes: &[u8]) -> String {
    String::from_utf8(bytes.to_vec()).unwrap()
}

#[test]
fn bars_and_what_they_enclose_are_left_out() {
    assert_eq!(text(&strip_extension(b"CCO,ID1,0.5")), "CCO,ID1,0.5");
    assert_eq!(text(&strip_extension(b"CCO |a:1,2|,ID1,0.5")), "CCO ,ID1,0.5");
    assert_eq!(text(&strip_extension(b"a|b|c|d|e")), "ace");
    assert_eq!(text(&strip_extension(b"a|b")), "a");
    assert_eq!(text(&strip_extension(b"||")), "");
    assert_eq!(text(&strip_extension(b"|x||y|z")), "z");
    assert_eq!(text(&strip_extension(b"")), "");
    for line in ["CCO,ID1,0.5", "a|b|c|d|e", "a|b", "|x||y|z", "no bars", "|||"] {
        let mut keep = true;
        let mut expected = String::new();
        for c in line.chars() {
            if c == '|' {
                keep = !keep;
                continue;
            }
            if keep {
                expected.push(c);
            }
        }
        assert_eq!(text(&strip_extension(line.as_bytes())), expected);
    }
}

#[test]
fn fields_are_what_stands_between_commas() {
    for line in ["a,b,c", "", ",", "a,,b,", ",a", "abc", "CCO,ID,0.1,0.2,0.3"] {
        let expected: Vec<&str> = line.split(',').collect();
        let fields: Vec<String> = split_fields(line.as_bytes()).iter().map(|f| text(f)).collect();
        assert_eq!(fields, expected);
    }
    assert_eq!(split_fields(b"a,,b,"), vec![b"a".to_vec(), vec![], b"b".to_vec(), vec![]]);
}

#[test]
fn numbers_lose_brackets_and_spaces() {
    assert_eq!(text(&clean_number(b"[0.5")), "0.5");
    assert_eq!(text(&clean_number(b" -1.25e3 ]")), "-1.25e3");
    assert_eq!(text(&clean_number(b"[ ] ")), "");
    assert_eq!(text(&clean_number(b"7")), "7");
    for field in ["[0.5", " 0.25]", "1.0", "[[ 2 ]]"] {
        let expected = field.replace('[', "").replace(']', "").replace(' ', "");
        assert_eq!(text(&clean_number(field.as_bytes())), expected);
    }
}

#[test]
fn stem_is_the_last_part_up_to_the_first_underscore() {
    assert_eq!(text(&file_stem(b"/data/sets/ZINC_part_01.csv")), "ZINC");
    assert_eq!(text(&file_stem(b"ENAMINE.csv")), "ENAMINE.csv");
    assert_eq!(text(&file_stem(b"a_b/c_d/e_f_g")), "e");
    assert_eq!(text(&file_stem(b"dir/")), "");
    assert_eq!(text(&file_stem(b"dir/_x")), "");
    assert_eq!(text(&file_stem(b"")), "");
    for name in ["/data/sets/ZINC_part_01.csv", "ENAMINE.csv", "a_b/c_d/e_f_g", "dir/", "x"] {
        let expected = name.split('/').last().unwrap().split('_').next().unwrap();
        assert_eq!(text(&file_stem(name.as_bytes())), expected);
    }
}

#[test]
fn line_gives_text_identifier_and_numbers() {
    let fields = read_line(b"CCO |ext|,1234,[0.5, 0.25, -1.5]", b"ZINC").unwrap();
    assert_eq!(fields.smiles, "CCO ");
    assert_eq!(fields.identifier.to_string().trim_matches('\0'), "ZINC1234");
    assert_eq!(
        fields.numbers,
        vec![b"0.5".to_vec(), b"0.25".to_vec(), b"-1.5".to_vec()]
    );
    let values: Vec<f32> =
        fields.numbers.iter().map(|n| text(n).parse::<f32>().unwrap()).collect();
    assert_eq!(values, vec![0.5, 0.25, -1.5]);

    let bare = read_line(b"C,X", b"").unwrap();
    assert_eq!(bare.smiles, "C");
    assert_eq!(bare.identifier.0[0], b'X');
    assert!(bare.numbers.is_empty());
}

#[test]
fn lines_that_cannot_be_read() {
    assert_eq!(read_line(b"CCO", b"ZINC").err(), Some(Error::MalformedLine));
    assert_eq!(read_line(b"", b"ZINC").err(), Some(Error::MalformedLine));
    assert_eq!(read_line("C\u{e9},ID,1".as_bytes(), b"ZINC").err(), Some(Error::MalformedLine));
    let long_id = "I".repeat(27);
    assert_eq!(
        read_line(format!("CCO,{},1", long_id).as_bytes(), b"ZINC").err(),
        Some(Error::PayloadTooLarge)
    );
    assert!(read_line(format!("CCO,{},1", "I".repeat(26)).as_bytes(), b"ZINC").is_ok());
    assert_eq!(read_line(b"CCO,ID,1", &[b'S'; 31]).err(), Some(Error::PayloadTooLarge));
}
