use fuzzy_cluster::csv::{is_space, parse};

fn rows(table: &[&[&str]]) -> Vec<Vec<String>> {
    table.iter().map(|row| row.iter().map(|field| field.to_string()).collect()).collect()
}

fn plain_parse(text: &str) -> Vec<Vec<String>> {
    let mut table = Vec::new();
    for line in text.split("\n") {
        if line.trim().is_empty() {
            continue;
        }
        table.push(line.split(",").map(String::from).collect());
    }
    table
}

#[test]
fn reads_rows_and_fields() {
    assert_eq!(parse("x,y\n1.5,2\n3,4.25"), rows(&[&["x", "y"], &["1.5", "2"], &["3", "4.25"]]));
}

#[test]
fn the_empty_text_has_no_row() {
    assert_eq!(parse(""), rows(&[]));
}

#[test]
fn blank_lines_are_dropped() {
    assert_eq!(parse("a,b\n\n  \t\nc,d\n"), rows(&[&["a", "b"], &["c", "d"]]));
    assert_eq!(parse("\n\n\n"), rows(&[]));
    assert_eq!(parse("\u{a0}\u{3000}\r\nq"), rows(&[&["q"]]));
}

#[test]
fn fields_are_kept_as_they_stand() {
    assert_eq!(parse(" a , b\r\n"), rows(&[&[" a ", " b\r"]]));
    assert_eq!(parse(",,"), rows(&[&["", "", ""]]));
    assert_eq!(parse("a,"), rows(&[&["a", ""]]));
    assert_eq!(parse(" ,"), rows(&[&[" ", ""]]));
}

#[test]
fn a_line_without_a_comma_is_one_field() {
    assert_eq!(parse("alone"), rows(&[&["alone"]]));
    assert_eq!(parse("héllo wörld\nπ"), rows(&[&["héllo wörld"], &["π"]]));
}

#[test]
fn agrees_with_splitting_by_hand() {
    let texts = [
        "",
        "\n",
        ",",
        "a",
        "a,b,c\nd,e,f\n",
        "h1,h2\n\n1,2\n \n3,4",
        " , \n,\n\n\n5",
        "x\ty,z\u{2003}\n\u{2028}\n\u{85}\n",
        "1,2\r\n3,4\r\n",
        "trailing,comma,\n,leading",
    ];
    for text in texts {
        assert_eq!(parse(text), plain_parse(text), "{text:?}");
    }
}

#[test]
fn white_space_is_what_the_standard_library_says() {
    for code in 0..=0x10ffffu32 {
        if let Some(c) = char::from_u32(code) {
            assert_eq!(is_space(c), c.is_whitespace(), "U+{code:04X}");
        }
    }
}
