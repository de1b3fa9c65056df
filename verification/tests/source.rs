use txt2mp3::error::InputError;
use txt2mp3::source::{
    enumerate_jobs, extension_is_txt, file_stem_string, is_txt, non_empty_lines, output_prefix,
    stem_or_unknown, Job,
};

#[test]
fn txt_extension_in_any_case() {
    assert!(is_txt("book.txt"));
    assert!(is_txt("book.TXT"));
    assert!(is_txt("book.TxT"));
    assert!(is_txt("some/dir/book.tXt"));
    assert!(is_txt("archive.tar.txt"));
}

#[test]
fn other_extensions_are_no_text_files() {
    assert!(!is_txt("book.text"));
    assert!(!is_txt("book.tx"));
    assert!(!is_txt("book.txt.bak"));
    assert!(!is_txt("book"));
    assert!(!is_txt("txt"));
    assert!(!is_txt(""));
    assert!(!is_txt("book.md"));
    assert!(!is_txt("book.t\u{0445}t"));
}

#[test]
fn extension_belongs_to_the_file_name() {
    // A leading dot starts no extension.
    assert!(!is_txt(".txt"));
    // A dot in a directory's name is none of the file's.
    assert!(!is_txt("dir.txt/book"));
    assert!(is_txt("dir.old/book.txt"));
}

#[test]
fn extension_check_on_given_extensions() {
    assert!(extension_is_txt(Some("txt")));
    assert!(extension_is_txt(Some("TXT")));
    assert!(extension_is_txt(Some("tXt")));
    assert!(!extension_is_txt(Some("txt ")));
    assert!(!extension_is_txt(Some("")));
    assert!(!extension_is_txt(Some("doc")));
    assert!(!extension_is_txt(Some("тхт")));
    assert!(!extension_is_txt(None));
}

#[test]
fn stem_is_the_name_without_extension() {
    assert_eq!(file_stem_string("some/dir/book.txt"), "book");
    assert_eq!(file_stem_string("book.txt"), "book");
    assert_eq!(file_stem_string("archive.tar.gz"), "archive.tar");
    assert_eq!(file_stem_string("book"), "book");
    assert_eq!(file_stem_string(".hidden"), ".hidden");
}

#[test]
fn path_without_file_name_has_unknown_stem() {
    assert_eq!(file_stem_string(""), "unknown");
    assert_eq!(file_stem_string(".."), "unknown");
    assert_eq!(file_stem_string("/"), "unknown");
    assert_eq!(stem_or_unknown(None), "unknown");
    assert_eq!(stem_or_unknown(Some("chapter".to_string())), "chapter");
}

#[test]
fn prefix_for_single_file_and_for_folder() {
    assert_eq!(output_prefix("20260101_120000", None), "20260101_120000/audio");
    assert_eq!(
        output_prefix("20260101_120000", Some("book")),
        "20260101_120000/book/audio"
    );
}

#[test]
fn lines_are_trimmed_and_empty_ones_dropped() {
    let lines: Vec<String> = vec![
        "  first line ".to_string(),
        "".to_string(),
        "   ".to_string(),
        "second\t".to_string(),
        "\u{3000}third\u{a0}".to_string(),
        "\t\r".to_string(),
        "fourth".to_string(),
    ];
    assert_eq!(non_empty_lines(&lines), vec!["first line", "second", "third", "fourth"]);
}

#[test]
fn no_lines_give_no_units() {
    assert_eq!(non_empty_lines(&Vec::new()), Vec::<String>::new());
    assert_eq!(non_empty_lines(&vec![" ".to_string(), "".to_string()]), Vec::<String>::new());
}

#[test]
fn jobs_are_numbered_in_input_order() {
    let jobs = enumerate_jobs(vec!["a".to_string(), "b".to_string(), "c".to_string()]).unwrap();
    assert_eq!(
        jobs,
        vec![
            Job { position: 0, text: "a".to_string() },
            Job { position: 1, text: "b".to_string() },
            Job { position: 2, text: "c".to_string() },
        ]
    );
    assert_eq!(enumerate_jobs(Vec::new()), Ok(Vec::new()));
}

#[test]
fn empty_unit_is_an_input_error() {
    assert_eq!(
        enumerate_jobs(vec!["a".to_string(), "".to_string(), "c".to_string(), "".to_string()]),
        Err(InputError::EmptyText { position: 1 })
    );
    assert_eq!(enumerate_jobs(vec!["".to_string()]), Err(InputError::EmptyText { position: 0 }));
}

#[test]
fn every_white_space_character_is_trimmed() {
    let white: [u32; 25] = [
        0x09, 0x0A, 0x0B, 0x0C, 0x0D, 0x20, 0x85, 0xA0, 0x1680, 0x2000, 0x2001, 0x2002, 0x2003,
        0x2004, 0x2005, 0x2006, 0x2007, 0x2008, 0x2009, 0x200A, 0x2028, 0x2029, 0x202F, 0x205F,
        0x3000,
    ];
    let mut code: u32 = 0;
    while code <= 0x10FFFF {
        if let Some(c) = char::from_u32(code) {
            let line = format!("{c}x{c}");
            let units = non_empty_lines(&vec![c.to_string(), line.clone()]);
            if white.contains(&code) {
                assert_eq!(units, vec!["x"], "U+{code:04X}");
            } else {
                assert_eq!(units, vec![c.to_string(), line], "U+{code:04X}");
            }
        }
        // Every character up to U+3100, then a sample of the rest.
        code += if code < 0x3100 { 1 } else { 257 };
    }
}
