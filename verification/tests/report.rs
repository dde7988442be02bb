use loc_counter::lang::Language;
use loc_counter::report::{format_num, print};
use loc_counter::walk::{LangStats, ScanResult};

#[test]
fn formats_thousands() {
    assert_eq!(format_num(0), "0");
    assert_eq!(format_num(7), "7");
    assert_eq!(format_num(123), "123");
    assert_eq!(format_num(1_234), "1,234");
    assert_eq!(format_num(12_345), "12,345");
    assert_eq!(format_num(123_456), "123,456");
    assert_eq!(format_num(1_234_567), "1,234,567");
    assert_eq!(format_num(1_000_000), "1,000,000");
}

#[test]
fn report_renders_with_total() {
    let mut result = ScanResult::default();
    result.per_language.insert(
        Language::Rust,
        LangStats {
            files: 2,
            lines: 100,
        },
    );
    result.per_language.insert(
        Language::C,
        LangStats {
            files: 1,
            lines: 50,
        },
    );
    let mut s = String::new();
    print(&result, &mut s);
    assert!(s.contains("Rust"));
    assert!(s.contains("C"));
    assert!(s.contains("Total"));
    assert!(s.contains("150"));
}

#[test]
fn format_num_reads_back_as_the_number() {
    for n in [0u64, 9, 10, 999, 1000, 1001, 65_536, 999_999, 1_000_001, u64::MAX] {
        let s = format_num(n);
        let digits: String = s.chars().filter(|c| *c != ',').collect();
        assert_eq!(digits, n.to_string());
        for (i, group) in s.split(',').enumerate() {
            if i > 0 {
                assert_eq!(group.len(), 3);
            }
        }
    }
    assert_eq!(format_num(u64::MAX), "18,446,744,073,709,551,615");
}

#[test]
fn report_matches_the_documented_layout() {
    let mut result = ScanResult::default();
    result.per_language.insert(Language::C, LangStats { files: 12, lines: 3_420 });
    result.per_language.insert(Language::Cpp, LangStats { files: 8, lines: 1_205 });
    result.per_language.insert(Language::Rust, LangStats { files: 34, lines: 12_887 });
    let mut s = String::new();
    print(&result, &mut s);
    let expected = "\
Language       Files      Lines
-------------  ------  ---------
C                  12      3,420
C++                 8      1,205
Rust               34     12,887
-------------  ------  ---------
Total              54     17,512
";
    // Every line but the header is as documented; the header holds the
    // documented words, aligned like the rows below it.
    let got: Vec<&str> = s.lines().collect();
    let want: Vec<&str> = expected.lines().collect();
    assert_eq!(got.len(), want.len());
    assert_eq!(
        got[0].split_whitespace().collect::<Vec<_>>(),
        want[0].split_whitespace().collect::<Vec<_>>()
    );
    assert_eq!(got[0], "Language        Files      Lines");
    assert_eq!(&got[1..], &want[1..]);
    assert!(s.ends_with('\n'));
}

#[test]
fn report_rows_are_sorted_by_name_and_lines_line_up() {
    let mut result = ScanResult::default();
    for (lang, files) in [
        (Language::TypeScript, 1),
        (Language::CSharp, 2),
        (Language::Cpp, 3),
        (Language::C, 4),
        (Language::Php, 5),
        (Language::Python, 6),
    ] {
        result.per_language.insert(lang, LangStats { files, lines: files * 1000 });
    }
    let mut s = String::new();
    print(&result, &mut s);
    let lines: Vec<&str> = s.lines().collect();
    let names: Vec<&str> = lines[2..8]
        .iter()
        .map(|l| l.split_whitespace().next().unwrap())
        .collect();
    assert_eq!(names, vec!["C", "C#", "C++", "PHP", "Python", "TypeScript"]);
    let width = lines[0].len();
    for line in &lines {
        assert_eq!(line.len(), width, "{line:?}");
    }
    assert!(lines[9].starts_with("Total"));
    assert!(lines[9].ends_with("21,000"));
}

#[test]
fn report_notes_skipped_and_errors() {
    let mut result = ScanResult::default();
    result.skipped_binary = 2;
    result.read_errors = 1234;
    let mut s = String::new();
    print(&result, &mut s);
    assert!(s.ends_with("\nSkipped 2 binary file(s); 1234 read error(s).\n"));
    assert!(s.starts_with("Language        Files      Lines\n"));
}

#[test]
fn report_without_problems_has_no_note() {
    let result = ScanResult::default();
    let mut s = String::from("prefix:");
    print(&result, &mut s);
    assert_eq!(
        s,
        "prefix:Language        Files      Lines\n-------------  ------  ---------\n-------------  ------  ---------\nTotal               0          0\n"
    );
}

#[test]
fn format_num_length_is_digits_plus_separators() {
    let mut previous = 0;
    for n in [0u64, 5, 99, 100, 999, 1000, 9_999, 10_000, 123_456_789, u64::MAX] {
        let m = n.to_string().len();
        let len = format_num(n).len();
        assert_eq!(len, m + (m - 1) / 3);
        assert!(len >= previous);
        previous = len;
    }
}
