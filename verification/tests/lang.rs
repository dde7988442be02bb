use loc_counter::lang::{from_path, Language};

#[test]
fn detects_common_extensions() {
    assert_eq!(from_path("foo.rs"), Some(Language::Rust));
    assert_eq!(from_path("a/b/c.cpp"), Some(Language::Cpp));
    assert_eq!(from_path("X.HPP"), Some(Language::Cpp));
    assert_eq!(from_path("script.sh"), Some(Language::Shell));
}

#[test]
fn unknown_extensions_are_none() {
    assert_eq!(from_path("readme.md"), None);
    assert_eq!(from_path("Makefile"), None);
    assert_eq!(from_path("noext"), None);
}

#[test]
fn every_extension_maps_to_its_language() {
    let cases = [
        ("a.rs", Language::Rust),
        ("a.c", Language::C),
        ("a.h", Language::C),
        ("a.cpp", Language::Cpp),
        ("a.cc", Language::Cpp),
        ("a.cxx", Language::Cpp),
        ("a.hpp", Language::Cpp),
        ("a.hh", Language::Cpp),
        ("a.hxx", Language::Cpp),
        ("a.cs", Language::CSharp),
        ("a.go", Language::Go),
        ("a.java", Language::Java),
        ("a.js", Language::JavaScript),
        ("a.mjs", Language::JavaScript),
        ("a.cjs", Language::JavaScript),
        ("a.php", Language::Php),
        ("a.py", Language::Python),
        ("a.rb", Language::Ruby),
        ("a.sh", Language::Shell),
        ("a.bash", Language::Shell),
        ("a.ts", Language::TypeScript),
        ("a.tsx", Language::TypeScript),
    ];
    for (path, lang) in cases {
        assert_eq!(from_path(path), Some(lang), "{path}");
    }
}

#[test]
fn extension_case_is_ignored() {
    assert_eq!(from_path("MAIN.RS"), Some(Language::Rust));
    assert_eq!(from_path("Index.Tsx"), Some(Language::TypeScript));
    assert_eq!(from_path("x.Java"), Some(Language::Java));
}

#[test]
fn file_name_rules_follow_paths() {
    // Leading dot only: a hidden file without extension.
    assert_eq!(from_path(".rs"), None);
    assert_eq!(from_path("dir/.bashrc"), None);
    // Trailing separators and `.` components are not file names.
    assert_eq!(from_path("src/main.rs/"), Some(Language::Rust));
    assert_eq!(from_path("src/main.rs/."), Some(Language::Rust));
    assert_eq!(from_path("a.rs/.."), None);
    assert_eq!(from_path(""), None);
    assert_eq!(from_path("/"), None);
    // The last dot decides; a dot in a directory name does not count.
    assert_eq!(from_path("archive.tar.go"), Some(Language::Go));
    assert_eq!(from_path("my.rs/readme"), None);
    assert_eq!(from_path("name."), None);
    assert_eq!(from_path("weird.rs.txt"), None);
}

#[test]
fn names_are_the_reported_names() {
    assert_eq!(Language::C.name(), "C");
    assert_eq!(Language::Cpp.name(), "C++");
    assert_eq!(Language::CSharp.name(), "C#");
    assert_eq!(Language::Go.name(), "Go");
    assert_eq!(Language::Java.name(), "Java");
    assert_eq!(Language::JavaScript.name(), "JavaScript");
    assert_eq!(Language::Php.name(), "PHP");
    assert_eq!(Language::Python.name(), "Python");
    assert_eq!(Language::Ruby.name(), "Ruby");
    assert_eq!(Language::Rust.name(), "Rust");
    assert_eq!(Language::Shell.name(), "Shell");
    assert_eq!(Language::TypeScript.name(), "TypeScript");
}

#[test]
fn name_order_is_sorted_and_distinct() {
    let names: Vec<&str> = (0..loc_counter::lang::LANGUAGE_COUNT)
        .map(|k| loc_counter::lang::by_name_at(k).name())
        .collect();
    for pair in names.windows(2) {
        assert!(pair[0] < pair[1], "{} before {}", pair[0], pair[1]);
    }
}
