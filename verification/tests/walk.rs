use loc_counter::count::LineCounts;
use loc_counter::lang::Language;
use loc_counter::walk::{
    file_language, merge_results, visit, LangStats, LangTable, ScanResult, Visit, WalkOptions,
};

fn text(lines: u64) -> LineCounts {
    LineCounts {
        lines,
        binary: false,
    }
}

fn stats(r: &ScanResult, lang: Language) -> LangStats {
    r.per_language.get(&lang).copied().unwrap_or_default()
}

#[test]
fn walk_options_default_respects_ignore_and_hides() {
    let opts = WalkOptions::default();
    assert!(opts.respect_ignore);
    assert!(!opts.include_hidden);
}

#[test]
fn default_result_is_empty() {
    let r = ScanResult::default();
    assert!(r.per_language.is_empty());
    assert_eq!(r.skipped_binary, 0);
    assert_eq!(r.read_errors, 0);
}

#[test]
fn visit_tallies_each_kind_of_entry() {
    let mut r = ScanResult::default();
    visit(&mut r, Visit::Counted(Language::Rust, text(2)));
    visit(&mut r, Visit::Counted(Language::Rust, text(1)));
    visit(&mut r, Visit::Counted(Language::C, text(2)));
    visit(&mut r, Visit::Counted(Language::Rust, LineCounts::binary()));
    visit(&mut r, Visit::ReadError);
    visit(&mut r, Visit::WalkError);
    assert_eq!(stats(&r, Language::Rust), LangStats { files: 2, lines: 3 });
    assert_eq!(stats(&r, Language::C), LangStats { files: 1, lines: 2 });
    assert!(r.per_language.get(&Language::Cpp).is_none());
    assert_eq!(r.skipped_binary, 1);
    assert_eq!(r.read_errors, 2);
    assert!(!r.per_language.is_empty());
}

#[test]
fn merging_workers_equals_one_pass() {
    let events = vec![
        Visit::Counted(Language::Rust, text(2)),
        Visit::Counted(Language::Go, text(10)),
        Visit::ReadError,
        Visit::Counted(Language::Rust, text(1)),
        Visit::Counted(Language::Go, LineCounts::binary()),
        Visit::Counted(Language::Cpp, text(3)),
        Visit::WalkError,
    ];
    let mut single = ScanResult::default();
    for e in &events {
        visit(&mut single, clone_visit(e));
    }
    let mut a = ScanResult::default();
    let mut b = ScanResult::default();
    let mut c = ScanResult::default();
    for (i, e) in events.iter().enumerate() {
        let target = match i % 3 {
            0 => &mut a,
            1 => &mut b,
            _ => &mut c,
        };
        visit(target, clone_visit(e));
    }
    let merged = merge_results(vec![a, b, c]);
    for lang in [Language::Rust, Language::Go, Language::Cpp, Language::C] {
        assert_eq!(
            merged.per_language.get(&lang).copied(),
            single.per_language.get(&lang).copied()
        );
    }
    assert_eq!(merged.skipped_binary, single.skipped_binary);
    assert_eq!(merged.read_errors, single.read_errors);
    assert_eq!(stats(&merged, Language::Rust), LangStats { files: 2, lines: 3 });
}

fn clone_visit(v: &Visit) -> Visit {
    match v {
        Visit::WalkError => Visit::WalkError,
        Visit::ReadError => Visit::ReadError,
        Visit::Counted(l, c) => Visit::Counted(*l, *c),
    }
}

#[test]
fn merge_of_nothing_is_empty() {
    let merged = merge_results(Vec::new());
    assert!(merged.per_language.is_empty());
    assert_eq!(merged.skipped_binary, 0);
    assert_eq!(merged.read_errors, 0);
}

#[test]
fn merge_keeps_languages_of_every_part() {
    let mut a = ScanResult::default();
    a.per_language.insert(Language::Java, LangStats { files: 0, lines: 0 });
    a.skipped_binary = 3;
    let mut b = ScanResult::default();
    b.per_language.insert(Language::Java, LangStats { files: 4, lines: 40 });
    b.per_language.insert(Language::Ruby, LangStats { files: 1, lines: 7 });
    b.read_errors = 5;
    let merged = merge_results(vec![a, b]);
    assert_eq!(stats(&merged, Language::Java), LangStats { files: 4, lines: 40 });
    assert_eq!(stats(&merged, Language::Ruby), LangStats { files: 1, lines: 7 });
    assert_eq!(merged.skipped_binary, 3);
    assert_eq!(merged.read_errors, 5);
}

#[test]
fn table_insert_returns_previous_stats() {
    let mut t = LangTable::new();
    assert!(t.is_empty());
    assert_eq!(t.insert(Language::Go, LangStats { files: 1, lines: 1 }), None);
    assert_eq!(
        t.insert(Language::Go, LangStats { files: 2, lines: 5 }),
        Some(LangStats { files: 1, lines: 1 })
    );
    t.add(Language::Go, 1, 10);
    t.add(Language::Shell, 3, 4);
    assert_eq!(t.get(&Language::Go).copied(), Some(LangStats { files: 3, lines: 15 }));
    assert_eq!(t.get(&Language::Shell).copied(), Some(LangStats { files: 3, lines: 4 }));
}

#[test]
fn only_regular_files_of_known_languages_are_counted() {
    assert_eq!(file_language(true, "src/lib.rs"), Some(Language::Rust));
    assert_eq!(file_language(false, "src/lib.rs"), None);
    assert_eq!(file_language(true, "notes.txt"), None);
}

#[test]
fn table_len_counts_languages() {
    let mut r = ScanResult::default();
    assert_eq!(r.per_language.len(), 0);
    visit(&mut r, Visit::Counted(Language::Rust, text(2)));
    visit(&mut r, Visit::Counted(Language::Rust, text(1)));
    visit(&mut r, Visit::Counted(Language::C, text(2)));
    visit(&mut r, Visit::Counted(Language::Cpp, text(3)));
    visit(&mut r, Visit::Counted(Language::Python, LineCounts::binary()));
    assert_eq!(r.per_language.len(), 3);
    assert!(format!("{r:?}").contains("ScanResult"));
}

fn result_of(events: &[Visit]) -> ScanResult {
    let mut r = ScanResult::default();
    for e in events {
        visit(&mut r, clone_visit(e));
    }
    r
}

fn same(a: &ScanResult, b: &ScanResult) -> bool {
    let all = (0..loc_counter::lang::LANGUAGE_COUNT).map(loc_counter::lang::by_name_at);
    a.skipped_binary == b.skipped_binary
        && a.read_errors == b.read_errors
        && all.into_iter().all(|l| a.per_language.get(&l) == b.per_language.get(&l))
}

#[test]
fn merge_ignores_order_and_grouping() {
    let p1 = result_of(&[Visit::Counted(Language::Go, text(4)), Visit::ReadError]);
    let p2 = result_of(&[Visit::Counted(Language::Go, text(6)), Visit::Counted(Language::Rust, text(1))]);
    let p3 = result_of(&[Visit::Counted(Language::Ruby, LineCounts::binary()), Visit::WalkError]);
    let forward = merge_results(vec![
        result_of(&[Visit::Counted(Language::Go, text(4)), Visit::ReadError]),
        result_of(&[Visit::Counted(Language::Go, text(6)), Visit::Counted(Language::Rust, text(1))]),
        result_of(&[Visit::Counted(Language::Ruby, LineCounts::binary()), Visit::WalkError]),
    ]);
    let backward = merge_results(vec![p3, p2, p1]);
    assert!(same(&forward, &backward));
    let left = merge_results(vec![
        result_of(&[Visit::Counted(Language::Go, text(4)), Visit::ReadError]),
        result_of(&[Visit::Counted(Language::Go, text(6)), Visit::Counted(Language::Rust, text(1))]),
    ]);
    let right = merge_results(vec![result_of(&[
        Visit::Counted(Language::Ruby, LineCounts::binary()),
        Visit::WalkError,
    ])]);
    let grouped = merge_results(vec![left, right]);
    assert!(same(&forward, &grouped));
    assert_eq!(stats(&grouped, Language::Go), LangStats { files: 2, lines: 10 });
    assert_eq!(grouped.read_errors, 2);
    assert_eq!(grouped.skipped_binary, 1);
}
