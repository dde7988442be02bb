//! The languages that are counted, and how a file's path names its language.
//!
//! A path is read as `/`-separated components. Its file name is its last
//! component other than `.`; a path whose last such component is `..`, or
//! that has none, has no file name. The extension of a file name is what
//! follows its last `.`, unless that `.` is its first character or there is
//! none. The language is looked up from the extension, ignoring ASCII case.
use vstd::prelude::*;

verus! {

/// A programming language whose files are counted.
#[derive(Debug, Clone, Copy, PartialEq, Eq, Structural, Hash, PartialOrd, Ord)]
pub enum Language {
    C,
    Cpp,
    CSharp,
    Go,
    Java,
    JavaScript,
    Php,
    Python,
    Ruby,
    Rust,
    Shell,
    TypeScript,
}

/// How many languages there are.
pub const LANGUAGE_COUNT: usize = 12;

/// The display name of a language.
pub open spec fn spec_name(lang: Language) -> Seq<char> {
    match lang {
        Language::C => seq!['C'],
        Language::Cpp => seq!['C', '+', '+'],
        Language::CSharp => seq!['C', '#'],
        Language::Go => seq!['G', 'o'],
        Language::Java => seq!['J', 'a', 'v', 'a'],
        Language::JavaScript => seq!['J', 'a', 'v', 'a', 'S', 'c', 'r', 'i', 'p', 't'],
        Language::Php => seq!['P', 'H', 'P'],
        Language::Python => seq!['P', 'y', 't', 'h', 'o', 'n'],
        Language::Ruby => seq!['R', 'u', 'b', 'y'],
        Language::Rust => seq!['R', 'u', 's', 't'],
        Language::Shell => seq!['S', 'h', 'e', 'l', 'l'],
        Language::TypeScript => seq!['T', 'y', 'p', 'e', 'S', 'c', 'r', 'i', 'p', 't'],
    }
}

/// The position of a language in the declaration order, from 0.
pub open spec fn spec_index(lang: Language) -> nat {
    match lang {
        Language::C => 0,
        Language::Cpp => 1,
        Language::CSharp => 2,
        Language::Go => 3,
        Language::Java => 4,
        Language::JavaScript => 5,
        Language::Php => 6,
        Language::Python => 7,
        Language::Ruby => 8,
        Language::Rust => 9,
        Language::Shell => 10,
        Language::TypeScript => 11,
    }
}

/// The languages in the order of their names.
pub open spec fn by_name() -> Seq<Language> {
    seq![
        Language::C,
        Language::CSharp,
        Language::Cpp,
        Language::Go,
        Language::Java,
        Language::JavaScript,
        Language::Php,
        Language::Python,
        Language::Ruby,
        Language::Rust,
        Language::Shell,
        Language::TypeScript,
    ]
}

impl Language {
    /// The name under which the language is reported.
    pub fn name(self) -> (name: &'static str)
        ensures
            name@ == spec_name(self),
    {
        match self {
            Language::C => {
                proof {
                    reveal_strlit("C");
                }
                "C"
            },
            Language::Cpp => {
                proof {
                    reveal_strlit("C++");
                }
                "C++"
            },
            Language::CSharp => {
                proof {
                    reveal_strlit("C#");
                }
                "C#"
            },
            Language::Go => {
                proof {
                    reveal_strlit("Go");
                }
                "Go"
            },
            Language::Java => {
                proof {
                    reveal_strlit("Java");
                }
                "Java"
            },
            Language::JavaScript => {
                proof {
                    reveal_strlit("JavaScript");
                }
                "JavaScript"
            },
            Language::Php => {
                proof {
                    reveal_strlit("PHP");
                }
                "PHP"
            },
            Language::Python => {
                proof {
                    reveal_strlit("Python");
                }
                "Python"
            },
            Language::Ruby => {
                proof {
                    reveal_strlit("Ruby");
                }
                "Ruby"
            },
            Language::Rust => {
                proof {
                    reveal_strlit("Rust");
                }
                "Rust"
            },
            Language::Shell => {
                proof {
                    reveal_strlit("Shell");
                }
                "Shell"
            },
            Language::TypeScript => {
                proof {
                    reveal_strlit("TypeScript");
                }
                "TypeScript"
            },
        }
    }

    /// The position of the language in the declaration order.
    pub fn index(self) -> (i: usize)
        ensures
            i == spec_index(self),
            i < LANGUAGE_COUNT,
    {
        match self {
            Language::C => 0,
            Language::Cpp => 1,
            Language::CSharp => 2,
            Language::Go => 3,
            Language::Java => 4,
            Language::JavaScript => 5,
            Language::Php => 6,
            Language::Python => 7,
            Language::Ruby => 8,
            Language::Rust => 9,
            Language::Shell => 10,
            Language::TypeScript => 11,
        }
    }
}

/// The language at position `rank` of the name order.
pub fn by_name_at(rank: usize) -> (lang: Language)
    requires
        rank < LANGUAGE_COUNT,
    ensures
        lang == by_name()[rank as int],
{
    match rank {
        0 => Language::C,
        1 => Language::CSharp,
        2 => Language::Cpp,
        3 => Language::Go,
        4 => Language::Java,
        5 => Language::JavaScript,
        6 => Language::Php,
        7 => Language::Python,
        8 => Language::Ruby,
        9 => Language::Rust,
        10 => Language::Shell,
        _ => Language::TypeScript,
    }
}

/// Distinct languages have distinct indices.
pub proof fn index_is_injective(a: Language, b: Language)
    ensures
        spec_index(a) == spec_index(b) ==> a == b,
        spec_index(a) < LANGUAGE_COUNT,
{
}

/// The index of the last `c` in `s`, or -1 when `s` holds no `c`.
pub open spec fn last_index_of(s: Seq<char>, c: char) -> int
    decreases s.len(),
{
    if s.len() == 0 {
        -1
    } else if s.last() == c {
        s.len() - 1
    } else {
        last_index_of(s.drop_last(), c)
    }
}

/// The index of the last `c` in `s` lies in `-1 .. s.len()`.
pub proof fn lemma_last_index_bounds(s: Seq<char>, c: char)
    ensures
        -1 <= last_index_of(s, c) < s.len(),
        last_index_of(s, c) >= 0 ==> s[last_index_of(s, c)] == c,
    decreases s.len(),
{
    if s.len() > 0 && s.last() != c {
        lemma_last_index_bounds(s.drop_last(), c);
    }
}

/// When `s[start - 1]` is `c` (or `start` is 0) and no `c` follows it, the
/// last `c` of `s` is at `start - 1`.
pub proof fn lemma_last_index_at(s: Seq<char>, c: char, start: int)
    requires
        0 <= start <= s.len(),
        start == 0 || s[start - 1] == c,
        forall|k: int| start <= k < s.len() ==> s[k] != c,
    ensures
        last_index_of(s, c) == start - 1,
    decreases s.len(),
{
    if s.len() > start {
        assert(s.last() != c);
        lemma_last_index_at(s.drop_last(), c, start);
    }
}

/// The file name of a `/`-separated path: its last component other than `.`,
/// unless that component is `..`; none for a path without such a component.
pub open spec fn file_name(p: Seq<char>) -> Option<Seq<char>>
    decreases p.len(),
{
    if p.len() == 0 {
        None
    } else if p.last() == '/' {
        file_name(p.drop_last())
    } else {
        let start = last_index_of(p, '/') + 1;
        let seg = p.subrange(start, p.len() as int);
        if seg == seq!['.'] {
            if start <= 0 {
                None
            } else {
                proof {
                    lemma_last_index_bounds(p, '/');
                }
                file_name(p.subrange(0, start))
            }
        } else if seg == seq!['.', '.'] {
            None
        } else {
            Some(seg)
        }
    }
}

/// The extension of a file name: what follows its last `.`, unless that `.`
/// is its first character or it has none.
pub open spec fn extension(name: Seq<char>) -> Option<Seq<char>> {
    let dot = last_index_of(name, '.');
    if dot <= 0 {
        None
    } else {
        Some(name.subrange(dot + 1, name.len() as int))
    }
}

/// The extension of the file name of a path.
pub open spec fn path_extension(p: Seq<char>) -> Option<Seq<char>> {
    match file_name(p) {
        Some(name) => extension(name),
        None => None,
    }
}

/// The code of a character after ASCII lowercasing (`A`..`Z` to `a`..`z`).
pub open spec fn lower_code(c: char) -> u32 {
    let x = c as u32;
    if 65 <= x && x <= 90 {
        (x + 32) as u32
    } else {
        x
    }
}

/// Whether lowercasing the ASCII letters of `e` gives `t`.
pub open spec fn lowers_to(e: Seq<char>, t: Seq<char>) -> bool {
    &&& e.len() == t.len()
    &&& forall|k: int| 0 <= k < e.len() ==> lower_code(#[trigger] e[k]) == t[k] as u32
}

/// The language of an extension, which is compared ignoring ASCII case.
pub open spec fn language_of_extension(e: Seq<char>) -> Option<Language> {
    if lowers_to(e, "rs"@) {
        Some(Language::Rust)
    } else if lowers_to(e, "c"@) || lowers_to(e, "h"@) {
        Some(Language::C)
    } else if lowers_to(e, "cpp"@) || lowers_to(e, "cc"@) || lowers_to(e, "cxx"@) || lowers_to(
        e,
        "hpp"@,
    ) || lowers_to(e, "hh"@) || lowers_to(e, "hxx"@) {
        Some(Language::Cpp)
    } else if lowers_to(e, "cs"@) {
        Some(Language::CSharp)
    } else if lowers_to(e, "go"@) {
        Some(Language::Go)
    } else if lowers_to(e, "java"@) {
        Some(Language::Java)
    } else if lowers_to(e, "js"@) || lowers_to(e, "mjs"@) || lowers_to(e, "cjs"@) {
        Some(Language::JavaScript)
    } else if lowers_to(e, "php"@) {
        Some(Language::Php)
    } else if lowers_to(e, "py"@) {
        Some(Language::Python)
    } else if lowers_to(e, "rb"@) {
        Some(Language::Ruby)
    } else if lowers_to(e, "sh"@) || lowers_to(e, "bash"@) {
        Some(Language::Shell)
    } else if lowers_to(e, "ts"@) || lowers_to(e, "tsx"@) {
        Some(Language::TypeScript)
    } else {
        None
    }
}

/// The language of the file at path `p`.
pub open spec fn path_language(p: Seq<char>) -> Option<Language> {
    match path_extension(p) {
        Some(e) => language_of_extension(e),
        None => None,
    }
}

/// Whether the characters `from .. to` of `s`, ASCII-lowercased, spell `t`.
fn range_lowers_to(s: &str, from: usize, to: usize, t: &str) -> (b: bool)
    requires
        from <= to <= s@.len(),
    ensures
        b == lowers_to(s@.subrange(from as int, to as int), t@),
{
    let ghost e = s@.subrange(from as int, to as int);
    if to - from != t.unicode_len() {
        return false;
    }
    let mut k: usize = 0;
    while k < to - from
        invariant
            from <= to <= s@.len(),
            e == s@.subrange(from as int, to as int),
            to - from == t@.len(),
            k <= to - from,
            forall|j: int| 0 <= j < k ==> lower_code(#[trigger] e[j]) == t@[j] as u32,
        decreases to - from - k,
    {
        let c = s.get_char(from + k);
        let x = c as u32;
        let lowered: u32 = if 65 <= x && x <= 90 {
            x + 32
        } else {
            x
        };
        assert(e[k as int] == c);
        if lowered != t.get_char(k) as u32 {
            return false;
        }
        k = k + 1;
    }
    true
}

/// The language of the extension held by the characters `from .. to` of `s`.
fn language_of_range(s: &str, from: usize, to: usize) -> (lang: Option<Language>)
    requires
        from <= to <= s@.len(),
    ensures
        lang == language_of_extension(s@.subrange(from as int, to as int)),
{
    if range_lowers_to(s, from, to, "rs") {
        Some(Language::Rust)
    } else if range_lowers_to(s, from, to, "c") || range_lowers_to(s, from, to, "h") {
        Some(Language::C)
    } else if range_lowers_to(s, from, to, "cpp") || range_lowers_to(s, from, to, "cc")
        || range_lowers_to(s, from, to, "cxx") || range_lowers_to(s, from, to, "hpp")
        || range_lowers_to(s, from, to, "hh") || range_lowers_to(s, from, to, "hxx") {
        Some(Language::Cpp)
    } else if range_lowers_to(s, from, to, "cs") {
        Some(Language::CSharp)
    } else if range_lowers_to(s, from, to, "go") {
        Some(Language::Go)
    } else if range_lowers_to(s, from, to, "java") {
        Some(Language::Java)
    } else if range_lowers_to(s, from, to, "js") || range_lowers_to(s, from, to, "mjs")
        || range_lowers_to(s, from, to, "cjs") {
        Some(Language::JavaScript)
    } else if range_lowers_to(s, from, to, "php") {
        Some(Language::Php)
    } else if range_lowers_to(s, from, to, "py") {
        Some(Language::Python)
    } else if range_lowers_to(s, from, to, "rb") {
        Some(Language::Ruby)
    } else if range_lowers_to(s, from, to, "sh") || range_lowers_to(s, from, to, "bash") {
        Some(Language::Shell)
    } else if range_lowers_to(s, from, to, "ts") || range_lowers_to(s, from, to, "tsx") {
        Some(Language::TypeScript)
    } else {
        None
    }
}

/// The character positions `start .. end` of the file name of path `p`, if it has one.
fn file_name_bounds(p: &str) -> (bounds: Option<(usize, usize)>)
    ensures
        bounds matches Some((start, end)) ==> {
            &&& start <= end <= p@.len()
            &&& file_name(p@) == Some(p@.subrange(start as int, end as int))
        },
        bounds is None ==> file_name(p@) is None,
{
    let len = p.unicode_len();
    let mut end: usize = len;
    assert(p@.subrange(0, len as int) =~= p@);
    loop
        invariant
            end <= len,
            len == p@.len(),
            file_name(p@) == file_name(p@.subrange(0, end as int)),
        decreases end,
    {
        let ghost q = p@.subrange(0, end as int);
        if end == 0 {
            return None;
        }
        if p.get_char(end - 1) == '/' {
            assert(q.drop_last() =~= p@.subrange(0, end - 1));
            end = end - 1;
            continue;
        }
        let mut start: usize = end;
        loop
            invariant
                start <= end,
                end <= len,
                len == p@.len(),
                q == p@.subrange(0, end as int),
                forall|k: int| start <= k < end ==> q[k] != '/',
            ensures
                start <= end,
                forall|k: int| start <= k < end ==> q[k] != '/',
                start == 0 || q[start - 1] == '/',
            decreases start,
        {
            if start == 0 {
                break;
            }
            if p.get_char(start - 1) == '/' {
                break;
            }
            start = start - 1;
        }
        proof {
            assert(start > 0 ==> q[start - 1] == '/');
            lemma_last_index_at(q, '/', start as int);
        }
        let ghost seg = q.subrange(start as int, end as int);
        assert(seg =~= p@.subrange(start as int, end as int));
        if end - start == 1 && p.get_char(start) == '.' {
            assert(seg =~= seq!['.']);
            if start == 0 {
                return None;
            }
            assert(q.subrange(0, start as int) =~= p@.subrange(0, start as int));
            end = start;
            continue;
        }
        if end - start == 2 && p.get_char(start) == '.' && p.get_char(start + 1) == '.' {
            assert(seg =~= seq!['.', '.']);
            return None;
        }
        assert(seg != seq!['.']) by {
            if seg =~= seq!['.'] {
                assert(seg[0] == p@[start as int]);
            }
        }
        assert(seg != seq!['.', '.']) by {
            if seg =~= seq!['.', '.'] {
                assert(seg[0] == p@[start as int]);
                assert(seg[1] == p@[start + 1]);
            }
        }
        return Some((start, end));
    }
}

/// The language of the file at `path`, from the extension of its file name,
/// compared ignoring ASCII case; `None` when there is no extension or it is
/// not one of a counted language.
pub fn from_path(path: &str) -> (lang: Option<Language>)
    ensures
        lang == path_language(path@),
{
    let bounds = file_name_bounds(path);
    match bounds {
        None => None,
        Some((start, end)) => {
            let ghost name = path@.subrange(start as int, end as int);
            let mut i: usize = end;
            loop
                invariant
                    start <= i <= end,
                    end <= path@.len(),
                    name == path@.subrange(start as int, end as int),
                    forall|k: int| i <= k < end ==> path@[k] != '.',
                ensures
                    start <= i <= end,
                    forall|k: int| i <= k < end ==> path@[k] != '.',
                    i == start || path@[i - 1] == '.',
                decreases i,
            {
                if i == start {
                    break;
                }
                if path.get_char(i - 1) == '.' {
                    break;
                }
                i = i - 1;
            }
            proof {
                assert forall|k: int| i - start <= k < name.len() implies name[k] != '.' by {
                    assert(name[k] == path@[start + k]);
                }
                if i > start {
                    assert(name[i - start - 1] == path@[i - 1]);
                }
                lemma_last_index_at(name, '.', i - start);
            }
            if i - start <= 1 {
                return None;
            }
            assert(name.subrange(i - start, name.len() as int) =~= path@.subrange(
                i as int,
                end as int,
            ));
            language_of_range(path, i, end)
        },
    }
}

/// The position of a language in the name order.
pub open spec fn name_rank(lang: Language) -> nat {
    match lang {
        Language::C => 0,
        Language::CSharp => 1,
        Language::Cpp => 2,
        Language::Go => 3,
        Language::Java => 4,
        Language::JavaScript => 5,
        Language::Php => 6,
        Language::Python => 7,
        Language::Ruby => 8,
        Language::Rust => 9,
        Language::Shell => 10,
        Language::TypeScript => 11,
    }
}

/// The name order lists each language once, at its rank.
pub proof fn lemma_by_name_rank()
    ensures
        by_name().len() == LANGUAGE_COUNT,
        forall|lang: Language| #[trigger] name_rank(lang) < LANGUAGE_COUNT,
        forall|lang: Language| by_name()[#[trigger] name_rank(lang) as int] == lang,
        forall|k: int| 0 <= k < LANGUAGE_COUNT ==> name_rank(#[trigger] by_name()[k]) == k,
{
    assert(by_name()[0] == Language::C);
    assert(by_name()[1] == Language::CSharp);
    assert(by_name()[2] == Language::Cpp);
    assert(by_name()[3] == Language::Go);
    assert(by_name()[4] == Language::Java);
    assert(by_name()[5] == Language::JavaScript);
    assert(by_name()[6] == Language::Php);
    assert(by_name()[7] == Language::Python);
    assert(by_name()[8] == Language::Ruby);
    assert(by_name()[9] == Language::Rust);
    assert(by_name()[10] == Language::Shell);
    assert(by_name()[11] == Language::TypeScript);
}

/// Whether `a` comes before `b` in the order of strings: character by
/// character by code, a proper prefix first.
pub open spec fn name_less(a: Seq<char>, b: Seq<char>) -> bool
    decreases a.len(),
{
    if a.len() == 0 {
        b.len() > 0
    } else if b.len() == 0 {
        false
    } else if a[0] != b[0] {
        (a[0] as u32) < (b[0] as u32)
    } else {
        name_less(a.drop_first(), b.drop_first())
    }
}

/// The order of strings is transitive.
proof fn lemma_name_less_transitive(a: Seq<char>, b: Seq<char>, c: Seq<char>)
    requires
        name_less(a, b),
        name_less(b, c),
    ensures
        name_less(a, c),
    decreases a.len(),
{
    if a.len() > 0 && b.len() > 0 && c.len() > 0 && a[0] == b[0] && b[0] == c[0] {
        lemma_name_less_transitive(a.drop_first(), b.drop_first(), c.drop_first());
    }
}

/// No string comes before itself.
proof fn lemma_name_less_irreflexive(a: Seq<char>)
    ensures
        !name_less(a, a),
    decreases a.len(),
{
    if a.len() > 0 {
        lemma_name_less_irreflexive(a.drop_first());
    }
}

/// Each name in the name order comes before the next one.
proof fn lemma_names_adjacent(k: int)
    requires
        0 <= k < LANGUAGE_COUNT - 1,
    ensures
        name_less(spec_name(by_name()[k]), spec_name(by_name()[k + 1])),
{
    reveal_with_fuel(name_less, 5);
    let a = spec_name(by_name()[k]);
    let b = spec_name(by_name()[k + 1]);
    assert(a[0] as u32 <= b[0] as u32) by {
        assert(('C' as u32) == 67 && ('G' as u32) == 71 && ('J' as u32) == 74 && ('P' as u32)
            == 80 && ('R' as u32) == 82 && ('S' as u32) == 83 && ('T' as u32) == 84);
    }
    if a[0] == b[0] {
        if k == 0 {
            assert(a.drop_first() =~= Seq::<char>::empty());
            assert(b.drop_first().len() == 1);
        } else if k == 1 {
            assert(a.drop_first() =~= seq!['#']);
            assert(b.drop_first() =~= seq!['+', '+']);
            assert(('#' as u32) == 35 && ('+' as u32) == 43);
        } else if k == 4 {
            let a1 = a.drop_first();
            let b1 = b.drop_first();
            let a2 = a1.drop_first();
            let b2 = b1.drop_first();
            let a3 = a2.drop_first();
            let b3 = b2.drop_first();
            assert(a1 =~= seq!['a', 'v', 'a']);
            assert(b1 =~= seq!['a', 'v', 'a', 'S', 'c', 'r', 'i', 'p', 't']);
            assert(a2 =~= seq!['v', 'a']);
            assert(b2 =~= seq!['v', 'a', 'S', 'c', 'r', 'i', 'p', 't']);
            assert(a3 =~= seq!['a']);
            assert(b3 =~= seq!['a', 'S', 'c', 'r', 'i', 'p', 't']);
            assert(a3.drop_first() =~= Seq::<char>::empty());
            assert(name_less(a3, b3));
            assert(name_less(a2, b2));
            assert(name_less(a1, b1));
        } else if k == 6 {
            assert(a.drop_first() =~= seq!['H', 'P']);
            assert(b.drop_first() =~= seq!['y', 't', 'h', 'o', 'n']);
            assert(('H' as u32) == 72 && ('y' as u32) == 121);
        } else if k == 8 {
            let a1 = a.drop_first();
            let b1 = b.drop_first();
            assert(a1 =~= seq!['u', 'b', 'y']);
            assert(b1 =~= seq!['u', 's', 't']);
            assert(a1.drop_first() =~= seq!['b', 'y']);
            assert(b1.drop_first() =~= seq!['s', 't']);
            assert(('b' as u32) == 98 && ('s' as u32) == 115);
        }
    }
}

/// The names in the name order are strictly increasing: the report, which
/// lists languages in this order, lists them sorted by name.
pub proof fn names_in_order(i: int, j: int)
    requires
        0 <= i < j < LANGUAGE_COUNT,
    ensures
        name_less(spec_name(by_name()[i]), spec_name(by_name()[j])),
    decreases j - i,
{
    lemma_names_adjacent(j - 1);
    if i < j - 1 {
        names_in_order(i, j - 1);
        lemma_name_less_transitive(
            spec_name(by_name()[i]),
            spec_name(by_name()[j - 1]),
            spec_name(by_name()[j]),
        );
    }
}

/// Distinct languages have distinct names, so the report gives each
/// language a row of its own.
pub proof fn names_are_distinct(a: Language, b: Language)
    requires
        a != b,
    ensures
        spec_name(a) != spec_name(b),
{
    lemma_by_name_rank();
    let i = name_rank(a) as int;
    let j = name_rank(b) as int;
    if i < j {
        names_in_order(i, j);
        lemma_name_less_irreflexive(spec_name(a));
    } else {
        assert(i != j);
        names_in_order(j, i);
        lemma_name_less_irreflexive(spec_name(b));
    }
}

/// Extensions that differ only in the case of ASCII letters name the same
/// language: `X.HPP` is C++ as `x.hpp` is.
pub proof fn extension_case_is_ignored(e1: Seq<char>, e2: Seq<char>)
    requires
        e1.len() == e2.len(),
        forall|k: int| 0 <= k < e1.len() ==> lower_code(e1[k]) == lower_code(e2[k]),
    ensures
        language_of_extension(e1) == language_of_extension(e2),
{
    assert forall|t: Seq<char>| #[trigger] lowers_to(e1, t) == lowers_to(e2, t) by {
        if lowers_to(e1, t) {
            assert forall|k: int| 0 <= k < e2.len() implies lower_code(#[trigger] e2[k]) == t[k]
                as u32 by {
                assert(lower_code(e1[k]) == t[k] as u32);
            }
        }
        if lowers_to(e2, t) {
            assert forall|k: int| 0 <= k < e1.len() implies lower_code(#[trigger] e1[k]) == t[k]
                as u32 by {
                assert(lower_code(e2[k]) == t[k] as u32);
            }
        }
    }
}

/// The language at position `i` of the declaration order.
pub open spec fn language_at(i: int) -> Language {
    if i <= 0 {
        Language::C
    } else if i == 1 {
        Language::Cpp
    } else if i == 2 {
        Language::CSharp
    } else if i == 3 {
        Language::Go
    } else if i == 4 {
        Language::Java
    } else if i == 5 {
        Language::JavaScript
    } else if i == 6 {
        Language::Php
    } else if i == 7 {
        Language::Python
    } else if i == 8 {
        Language::Ruby
    } else if i == 9 {
        Language::Rust
    } else if i == 10 {
        Language::Shell
    } else {
        Language::TypeScript
    }
}

/// `language_at` undoes `spec_index`, and `spec_index` undoes `language_at`
/// on `0 .. LANGUAGE_COUNT`.
pub proof fn lemma_language_at(lang: Language, i: int)
    ensures
        language_at(spec_index(lang) as int) == lang,
        0 <= i < LANGUAGE_COUNT ==> spec_index(language_at(i)) == i,
{
}

/// The languages of extensions: each language is given by exactly its listed
/// extensions, ignoring ASCII case, and an extension that is not listed (such
/// as `json` or `md`) gives no language.
pub proof fn extension_languages(e: Seq<char>)
    ensures
        (language_of_extension(e) == Some(Language::Rust)) == (lowers_to(e, seq!['r', 's'])),
        (language_of_extension(e) == Some(Language::C)) == (lowers_to(e, seq!['c']) || lowers_to(e, seq!['h'])),
        (language_of_extension(e) == Some(Language::Cpp)) == (lowers_to(e, seq!['c', 'p', 'p']) || lowers_to(e, seq!['c', 'c']) || lowers_to(e, seq!['c', 'x', 'x']) || lowers_to(e, seq!['h', 'p', 'p']) || lowers_to(e, seq!['h', 'h']) || lowers_to(e, seq!['h', 'x', 'x'])),
        (language_of_extension(e) == Some(Language::CSharp)) == (lowers_to(e, seq!['c', 's'])),
        (language_of_extension(e) == Some(Language::Go)) == (lowers_to(e, seq!['g', 'o'])),
        (language_of_extension(e) == Some(Language::Java)) == (lowers_to(e, seq!['j', 'a', 'v', 'a'])),
        (language_of_extension(e) == Some(Language::JavaScript)) == (lowers_to(e, seq!['j', 's']) || lowers_to(e, seq!['m', 'j', 's']) || lowers_to(e, seq!['c', 'j', 's'])),
        (language_of_extension(e) == Some(Language::Php)) == (lowers_to(e, seq!['p', 'h', 'p'])),
        (language_of_extension(e) == Some(Language::Python)) == (lowers_to(e, seq!['p', 'y'])),
        (language_of_extension(e) == Some(Language::Ruby)) == (lowers_to(e, seq!['r', 'b'])),
        (language_of_extension(e) == Some(Language::Shell)) == (lowers_to(e, seq!['s', 'h']) || lowers_to(e, seq!['b', 'a', 's', 'h'])),
        (language_of_extension(e) == Some(Language::TypeScript)) == (lowers_to(e, seq!['t', 's']) || lowers_to(e, seq!['t', 's', 'x'])),
        language_of_extension(e) is Some == (lowers_to(e, seq!['r', 's']) || lowers_to(e, seq!['c']) || lowers_to(e, seq!['h']) || lowers_to(e, seq!['c', 'p', 'p']) || lowers_to(e, seq!['c', 'c']) || lowers_to(e, seq!['c', 'x', 'x']) || lowers_to(e, seq!['h', 'p', 'p']) || lowers_to(e, seq!['h', 'h']) || lowers_to(e, seq!['h', 'x', 'x']) || lowers_to(e, seq!['c', 's']) || lowers_to(e, seq!['g', 'o']) || lowers_to(e, seq!['j', 'a', 'v', 'a']) || lowers_to(e, seq!['j', 's']) || lowers_to(e, seq!['m', 'j', 's']) || lowers_to(e, seq!['c', 'j', 's']) || lowers_to(e, seq!['p', 'h', 'p']) || lowers_to(e, seq!['p', 'y']) || lowers_to(e, seq!['r', 'b']) || lowers_to(e, seq!['s', 'h']) || lowers_to(e, seq!['b', 'a', 's', 'h']) || lowers_to(e, seq!['t', 's']) || lowers_to(e, seq!['t', 's', 'x'])),
{
    reveal_strlit("rs");
    assert("rs"@ =~= seq!['r', 's']);
    reveal_strlit("c");
    assert("c"@ =~= seq!['c']);
    reveal_strlit("h");
    assert("h"@ =~= seq!['h']);
    reveal_strlit("cpp");
    assert("cpp"@ =~= seq!['c', 'p', 'p']);
    reveal_strlit("cc");
    assert("cc"@ =~= seq!['c', 'c']);
    reveal_strlit("cxx");
    assert("cxx"@ =~= seq!['c', 'x', 'x']);
    reveal_strlit("hpp");
    assert("hpp"@ =~= seq!['h', 'p', 'p']);
    reveal_strlit("hh");
    assert("hh"@ =~= seq!['h', 'h']);
    reveal_strlit("hxx");
    assert("hxx"@ =~= seq!['h', 'x', 'x']);
    reveal_strlit("cs");
    assert("cs"@ =~= seq!['c', 's']);
    reveal_strlit("go");
    assert("go"@ =~= seq!['g', 'o']);
    reveal_strlit("java");
    assert("java"@ =~= seq!['j', 'a', 'v', 'a']);
    reveal_strlit("js");
    assert("js"@ =~= seq!['j', 's']);
    reveal_strlit("mjs");
    assert("mjs"@ =~= seq!['m', 'j', 's']);
    reveal_strlit("cjs");
    assert("cjs"@ =~= seq!['c', 'j', 's']);
    reveal_strlit("php");
    assert("php"@ =~= seq!['p', 'h', 'p']);
    reveal_strlit("py");
    assert("py"@ =~= seq!['p', 'y']);
    reveal_strlit("rb");
    assert("rb"@ =~= seq!['r', 'b']);
    reveal_strlit("sh");
    assert("sh"@ =~= seq!['s', 'h']);
    reveal_strlit("bash");
    assert("bash"@ =~= seq!['b', 'a', 's', 'h']);
    reveal_strlit("ts");
    assert("ts"@ =~= seq!['t', 's']);
    reveal_strlit("tsx");
    assert("tsx"@ =~= seq!['t', 's', 'x']);
    // The listed extensions differ within their first four characters.
    if e.len() > 0 {
        let _ = lower_code(e[0]);
    }
    if e.len() > 1 {
        let _ = lower_code(e[1]);
    }
    if e.len() > 2 {
        let _ = lower_code(e[2]);
    }
    if e.len() > 3 {
        let _ = lower_code(e[3]);
    }
}

/// The extension of a file name is the text after its last `.`, whenever
/// that `.` is not the first character, whatever the first character is:
/// `.eslintrc.js` has the extension `js`.
pub proof fn extension_follows_last_dot(name: Seq<char>, d: int)
    requires
        0 < d < name.len(),
        name[d] == '.',
        forall|k: int| d < k < name.len() ==> name[k] != '.',
    ensures
        extension(name) == Some(name.subrange(d + 1, name.len() as int)),
{
    lemma_last_index_at(name, '.', d + 1);
}

/// A file name with no `.` after its first character has no extension:
/// `Makefile` and `.bashrc` have none.
pub proof fn no_extension_without_inner_dot(name: Seq<char>)
    requires
        forall|k: int| 0 < k < name.len() ==> name[k] != '.',
    ensures
        extension(name) is None,
{
    lemma_last_index_bounds(name, '.');
}

/// The file name of a path is its last component when that is neither empty
/// nor `.` nor `..`, with or without directories before it.
pub proof fn file_name_is_last_component(dir: Seq<char>, name: Seq<char>)
    requires
        name.len() > 0,
        forall|k: int| 0 <= k < name.len() ==> name[k] != '/',
        name != seq!['.'],
        name != seq!['.', '.'],
    ensures
        file_name(dir + seq!['/'] + name) == Some(name),
        file_name(name) == Some(name),
{
    let p = dir + seq!['/'] + name;
    let start = dir.len() as int + 1;
    assert(p[start - 1] == '/');
    assert forall|k: int| start <= k < p.len() implies p[k] != '/' by {
        assert(p[k] == name[k - start]);
    }
    lemma_last_index_at(p, '/', start);
    assert(p.last() == name.last());
    assert(p.subrange(start, p.len() as int) =~= name);
    lemma_last_index_at(name, '/', 0);
    assert(name.subrange(0, name.len() as int) =~= name);
}

/// The language of a path is the language of the text after the last `.` of
/// its file name, when that `.` is not the file name's first character:
/// `web/.eslintrc.js` is JavaScript and `web/package.json` is not counted.
pub proof fn path_language_from_last_dot(dir: Seq<char>, name: Seq<char>, d: int)
    requires
        forall|k: int| 0 <= k < name.len() ==> name[k] != '/',
        0 < d < name.len(),
        name[d] == '.',
        forall|k: int| d < k < name.len() ==> name[k] != '.',
    ensures
        path_language(dir + seq!['/'] + name) == language_of_extension(
            name.subrange(d + 1, name.len() as int),
        ),
        path_language(name) == language_of_extension(name.subrange(d + 1, name.len() as int)),
{
    assert(name != seq!['.']) by {
        if name =~= seq!['.'] {
            assert(name.len() == 1);
        }
    }
    if name =~= seq!['.', '.'] {
        // `..` names no file; the text after its last dot is empty, which
        // names no language either.
        let p = dir + seq!['/'] + name;
        let start = dir.len() as int + 1;
        assert forall|k: int| start <= k < p.len() implies p[k] != '/' by {
            assert(p[k] == name[k - start]);
        }
        lemma_last_index_at(p, '/', start);
        assert(p.subrange(start, p.len() as int) =~= name);
        lemma_last_index_at(name, '/', 0);
        assert(name.subrange(0, name.len() as int) =~= name);
        assert(name.subrange(d + 1, name.len() as int) =~= Seq::<char>::empty());
        extension_languages(Seq::<char>::empty());
    } else {
        file_name_is_last_component(dir, name);
        extension_follows_last_dot(name, d);
    }
}

/// Trailing separators and trailing `.` components do not change the file
/// name of a path, and a path whose last component is `..` names no file.
pub proof fn file_name_ignores_trailing_parts(p: Seq<char>)
    ensures
        file_name(p.push('/')) == file_name(p),
        file_name(p + seq!['/', '.']) == file_name(p),
        file_name(p + seq!['/', '.', '.']) is None,
{
    let q = p.push('/');
    assert(q.drop_last() =~= p);
    let a = p + seq!['/', '.'];
    let start = p.len() as int + 1;
    lemma_last_index_at(a, '/', start);
    assert(a.subrange(start, a.len() as int) =~= seq!['.']);
    assert(a.subrange(0, start) =~= q);
    let b = p + seq!['/', '.', '.'];
    assert forall|k: int| start <= k < b.len() implies b[k] != '/' by {}
    lemma_last_index_at(b, '/', start);
    assert(b.subrange(start, b.len() as int) =~= seq!['.', '.']);
}

} // verus!
