//! Tallying what a walk of a directory tree finds.
//!
//! Each worker of a walk keeps its own `ScanResult` and records every entry
//! it visits with `visit`; at the end `merge_results` adds the workers'
//! results together. A counted file of a known language adds one file and its
//! lines to that language; a binary file is skipped and counted as such; an
//! entry that could not be walked or read counts as a read error.
use std::collections::HashMap;

use vstd::prelude::*;

use crate::count::LineCounts;
use crate::lang::{Language, LANGUAGE_COUNT, spec_index, language_at, lemma_language_at, by_name, name_rank, by_name_at, lemma_by_name_rank};

verus! {

/// The files and lines counted for one language.
#[derive(Debug, Clone, Copy, PartialEq, Eq, Structural)]
pub struct LangStats {
    pub files: u64,
    pub lines: u64,
}

impl LangStats {
    /// No files and no lines.
    pub open spec fn zero() -> LangStats {
        LangStats { files: 0, lines: 0 }
    }
}

impl Default for LangStats {
    fn default() -> (stats: Self)
        ensures
            stats == LangStats::zero(),
    {
        LangStats { files: 0, lines: 0 }
    }
}

/// The stats of `lang` in `m`, or zero stats when `m` has none for it.
pub open spec fn stats_of(m: Map<Language, LangStats>, lang: Language) -> LangStats {
    if m.dom().contains(lang) {
        m[lang]
    } else {
        LangStats::zero()
    }
}

/// A map from languages to their stats, held in a `HashMap` keyed by the
/// position of each language in the declaration order.
#[derive(Debug)]
pub struct LangTable {
    counts: HashMap<usize, LangStats>,
}

impl View for LangTable {
    type V = Map<Language, LangStats>;

    closed spec fn view(&self) -> Map<Language, LangStats> {
        Map::new(
            |lang: Language| self.counts@.contains_key(spec_index(lang) as usize),
            |lang: Language| self.counts@[spec_index(lang) as usize],
        )
    }
}

impl LangTable {
    #[verifier::type_invariant]
    closed spec fn well_formed(&self) -> bool {
        forall|k: usize| #[trigger] self.counts@.contains_key(k) ==> k < LANGUAGE_COUNT
    }

    /// A table with no language.
    pub fn new() -> (table: Self)
        ensures
            table@ == Map::<Language, LangStats>::empty(),
    {
        let table = LangTable { counts: HashMap::new() };
        assert(table@ =~= Map::<Language, LangStats>::empty());
        table
    }

    /// The stats of `lang`, if the table has them.
    pub fn get(&self, lang: &Language) -> (stats: Option<&LangStats>)
        ensures
            stats matches Some(s) ==> self@.dom().contains(*lang) && *s == self@[*lang],
            stats is None ==> !self@.dom().contains(*lang),
    {
        broadcast use vstd::std_specs::hash::group_hash_axioms;

        self.counts.get(&lang.index())
    }

    /// Sets the stats of `lang`, returning those it had before, if any.
    pub fn insert(&mut self, lang: Language, stats: LangStats) -> (previous: Option<LangStats>)
        ensures
            final(self)@ == old(self)@.insert(lang, stats),
            previous == (if old(self)@.dom().contains(lang) {
                Some(old(self)@[lang])
            } else {
                None
            }),
    {
        broadcast use vstd::std_specs::hash::group_hash_axioms;

        proof {
            use_type_invariant(&*self);
        }
        let i = lang.index();
        let mut counts: HashMap<usize, LangStats> = HashMap::new();
        std::mem::swap(&mut counts, &mut self.counts);
        let previous = counts.insert(i, stats);
        self.counts = counts;
        proof {
            assert forall|other: Language| other != lang implies spec_index(other) != spec_index(
                lang,
            ) by {
                crate::lang::index_is_injective(other, lang);
            }
            assert(self@ =~= old(self)@.insert(lang, stats));
        }
        previous
    }

    /// Adds `files` and `lines` to the stats of `lang`, which start from zero
    /// when the table has none for it.
    pub fn add(&mut self, lang: Language, files: u64, lines: u64)
        requires
            stats_of(old(self)@, lang).files + files <= u64::MAX,
            stats_of(old(self)@, lang).lines + lines <= u64::MAX,
        ensures
            final(self)@ == old(self)@.insert(
                lang,
                LangStats {
                    files: (stats_of(old(self)@, lang).files + files) as u64,
                    lines: (stats_of(old(self)@, lang).lines + lines) as u64,
                },
            ),
    {
        let current = match self.get(&lang) {
            Some(s) => *s,
            None => LangStats::default(),
        };
        self.insert(lang, LangStats { files: current.files + files, lines: current.lines + lines });
    }

    /// How many languages the table has.
    pub fn len(&self) -> (n: usize)
        ensures
            self@.dom().finite(),
            n == self@.dom().len(),
    {
        broadcast use vstd::std_specs::hash::group_hash_axioms;

        proof {
            use_type_invariant(self);
            let keys = self.counts@.dom();
            let f = |k: usize| language_at(k as int);
            assert(vstd::relations::injective_on(f, keys)) by {
                assert forall|a: usize, b: usize|
                    keys.contains(a) && keys.contains(b) && #[trigger] f(a) == #[trigger] f(b)
                        implies a == b by {
                    lemma_language_at(Language::C, a as int);
                    lemma_language_at(Language::C, b as int);
                }
            }
            assert(keys.map(f) =~= self@.dom()) by {
                assert forall|lang: Language| #[trigger] self@.dom().contains(lang) implies keys.map(
                    f,
                ).contains(lang) by {
                    lemma_language_at(lang, 0);
                    let k = spec_index(lang) as usize;
                    assert(keys.contains(k) && f(k) == lang);
                }
                assert forall|lang: Language| #[trigger] keys.map(f).contains(lang) implies self@.dom().contains(lang) by {
                    let k = choose|k: usize| keys.contains(k) && f(k) == lang;
                    lemma_language_at(lang, k as int);
                    assert(spec_index(lang) as usize == k);
                }
            }
            vstd::set_lib::lemma_map_size(keys, self@.dom(), f);
        }
        self.counts.len()
    }

    /// Whether the table has no language.
    pub fn is_empty(&self) -> (empty: bool)
        ensures
            empty == (self@.dom() == Set::<Language>::empty()),
    {
        proof {
            lemma_by_name_rank();
        }
        let mut k: usize = 0;
        while k < LANGUAGE_COUNT
            invariant
                k <= LANGUAGE_COUNT,
                forall|lang: Language| name_rank(lang) < k ==> !self@.dom().contains(lang),
            decreases LANGUAGE_COUNT - k,
        {
            let lang = by_name_at(k);
            if self.get(&lang).is_some() {
                assert(self@.dom().contains(lang));
                return false;
            }
            k = k + 1;
        }
        assert(self@.dom() =~= Set::<Language>::empty());
        true
    }
}

/// What a walk of a tree found: the stats of each language seen, the number
/// of binary files skipped, and the number of entries that could not be read.
#[derive(Debug)]
pub struct ScanResult {
    pub per_language: LangTable,
    pub skipped_binary: u64,
    pub read_errors: u64,
}

impl ScanResult {
    /// Whether `r` is the result of a walk that found nothing.
    pub open spec fn is_empty_result(r: ScanResult) -> bool {
        &&& r.per_language@ == Map::<Language, LangStats>::empty()
        &&& r.skipped_binary == 0
        &&& r.read_errors == 0
    }
}

impl Default for ScanResult {
    fn default() -> (r: Self)
        ensures
            ScanResult::is_empty_result(r),
    {
        ScanResult { per_language: LangTable::new(), skipped_binary: 0, read_errors: 0 }
    }
}

/// How to walk a tree: whether `.gitignore`/`.ignore` rules are obeyed, and
/// whether hidden files and directories are included.
#[derive(Debug, Clone, Copy)]
pub struct WalkOptions {
    pub respect_ignore: bool,
    pub include_hidden: bool,
}

impl Default for WalkOptions {
    /// By default ignore rules are obeyed and hidden entries are left out.
    fn default() -> (opts: Self)
        ensures
            opts.respect_ignore,
            !opts.include_hidden,
    {
        Self { respect_ignore: true, include_hidden: false }
    }
}

/// What visiting one entry of a walk gave.
pub enum Visit {
    /// The walk could not reach the entry.
    WalkError,
    /// A file of a known language could not be read.
    ReadError,
    /// A file of the language was read and counted.
    Counted(Language, LineCounts),
}

/// The language of the entry at `path` whose lines are to be counted: only a
/// regular file of a known language is counted.
pub fn file_language(is_file: bool, path: &str) -> (lang: Option<Language>)
    ensures
        lang == (if is_file {
            crate::lang::path_language(path@)
        } else {
            None
        }),
{
    if !is_file {
        return None;
    }
    crate::lang::from_path(path)
}

/// Whether recording `event` in `r` keeps every count within `u64`.
pub open spec fn visit_fits(r: ScanResult, event: Visit) -> bool {
    match event {
        Visit::WalkError => r.read_errors < u64::MAX,
        Visit::ReadError => r.read_errors < u64::MAX,
        Visit::Counted(lang, counts) => if counts.binary {
            r.skipped_binary < u64::MAX
        } else {
            &&& stats_of(r.per_language@, lang).files < u64::MAX
            &&& stats_of(r.per_language@, lang).lines + counts.lines <= u64::MAX
        },
    }
}

/// Whether `after` is `before` with `event` recorded.
pub open spec fn visited(before: ScanResult, event: Visit, after: ScanResult) -> bool {
    match event {
        Visit::WalkError | Visit::ReadError => {
            &&& after.per_language@ == before.per_language@
            &&& after.skipped_binary == before.skipped_binary
            &&& after.read_errors == before.read_errors + 1
        },
        Visit::Counted(lang, counts) => if counts.binary {
            &&& after.per_language@ == before.per_language@
            &&& after.skipped_binary == before.skipped_binary + 1
            &&& after.read_errors == before.read_errors
        } else {
            &&& after.per_language@ == before.per_language@.insert(
                lang,
                LangStats {
                    files: (stats_of(before.per_language@, lang).files + 1) as u64,
                    lines: (stats_of(before.per_language@, lang).lines + counts.lines) as u64,
                },
            )
            &&& after.skipped_binary == before.skipped_binary
            &&& after.read_errors == before.read_errors
        },
    }
}

/// Records one visited entry in a worker's result: a counted text file adds a
/// file and its lines to its language, a binary file is skipped, and an
/// entry that could not be walked or read is a read error.
pub fn visit(local: &mut ScanResult, event: Visit)
    requires
        visit_fits(*old(local), event),
    ensures
        visited(*old(local), event, *final(local)),
{
    match event {
        Visit::WalkError | Visit::ReadError => {
            local.read_errors = local.read_errors + 1;
        },
        Visit::Counted(lang, counts) => {
            if counts.binary {
                local.skipped_binary = local.skipped_binary + 1;
            } else {
                local.per_language.add(lang, 1, counts.lines);
            }
        },
    }
}

/// The sum of the skipped binary files of `parts`.
pub open spec fn sum_skipped(parts: Seq<ScanResult>) -> int
    decreases parts.len(),
{
    if parts.len() == 0 {
        0
    } else {
        sum_skipped(parts.drop_last()) + parts.last().skipped_binary
    }
}

/// The sum of the read errors of `parts`.
pub open spec fn sum_errors(parts: Seq<ScanResult>) -> int
    decreases parts.len(),
{
    if parts.len() == 0 {
        0
    } else {
        sum_errors(parts.drop_last()) + parts.last().read_errors
    }
}

/// The sum of the files of `lang` over `parts`.
pub open spec fn sum_files(parts: Seq<ScanResult>, lang: Language) -> int
    decreases parts.len(),
{
    if parts.len() == 0 {
        0
    } else {
        sum_files(parts.drop_last(), lang) + stats_of(parts.last().per_language@, lang).files
    }
}

/// The sum of the lines of `lang` over `parts`.
pub open spec fn sum_lines(parts: Seq<ScanResult>, lang: Language) -> int
    decreases parts.len(),
{
    if parts.len() == 0 {
        0
    } else {
        sum_lines(parts.drop_last(), lang) + stats_of(parts.last().per_language@, lang).lines
    }
}

/// Whether some result of `parts` has stats for `lang`.
pub open spec fn any_has(parts: Seq<ScanResult>, lang: Language) -> bool
    decreases parts.len(),
{
    if parts.len() == 0 {
        false
    } else {
        any_has(parts.drop_last(), lang) || parts.last().per_language@.dom().contains(lang)
    }
}

/// Whether all sums over `parts` fit in `u64`.
pub open spec fn merge_fits(parts: Seq<ScanResult>) -> bool {
    &&& sum_skipped(parts) <= u64::MAX
    &&& sum_errors(parts) <= u64::MAX
    &&& forall|lang: Language| #[trigger] sum_files(parts, lang) <= u64::MAX
    &&& forall|lang: Language| #[trigger] sum_lines(parts, lang) <= u64::MAX
}

/// Whether `total` adds the results `parts` together: a language appears in
/// `total` when it appears in some part, with the sums of its files and lines.
pub open spec fn merged_from(parts: Seq<ScanResult>, total: ScanResult) -> bool {
    &&& total.skipped_binary == sum_skipped(parts)
    &&& total.read_errors == sum_errors(parts)
    &&& forall|lang: Language|
        #![trigger total.per_language@.dom().contains(lang)]
        (total.per_language@.dom().contains(lang) <==> any_has(parts, lang))
    &&& forall|lang: Language|
        #![trigger total.per_language@[lang]]
        total.per_language@.dom().contains(lang) ==> {
            &&& total.per_language@[lang].files == sum_files(parts, lang)
            &&& total.per_language@[lang].lines == sum_lines(parts, lang)
        }
}

/// Sums over a prefix of the parts are at most the sums over all of them.
proof fn lemma_prefix_sums(parts: Seq<ScanResult>, j: int, lang: Language)
    requires
        0 <= j <= parts.len(),
    ensures
        sum_skipped(parts.take(j)) <= sum_skipped(parts),
        sum_errors(parts.take(j)) <= sum_errors(parts),
        sum_files(parts.take(j), lang) <= sum_files(parts, lang),
        sum_lines(parts.take(j), lang) <= sum_lines(parts, lang),
    decreases parts.len(),
{
    if j == parts.len() {
        assert(parts.take(j) =~= parts);
    } else {
        assert(parts.take(j) =~= parts.drop_last().take(j));
        lemma_prefix_sums(parts.drop_last(), j, lang);
    }
}

/// A language that no part has sums to zero files and zero lines.
proof fn lemma_absent_sums(parts: Seq<ScanResult>, lang: Language)
    requires
        !any_has(parts, lang),
    ensures
        sum_files(parts, lang) == 0,
        sum_lines(parts, lang) == 0,
    decreases parts.len(),
{
    if parts.len() > 0 {
        lemma_absent_sums(parts.drop_last(), lang);
    }
}

/// Adds the results of the workers of a walk together.
pub fn merge_results(parts: Vec<ScanResult>) -> (total: ScanResult)
    requires
        merge_fits(parts@),
    ensures
        merged_from(parts@, total),
{
    let mut total = ScanResult::default();
    proof {
        lemma_by_name_rank();
        assert(parts@.take(0) =~= Seq::<ScanResult>::empty());
    }
    let mut i: usize = 0;
    while i < parts.len()
        invariant
            i <= parts@.len(),
            merge_fits(parts@),
            merged_from(parts@.take(i as int), total),
        decreases parts@.len() - i,
    {
        let part = &parts[i];
        let ghost before = parts@.take(i as int);
        let ghost after = parts@.take(i + 1);
        proof {
            assert(after.drop_last() =~= before);
            assert(after.last() == *part);
            lemma_prefix_sums(parts@, i + 1, Language::C);
        }
        total.skipped_binary = total.skipped_binary + part.skipped_binary;
        total.read_errors = total.read_errors + part.read_errors;
        let mut k: usize = 0;
        while k < LANGUAGE_COUNT
            invariant
                k <= LANGUAGE_COUNT,
                i < parts@.len(),
                *part == parts@[i as int],
                before == parts@.take(i as int),
                after == parts@.take(i + 1),
                after.drop_last() == before,
                after.last() == *part,
                merge_fits(parts@),
                total.skipped_binary == sum_skipped(after),
                total.read_errors == sum_errors(after),
                forall|lang: Language|
                    #![trigger total.per_language@.dom().contains(lang)]
                    (total.per_language@.dom().contains(lang) <==> if name_rank(lang) < k {
                        any_has(after, lang)
                    } else {
                        any_has(before, lang)
                    }),
                forall|lang: Language|
                    #![trigger total.per_language@[lang]]
                    total.per_language@.dom().contains(lang) ==> if name_rank(lang) < k {
                        &&& total.per_language@[lang].files == sum_files(after, lang)
                        &&& total.per_language@[lang].lines == sum_lines(after, lang)
                    } else {
                        &&& total.per_language@[lang].files == sum_files(before, lang)
                        &&& total.per_language@[lang].lines == sum_lines(before, lang)
                    },
            decreases LANGUAGE_COUNT - k,
        {
            let lang = by_name_at(k);
            proof {
                lemma_by_name_rank();
                lemma_prefix_sums(parts@, i + 1, lang);
                if !any_has(before, lang) {
                    lemma_absent_sums(before, lang);
                }
            }
            proof {
                assert(sum_files(after, lang) == sum_files(before, lang) + stats_of(
                    part.per_language@,
                    lang,
                ).files);
                assert(sum_lines(after, lang) == sum_lines(before, lang) + stats_of(
                    part.per_language@,
                    lang,
                ).lines);
                assert(any_has(after, lang) == (any_has(before, lang)
                    || part.per_language@.dom().contains(lang)));
            }
            let ghost mid = total.per_language@;
            match part.per_language.get(&lang) {
                Some(stats) => {
                    total.per_language.add(lang, stats.files, stats.lines);
                },
                None => {},
            }
            proof {
                assert forall|other: Language|
                    #![trigger total.per_language@[other]]
                    total.per_language@.dom().contains(other) && other != lang
                        implies total.per_language@[other] == mid[other] by {}
            }
            k = k + 1;
        }
        i = i + 1;
    }
    proof {
        assert(parts@.take(parts@.len() as int) =~= parts@);
    }
    total
}

/// How many of `events` are walk or read errors.
pub open spec fn error_count(events: Seq<Visit>) -> nat
    decreases events.len(),
{
    if events.len() == 0 {
        0
    } else {
        error_count(events.drop_last()) + match events.last() {
            Visit::WalkError | Visit::ReadError => 1nat,
            Visit::Counted(_, _) => 0nat,
        }
    }
}

/// How many of `events` are binary files.
pub open spec fn binary_count(events: Seq<Visit>) -> nat
    decreases events.len(),
{
    if events.len() == 0 {
        0
    } else {
        binary_count(events.drop_last()) + match events.last() {
            Visit::Counted(_, counts) => if counts.binary {
                1nat
            } else {
                0nat
            },
            _ => 0nat,
        }
    }
}

/// How many of `events` are counted text files of `lang`.
pub open spec fn file_count(events: Seq<Visit>, lang: Language) -> nat
    decreases events.len(),
{
    if events.len() == 0 {
        0
    } else {
        file_count(events.drop_last(), lang) + match events.last() {
            Visit::Counted(l, counts) => if l == lang && !counts.binary {
                1nat
            } else {
                0nat
            },
            _ => 0nat,
        }
    }
}

/// The lines of the counted text files of `lang` among `events`.
pub open spec fn line_total(events: Seq<Visit>, lang: Language) -> nat
    decreases events.len(),
{
    if events.len() == 0 {
        0
    } else {
        line_total(events.drop_last(), lang) + match events.last() {
            Visit::Counted(l, counts) => if l == lang && !counts.binary {
                counts.lines as nat
            } else {
                0nat
            },
            _ => 0nat,
        }
    }
}

/// Whether `events` hold a counted text file of `lang`.
pub open spec fn seen(events: Seq<Visit>, lang: Language) -> bool
    decreases events.len(),
{
    if events.len() == 0 {
        false
    } else {
        seen(events.drop_last(), lang) || match events.last() {
            Visit::Counted(l, counts) => l == lang && !counts.binary,
            _ => false,
        }
    }
}

/// Whether `r` holds exactly the tally of `events`: the binary files, the
/// errors, and for each language seen its files and lines.
pub open spec fn tallies(r: ScanResult, events: Seq<Visit>) -> bool {
    &&& r.skipped_binary == binary_count(events)
    &&& r.read_errors == error_count(events)
    &&& forall|lang: Language|
        #![trigger r.per_language@.dom().contains(lang)]
        (r.per_language@.dom().contains(lang) <==> seen(events, lang))
    &&& forall|lang: Language|
        #![trigger r.per_language@[lang]]
        r.per_language@.dom().contains(lang) ==> {
            &&& r.per_language@[lang].files == file_count(events, lang)
            &&& r.per_language@[lang].lines == line_total(events, lang)
        }
}

/// The events of several workers, one worker after the other.
pub open spec fn concat_visits(events: Seq<Seq<Visit>>) -> Seq<Visit>
    decreases events.len(),
{
    if events.len() == 0 {
        Seq::empty()
    } else {
        concat_visits(events.drop_last()) + events.last()
    }
}

/// A language never seen has no files and no lines.
proof fn lemma_unseen_counts(events: Seq<Visit>, lang: Language)
    requires
        !seen(events, lang),
    ensures
        file_count(events, lang) == 0,
        line_total(events, lang) == 0,
    decreases events.len(),
{
    if events.len() > 0 {
        lemma_unseen_counts(events.drop_last(), lang);
    }
}

/// The counts of a concatenation are the sums of the counts of its parts.
proof fn lemma_counts_append(a: Seq<Visit>, b: Seq<Visit>, lang: Language)
    ensures
        error_count(a + b) == error_count(a) + error_count(b),
        binary_count(a + b) == binary_count(a) + binary_count(b),
        file_count(a + b, lang) == file_count(a, lang) + file_count(b, lang),
        line_total(a + b, lang) == line_total(a, lang) + line_total(b, lang),
        seen(a + b, lang) == (seen(a, lang) || seen(b, lang)),
    decreases b.len(),
{
    if b.len() == 0 {
        assert(a + b =~= a);
    } else {
        assert((a + b).drop_last() =~= a + b.drop_last());
        lemma_counts_append(a, b.drop_last(), lang);
    }
}

/// A result with nothing in it is the tally of no events.
pub proof fn empty_result_tallies_nothing(r: ScanResult)
    requires
        ScanResult::is_empty_result(r),
    ensures
        tallies(r, Seq::empty()),
{
}

/// Recording an event with `visit` turns the tally of some events into the
/// tally of those events followed by the new one.
pub proof fn visit_extends_tally(
    before: ScanResult,
    events: Seq<Visit>,
    event: Visit,
    after: ScanResult,
)
    requires
        tallies(before, events),
        visit_fits(before, event),
        visited(before, event, after),
    ensures
        tallies(after, events.push(event)),
{
    let es = events.push(event);
    assert(es.drop_last() =~= events);
    assert(es.last() == event);
    if let Visit::Counted(lang, counts) = event {
        if !counts.binary && !seen(events, lang) {
            lemma_unseen_counts(events, lang);
        }
    }
}

/// Sums over the workers' results are the counts over all their events.
proof fn lemma_sums_are_counts(parts: Seq<ScanResult>, events: Seq<Seq<Visit>>, lang: Language)
    requires
        parts.len() == events.len(),
        forall|i: int| 0 <= i < parts.len() ==> tallies(#[trigger] parts[i], events[i]),
    ensures
        sum_skipped(parts) == binary_count(concat_visits(events)),
        sum_errors(parts) == error_count(concat_visits(events)),
        sum_files(parts, lang) == file_count(concat_visits(events), lang),
        sum_lines(parts, lang) == line_total(concat_visits(events), lang),
        any_has(parts, lang) == seen(concat_visits(events), lang),
    decreases parts.len(),
{
    if parts.len() > 0 {
        let n = parts.len() - 1;
        assert forall|i: int| 0 <= i < parts.drop_last().len() implies tallies(
            #[trigger] parts.drop_last()[i],
            events.drop_last()[i],
        ) by {
            assert(tallies(parts[i], events[i]));
        }
        lemma_sums_are_counts(parts.drop_last(), events.drop_last(), lang);
        lemma_counts_append(concat_visits(events.drop_last()), events.last(), lang);
        assert(tallies(parts[n], events[n]));
        let last = parts.last();
        if !last.per_language@.dom().contains(lang) {
            lemma_unseen_counts(events.last(), lang);
        }
    }
}

/// Adding the workers' results together with `merge_results` gives the tally
/// of all the events of all the workers, however they were shared out: the
/// counts of a walk do not depend on how its entries went to the workers.
pub proof fn merge_tallies_all_events(
    parts: Seq<ScanResult>,
    events: Seq<Seq<Visit>>,
    total: ScanResult,
)
    requires
        parts.len() == events.len(),
        forall|i: int| 0 <= i < parts.len() ==> tallies(#[trigger] parts[i], events[i]),
        merged_from(parts, total),
    ensures
        tallies(total, concat_visits(events)),
{
    lemma_sums_are_counts(parts, events, Language::C);
    assert forall|lang: Language|
        #![trigger total.per_language@.dom().contains(lang)]
        (total.per_language@.dom().contains(lang) <==> seen(concat_visits(events), lang)) by {
        lemma_sums_are_counts(parts, events, lang);
    }
    assert forall|lang: Language|
        #![trigger total.per_language@[lang]]
        total.per_language@.dom().contains(lang) implies {
            &&& total.per_language@[lang].files == file_count(concat_visits(events), lang)
            &&& total.per_language@[lang].lines == line_total(concat_visits(events), lang)
        } by {
        lemma_sums_are_counts(parts, events, lang);
    }
}

/// Whether two results hold the same tally: the same languages with the same
/// stats, the same number of binary files and of read errors.
pub open spec fn same_tally(a: ScanResult, b: ScanResult) -> bool {
    &&& a.per_language@ == b.per_language@
    &&& a.skipped_binary == b.skipped_binary
    &&& a.read_errors == b.read_errors
}

/// Taking out the part at `i` takes its counts out of the sums.
proof fn lemma_sums_remove(parts: Seq<ScanResult>, i: int, lang: Language)
    requires
        0 <= i < parts.len(),
    ensures
        sum_skipped(parts) == sum_skipped(parts.remove(i)) + parts[i].skipped_binary,
        sum_errors(parts) == sum_errors(parts.remove(i)) + parts[i].read_errors,
        sum_files(parts, lang) == sum_files(parts.remove(i), lang) + stats_of(
            parts[i].per_language@,
            lang,
        ).files,
        sum_lines(parts, lang) == sum_lines(parts.remove(i), lang) + stats_of(
            parts[i].per_language@,
            lang,
        ).lines,
        any_has(parts, lang) == (any_has(parts.remove(i), lang)
            || parts[i].per_language@.dom().contains(lang)),
    decreases parts.len(),
{
    if i == parts.len() - 1 {
        assert(parts.remove(i) =~= parts.drop_last());
    } else {
        assert(parts.remove(i).drop_last() =~= parts.drop_last().remove(i));
        assert(parts.remove(i).last() == parts.last());
        lemma_sums_remove(parts.drop_last(), i, lang);
    }
}

/// Parts that are a reordering of each other have the same sums.
proof fn lemma_reordered_sums(p: Seq<ScanResult>, q: Seq<ScanResult>, lang: Language)
    requires
        p.to_multiset() == q.to_multiset(),
    ensures
        sum_skipped(p) == sum_skipped(q),
        sum_errors(p) == sum_errors(q),
        sum_files(p, lang) == sum_files(q, lang),
        sum_lines(p, lang) == sum_lines(q, lang),
        any_has(p, lang) == any_has(q, lang),
    decreases p.len(),
{
    broadcast use vstd::seq_lib::group_to_multiset_ensures;
    broadcast use vstd::multiset::group_multiset_axioms;

    if p.len() == 0 {
        assert(q.len() == q.to_multiset().len());
        assert(q =~= Seq::<ScanResult>::empty());
    } else {
        let x = p.last();
        let p0 = p.drop_last();
        assert(p0.push(x) =~= p);
        assert(p.to_multiset() =~= p0.to_multiset().insert(x));
        assert(q.to_multiset().count(x) > 0);
        assert(q.contains(x));
        let i = choose|i: int| 0 <= i < q.len() && q[i] == x;
        assert(q.remove(i).to_multiset() =~= q.to_multiset().remove(x));
        assert(p0.to_multiset().insert(x).remove(x) =~= p0.to_multiset());
        lemma_reordered_sums(p0, q.remove(i), lang);
        lemma_sums_remove(q, i, lang);
    }
}

/// The sums over parts one after the other are the sums of the sums.
proof fn lemma_sums_append(p: Seq<ScanResult>, q: Seq<ScanResult>, lang: Language)
    ensures
        sum_skipped(p + q) == sum_skipped(p) + sum_skipped(q),
        sum_errors(p + q) == sum_errors(p) + sum_errors(q),
        sum_files(p + q, lang) == sum_files(p, lang) + sum_files(q, lang),
        sum_lines(p + q, lang) == sum_lines(p, lang) + sum_lines(q, lang),
        any_has(p + q, lang) == (any_has(p, lang) || any_has(q, lang)),
    decreases q.len(),
{
    if q.len() == 0 {
        assert(p + q =~= p);
    } else {
        assert((p + q).drop_last() =~= p + q.drop_last());
        lemma_sums_append(p, q.drop_last(), lang);
    }
}

/// What a merged result holds of one language, as a part of another merge.
proof fn lemma_merged_stats(parts: Seq<ScanResult>, total: ScanResult, lang: Language)
    requires
        merged_from(parts, total),
    ensures
        stats_of(total.per_language@, lang).files == sum_files(parts, lang),
        stats_of(total.per_language@, lang).lines == sum_lines(parts, lang),
        total.per_language@.dom().contains(lang) == any_has(parts, lang),
{
    if !total.per_language@.dom().contains(lang) {
        lemma_absent_sums(parts, lang);
    }
}

/// Two results whose sums over the parts agree hold the same tally.
proof fn lemma_same_sums_same_tally(p: Seq<ScanResult>, q: Seq<ScanResult>, a: ScanResult, b: ScanResult)
    requires
        merged_from(p, a),
        merged_from(q, b),
        sum_skipped(p) == sum_skipped(q),
        sum_errors(p) == sum_errors(q),
        forall|lang: Language|
            #![trigger sum_files(p, lang)]
            {
                &&& sum_files(p, lang) == sum_files(q, lang)
                &&& sum_lines(p, lang) == sum_lines(q, lang)
                &&& any_has(p, lang) == any_has(q, lang)
            },
    ensures
        same_tally(a, b),
{
    assert forall|lang: Language| #[trigger] a.per_language@.dom().contains(lang)
        == b.per_language@.dom().contains(lang) by {
        assert(sum_files(p, lang) == sum_files(q, lang));
    }
    assert forall|lang: Language| a.per_language@.dom().contains(lang) implies #[trigger] a.per_language@[lang]
        == b.per_language@[lang] by {
        assert(sum_files(p, lang) == sum_files(q, lang));
        assert(b.per_language@.dom().contains(lang));
    }
    assert(a.per_language@ =~= b.per_language@);
}

/// The result of `merge_results` does not depend on the order of the parts:
/// parts that are a reordering of each other merge to the same tally.
pub proof fn merge_ignores_order(p: Seq<ScanResult>, q: Seq<ScanResult>, a: ScanResult, b: ScanResult)
    requires
        p.to_multiset() == q.to_multiset(),
        merged_from(p, a),
        merged_from(q, b),
    ensures
        same_tally(a, b),
{
    lemma_reordered_sums(p, q, Language::C);
    assert forall|lang: Language|
        #![trigger sum_files(p, lang)]
        {
            &&& sum_files(p, lang) == sum_files(q, lang)
            &&& sum_lines(p, lang) == sum_lines(q, lang)
            &&& any_has(p, lang) == any_has(q, lang)
        } by {
        lemma_reordered_sums(p, q, lang);
    }
    lemma_same_sums_same_tally(p, q, a, b);
}

/// The sums over two results are the sums of their counts.
proof fn lemma_grouped_sums(a: ScanResult, b: ScanResult, lang: Language)
    ensures
        sum_skipped(seq![a, b]) == a.skipped_binary + b.skipped_binary,
        sum_errors(seq![a, b]) == a.read_errors + b.read_errors,
        sum_files(seq![a, b], lang) == stats_of(a.per_language@, lang).files + stats_of(
            b.per_language@,
            lang,
        ).files,
        sum_lines(seq![a, b], lang) == stats_of(a.per_language@, lang).lines + stats_of(
            b.per_language@,
            lang,
        ).lines,
        any_has(seq![a, b], lang) == (a.per_language@.dom().contains(lang)
            || b.per_language@.dom().contains(lang)),
{
    let ab = seq![a, b];
    assert(ab.drop_last() =~= seq![a]);
    assert(seq![a].drop_last() =~= Seq::<ScanResult>::empty());
    reveal_with_fuel(sum_skipped, 3);
    reveal_with_fuel(sum_errors, 3);
    reveal_with_fuel(sum_files, 3);
    reveal_with_fuel(sum_lines, 3);
    reveal_with_fuel(any_has, 3);
}

/// The result of `merge_results` does not depend on grouping: merging the
/// merges of `p` and of `q` gives exactly what merging `p` then `q` gives.
pub proof fn merge_ignores_grouping(
    p: Seq<ScanResult>,
    q: Seq<ScanResult>,
    a: ScanResult,
    b: ScanResult,
    c: ScanResult,
)
    requires
        merged_from(p, a),
        merged_from(q, b),
        merged_from(seq![a, b], c),
    ensures
        merged_from(p + q, c),
{
    lemma_grouped_sums(a, b, Language::C);
    lemma_sums_append(p, q, Language::C);
    assert forall|lang: Language| #[trigger] c.per_language@.dom().contains(lang) <==> any_has(
        p + q,
        lang,
    ) by {
        lemma_grouped_sums(a, b, lang);
        lemma_sums_append(p, q, lang);
        lemma_merged_stats(p, a, lang);
        lemma_merged_stats(q, b, lang);
    }
    assert forall|lang: Language| #[trigger] c.per_language@.dom().contains(lang) implies {
        &&& c.per_language@[lang].files == sum_files(p + q, lang)
        &&& c.per_language@[lang].lines == sum_lines(p + q, lang)
    } by {
        lemma_grouped_sums(a, b, lang);
        lemma_sums_append(p, q, lang);
        lemma_merged_stats(p, a, lang);
        lemma_merged_stats(q, b, lang);
    }
}

} // verus!
