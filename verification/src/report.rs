//! The report of a scan: a table with one row per language, sorted by name,
//! then a total row, and a note on skipped binary files and read errors
//! when there were any. The columns are at least 13, 6 and 9 characters
//! wide, and wider when a name or a total needs it. Numbers in the table
//! have `,` between groups of three digits.
use vstd::prelude::*;

use crate::lang::{Language, LANGUAGE_COUNT, spec_name, by_name, by_name_at, name_rank, lemma_by_name_rank};
use crate::walk::{LangStats, LangTable, ScanResult, stats_of};

verus! {

/// The character of a decimal digit.
pub open spec fn digit_char(d: nat) -> char {
    if d == 0 {
        '0'
    } else if d == 1 {
        '1'
    } else if d == 2 {
        '2'
    } else if d == 3 {
        '3'
    } else if d == 4 {
        '4'
    } else if d == 5 {
        '5'
    } else if d == 6 {
        '6'
    } else if d == 7 {
        '7'
    } else if d == 8 {
        '8'
    } else {
        '9'
    }
}

/// The decimal digits of `n`, most significant first, without leading zeros.
pub open spec fn decimal(n: nat) -> Seq<char>
    decreases n,
{
    if n < 10 {
        seq![digit_char(n)]
    } else {
        decimal(n / 10).push(digit_char(n % 10))
    }
}

/// The three decimal digits of `m` (below 1000), zero-padded on the left.
pub open spec fn three_digits(m: nat) -> Seq<char> {
    seq![digit_char(m / 100), digit_char((m / 10) % 10), digit_char(m % 10)]
}

/// `n` in decimal with `,` between groups of three digits, counted from the right.
pub open spec fn with_commas(n: nat) -> Seq<char>
    decreases n,
{
    if n < 1000 {
        decimal(n)
    } else {
        with_commas(n / 1000) + seq![','] + three_digits(n % 1000)
    }
}

/// Appends the digit `d`.
fn push_digit(out: &mut String, d: u64)
    requires
        d < 10,
    ensures
        final(out)@ == old(out)@.push(digit_char(d as nat)),
{
    if d == 0 {
        proof {
            reveal_strlit("0");
        }
        out.append("0");
    } else if d == 1 {
        proof {
            reveal_strlit("1");
        }
        out.append("1");
    } else if d == 2 {
        proof {
            reveal_strlit("2");
        }
        out.append("2");
    } else if d == 3 {
        proof {
            reveal_strlit("3");
        }
        out.append("3");
    } else if d == 4 {
        proof {
            reveal_strlit("4");
        }
        out.append("4");
    } else if d == 5 {
        proof {
            reveal_strlit("5");
        }
        out.append("5");
    } else if d == 6 {
        proof {
            reveal_strlit("6");
        }
        out.append("6");
    } else if d == 7 {
        proof {
            reveal_strlit("7");
        }
        out.append("7");
    } else if d == 8 {
        proof {
            reveal_strlit("8");
        }
        out.append("8");
    } else {
        proof {
            reveal_strlit("9");
        }
        out.append("9");
    }
}

/// Appends `n` in decimal.
fn push_decimal(out: &mut String, n: u64)
    ensures
        final(out)@ == old(out)@ + decimal(n as nat),
    decreases n,
{
    if n >= 10 {
        push_decimal(out, n / 10);
    }
    push_digit(out, n % 10);
    proof {
        if n < 10 {
            assert(decimal(n as nat) == seq![digit_char(n as nat)]);
        }
    }
}

/// Formats `n` in decimal with `,` between groups of three digits, as in
/// `1,234,567`.
pub fn format_num(n: u64) -> (s: String)
    ensures
        s@ == with_commas(n as nat),
    decreases n,
{
    if n < 1000 {
        let mut s = String::new();
        push_decimal(&mut s, n);
        return s;
    }
    let mut s = format_num(n / 1000);
    proof {
        reveal_strlit(",");
    }
    s.append(",");
    let m = n % 1000;
    push_digit(&mut s, m / 100);
    push_digit(&mut s, (m / 10) % 10);
    push_digit(&mut s, m % 10);
    proof {
        assert(s@ =~= with_commas((n / 1000) as nat) + seq![','] + three_digits(m as nat));
    }
    s
}

/// The larger of two numbers.
pub open spec fn larger(a: nat, b: nat) -> nat {
    if a >= b {
        a
    } else {
        b
    }
}

/// `n` spaces, or none when `n` is not positive.
pub open spec fn spaces(n: int) -> Seq<char> {
    Seq::new(
        if n > 0 {
            n as nat
        } else {
            0
        },
        |i: int| ' ',
    )
}

/// `n` dashes.
pub open spec fn dashes(n: nat) -> Seq<char> {
    Seq::new(n, |i: int| '-')
}

/// `s` followed by spaces up to width `w`.
pub open spec fn pad_right(s: Seq<char>, w: nat) -> Seq<char> {
    s + spaces(w - s.len())
}

/// `s` preceded by spaces up to width `w`.
pub open spec fn pad_left(s: Seq<char>, w: nat) -> Seq<char> {
    spaces(w - s.len()) + s
}

/// The least width of the language column.
pub const MIN_LANGUAGE_WIDTH: usize = 13;

/// The least width of the files column.
pub const MIN_FILES_WIDTH: usize = 6;

/// The least width of the lines column.
pub const MIN_LINES_WIDTH: usize = 9;

/// The column widths of a table: language, files, lines.
pub struct Widths {
    pub lang: usize,
    pub files: usize,
    pub lines: usize,
}

/// One line of the table: the first cell left-aligned, the other two
/// right-aligned, two spaces between cells.
pub open spec fn table_line(a: Seq<char>, b: Seq<char>, c: Seq<char>, w: Widths) -> Seq<char> {
    pad_right(a, w.lang as nat) + "  "@ + pad_left(b, w.files as nat) + "  "@ + pad_left(
        c,
        w.lines as nat,
    ) + "\n"@
}

/// The line of dashes under the header and above the total.
pub open spec fn separator(w: Widths) -> Seq<char> {
    dashes(w.lang as nat) + "  "@ + dashes(w.files as nat) + "  "@ + dashes(w.lines as nat)
        + "\n"@
}

/// The sum of the files of the first `k` languages in name order.
pub open spec fn total_files(m: Map<Language, LangStats>, k: nat) -> nat
    decreases k,
{
    if k == 0 {
        0
    } else {
        total_files(m, (k - 1) as nat) + stats_of(m, by_name()[k - 1]).files as nat
    }
}

/// The sum of the lines of the first `k` languages in name order.
pub open spec fn total_lines(m: Map<Language, LangStats>, k: nat) -> nat
    decreases k,
{
    if k == 0 {
        0
    } else {
        total_lines(m, (k - 1) as nat) + stats_of(m, by_name()[k - 1]).lines as nat
    }
}

/// The length of the longest name among the first `k` languages in name
/// order that `m` has.
pub open spec fn widest_name(m: Map<Language, LangStats>, k: nat) -> nat
    decreases k,
{
    if k == 0 {
        0
    } else {
        let lang = by_name()[k - 1];
        larger(
            widest_name(m, (k - 1) as nat),
            if m.dom().contains(lang) {
                spec_name(lang).len()
            } else {
                0
            },
        )
    }
}

/// The rows of the first `k` languages in name order that `m` has.
pub open spec fn language_rows(m: Map<Language, LangStats>, k: nat, w: Widths) -> Seq<char>
    decreases k,
{
    if k == 0 {
        Seq::empty()
    } else {
        let lang = by_name()[k - 1];
        language_rows(m, (k - 1) as nat, w) + if m.dom().contains(lang) {
            table_line(
                spec_name(lang),
                with_commas(m[lang].files as nat),
                with_commas(m[lang].lines as nat),
                w,
            )
        } else {
            Seq::empty()
        }
    }
}

/// The column widths of the report of `r`: each column is as wide as its
/// header, its widest name or its total, whichever is widest, and no
/// narrower than its least width (13, 6 and 9).
pub open spec fn report_widths(r: ScanResult) -> Widths {
    let m = r.per_language@;
    Widths {
        lang: larger(
            larger(larger(widest_name(m, LANGUAGE_COUNT as nat), "Language"@.len()), "Total"@.len()),
            MIN_LANGUAGE_WIDTH as nat,
        ) as usize,
        files: larger(
            larger(with_commas(total_files(m, LANGUAGE_COUNT as nat)).len(), "Files"@.len()),
            MIN_FILES_WIDTH as nat,
        ) as usize,
        lines: larger(
            larger(with_commas(total_lines(m, LANGUAGE_COUNT as nat)).len(), "Lines"@.len()),
            MIN_LINES_WIDTH as nat,
        ) as usize,
    }
}

/// The note on skipped binary files and read errors, present when either
/// count is not zero.
pub open spec fn footer(r: ScanResult) -> Seq<char> {
    if r.skipped_binary > 0 || r.read_errors > 0 {
        "\nSkipped "@ + decimal(r.skipped_binary as nat) + " binary file(s); "@ + decimal(
            r.read_errors as nat,
        ) + " read error(s).\n"@
    } else {
        Seq::empty()
    }
}

/// The whole report of `r`.
pub open spec fn report_text(r: ScanResult) -> Seq<char> {
    let m = r.per_language@;
    let w = report_widths(r);
    table_line("Language"@, "Files"@, "Lines"@, w) + separator(w) + language_rows(
        m,
        LANGUAGE_COUNT as nat,
        w,
    ) + separator(w) + table_line(
        "Total"@,
        with_commas(total_files(m, LANGUAGE_COUNT as nat)),
        with_commas(total_lines(m, LANGUAGE_COUNT as nat)),
        w,
    ) + footer(r)
}

/// Whether the totals of `r` fit in `u64`.
pub open spec fn report_fits(r: ScanResult) -> bool {
    &&& total_files(r.per_language@, LANGUAGE_COUNT as nat) <= u64::MAX
    &&& total_lines(r.per_language@, LANGUAGE_COUNT as nat) <= u64::MAX
}

/// Totals over fewer languages are no larger.
proof fn lemma_totals_monotone(m: Map<Language, LangStats>, j: nat, k: nat)
    requires
        j <= k,
    ensures
        total_files(m, j) <= total_files(m, k),
        total_lines(m, j) <= total_lines(m, k),
    decreases k,
{
    if j < k {
        lemma_totals_monotone(m, j, (k - 1) as nat);
    }
}

/// Appends `n` copies of `piece`, which is one character `c`.
fn push_repeated(out: &mut String, n: usize, piece: &str, Ghost(c): Ghost<char>)
    requires
        piece@ == seq![c],
    ensures
        final(out)@ == old(out)@ + Seq::new(n as nat, |i: int| c),
{
    let mut k: usize = 0;
    while k < n
        invariant
            k <= n,
            piece@ == seq![c],
            out@ =~= old(out)@ + Seq::new(k as nat, |i: int| c),
        decreases n - k,
    {
        out.append(piece);
        k = k + 1;
    }
}

/// Appends `n` spaces.
fn push_spaces(out: &mut String, n: usize)
    ensures
        final(out)@ == old(out)@ + spaces(n as int),
{
    proof {
        reveal_strlit(" ");
        assert(" "@ =~= seq![' ']);
    }
    push_repeated(out, n, " ", Ghost(' '));
    assert(spaces(n as int) =~= Seq::new(n as nat, |i: int| ' '));
}

/// Appends one line of the table.
fn push_line(out: &mut String, a: &str, b: &str, c: &str, w: &Widths)
    ensures
        final(out)@ == old(out)@ + table_line(a@, b@, c@, *w),
{
    let a_len = a.unicode_len();
    let b_len = b.unicode_len();
    let c_len = c.unicode_len();
    out.append(a);
    push_spaces(out, if w.lang > a_len { w.lang - a_len } else { 0 });
    out.append("  ");
    push_spaces(out, if w.files > b_len { w.files - b_len } else { 0 });
    out.append(b);
    out.append("  ");
    push_spaces(out, if w.lines > c_len { w.lines - c_len } else { 0 });
    out.append(c);
    out.append("\n");
    proof {
        assert(spaces((if w.lang > a_len { w.lang - a_len } else { 0 }) as int) =~= spaces(
            w.lang - a@.len(),
        ));
        assert(spaces((if w.files > b_len { w.files - b_len } else { 0 }) as int) =~= spaces(
            w.files - b@.len(),
        ));
        assert(spaces((if w.lines > c_len { w.lines - c_len } else { 0 }) as int) =~= spaces(
            w.lines - c@.len(),
        ));
        assert(final(out)@ =~= old(out)@ + table_line(a@, b@, c@, *w));
    }
}

/// Appends the line of dashes.
fn push_separator(out: &mut String, w: &Widths)
    ensures
        final(out)@ == old(out)@ + separator(*w),
{
    proof {
        reveal_strlit("-");
        assert("-"@ =~= seq!['-']);
    }
    push_repeated(out, w.lang, "-", Ghost('-'));
    out.append("  ");
    push_repeated(out, w.files, "-", Ghost('-'));
    out.append("  ");
    push_repeated(out, w.lines, "-", Ghost('-'));
    out.append("\n");
    assert(final(out)@ =~= old(out)@ + separator(*w));
}

/// The totals of files and lines over all languages of `table`, and the
/// length of its longest language name.
fn measure(table: &LangTable) -> (totals: (u64, u64, usize))
    requires
        total_files(table@, LANGUAGE_COUNT as nat) <= u64::MAX,
        total_lines(table@, LANGUAGE_COUNT as nat) <= u64::MAX,
    ensures
        totals.0 == total_files(table@, LANGUAGE_COUNT as nat),
        totals.1 == total_lines(table@, LANGUAGE_COUNT as nat),
        totals.2 == widest_name(table@, LANGUAGE_COUNT as nat),
{
    let ghost m = table@;
    proof {
        lemma_by_name_rank();
    }
    let mut files_sum: u64 = 0;
    let mut lines_sum: u64 = 0;
    let mut name_w: usize = 0;
    let mut k: usize = 0;
    while k < LANGUAGE_COUNT
        invariant
            k <= LANGUAGE_COUNT,
            m == table@,
            total_files(m, LANGUAGE_COUNT as nat) <= u64::MAX,
            total_lines(m, LANGUAGE_COUNT as nat) <= u64::MAX,
            files_sum == total_files(m, k as nat),
            lines_sum == total_lines(m, k as nat),
            name_w == widest_name(m, k as nat),
        decreases LANGUAGE_COUNT - k,
    {
        proof {
            lemma_totals_monotone(m, (k + 1) as nat, LANGUAGE_COUNT as nat);
        }
        let lang = by_name_at(k);
        match table.get(&lang) {
            Some(stats) => {
                files_sum = files_sum + stats.files;
                lines_sum = lines_sum + stats.lines;
                let n = lang.name().unicode_len();
                if n > name_w {
                    name_w = n;
                }
            },
            None => {},
        }
        k = k + 1;
    }
    (files_sum, lines_sum, name_w)
}

/// Appends the rows of the languages of `table`, in name order.
fn push_rows(out: &mut String, table: &LangTable, w: &Widths)
    ensures
        final(out)@ == old(out)@ + language_rows(table@, LANGUAGE_COUNT as nat, *w),
{
    let ghost m = table@;
    let mut k: usize = 0;
    while k < LANGUAGE_COUNT
        invariant
            k <= LANGUAGE_COUNT,
            m == table@,
            out@ == old(out)@ + language_rows(m, k as nat, *w),
        decreases LANGUAGE_COUNT - k,
    {
        let lang = by_name_at(k);
        match table.get(&lang) {
            Some(stats) => {
                let f = format_num(stats.files);
                let l = format_num(stats.lines);
                push_line(out, lang.name(), f.as_str(), l.as_str(), w);
            },
            None => {},
        }
        assert(out@ =~= old(out)@ + language_rows(m, (k + 1) as nat, *w));
        k = k + 1;
    }
}

/// Appends the note on skipped binary files and read errors, if any.
fn push_footer(out: &mut String, result: &ScanResult)
    ensures
        final(out)@ == old(out)@ + footer(*result),
{
    if result.skipped_binary > 0 || result.read_errors > 0 {
        out.append("\nSkipped ");
        push_decimal(out, result.skipped_binary);
        out.append(" binary file(s); ");
        push_decimal(out, result.read_errors);
        out.append(" read error(s).\n");
    }
    assert(final(out)@ =~= old(out)@ + footer(*result));
}

/// The larger of two widths.
fn wider(a: usize, b: usize) -> (c: usize)
    ensures
        c == larger(a as nat, b as nat),
{
    if a >= b {
        a
    } else {
        b
    }
}

/// Appends the report of `result` to `out`: a header, one row per language
/// in name order with its files and lines, a total row, and a note on
/// skipped binary files and read errors when there were any.
pub fn print(result: &ScanResult, out: &mut String)
    requires
        report_fits(*result),
    ensures
        final(out)@ == old(out)@ + report_text(*result),
{
    let (files_sum, lines_sum, name_w) = measure(&result.per_language);
    let files_text = format_num(files_sum);
    let lines_text = format_num(lines_sum);
    let lang_w = wider(
        wider(wider(name_w, "Language".unicode_len()), "Total".unicode_len()),
        MIN_LANGUAGE_WIDTH,
    );
    let files_w = wider(
        wider(files_text.as_str().unicode_len(), "Files".unicode_len()),
        MIN_FILES_WIDTH,
    );
    let lines_w = wider(
        wider(lines_text.as_str().unicode_len(), "Lines".unicode_len()),
        MIN_LINES_WIDTH,
    );
    let w = Widths { lang: lang_w, files: files_w, lines: lines_w };
    assert(w == report_widths(*result));
    let ghost start = out@;
    push_line(out, "Language", "Files", "Lines", &w);
    push_separator(out, &w);
    push_rows(out, &result.per_language, &w);
    push_separator(out, &w);
    push_line(out, "Total", files_text.as_str(), lines_text.as_str(), &w);
    push_footer(out, result);
    assert(out@ =~= start + report_text(*result));
}

/// `s` with its commas taken out.
pub open spec fn strip_commas(s: Seq<char>) -> Seq<char>
    decreases s.len(),
{
    if s.len() == 0 {
        Seq::empty()
    } else if s.last() == ',' {
        strip_commas(s.drop_last())
    } else {
        strip_commas(s.drop_last()).push(s.last())
    }
}

/// The number that the decimal digits `s` spell.
pub open spec fn digits_value(s: Seq<char>) -> int
    decreases s.len(),
{
    if s.len() == 0 {
        0
    } else {
        digits_value(s.drop_last()) * 10 + (s.last() as u32 - 48)
    }
}

proof fn lemma_digit_char(d: nat)
    requires
        d < 10,
    ensures
        digit_char(d) as u32 - 48 == d,
        digit_char(d) != ',',
{
}

proof fn lemma_strip_append(a: Seq<char>, b: Seq<char>)
    ensures
        strip_commas(a + b) == strip_commas(a) + strip_commas(b),
    decreases b.len(),
{
    if b.len() == 0 {
        assert(a + b =~= a);
        assert(strip_commas(a) + strip_commas(b) =~= strip_commas(a));
    } else {
        assert((a + b).drop_last() =~= a + b.drop_last());
        lemma_strip_append(a, b.drop_last());
        assert(strip_commas(a + b.drop_last()).push(b.last()) =~= strip_commas(a) + strip_commas(
            b.drop_last(),
        ).push(b.last()));
    }
}

proof fn lemma_decimal_has_no_commas(n: nat)
    ensures
        strip_commas(decimal(n)) == decimal(n),
    decreases n,
{
    if n < 10 {
        lemma_digit_char(n);
        reveal_with_fuel(strip_commas, 2);
        assert(decimal(n).drop_last() =~= Seq::<char>::empty());
        assert(strip_commas(decimal(n)) =~= decimal(n));
    } else {
        lemma_decimal_has_no_commas(n / 10);
        lemma_digit_char(n % 10);
        assert(decimal(n).drop_last() =~= decimal(n / 10));
    }
}

proof fn lemma_decimal_value(n: nat)
    ensures
        digits_value(decimal(n)) == n,
    decreases n,
{
    lemma_digit_char(n % 10);
    reveal_with_fuel(digits_value, 2);
    if n < 10 {
        assert(decimal(n).drop_last() =~= Seq::<char>::empty());
    } else {
        lemma_decimal_value(n / 10);
        assert(decimal(n).drop_last() =~= decimal(n / 10));
        assert((n / 10) * 10 + n % 10 == n) by (nonlinear_arith);
    }
}

/// The decimal digits of a number of at least 1000 are those of its
/// thousands followed by its last three digits.
proof fn lemma_decimal_split(n: nat)
    requires
        n >= 1000,
    ensures
        decimal(n) == decimal(n / 1000) + three_digits(n % 1000),
{
    assert((n / 10) / 10 == n / 100) by (nonlinear_arith);
    assert((n / 100) / 10 == n / 1000) by (nonlinear_arith);
    assert((n % 1000) / 100 == (n / 100) % 10) by (nonlinear_arith);
    assert(((n % 1000) / 10) % 10 == (n / 10) % 10) by (nonlinear_arith);
    assert((n % 1000) % 10 == n % 10) by (nonlinear_arith);
    assert(decimal(n / 10) == decimal(n / 100).push(digit_char((n / 10) % 10)));
    assert(decimal(n / 100) == decimal(n / 1000).push(digit_char((n / 100) % 10)));
    assert(decimal(n) =~= decimal(n / 1000) + three_digits(n % 1000));
}

/// `format_num` only puts separators between the digits: taking the commas
/// out of `format_num(n)` leaves the decimal digits of `n`, which spell `n`.
pub proof fn format_num_reads_back(n: nat)
    ensures
        strip_commas(with_commas(n)) == decimal(n),
        digits_value(strip_commas(with_commas(n))) == n,
    decreases n,
{
    lemma_decimal_value(n);
    if n < 1000 {
        lemma_decimal_has_no_commas(n);
    } else {
        format_num_reads_back(n / 1000);
        lemma_decimal_split(n);
        let t = three_digits(n % 1000);
        lemma_strip_append(with_commas(n / 1000) + seq![','], t);
        lemma_strip_append(with_commas(n / 1000), seq![',']);
        reveal_with_fuel(strip_commas, 4);
        assert(seq![','].drop_last() =~= Seq::<char>::empty());
        assert(strip_commas(seq![',']) =~= Seq::<char>::empty());
        lemma_digit_char((n % 1000) / 100);
        lemma_digit_char(((n % 1000) / 10) % 10);
        lemma_digit_char((n % 1000) % 10);
        assert(t.drop_last().drop_last().drop_last() =~= Seq::<char>::empty());
        assert(t.drop_last().drop_last() =~= seq![t[0]]);
        assert(t.drop_last() =~= seq![t[0], t[1]]);
        assert(strip_commas(t) =~= t);
        assert(strip_commas(with_commas(n)) =~= decimal(n / 1000) + t);
    }
}

/// Ten to the power `k`.
pub open spec fn pow10(k: nat) -> nat
    decreases k,
{
    if k == 0 {
        1
    } else {
        10 * pow10((k - 1) as nat)
    }
}

/// A number below `10^k` has at most `k` decimal digits, and every number has one.
proof fn lemma_decimal_len_bound(n: nat, k: nat)
    requires
        n < pow10(k),
        k >= 1,
    ensures
        1 <= decimal(n).len() <= k,
    decreases k,
{
    if n >= 10 {
        if k == 1 {
            reveal_with_fuel(pow10, 2);
            assert(pow10(1) == 10);
        } else {
            let p = pow10((k - 1) as nat);
            assert(n / 10 < p) by (nonlinear_arith)
                requires
                    n < 10 * p,
            ;
            lemma_decimal_len_bound(n / 10, (k - 1) as nat);
        }
    }
}

/// Commas at most double the length of a number's digits.
proof fn lemma_commas_len(n: nat)
    ensures
        decimal(n).len() <= with_commas(n).len() <= 2 * decimal(n).len(),
    decreases n,
{
    if n >= 1000 {
        lemma_commas_len(n / 1000);
        lemma_decimal_split(n);
    }
}

/// A `u64` is at most 40 characters long with commas.
proof fn lemma_commas_len_u64(n: nat)
    requires
        n <= u64::MAX,
    ensures
        1 <= with_commas(n).len() <= 40,
{
    reveal_with_fuel(pow10, 21);
    assert(pow10(20) == 100000000000000000000nat);
    lemma_decimal_len_bound(n, 20);
    lemma_commas_len(n);
}

/// A larger number has at least as many digits.
proof fn lemma_decimal_len_monotone(a: nat, b: nat)
    requires
        a <= b,
    ensures
        1 <= decimal(a).len() <= decimal(b).len(),
    decreases b,
{
    if a >= 10 {
        assert(a / 10 <= b / 10) by (nonlinear_arith)
            requires
                a <= b,
        ;
        lemma_decimal_len_monotone(a / 10, b / 10);
    } else if b >= 10 {
        lemma_decimal_len_monotone(0, b / 10);
    }
}

/// A larger number is at least as long with commas.
proof fn lemma_commas_len_monotone(a: nat, b: nat)
    requires
        a <= b,
    ensures
        1 <= with_commas(a).len() <= with_commas(b).len(),
    decreases b,
{
    if b < 1000 {
        lemma_decimal_len_monotone(a, b);
    } else if a < 1000 {
        lemma_decimal_len_monotone(a, 999);
        reveal_with_fuel(decimal, 3);
        assert(decimal(999).len() == 3);
        lemma_commas_len_monotone(0, b / 1000);
    } else {
        assert(a / 1000 <= b / 1000) by (nonlinear_arith)
            requires
                a <= b,
        ;
        lemma_commas_len_monotone(a / 1000, b / 1000);
    }
}

/// The stats of one language are within the totals.
proof fn lemma_stats_within_totals(m: Map<Language, LangStats>, lang: Language, k: nat)
    requires
        name_rank(lang) < k <= LANGUAGE_COUNT,
    ensures
        stats_of(m, lang).files <= total_files(m, k),
        stats_of(m, lang).lines <= total_lines(m, k),
    decreases k,
{
    lemma_by_name_rank();
    if name_rank(lang) < k - 1 {
        lemma_stats_within_totals(m, lang, (k - 1) as nat);
    }
}

/// Every name is at most 10 characters long, and the widest name is at least
/// as long as each name of the table.
proof fn lemma_widest_name(m: Map<Language, LangStats>, lang: Language, k: nat)
    requires
        k <= LANGUAGE_COUNT,
    ensures
        widest_name(m, k) <= 10,
        spec_name(lang).len() <= 10,
        m.dom().contains(lang) && name_rank(lang) < k ==> spec_name(lang).len() <= widest_name(
            m,
            k,
        ),
    decreases k,
{
    lemma_by_name_rank();
    if k > 0 {
        lemma_widest_name(m, lang, (k - 1) as nat);
        lemma_widest_name(m, by_name()[k - 1], (k - 1) as nat);
    }
}

/// The length of a line of the table: each cell takes at least its width.
proof fn lemma_table_line_len(a: Seq<char>, b: Seq<char>, c: Seq<char>, w: Widths)
    ensures
        table_line(a, b, c, w).len() == larger(a.len(), w.lang as nat) + larger(
            b.len(),
            w.files as nat,
        ) + larger(c.len(), w.lines as nat) + 5,
{
    reveal_strlit("  ");
    reveal_strlit("\n");
}

/// The lines of the table line up: the header, the separators, each
/// language's row and the total row all have the same length, the sum of the
/// column widths, the two gaps of two spaces, and the newline.
pub proof fn report_lines_line_up(r: ScanResult)
    requires
        report_fits(r),
    ensures
        ({
            let w = report_widths(r);
            let m = r.per_language@;
            let width = w.lang + w.files + w.lines + 5;
            &&& table_line("Language"@, "Files"@, "Lines"@, w).len() == width
            &&& separator(w).len() == width
            &&& table_line(
                "Total"@,
                with_commas(total_files(m, LANGUAGE_COUNT as nat)),
                with_commas(total_lines(m, LANGUAGE_COUNT as nat)),
                w,
            ).len() == width
            &&& forall|lang: Language|
                #![trigger m[lang]]
                m.dom().contains(lang) ==> table_line(
                    spec_name(lang),
                    with_commas(m[lang].files as nat),
                    with_commas(m[lang].lines as nat),
                    w,
                ).len() == width
        }),
{
    let m = r.per_language@;
    let w = report_widths(r);
    let tf = total_files(m, LANGUAGE_COUNT as nat);
    let tl = total_lines(m, LANGUAGE_COUNT as nat);
    reveal_strlit("Language");
    reveal_strlit("Total");
    reveal_strlit("Files");
    reveal_strlit("Lines");
    reveal_strlit("  ");
    reveal_strlit("\n");
    lemma_commas_len_u64(tf);
    lemma_commas_len_u64(tl);
    lemma_widest_name(m, Language::C, LANGUAGE_COUNT as nat);
    assert(w.lang as nat == larger(
        larger(larger(widest_name(m, LANGUAGE_COUNT as nat), "Language"@.len()), "Total"@.len()),
        MIN_LANGUAGE_WIDTH as nat,
    ));
    assert(w.files as nat == larger(
        larger(with_commas(tf).len(), "Files"@.len()),
        MIN_FILES_WIDTH as nat,
    ));
    assert(w.lines as nat == larger(
        larger(with_commas(tl).len(), "Lines"@.len()),
        MIN_LINES_WIDTH as nat,
    ));
    lemma_table_line_len("Language"@, "Files"@, "Lines"@, w);
    lemma_table_line_len("Total"@, with_commas(tf), with_commas(tl), w);
    assert forall|lang: Language|
        #![trigger m[lang]]
        m.dom().contains(lang) implies table_line(
            spec_name(lang),
            with_commas(m[lang].files as nat),
            with_commas(m[lang].lines as nat),
            w,
        ).len() == w.lang + w.files + w.lines + 5 by {
        lemma_by_name_rank();
        lemma_widest_name(m, lang, LANGUAGE_COUNT as nat);
        lemma_stats_within_totals(m, lang, LANGUAGE_COUNT as nat);
        lemma_commas_len_monotone(m[lang].files as nat, tf);
        lemma_commas_len_monotone(m[lang].lines as nat, tl);
        lemma_table_line_len(
            spec_name(lang),
            with_commas(m[lang].files as nat),
            with_commas(m[lang].lines as nat),
            w,
        );
    }
}

/// `format_num(n)` holds the `m` digits of `n` and a comma before each group
/// of three digits but the first group: it is `m + (m - 1) / 3` long.
pub proof fn format_num_length(n: nat)
    ensures
        with_commas(n).len() == decimal(n).len() + (decimal(n).len() - 1) / 3,
    decreases n,
{
    lemma_decimal_len_monotone(0, n);
    if n < 1000 {
        lemma_decimal_len_monotone(n, 999);
        reveal_with_fuel(decimal, 3);
        assert(decimal(999).len() == 3);
    } else {
        format_num_length(n / 1000);
        lemma_decimal_split(n);
        lemma_decimal_len_monotone(0, n / 1000);
        let m = decimal(n / 1000).len() as int;
        assert((m + 2) / 3 == (m - 1) / 3 + 1) by (nonlinear_arith)
            requires
                m >= 1,
        ;
    }
}

/// A larger number is never shorter when formatted by `format_num`.
pub proof fn format_num_length_monotone(a: nat, b: nat)
    requires
        a <= b,
    ensures
        with_commas(a).len() <= with_commas(b).len(),
{
    lemma_commas_len_monotone(a, b);
}

/// The report ends with the note on skipped binary files and read errors as
/// soon as either count is not zero (each alone suffices), and otherwise ends
/// with the total row.
pub proof fn report_notes_skipped_files_and_errors(r: ScanResult)
    ensures
        ({
            let text = report_text(r);
            let note = "\nSkipped "@ + decimal(r.skipped_binary as nat) + " binary file(s); "@
                + decimal(r.read_errors as nat) + " read error(s).\n"@;
            r.skipped_binary > 0 || r.read_errors > 0 ==> {
                &&& text.len() >= note.len()
                &&& text.subrange(text.len() - note.len(), text.len() as int) == note
            }
        }),
        ({
            let text = report_text(r);
            let m = r.per_language@;
            let total = table_line(
                "Total"@,
                with_commas(total_files(m, LANGUAGE_COUNT as nat)),
                with_commas(total_lines(m, LANGUAGE_COUNT as nat)),
                report_widths(r),
            );
            r.skipped_binary == 0 && r.read_errors == 0 ==> {
                &&& text.len() >= total.len()
                &&& text.subrange(text.len() - total.len(), text.len() as int) == total
            }
        }),
{
    let m = r.per_language@;
    let w = report_widths(r);
    let total = table_line(
        "Total"@,
        with_commas(total_files(m, LANGUAGE_COUNT as nat)),
        with_commas(total_lines(m, LANGUAGE_COUNT as nat)),
        w,
    );
    let table = table_line("Language"@, "Files"@, "Lines"@, w) + separator(w) + language_rows(
        m,
        LANGUAGE_COUNT as nat,
        w,
    ) + separator(w) + total;
    assert(report_text(r) == table + footer(r));
    if r.read_errors > 0 || r.skipped_binary > 0 {
        let note = footer(r);
        assert(report_text(r).subrange(
            report_text(r).len() - note.len(),
            report_text(r).len() as int,
        ) =~= note);
    } else {
        assert(footer(r) =~= Seq::<char>::empty());
        assert(report_text(r) =~= table);
        assert(table.subrange(table.len() - total.len(), table.len() as int) =~= total);
    }
}

} // verus!
