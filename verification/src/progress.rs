//! What aria2c prints while it downloads, and what follows from it.

use crate::ansi::{
    is_ascii_letter, is_plain, law_a_sequence_runs_through_its_first_letter, law_plain_text_is_kept,
    law_text_before_an_escape_is_kept, without_escapes, ESCAPE,
};
use crate::app::App;
use crate::numbers::{
    all_digits, decimal, is_digit, law_read_gives_back_written, lemma_decimal_is_digits,
    parse_u64_chars, read_u64,
};
use crate::sizes::{size_parts, size_parts_view, split_size_chars};
use crate::text::{
    begins_with, char_position, chars_between, chars_of, has_text, is_white_space,
    law_a_text_stands_between_two_others, law_a_text_without_white_space_is_a_word,
    law_white_space_parts_words, lemma_words_stand_in, no_white, occurs, occurs_at, position_of,
    split_words, words,
};
use vstd::prelude::*;

verus! {

/// How long, in nanoseconds, the download directory is left alone between two scans.
pub const SCAN_INTERVAL: u128 = 2_000_000_000;

/// What a download that the user stops is reported with.
pub const CANCELLED: &'static str = "Download cancelled";

/// The amount that one word of a progress line gives: as a plain number of bytes, where it is
/// one, and as a number with a unit, where it is one.
#[derive(Debug)]
pub struct SizeField {
    pub raw: Option<u64>,
    pub scaled: Option<(String, u64)>,
}

impl SizeField {
    /// The amount, with its text as a sequence of characters.
    pub open spec fn parts(self) -> (Option<u64>, Option<(Seq<char>, u64)>) {
        (self.raw, size_parts_view(self.scaled))
    }
}

/// The amounts of a sequence of fields.
pub open spec fn field_parts(fields: Seq<SizeField>) -> Seq<
    (Option<u64>, Option<(Seq<char>, u64)>),
> {
    fields.map_values(|f: SizeField| f.parts())
}

/// What a line says of the progress.
#[derive(Debug)]
pub struct ProgressLine {
    pub is_progress: bool,
    pub fields: Vec<SizeField>,
}

/// The text before the slash in a word `DOWNLOADED/TOTAL` or `DOWNLOADED/TOTAL(PERCENT)`. A word
/// that begins with a bracket or that names a file is none.
pub open spec fn downloaded_part(word: Seq<char>) -> Option<Seq<char>> {
    let clean = word.take(char_position(word, '('));
    if word.contains('/') && !"["@.is_prefix_of(word) && !occurs(word, "FILE:"@) && clean.contains(
        '/',
    ) {
        Some(clean.take(char_position(clean, '/')))
    } else {
        None
    }
}

/// The amount that a word gives, if it gives any.
pub open spec fn field_in(word: Seq<char>) -> Option<(Option<u64>, Option<(Seq<char>, u64)>)> {
    match downloaded_part(word) {
        Some(part) => Some((read_u64(part), size_parts(part))),
        None => None,
    }
}

/// A line that tells of progress holds `[#`.
pub open spec fn is_progress_line(line: Seq<char>) -> bool {
    occurs(line, "[#"@)
}

/// The amounts that the words of a progress line give, in order; none in another line.
pub open spec fn fields_in(line: Seq<char>) -> Seq<(Option<u64>, Option<(Seq<char>, u64)>)> {
    if is_progress_line(line) {
        words(line).filter_map(|w: Seq<char>| field_in(w))
    } else {
        seq![]
    }
}

/// A line of output tells of progress. Escape codes in it do not count.
pub open spec fn tells_of_progress(line: Seq<char>) -> bool {
    is_progress_line(without_escapes(line))
}

/// The amounts that a line of output gives. Escape codes in it do not count.
pub open spec fn amounts_told(line: Seq<char>) -> Seq<(Option<u64>, Option<(Seq<char>, u64)>)> {
    fields_in(without_escapes(line))
}

/// The bytes that the first field with a positive amount gives. A plain number counts before the
/// number with a unit, whose value in bytes `scaled` gives.
pub open spec fn first_amount(
    fields: Seq<(Option<u64>, Option<(Seq<char>, u64)>)>,
    scaled: Seq<Option<u64>>,
) -> Option<u64>
    decreases fields.len(),
{
    if fields.len() == 0 {
        None
    } else if fields[0].0 is Some && fields[0].0->0 > 0 {
        fields[0].0
    } else if scaled[0] is Some && scaled[0]->0 > 0 {
        scaled[0]
    } else {
        first_amount(fields.drop_first(), scaled.drop_first())
    }
}

/// The first position of a character is the length exactly where it does not occur.
proof fn lemma_char_position(s: Seq<char>, c: char)
    ensures
        0 <= char_position(s, c) <= s.len(),
        char_position(s, c) < s.len() <==> s.contains(c),
        forall|j: int| 0 <= j < char_position(s, c) ==> #[trigger] s[j] != c,
        char_position(s, c) < s.len() ==> s[char_position(s, c)] == c,
    decreases s.len(),
{
    if s.len() > 0 {
        if s.first() == c {
            assert(s[0] == c);
        } else {
            let rest = s.drop_first();
            lemma_char_position(rest, c);
            let p = char_position(rest, c);
            if p < rest.len() {
                assert(s[p + 1] == c);
            }
            if s.contains(c) {
                let k = choose|k: int| 0 <= k < s.len() && s[k] == c;
                assert(rest[k - 1] == c);
            }
            assert forall|j: int| 0 <= j < char_position(s, c) implies #[trigger] s[j] != c by {
                if j > 0 {
                    assert(rest[j - 1] == s[j]);
                }
            }
        }
    }
}

/// The position of a character that has been seen to be first.
proof fn lemma_char_position_is(s: Seq<char>, c: char, p: int)
    requires
        0 <= p <= s.len(),
        p < s.len() ==> s[p] == c,
        forall|j: int| 0 <= j < p ==> s[j] != c,
    ensures
        char_position(s, c) == p,
{
    lemma_char_position(s, c);
    let q = char_position(s, c);
    if p < q {
        assert(s[p] == c);
    }
}

/// The amount that a word gives.
fn read_field(word: &Vec<char>) -> (r: Option<SizeField>)
    ensures
        match r {
            Some(f) => field_in(word@) == Some(f.parts()),
            None => field_in(word@) is None,
        },
{
    let n: usize = word.len();
    let any: usize = position_of(word, '/');
    proof {
        lemma_char_position(word@, '/');
    }
    if any == n || begins_with(word, "[") || has_text(word, "FILE:") {
        return None;
    }
    let paren: usize = position_of(word, '(');
    let clean = chars_between(word, 0, paren);
    assert(clean@ == word@.take(paren as int));
    let slash: usize = position_of(&clean, '/');
    proof {
        lemma_char_position(clean@, '/');
    }
    if slash == clean.len() {
        return None;
    }
    let part = chars_between(&clean, 0, slash);
    assert(part@ == clean@.take(slash as int));
    Some(SizeField { raw: parse_u64_chars(&part), scaled: split_size_chars(&part) })
}

impl App {
    /// Reads a line of aria2c's output. Escape codes in it do not count.
    pub fn read_progress(line: &str) -> (r: ProgressLine)
        ensures
            r.is_progress == tells_of_progress(line@),
            field_parts(r.fields@) == amounts_told(line@),
    {
        let clean = Self::strip_ansi(line);
        let v = chars_of(clean.as_str());
        let mut fields: Vec<SizeField> = Vec::new();
        if !has_text(&v, "[#") {
            assert(field_parts(fields@) == fields_in(v@));
            return ProgressLine { is_progress: false, fields };
        }
        let parts = split_words(&v);
        let ghost all = words(v@);
        let ghost f = |w: Seq<char>| field_in(w);
        let mut i: usize = 0;
        assert(all.take(0).filter_map(f) == field_parts(fields@));
        while i < parts.len()
            invariant
                i <= parts@.len(),
                all == crate::text::char_views(parts@),
                f == (|w: Seq<char>| field_in(w)),
                field_parts(fields@) == all.take(i as int).filter_map(f),
            decreases parts.len() - i,
        {
            proof {
                all.lemma_filter_map_take_succ(f, i as int);
                assert(all[i as int] == parts@[i as int]@);
            }
            let ghost before = fields@;
            match read_field(&parts[i]) {
                Some(field) => {
                    fields.push(field);
                    assert(field_parts(fields@) == field_parts(before).push(field.parts()));
                },
                None => {},
            }
            i += 1;
        }
        assert(all.take(all.len() as int) == all);
        ProgressLine { is_progress: true, fields }
    }

    /// The bytes that a progress line reports as downloaded. `scaled` holds, for each field, the
    /// value in bytes of its number with a unit, where it has one that is a number.
    pub fn reported_bytes(fields: &Vec<SizeField>, scaled: &Vec<Option<u64>>) -> (r: Option<u64>)
        requires
            fields@.len() == scaled@.len(),
        ensures
            r == first_amount(field_parts(fields@), scaled@),
    {
        let ghost all = field_parts(fields@);
        let mut i: usize = 0;
        assert(all.skip(0) == all);
        assert(scaled@.skip(0) == scaled@);
        while i < fields.len()
            invariant
                fields@.len() == scaled@.len(),
                i <= fields@.len(),
                all == field_parts(fields@),
                first_amount(all, scaled@) == first_amount(
                    all.skip(i as int),
                    scaled@.skip(i as int),
                ),
            decreases fields.len() - i,
        {
            assert(all.skip(i as int)[0] == fields@[i as int].parts());
            assert(scaled@.skip(i as int)[0] == scaled@[i as int]);
            if let Some(bytes) = fields[i].raw {
                if bytes > 0 {
                    return Some(bytes);
                }
            }
            if let Some(bytes) = scaled[i] {
                if bytes > 0 {
                    return Some(bytes);
                }
            }
            assert(all.skip(i as int).drop_first() == all.skip(i + 1));
            assert(scaled@.skip(i as int).drop_first() == scaled@.skip(i + 1));
            i += 1;
        }
        None
    }
}

/// What is to be done after a line of output.
#[derive(Debug, Clone, Copy, PartialEq, Eq, Structural)]
pub enum MonitorAction {
    /// Take down the bytes that the line reports.
    Record(u64),
    /// Measure the download directory.
    Scan,
    /// Wait for the next line.
    Wait,
}

/// What is to be done after a line: what it reports is taken down; where a progress line reports
/// nothing, the directory is measured, unless it was within the scan interval.
pub open spec fn action_after(is_progress: bool, reported: Option<u64>, since_scan: nat) -> MonitorAction {
    if !is_progress {
        MonitorAction::Wait
    } else if reported is Some {
        MonitorAction::Record(reported->0)
    } else if since_scan > SCAN_INTERVAL {
        MonitorAction::Scan
    } else {
        MonitorAction::Wait
    }
}

/// The bytes that a measure of the directory counts for.
pub open spec fn measured_amount(size: Option<u64>) -> Option<u64> {
    if size is Some && size->0 > 0 {
        size
    } else {
        None
    }
}

/// How a download ends when aria2c ends.
pub open spec fn download_end(success: bool, status: Seq<char>, bytes: u64) -> Result<u64, Seq<char>> {
    if success {
        Ok(bytes)
    } else {
        Err("aria2c exited with status: "@ + status)
    }
}

/// Nothing was captured of a download on its way.
pub open spec fn is_unmeasured(captured: u64) -> bool {
    captured == 0
}

/// The size of a finished download.
pub open spec fn final_amount(captured: u64, directory: Option<u64>) -> u64 {
    if captured != 0 {
        captured
    } else if directory is Some {
        directory->0
    } else {
        0
    }
}

impl App {
    /// What is to be done after a line: what it reports is taken down; where a progress line
    /// reports nothing, the directory is measured, unless it was within the scan interval.
    pub fn monitor_action(is_progress: bool, reported: Option<u64>, since_scan: u128) -> (r:
        MonitorAction)
        ensures
            r == action_after(is_progress, reported, since_scan as nat),
    {
        if !is_progress {
            return MonitorAction::Wait;
        }
        match reported {
            Some(bytes) => MonitorAction::Record(bytes),
            None => if since_scan > SCAN_INTERVAL {
                MonitorAction::Scan
            } else {
                MonitorAction::Wait
            },
        }
    }

    /// The bytes to take down after the directory has been measured: a measure that failed or
    /// that is zero does not count.
    pub fn scanned_bytes(size: Option<u64>) -> (r: Option<u64>)
        ensures
            r == measured_amount(size),
    {
        match size {
            Some(bytes) => if bytes > 0 {
                Some(bytes)
            } else {
                None
            },
            None => None,
        }
    }

    /// Whether the directory has to be measured for the size of a finished download: only where
    /// nothing was captured on the way.
    pub fn needs_measure(captured: u64) -> (r: bool)
        ensures
            r == is_unmeasured(captured),
    {
        captured == 0
    }

    /// The size of a finished download: what was captured on the way, or else the measure of the
    /// directory, or else zero.
    pub fn final_bytes(captured: u64, directory: Option<u64>) -> (r: u64)
        ensures
            r == final_amount(captured, directory),
    {
        if Self::needs_measure(captured) {
            match directory {
                Some(bytes) => bytes,
                None => 0,
            }
        } else {
            captured
        }
    }

    /// How a download ends when aria2c ends: with its bytes, or with a message that gives
    /// aria2c's status.
    pub fn download_outcome(success: bool, status: &str, bytes: u64) -> (r: Result<u64, String>)
        ensures
            match r {
                Ok(b) => download_end(success, status@, bytes) == Ok::<u64, Seq<char>>(b),
                Err(message) => download_end(success, status@, bytes) == Err::<u64, Seq<char>>(
                    message@,
                ),
            },
    {
        if success {
            Ok(bytes)
        } else {
            let mut message = "aria2c exited with status: ".to_owned();
            message.append(status);
            Err(message)
        }
    }
}

/// A total, where it fits in 64 bits.
pub open spec fn fitting(total: nat) -> Option<u64> {
    if total <= u64::MAX {
        Some(total as u64)
    } else {
        None
    }
}

/// The sum of a sequence of sizes.
pub open spec fn sum_of(sizes: Seq<u64>) -> nat
    decreases sizes.len(),
{
    if sizes.len() == 0 {
        0
    } else {
        sum_of(sizes.drop_last()) + sizes.last() as nat
    }
}

/// A sum only grows with more sizes.
pub proof fn lemma_sum_grows(sizes: Seq<u64>, k: int)
    requires
        0 <= k <= sizes.len(),
    ensures
        sum_of(sizes.take(k)) <= sum_of(sizes),
    decreases sizes.len(),
{
    if k < sizes.len() {
        assert(sizes.drop_last().take(k) == sizes.take(k));
        lemma_sum_grows(sizes.drop_last(), k);
    } else {
        assert(sizes.take(k) == sizes);
    }
}

impl App {
    /// The sum of file sizes, where it fits in 64 bits.
    pub fn sum_sizes(sizes: &Vec<u64>) -> (r: Option<u64>)
        ensures
            r == fitting(sum_of(sizes@)),
    {
        let mut total: u64 = 0;
        let mut i: usize = 0;
        assert(sizes@.take(0) == Seq::<u64>::empty());
        while i < sizes.len()
            invariant
                i <= sizes@.len(),
                total == sum_of(sizes@.take(i as int)),
            decreases sizes.len() - i,
        {
            proof {
                assert(sizes@.take(i + 1).drop_last() == sizes@.take(i as int));
                lemma_sum_grows(sizes@, i + 1);
            }
            let size: u64 = sizes[i];
            if size > u64::MAX - total {
                return None;
            }
            total = total + size;
            i += 1;
        }
        assert(sizes@.take(sizes@.len() as int) == sizes@);
        Some(total)
    }
}

/// What is reported is never zero.
pub proof fn law_reported_amount_is_positive(
    fields: Seq<(Option<u64>, Option<(Seq<char>, u64)>)>,
    scaled: Seq<Option<u64>>,
)
    ensures
        first_amount(fields, scaled) is Some ==> first_amount(fields, scaled)->0 > 0,
    decreases fields.len(),
{
    if fields.len() > 0 {
        law_reported_amount_is_positive(fields.drop_first(), scaled.drop_first());
    }
}

/// A word that begins with a number of bytes and a slash gives that number, whatever follows, as
/// long as the word names no file.
pub proof fn law_byte_count_is_read(n: u64, tail: Seq<char>)
    requires
        !occurs(decimal(n as nat).push('/') + tail, "FILE:"@),
    ensures
        match field_in(decimal(n as nat).push('/') + tail) {
            Some((raw, _)) => raw == Some(n),
            None => false,
        },
{
    let d = decimal(n as nat);
    let word = d.push('/') + tail;
    reveal_strlit("[");
    lemma_decimal_is_digits(n as nat);
    law_read_gives_back_written(n);
    assert(word[d.len() as int] == '/');
    assert forall|j: int| 0 <= j < d.len() implies is_digit(#[trigger] word[j]) by {
        assert(word[j] == d[j]);
    }
    lemma_char_position(word, '(');
    let paren = char_position(word, '(');
    assert(paren > d.len()) by {
        if paren < d.len() {
            assert(is_digit(word[paren]));
        }
    }
    let clean = word.take(paren);
    assert(clean[d.len() as int] == '/');
    assert forall|j: int| 0 <= j < d.len() implies #[trigger] clean[j] != '/' by {
        assert(is_digit(word[j]));
    }
    lemma_char_position_is(clean, '/', d.len() as int);
    assert(clean.take(d.len() as int) == d);
    assert(!"["@.is_prefix_of(word)) by {
        if "["@.is_prefix_of(word) {
            assert("["@[0] == word[0]);
            assert(is_digit(word[0]));
        }
    }
}

/// After a progress line that reports bytes these are taken down, however many; after one that
/// reports none the directory is measured exactly where more than two seconds have gone by; after
/// any other line nothing is done.
pub proof fn law_every_report_is_taken_down(bytes: u64, since_scan: nat, reported: Option<u64>)
    ensures
        action_after(true, Some(bytes), since_scan) == MonitorAction::Record(bytes),
        since_scan > 2 * 1_000_000_000 ==> action_after(true, None, since_scan)
            == MonitorAction::Scan,
        since_scan <= 2 * 1_000_000_000 ==> action_after(true, None, since_scan)
            == MonitorAction::Wait,
        action_after(false, reported, since_scan) == MonitorAction::Wait,
{
}

/// A measure counts exactly where it is positive; and of a finished download what was captured
/// counts before what is measured.
pub proof fn law_measures_stand_in_for_reports(captured: u64, measured: u64)
    ensures
        measured_amount(None) is None,
        measured_amount(Some(0)) is None,
        measured > 0 ==> measured_amount(Some(measured)) == Some(measured),
        captured > 0 ==> final_amount(captured, Some(measured)) == captured && final_amount(
            captured,
            None,
        ) == captured,
        final_amount(0, Some(measured)) == measured,
        final_amount(0, None) == 0,
{
}

/// The sum of two lists of sizes is the sum of the one and of the other, and that of one size is
/// the size.
pub proof fn law_sizes_add_up(a: Seq<u64>, b: Seq<u64>, size: u64)
    ensures
        sum_of(a + b) == sum_of(a) + sum_of(b),
        sum_of(seq![size]) == size,
        sum_of(seq![]) == 0,
    decreases b.len(),
{
    if b.len() > 0 {
        assert((a + b).drop_last() =~= a + b.drop_last());
        assert((a + b).last() == b.last());
        law_sizes_add_up(a, b.drop_last(), size);
    } else {
        assert(a + b =~= a);
    }
    assert(seq![size].drop_last() =~= Seq::<u64>::empty());
    assert(sum_of(seq![size].drop_last()) == 0);
}

/// The amount that the field at `k` has counts where no field before it has a positive one: its
/// plain number, if that is positive, or else the value of its number with a unit, if that is. Every
/// 64-bit number counts for what it is.
pub proof fn law_the_first_positive_amount_is_reported(
    fields: Seq<(Option<u64>, Option<(Seq<char>, u64)>)>,
    scaled: Seq<Option<u64>>,
    k: int,
    n: u64,
)
    requires
        fields.len() == scaled.len(),
        0 <= k < fields.len(),
        forall|j: int|
            0 <= j < k ==> (#[trigger] fields[j].0 is None || fields[j].0 == Some(0u64)) && (
            scaled[j] is None || scaled[j] == Some(0u64)),
        n > 0,
    ensures
        fields[k].0 == Some(n) ==> first_amount(fields, scaled) == Some(n),
        (fields[k].0 is None || fields[k].0 == Some(0u64)) && scaled[k] == Some(n) ==> first_amount(
            fields,
            scaled,
        ) == Some(n),
    decreases k,
{
    if k > 0 {
        assert(fields[0].0 is None || fields[0].0 == Some(0u64));
        let rest = fields.drop_first();
        let rest_scaled = scaled.drop_first();
        assert forall|j: int| 0 <= j < k - 1 implies (#[trigger] rest[j].0 is None || rest[j].0
            == Some(0u64)) && (rest_scaled[j] is None || rest_scaled[j] == Some(0u64)) by {
            assert(rest[j] == fields[j + 1]);
            assert(fields[j + 1].0 is None || fields[j + 1].0 == Some(0u64));
        }
        law_the_first_positive_amount_is_reported(rest, rest_scaled, k - 1, n);
    }
}

/// Nothing is reported where no field has a positive amount.
pub proof fn law_no_amount_is_no_report(
    fields: Seq<(Option<u64>, Option<(Seq<char>, u64)>)>,
    scaled: Seq<Option<u64>>,
)
    requires
        fields.len() == scaled.len(),
        forall|j: int|
            0 <= j < fields.len() ==> (#[trigger] fields[j].0 is None || fields[j].0 == Some(0u64))
                && (scaled[j] is None || scaled[j] == Some(0u64)),
    ensures
        first_amount(fields, scaled) is None,
    decreases fields.len(),
{
    if fields.len() > 0 {
        assert(fields[0].0 is None || fields[0].0 == Some(0u64));
        let rest = fields.drop_first();
        let rest_scaled = scaled.drop_first();
        assert forall|j: int| 0 <= j < rest.len() implies (#[trigger] rest[j].0 is None || rest[j].0
            == Some(0u64)) && (rest_scaled[j] is None || rest_scaled[j] == Some(0u64)) by {
            assert(rest[j] == fields[j + 1]);
            assert(fields[j + 1].0 is None || fields[j + 1].0 == Some(0u64));
        }
        law_no_amount_is_no_report(rest, rest_scaled);
    }
}

/// A word gives what stands before its first slash, read as a number and as a size, where no
/// parenthesis stands before that slash, the word does not begin with a bracket and it names no file.
pub proof fn law_a_word_gives_what_is_before_its_slash(downloaded: Seq<char>, tail: Seq<char>)
    requires
        !downloaded.contains('/'),
        !downloaded.contains('('),
        downloaded.len() > 0 ==> downloaded[0] != '[',
        forall|before: Seq<char>, after: Seq<char>|
            downloaded + seq!['/'] + tail != #[trigger] (before + "FILE:"@ + after),
    ensures
        field_in(downloaded + seq!['/'] + tail) == Some(
            (read_u64(downloaded), size_parts(downloaded)),
        ),
{
    let word = downloaded + seq!['/'] + tail;
    let n = downloaded.len() as int;
    reveal_strlit("[");
    law_a_text_stands_between_two_others(word, "FILE:"@);
    assert(word[n] == '/');
    lemma_char_position(word, '(');
    let paren = char_position(word, '(');
    assert(paren > n) by {
        if paren < n {
            assert(downloaded[paren] == '(');
        }
    }
    let clean = word.take(paren);
    assert(clean[n] == '/');
    assert forall|j: int| 0 <= j < n implies clean[j] != '/' by {
        assert(clean[j] == downloaded[j]);
        assert(downloaded.contains(downloaded[j]));
    }
    lemma_char_position_is(clean, '/', n);
    assert(clean.take(n) =~= downloaded);
    assert(!"["@.is_prefix_of(word)) by {
        if "["@.is_prefix_of(word) {
            assert("["@[0] == word[0]);
            assert(word[0] == (if n > 0 { downloaded[0] } else { '/' }));
        }
    }
}

/// A word without a slash gives nothing, nor does one whose first slash stands behind a parenthesis,
/// nor one that begins with a bracket, nor one that names a file.
pub proof fn law_other_words_give_nothing(word: Seq<char>, before: Seq<char>, after: Seq<char>)
    ensures
        !word.contains('/') ==> field_in(word) is None,
        !before.contains('/') ==> field_in(before + seq!['('] + after) is None,
        field_in(seq!['['] + word) is None,
        field_in(before + "FILE:"@ + after) is None,
{
    reveal_strlit("[");
    let paren = before + seq!['('] + after;
    if !before.contains('/') {
        lemma_char_position(paren, '(');
        let p = char_position(paren, '(');
        assert(paren[before.len() as int] == '(');
        let clean = paren.take(p);
        assert(!clean.contains('/')) by {
            if clean.contains('/') {
                let k = choose|k: int| 0 <= k < clean.len() && clean[k] == '/';
                assert(before[k] == '/');
            }
        }
    }
    assert("["@ =~= (seq!['['] + word).take(1));
    law_a_text_stands_between_two_others(before + "FILE:"@ + after, "FILE:"@);
}

/// A line tells of progress exactly where `[#` stands in it, and any other line gives no amounts.
pub proof fn law_progress_lines_hold_their_mark(line: Seq<char>)
    ensures
        is_progress_line(line) <==> exists|before: Seq<char>, after: Seq<char>|
            line == #[trigger] (before + "[#"@ + after),
        !is_progress_line(line) ==> fields_in(line).len() == 0,
{
    law_a_text_stands_between_two_others(line, "[#"@);
}

/// The amounts of a progress line are those of its words, in the words' order: of two lines' words
/// one after another they are those of the one and then those of the other.
pub proof fn law_amounts_follow_the_words(line: Seq<char>, first: Seq<char>, second: Seq<char>)
    requires
        is_progress_line(line),
        is_progress_line(first),
        is_progress_line(second),
        words(line) == words(first) + words(second),
    ensures
        fields_in(line) == fields_in(first) + fields_in(second),
{
    let f = |w: Seq<char>| field_in(w);
    lemma_filter_map_adds(words(first), words(second), f);
}

/// A progress line of which one word alone gives an amount gives that amount alone, and one of which
/// no word gives any gives none.
pub proof fn law_a_word_gives_its_amount_to_the_line(
    line: Seq<char>,
    before: Seq<Seq<char>>,
    word: Seq<char>,
    after: Seq<Seq<char>>,
)
    requires
        is_progress_line(line),
        words(line) == before.push(word) + after,
        forall|i: int| 0 <= i < before.len() ==> field_in(#[trigger] before[i]) is None,
        forall|i: int| 0 <= i < after.len() ==> field_in(#[trigger] after[i]) is None,
    ensures
        fields_in(line) == (match field_in(word) {
            Some(field) => seq![field],
            None => seq![],
        }),
{
    let f = |w: Seq<char>| field_in(w);
    let all = words(line);
    assert(all =~= before + (seq![word] + after));
    lemma_filter_map_adds(before, seq![word] + after, f);
    lemma_filter_map_adds(seq![word], after, f);
    lemma_filter_map_of_none(before, f);
    lemma_filter_map_of_none(after, f);
    seq![word].lemma_filter_map_take_succ(f, 0);
    assert(seq![word].take(1) =~= seq![word]);
    assert(seq![word].take(0).filter_map(f) =~= seq![]);
    match field_in(word) {
        Some(field) => {
            assert(f(word) == Some(field));
            assert(seq![word].filter_map(f) =~= seq![field]);
            assert(all.filter_map(f) =~= seq![field]);
        },
        None => {
            assert(f(word) is None);
            assert(all.filter_map(f) =~= seq![]);
        },
    }
}

proof fn lemma_filter_map_adds<A, B>(a: Seq<A>, b: Seq<A>, f: spec_fn(A) -> Option<B>)
    ensures
        (a + b).filter_map(f) == a.filter_map(f) + b.filter_map(f),
    decreases b.len(),
{
    if b.len() == 0 {
        assert(a + b =~= a);
        assert(b.filter_map(f) =~= seq![]);
        assert(a.filter_map(f) + b.filter_map(f) =~= a.filter_map(f));
    } else {
        let all = a + b;
        let n = all.len() - 1;
        let rest = b.drop_last();
        lemma_filter_map_adds(a, rest, f);
        all.lemma_filter_map_take_succ(f, n);
        b.lemma_filter_map_take_succ(f, b.len() - 1);
        assert(all.take(n + 1) =~= all);
        assert(all.take(n) =~= a + rest);
        assert(b.take(b.len() as int) =~= b);
        assert(b.take(b.len() - 1) =~= rest);
        assert(all[n] == b[b.len() - 1]);
        assert((a + b).filter_map(f) =~= a.filter_map(f) + b.filter_map(f));
    }
}

proof fn lemma_filter_map_of_none<A, B>(a: Seq<A>, f: spec_fn(A) -> Option<B>)
    requires
        forall|i: int| 0 <= i < a.len() ==> f(#[trigger] a[i]) is None,
    ensures
        a.filter_map(f) == Seq::<B>::empty(),
    decreases a.len(),
{
    if a.len() > 0 {
        let rest = a.drop_last();
        assert forall|i: int| 0 <= i < rest.len() implies f(#[trigger] rest[i]) is None by {
            assert(rest[i] == a[i]);
        }
        lemma_filter_map_of_none(rest, f);
        a.lemma_filter_map_take_succ(f, a.len() - 1);
        assert(a.take(a.len() as int) =~= a);
        assert(a.take(a.len() - 1) =~= rest);
        assert(f(a[a.len() - 1]) is None);
    } else {
        assert(a.filter_map(f) =~= Seq::<B>::empty());
    }
}

/// A progress line of aria2c reports its byte count: the mark with the download's id, a space, the
/// count, a slash and the total, and then words without a slash. Whatever the count, if it is
/// positive, it is what the line reports.
pub proof fn law_a_progress_line_reports_its_count(
    id: Seq<char>,
    n: u64,
    total: Seq<char>,
    tail: Seq<char>,
    scaled: Option<u64>,
)
    requires
        n > 0,
        no_white(id),
        no_white(total),
        forall|before: Seq<char>, after: Seq<char>|
            decimal(n as nat) + seq!['/'] + total != #[trigger] (before + "FILE:"@ + after),
        tail.len() > 0 ==> tail[0] == ' ',
        !tail.contains('/'),
    ensures
        ({
            let line = "[#"@ + id + " "@ + decimal(n as nat) + "/"@ + total + tail;
            &&& is_progress_line(line)
            &&& fields_in(line).len() == 1
            &&& first_amount(fields_in(line), seq![scaled]) == Some(n)
        }),
{
    reveal_strlit("[#");
    reveal_strlit(" ");
    reveal_strlit("/");
    let d = decimal(n as nat);
    let mark = "[#"@ + id;
    let word = d + seq!['/'] + total;
    let line = "[#"@ + id + " "@ + d + "/"@ + total + tail;
    lemma_decimal_is_digits(n as nat);
    law_read_gives_back_written(n);
    assert forall|i: int| 0 <= i < d.len() implies d[i] != '/' && d[i] != '(' && d[i] != '['
        && !is_white_space(d[i]) by {
        assert(is_digit(d[i]));
    }
    // The line's words: the mark, the count, and what follows.
    assert(no_white(mark)) by {
        assert forall|i: int| 0 <= i < mark.len() implies !is_white_space(#[trigger] mark[i]) by {
            if i >= 2 {
                assert(mark[i] == id[i - 2]);
            }
        }
    }
    assert(no_white(word)) by {
        assert forall|i: int| 0 <= i < word.len() implies !is_white_space(#[trigger] word[i]) by {
            if i < d.len() {
                assert(word[i] == d[i]);
            } else if i > d.len() {
                assert(word[i] == total[i - d.len() - 1]);
            }
        }
    }
    law_a_text_without_white_space_is_a_word(mark);
    law_a_text_without_white_space_is_a_word(word);
    let gap = seq![' '];
    let front = mark + gap + word;
    law_white_space_parts_words(mark, gap, word);
    let ghost after: Seq<Seq<char>>;
    if tail.len() > 0 {
        let rest = tail.skip(1);
        law_white_space_parts_words(front, gap, rest);
        assert(line =~= front + gap + rest);
        after = words(rest);
        assert forall|i: int| 0 <= i < after.len() implies field_in(#[trigger] after[i]) is None by {
            lemma_words_stand_in(rest, 0, i);
            assert(!after[i].contains('/')) by {
                if after[i].contains('/') {
                    let k = choose|k: int| 0 <= k < after[i].len() && after[i][k] == '/';
                    let p = choose|p: int| #[trigger] occurs_at(rest, after[i], p);
                    assert(rest.subrange(p, p + after[i].len())[k] == '/');
                    assert(tail[p + k + 1] == '/');
                }
            }
            law_other_words_give_nothing(after[i], seq![], seq![]);
        }
    } else {
        assert(line =~= front);
        after = seq![];
    }
    assert(words(line) =~= seq![mark].push(word) + after);
    // The mark gives nothing.
    assert(mark =~= seq!['['] + mark.skip(1));
    law_other_words_give_nothing(mark.skip(1), seq![], seq![]);
    law_progress_lines_hold_their_mark(line);
    assert(line =~= seq![] + "[#"@ + line.skip(2));
    assert(!d.contains('/') && !d.contains('('));
    law_a_word_gives_what_is_before_its_slash(d, total);
    law_a_word_gives_its_amount_to_the_line(line, seq![mark], word, after);
    let field = (read_u64(d), size_parts(d));
    assert(fields_in(line) == seq![field]);
    law_the_first_positive_amount_is_reported(fields_in(line), seq![scaled], 0, n);
}

/// A download that succeeds ends with its bytes, however many, and one that does not with aria2c's
/// status; one that the user stops is reported as cancelled.
pub proof fn law_downloads_end_with_bytes_or_a_status(status: Seq<char>, bytes: u64)
    ensures
        download_end(true, status, bytes) == Ok::<u64, Seq<char>>(bytes),
        download_end(false, status, bytes) == Err::<u64, Seq<char>>(
            "aria2c exited with status: "@ + status,
        ),
        CANCELLED@ == "Download cancelled"@,
{
}

/// The amounts of a progress line are those that its words give, for every word that gives one, in the
/// words' order and with nothing between.
pub proof fn law_every_word_is_looked_at(line: Seq<char>)
    requires
        is_progress_line(line),
    ensures
        fields_in(line) == words(line).filter_map(|word: Seq<char>| field_in(word)),
        fields_in(line).len() <= words(line).len(),
{
    let f = |w: Seq<char>| field_in(w);
    lemma_filter_map_is_no_longer(words(line), f);
    assert(words(line).filter_map(f) =~= words(line).filter_map(|word: Seq<char>| field_in(word)));
}

proof fn lemma_filter_map_is_no_longer<A, B>(a: Seq<A>, f: spec_fn(A) -> Option<B>)
    ensures
        a.filter_map(f).len() <= a.len(),
    decreases a.len(),
{
    if a.len() > 0 {
        lemma_filter_map_is_no_longer(a.drop_last(), f);
        a.lemma_filter_map_take_succ(f, a.len() - 1);
        assert(a.take(a.len() as int) =~= a);
        assert(a.take(a.len() - 1) =~= a.drop_last());
    } else {
        assert(a.filter_map(f) =~= Seq::<B>::empty());
    }
}

/// A field is seen as it is: its plain number, and its number with a unit.
pub proof fn law_fields_are_seen_as_they_are(fields: Seq<SizeField>, i: int)
    requires
        0 <= i < fields.len(),
    ensures
        field_parts(fields).len() == fields.len(),
        field_parts(fields)[i].0 == fields[i].raw,
        fields[i].scaled is None ==> field_parts(fields)[i].1 is None,
        fields[i].scaled matches Some((number, unit)) ==> field_parts(fields)[i].1 == Some(
            (number@, unit),
        ),
{
}

/// A line without escape characters tells what stands in it, and an escape sequence in a line makes no
/// difference to what it tells.
pub proof fn law_escapes_make_no_difference(
    before: Seq<char>,
    code: Seq<char>,
    letter: char,
    after: Seq<char>,
)
    requires
        forall|i: int| 0 <= i < before.len() ==> #[trigger] before[i] as u32 != 27,
        forall|i: int|
            0 <= i < code.len() ==> !(65 <= #[trigger] code[i] as u32 <= 90 || 97 <= code[i] as u32
                <= 122),
        65 <= letter as u32 <= 90 || 97 <= letter as u32 <= 122,
    ensures
        tells_of_progress(before) == is_progress_line(before),
        amounts_told(before) == fields_in(before),
        tells_of_progress(before + (seq!['\u{1b}', '['] + code + seq![letter] + after))
            == tells_of_progress(before + after),
        amounts_told(before + (seq!['\u{1b}', '['] + code + seq![letter] + after)) == amounts_told(
            before + after,
        ),
{
    assert(is_plain(before)) by {
        assert forall|i: int| 0 <= i < before.len() implies #[trigger] before[i] != ESCAPE by {
            assert(before[i] as u32 != 27);
        }
    }
    assert forall|i: int| 0 <= i < code.len() implies !is_ascii_letter(#[trigger] code[i]) by {}
    law_plain_text_is_kept(before);
    law_text_before_an_escape_is_kept(before, after);
    law_text_before_an_escape_is_kept(
        before,
        seq![ESCAPE, '['] + code + seq![letter] + after,
    );
    law_a_sequence_runs_through_its_first_letter(code, letter, after);
}

/// A total is given as it is up to the largest 64-bit number, and not at all above it.
pub proof fn law_totals_are_given_where_they_fit(total: nat)
    ensures
        total <= 0xffff_ffff_ffff_ffff ==> fitting(total) is Some && fitting(total)->0 == total,
        total > 0xffff_ffff_ffff_ffff ==> fitting(total) is None,
{
}

/// The directory is measured exactly where the measure is what counts: a download of which something
/// was captured has that size whatever the measure, and one of which nothing was has the measure.
pub proof fn law_the_measure_is_taken_where_it_counts(captured: u64, directory: u64)
    ensures
        captured > 0 ==> !is_unmeasured(captured) && final_amount(captured, Some(directory))
            == captured,
        captured == 0 ==> is_unmeasured(captured) && final_amount(captured, Some(directory))
            == directory,
{
}

} // verus!
