//! Decoding of the timing information in the transcoder's diagnostic text.
//!
//! All text is handled as UTF-8 bytes: every marker looked for is ASCII, so a
//! match on bytes is a match on characters.
use vstd::prelude::*;
use vstd::slice::slice_subrange;
use vstd::string::StringSliceAdditionalSpecFns;

verus! {

/// An ASCII decimal digit.
pub open spec fn is_digit(c: u8) -> bool {
    48 <= c <= 57
}

pub open spec fn all_digits(s: Seq<u8>) -> bool {
    forall|i: int| 0 <= i < s.len() ==> is_digit(#[trigger] s[i])
}

/// The number written by a sequence of decimal digits, most significant first.
pub open spec fn digits_value(s: Seq<u8>) -> nat
    decreases s.len(),
{
    if s.len() == 0 {
        0
    } else {
        digits_value(s.drop_last()) * 10 + (s.last() - 48) as nat
    }
}

/// The number that a text writes in decimal: a non-empty run of ASCII
/// digits and nothing else (no sign, no space), with a value that fits in
/// 64 bits.
pub open spec fn digits_number(s: Seq<u8>) -> Option<u64> {
    if s.len() > 0 && all_digits(s) && digits_value(s) <= u64::MAX {
        Some(digits_value(s) as u64)
    } else {
        None
    }
}

proof fn lemma_digits_value_prefix(s: Seq<u8>, k: int)
    requires
        all_digits(s),
        0 <= k <= s.len(),
    ensures
        digits_value(s.subrange(0, k)) <= digits_value(s),
    decreases s.len(),
{
    if k < s.len() {
        assert(all_digits(s.drop_last()));
        assert(s.drop_last().subrange(0, k) =~= s.subrange(0, k));
        lemma_digits_value_prefix(s.drop_last(), k);
    } else {
        assert(s.subrange(0, k) =~= s);
    }
}

/// Reads a non-empty run of decimal digits as a `u64`.
pub fn parse_digits(b: &[u8]) -> (r: Option<u64>)
    ensures
        r == digits_number(b@),
{
    if b.len() == 0 {
        return None;
    }
    let mut acc: u64 = 0;
    let mut i: usize = 0;
    while i < b.len()
        invariant
            i <= b.len(),
            all_digits(b@.subrange(0, i as int)),
            acc == digits_value(b@.subrange(0, i as int)),
        decreases b.len() - i,
    {
        let c = b[i];
        if c < 48 || c > 57 {
            return None;
        }
        let v = (c - 48) as u64;
        let ghost next = b@.subrange(0, i + 1);
        proof {
            assert(next.drop_last() =~= b@.subrange(0, i as int));
            assert(all_digits(next));
        }
        if acc > (u64::MAX - v) / 10 {
            proof {
                assert(acc * 10 + v > u64::MAX) by (nonlinear_arith)
                    requires
                        acc > (u64::MAX - v) / 10,
                        v <= 9,
                ;
                if all_digits(b@) {
                    lemma_digits_value_prefix(b@, i + 1);
                }
            }
            return None;
        }
        proof {
            assert(acc * 10 + v <= u64::MAX) by (nonlinear_arith)
                requires
                    acc <= (u64::MAX - v) / 10,
                    v <= 9,
            ;
        }
        acc = acc * 10 + v;
        i = i + 1;
    }
    proof {
        assert(b@.subrange(0, i as int) =~= b@);
    }
    Some(acc)
}

/// A span of time, in whole milliseconds.
#[derive(Clone, Copy, Debug, PartialEq, Eq, Structural)]
pub struct Duration {
    pub millis: u64,
}

impl Duration {
    pub fn from_millis(millis: u64) -> (d: Duration)
        ensures
            d.millis == millis,
    {
        Duration { millis }
    }

    pub fn as_millis(&self) -> (r: u64)
        ensures
            r == self.millis,
    {
        self.millis
    }
}

pub const DOT: u8 = 46;

pub const COLON: u8 = 58;

/// The index of the first `c` in `s`, or the length of `s` where there is none.
pub open spec fn position(s: Seq<u8>, c: u8) -> int
    decreases s.len(),
{
    if s.len() == 0 {
        0
    } else if s[0] == c {
        0
    } else {
        1 + position(s.drop_first(), c)
    }
}

pub open spec fn lacks(s: Seq<u8>, c: u8) -> bool {
    forall|i: int| 0 <= i < s.len() ==> s[i] != c
}

pub proof fn lemma_position(s: Seq<u8>, c: u8)
    ensures
        0 <= position(s, c) <= s.len(),
        lacks(s.subrange(0, position(s, c)), c),
        position(s, c) < s.len() ==> s[position(s, c)] == c,
        lacks(s, c) <==> position(s, c) == s.len(),
    decreases s.len(),
{
    if s.len() > 0 && s[0] != c {
        lemma_position(s.drop_first(), c);
        let p = position(s.drop_first(), c);
        assert forall|i: int| 0 <= i < p + 1 implies #[trigger] s.subrange(0, p + 1)[i] != c by {
            if i > 0 {
                assert(s.subrange(0, p + 1)[i] == s.drop_first().subrange(0, p)[i - 1]);
            }
        }
        if lacks(s, c) {
            assert forall|i: int| 0 <= i < s.len() - 1 implies s.drop_first()[i] != c by {
                assert(s.drop_first()[i] == s[i + 1]);
            }
        }
        if position(s, c) == s.len() {
            assert forall|i: int| 0 <= i < s.len() implies s[i] != c by {
                if i > 0 {
                    assert(s[i] == s.subrange(0, p + 1)[i]);
                }
            }
        }
    }
}

/// The first index at which `b` holds `c`, or its length where it holds none.
pub fn find_byte(b: &[u8], c: u8) -> (p: usize)
    ensures
        p == position(b@, c),
        p <= b@.len(),
{
    proof {
        lemma_position(b@, c);
        assert(b@.subrange(0, b@.len() as int) =~= b@);
    }
    let mut i: usize = 0;
    while i < b.len()
        invariant
            i <= b.len(),
            position(b@, c) == i + position(b@.subrange(i as int, b@.len() as int), c),
        decreases b.len() - i,
    {
        if b[i] == c {
            return i;
        }
        proof {
            assert(b@.subrange(i as int, b@.len() as int).drop_first() =~= b@.subrange(
                i + 1,
                b@.len() as int,
            ));
        }
        i = i + 1;
    }
    i
}

/// The fields of a time stamp: `HH:MM:SS.ff` split at its one `.` and its
/// two `:`, in the order hours, minutes, seconds, fraction.
pub open spec fn time_fields(s: Seq<u8>) -> Option<(Seq<u8>, Seq<u8>, Seq<u8>, Seq<u8>)> {
    let dot = position(s, DOT);
    let hms = s.subrange(0, dot);
    let frac = s.subrange(dot + 1, s.len() as int);
    let c1 = position(hms, COLON);
    let ms = hms.subrange(c1 + 1, hms.len() as int);
    let c2 = position(ms, COLON);
    let sec = ms.subrange(c2 + 1, ms.len() as int);
    if dot < s.len() && lacks(frac, DOT) && c1 < hms.len() && c2 < ms.len() && lacks(sec, COLON) {
        Some((hms.subrange(0, c1), ms.subrange(0, c2), sec, frac))
    } else {
        None
    }
}

/// The whole number of milliseconds in a time of day.
pub open spec fn clock_millis(hours: int, minutes: int, seconds: int, millis: int) -> int {
    hours * 3_600_000 + minutes * 60_000 + seconds * 1_000 + millis
}

/// What a time stamp `HH:MM:SS.ff` stands for. Every field is a run of
/// decimal digits; the fraction has two or three of them and is a count of
/// milliseconds; minutes and seconds are below 60; the hours are unbounded,
/// but the total must fit in 64 bits.
pub open spec fn time_value(s: Seq<u8>) -> Option<Duration> {
    match time_fields(s) {
        Some((h, m, sec, f)) => if f.len() < 2 || f.len() > 3 {
            None
        } else {
            match (digits_number(h), digits_number(m), digits_number(sec), digits_number(f)) {
            (Some(h), Some(m), Some(sec), Some(f)) => {
                let total = clock_millis(h as int, m as int, sec as int, f as int);
                if m < 60 && sec < 60 && f < 1000 && total <= u64::MAX {
                    Some(Duration { millis: total as u64 })
                } else {
                    None
                }
            },
            _ => None,
        }},
        None => None,
    }
}

/// Decodes a time stamp `HH:MM:SS.ff` given as bytes.
pub fn decode_time(b: &[u8]) -> (r: Option<Duration>)
    ensures
        r == time_value(b@),
{
    let dot = find_byte(b, DOT);
    if dot == b.len() {
        return None;
    }
    let hms = slice_subrange(b, 0, dot);
    let frac = slice_subrange(b, dot + 1, b.len());
    if find_byte(frac, DOT) != frac.len() {
        proof {
            lemma_position(frac@, DOT);
        }
        return None;
    }
    let c1 = find_byte(hms, COLON);
    proof {
        lemma_position(b@, DOT);
        lemma_position(frac@, DOT);
        lemma_position(hms@, COLON);
    }
    if c1 == hms.len() {
        return None;
    }
    let rest = slice_subrange(hms, c1 + 1, hms.len());
    let c2 = find_byte(rest, COLON);
    proof {
        lemma_position(rest@, COLON);
    }
    if c2 == rest.len() {
        return None;
    }
    let sec_text = slice_subrange(rest, c2 + 1, rest.len());
    if find_byte(sec_text, COLON) != sec_text.len() {
        proof {
            lemma_position(sec_text@, COLON);
        }
        return None;
    }
    proof {
        lemma_position(sec_text@, COLON);
    }
    let hours_text = slice_subrange(hms, 0, c1);
    let minutes_text = slice_subrange(rest, 0, c2);
    if frac.len() < 2 || frac.len() > 3 {
        return None;
    }
    let millis = match parse_digits(frac) {
        Some(v) => v,
        None => return None,
    };
    if millis >= 1000 {
        return None;
    }
    let seconds = match parse_digits(sec_text) {
        Some(v) => v,
        None => return None,
    };
    if seconds >= 60 {
        return None;
    }
    let minutes = match parse_digits(minutes_text) {
        Some(v) => v,
        None => return None,
    };
    if minutes >= 60 {
        return None;
    }
    let hours = match parse_digits(hours_text) {
        Some(v) => v,
        None => return None,
    };
    let below_hour: u64 = minutes * 60_000 + seconds * 1_000 + millis;
    let total = match hours.checked_mul(3_600_000) {
        Some(h) => h.checked_add(below_hour),
        None => None,
    };
    match total {
        Some(t) => Some(Duration { millis: t }),
        None => None,
    }
}

pub const NEWLINE: u8 = 10;

/// ASCII white space, as `u8::is_ascii_whitespace` has it.
pub open spec fn is_space(c: u8) -> bool {
    c == 32 || c == 9 || c == 10 || c == 12 || c == 13
}

/// Where a match of a marker may begin.
#[derive(Clone, Copy, Debug, PartialEq, Eq, Structural)]
pub enum Boundary {
    /// At any index.
    Anywhere,
    /// At the start of the text or just after a line feed.
    LineStart,
    /// At the start of the text or just after white space.
    WordStart,
}

pub open spec fn occurs_at(s: Seq<u8>, pat: Seq<u8>, i: int) -> bool {
    0 <= i && i + pat.len() <= s.len() && s.subrange(i, i + pat.len()) == pat
}

pub open spec fn boundary_at(s: Seq<u8>, i: int, boundary: Boundary) -> bool {
    match boundary {
        Boundary::Anywhere => true,
        Boundary::LineStart => i == 0 || s[i - 1] == NEWLINE,
        Boundary::WordStart => i == 0 || is_space(s[i - 1]),
    }
}

/// The first index at or after `from` where `pat` occurs in `s` at the given
/// boundary, or the length of `s` where there is none.
pub open spec fn search(s: Seq<u8>, pat: Seq<u8>, from: int, boundary: Boundary) -> int
    decreases s.len() - from,
{
    if from < 0 || from >= s.len() {
        s.len() as int
    } else if occurs_at(s, pat, from) && boundary_at(s, from, boundary) {
        from
    } else {
        search(s, pat, from + 1, boundary)
    }
}

/// The last index at which `pat` occurs in `s` and ends at or before `end`, or
/// -1 where there is none.
pub open spec fn last_occurrence(s: Seq<u8>, pat: Seq<u8>, end: int) -> int
    decreases end + 1,
{
    if end < pat.len() || end > s.len() {
        -1
    } else if occurs_at(s, pat, end - pat.len()) {
        end - pat.len()
    } else {
        last_occurrence(s, pat, end - 1)
    }
}

/// The first index at or after `i` that holds white space, or the length of `s`.
pub open spec fn word_end(s: Seq<u8>, i: int) -> int
    decreases s.len() - i,
{
    if i < 0 || i >= s.len() {
        s.len() as int
    } else if is_space(s[i]) {
        i
    } else {
        word_end(s, i + 1)
    }
}

proof fn lemma_search_bounds(s: Seq<u8>, pat: Seq<u8>, from: int, boundary: Boundary)
    requires
        0 <= from,
    ensures
        from <= search(s, pat, from, boundary) || search(s, pat, from, boundary) == s.len(),
        search(s, pat, from, boundary) <= s.len(),
        search(s, pat, from, boundary) < s.len() ==> occurs_at(
            s,
            pat,
            search(s, pat, from, boundary),
        ),
    decreases s.len() - from,
{
    if from < s.len() && !(occurs_at(s, pat, from) && boundary_at(s, from, boundary)) {
        lemma_search_bounds(s, pat, from + 1, boundary);
    }
}

proof fn lemma_word_end_bounds(s: Seq<u8>, i: int)
    requires
        0 <= i,
    ensures
        i <= word_end(s, i) || word_end(s, i) == s.len(),
        word_end(s, i) <= s.len(),
    decreases s.len() - i,
{
    if i < s.len() && !is_space(s[i]) {
        lemma_word_end_bounds(s, i + 1);
    }
}

proof fn lemma_last_occurrence_bounds(s: Seq<u8>, pat: Seq<u8>, end: int)
    ensures
        -1 <= last_occurrence(s, pat, end),
        last_occurrence(s, pat, end) >= 0 ==> occurs_at(s, pat, last_occurrence(s, pat, end)),
    decreases end + 1,
{
    if end >= pat.len() && end <= s.len() && !occurs_at(s, pat, end - pat.len()) {
        lemma_last_occurrence_bounds(s, pat, end - 1);
    }
}

/// Whether `pat` occurs in `b` at index `i`.
pub fn matches_at(b: &[u8], pat: &[u8], i: usize) -> (r: bool)
    ensures
        r == occurs_at(b@, pat@, i as int),
{
    if i > b.len() || pat.len() > b.len() - i {
        return false;
    }
    let mut j: usize = 0;
    while j < pat.len()
        invariant
            j <= pat.len(),
            i + pat.len() <= b.len(),
            b@.subrange(i as int, i + j) =~= pat@.subrange(0, j as int),
        decreases pat.len() - j,
    {
        if b[i + j] != pat[j] {
            proof {
                assert(b@.subrange(i as int, i + pat@.len())[j as int] == b[i + j]);
            }
            return false;
        }
        j = j + 1;
    }
    proof {
        assert(pat@.subrange(0, pat@.len() as int) =~= pat@);
    }
    true
}

fn boundary_holds(b: &[u8], i: usize, boundary: Boundary) -> (r: bool)
    requires
        i < b.len(),
    ensures
        r == boundary_at(b@, i as int, boundary),
{
    match boundary {
        Boundary::Anywhere => true,
        Boundary::LineStart => i == 0 || b[i - 1] == NEWLINE,
        Boundary::WordStart => {
            if i == 0 {
                true
            } else {
                let c = b[i - 1];
                c == 32 || c == 9 || c == 10 || c == 12 || c == 13
            }
        },
    }
}

/// The first index at or after `from` where `pat` occurs in `b` at the given
/// boundary, or the length of `b` where there is none.
pub fn find_pattern(b: &[u8], pat: &[u8], from: usize, boundary: Boundary) -> (r: usize)
    ensures
        r == search(b@, pat@, from as int, boundary),
        r <= b@.len(),
        r < b@.len() ==> occurs_at(b@, pat@, r as int) && from <= r,
{
    proof {
        lemma_search_bounds(b@, pat@, from as int, boundary);
    }
    let mut i: usize = from;
    while i < b.len()
        invariant
            from <= i,
            search(b@, pat@, from as int, boundary) == search(b@, pat@, i as int, boundary),
        decreases b.len() - i,
    {
        if matches_at(b, pat, i) && boundary_holds(b, i, boundary) {
            return i;
        }
        i = i + 1;
    }
    b.len()
}

/// The index at which the last occurrence of `pat` in `b` begins, if any.
pub fn find_last(b: &[u8], pat: &[u8]) -> (r: Option<usize>)
    requires
        pat@.len() > 0,
    ensures
        match r {
            Some(i) => i as int == last_occurrence(b@, pat@, b@.len() as int),
            None => last_occurrence(b@, pat@, b@.len() as int) == -1,
        },
{
    let mut end: usize = b.len();
    while end >= pat.len()
        invariant
            end <= b.len(),
            pat@.len() > 0,
            last_occurrence(b@, pat@, b@.len() as int) == last_occurrence(b@, pat@, end as int),
        decreases end,
    {
        if matches_at(b, pat, end - pat.len()) {
            return Some(end - pat.len());
        }
        end = end - 1;
    }
    None
}

/// The first index at or after `i` that holds white space, or the length of `b`.
pub fn find_word_end(b: &[u8], i: usize) -> (r: usize)
    ensures
        r == word_end(b@, i as int),
        r <= b@.len(),
        r < b@.len() ==> i <= r,
{
    proof {
        lemma_word_end_bounds(b@, i as int);
    }
    let mut j: usize = i;
    while j < b.len()
        invariant
            i <= j,
            word_end(b@, i as int) == word_end(b@, j as int),
        decreases b.len() - j,
    {
        let c = b[j];
        if c == 32 || c == 9 || c == 10 || c == 12 || c == 13 {
            return j;
        }
        j = j + 1;
    }
    b.len()
}

/// The marker that opens the line giving the length of the input: `"  Duration: "`.
pub open spec fn duration_marker() -> Seq<u8> {
    seq![32, 32, 68, 117, 114, 97, 116, 105, 111, 110, 58, 32]
}

/// The text that follows the length of the input on its line: `", start: "`.
pub open spec fn start_marker() -> Seq<u8> {
    seq![44, 32, 115, 116, 97, 114, 116, 58, 32]
}

/// The text that opens each progress record: `"\nframe="`.
pub open spec fn frame_marker() -> Seq<u8> {
    seq![10, 102, 114, 97, 109, 101, 61]
}

/// The text that opens a chunk holding a progress record: `"frame="`.
pub open spec fn frame_word() -> Seq<u8> {
    seq![102, 114, 97, 109, 101, 61]
}

/// The word that opens the time stamp in a progress record: `"time="`.
pub open spec fn time_marker() -> Seq<u8> {
    seq![116, 105, 109, 101, 61]
}

fn duration_marker_bytes() -> (r: Vec<u8>)
    ensures
        r@ == duration_marker(),
{
    let r = vec![32, 32, 68, 117, 114, 97, 116, 105, 111, 110, 58, 32];
    assert(r@ =~= duration_marker());
    r
}

fn start_marker_bytes() -> (r: Vec<u8>)
    ensures
        r@ == start_marker(),
{
    let r = vec![44, 32, 115, 116, 97, 114, 116, 58, 32];
    assert(r@ =~= start_marker());
    r
}

fn frame_marker_bytes() -> (r: Vec<u8>)
    ensures
        r@ == frame_marker(),
{
    let r = vec![10, 102, 114, 97, 109, 101, 61];
    assert(r@ =~= frame_marker());
    r
}

pub(crate) fn frame_word_bytes() -> (r: Vec<u8>)
    ensures
        r@ == frame_word(),
{
    let r = vec![102, 114, 97, 109, 101, 61];
    assert(r@ =~= frame_word());
    r
}

fn time_marker_bytes() -> (r: Vec<u8>)
    ensures
        r@ == time_marker(),
{
    let r = vec![116, 105, 109, 101, 61];
    assert(r@ =~= time_marker());
    r
}

/// The length of the input that a diagnostic text states: the time stamp on
/// the first line that opens with `"  Duration: "`, up to the first
/// `", start: "` after it.
pub open spec fn duration_in(s: Seq<u8>) -> Option<Duration> {
    let at = search(s, duration_marker(), 0, Boundary::LineStart);
    let from = at + duration_marker().len();
    let end = search(s, start_marker(), from, Boundary::Anywhere);
    if at < s.len() && end < s.len() {
        time_value(s.subrange(from, end))
    } else {
        None
    }
}

/// The last progress record of a text: what follows the last `frame=` that
/// opens a line, that is, the last `"\nframe="`, or the `frame=` that opens
/// the text where there is none. A text with no such `frame=` has no record.
pub open spec fn last_frame_record(s: Seq<u8>) -> Option<Seq<u8>> {
    let i = last_occurrence(s, frame_marker(), s.len() as int);
    if i >= 0 {
        Some(s.subrange(i + frame_marker().len(), s.len() as int))
    } else if occurs_at(s, frame_word(), 0) {
        Some(s.subrange(frame_word().len() as int, s.len() as int))
    } else {
        None
    }
}

/// The time reached that the last progress record of a text states: the time
/// stamp in the record's first word that opens with `"time="`.
pub open spec fn frame_time_in(s: Seq<u8>) -> Option<Duration> {
    match last_frame_record(s) {
        Some(rec) => {
            let t = search(rec, time_marker(), 0, Boundary::WordStart);
            if t < rec.len() {
                time_value(
                    rec.subrange(t + time_marker().len(), word_end(rec, t + time_marker().len())),
                )
            } else {
                None
            }
        },
        None => None,
    }
}

/// Finds the length of the input in diagnostic text given as bytes.
pub fn extract_duration(b: &[u8]) -> (r: Option<Duration>)
    ensures
        r == duration_in(b@),
{
    let marker = duration_marker_bytes();
    let at = find_pattern(b, marker.as_slice(), 0, Boundary::LineStart);
    if at == b.len() {
        return None;
    }
    let from = at + marker.len();
    let start = start_marker_bytes();
    let end = find_pattern(b, start.as_slice(), from, Boundary::Anywhere);
    if end == b.len() {
        return None;
    }
    decode_time(slice_subrange(b, from, end))
}

/// Finds the time reached in the last progress record of diagnostic text
/// given as bytes.
pub fn extract_frame_time(b: &[u8]) -> (r: Option<Duration>)
    ensures
        r == frame_time_in(b@),
{
    let marker = frame_marker_bytes();
    let len = b.len();
    let rec = match find_last(b, marker.as_slice()) {
        Some(i) => {
            proof {
                lemma_last_occurrence_bounds(b@, frame_marker(), b@.len() as int);
            }
            slice_subrange(b, i + marker.len(), len)
        },
        None => {
            let word = frame_word_bytes();
            if !matches_at(b, word.as_slice(), 0) {
                return None;
            }
            slice_subrange(b, word.len(), len)
        },
    };
    assert(last_frame_record(b@) == Some(rec@));
    let word = time_marker_bytes();
    let t = find_pattern(rec, word.as_slice(), 0, Boundary::WordStart);
    if t == rec.len() {
        return None;
    }
    let from = t + word.len();
    let end = find_word_end(rec, from);
    decode_time(slice_subrange(rec, from, end))
}

/// Decodes a time stamp `HH:MM:SS.ff`.
pub fn duration_from_ffmpeg_time_string(s: &str) -> (r: Option<Duration>)
    ensures
        r == time_value(s.spec_bytes()),
{
    decode_time(s.as_bytes())
}

/// Finds the time reached in the last progress record of a diagnostic text.
pub fn try_extract_frame_time(s: &str) -> (r: Option<Duration>)
    ensures
        r == frame_time_in(s.spec_bytes()),
{
    extract_frame_time(s.as_bytes())
}

/// Finds the length of the input stated in a diagnostic text.
pub fn try_extract_duration(s: &str) -> (r: Option<Duration>)
    ensures
        r == duration_in(s.spec_bytes()),
{
    extract_duration(s.as_bytes())
}

/// How far a job has come, as the fraction `done / total` of the input's
/// length, both in milliseconds. `done` never exceeds `total`.
#[derive(Clone, Copy, Debug, PartialEq, Eq, Structural)]
pub struct Progress {
    pub done: u64,
    pub total: u64,
}

/// The progress made once `processed` of an input of length `total` has been
/// worked through: `processed / total`, capped at one.
pub open spec fn progress_of(total: Duration, processed: Duration) -> Progress {
    Progress {
        done: if processed.millis < total.millis {
            processed.millis
        } else {
            total.millis
        },
        total: total.millis,
    }
}

/// Computes [`progress_of`]. Where `total` is zero the fraction is `0 / 0`,
/// which stands for no value: callers send no progress for it.
pub fn progress_from_durations(total: Duration, processed: Duration) -> (p: Progress)
    ensures
        p == progress_of(total, processed),
{
    let done = if processed.millis < total.millis {
        processed.millis
    } else {
        total.millis
    };
    Progress { done, total: total.millis }
}

/// A number written in decimal digits, without leading zeros.
pub open spec fn digits_of(n: nat) -> Seq<u8>
    decreases n,
{
    if n < 10 {
        seq![(48 + n) as u8]
    } else {
        digits_of(n / 10).push((48 + n % 10) as u8)
    }
}

/// A number written in decimal and padded with leading zeros to at least
/// `width` digits.
pub open spec fn padded_digits(n: nat, width: nat) -> Seq<u8> {
    let d = digits_of(n);
    if d.len() < width {
        Seq::new((width - d.len()) as nat, |i: int| 48u8) + d
    } else {
        d
    }
}

/// The time stamp `HH:MM:SS.ff` with each field written in at least two digits.
pub open spec fn time_text(hours: nat, minutes: nat, seconds: nat, fraction: nat) -> Seq<u8> {
    padded_digits(hours, 2) + seq![COLON] + padded_digits(minutes, 2) + seq![COLON]
        + padded_digits(seconds, 2) + seq![DOT] + padded_digits(fraction, 2)
}

proof fn lemma_digits_of(n: nat)
    ensures
        digits_of(n).len() > 0,
        all_digits(digits_of(n)),
        digits_value(digits_of(n)) == n,
    decreases n,
{
    if n >= 10 {
        lemma_digits_of(n / 10);
        assert(digits_of(n).drop_last() =~= digits_of(n / 10));
        assert((n / 10) * 10 + n % 10 == n) by (nonlinear_arith);
        assert(n % 10 < 10) by (nonlinear_arith);
        assert(digits_of(n).last() == (48 + n % 10) as u8);
        assert(digits_of(n).last() - 48 == n % 10);
        assert(digits_value(digits_of(n)) == digits_value(digits_of(n / 10)) * 10 + n % 10);
    } else {
        assert(digits_of(n).drop_last() =~= Seq::<u8>::empty());
        assert(digits_of(n).last() - 48 == n);
        assert(digits_value(Seq::<u8>::empty()) == 0);
    }
}

proof fn lemma_zeros_value(z: Seq<u8>, d: Seq<u8>)
    requires
        forall|i: int| 0 <= i < z.len() ==> z[i] == 48,
    ensures
        digits_value(z + d) == digits_value(d),
    decreases z.len() + d.len(),
{
    if d.len() > 0 {
        assert((z + d).drop_last() =~= z + d.drop_last());
        lemma_zeros_value(z, d.drop_last());
    } else if z.len() > 0 {
        assert((z + d).drop_last() =~= z.drop_last() + d);
        lemma_zeros_value(z.drop_last(), d);
    } else {
        assert(z + d =~= Seq::<u8>::empty());
    }
}

proof fn lemma_padded_digits(n: nat, width: nat)
    requires
        n <= u64::MAX,
    ensures
        padded_digits(n, width).len() > 0,
        all_digits(padded_digits(n, width)),
        digits_number(padded_digits(n, width)) == Some(n as u64),
{
    lemma_digits_of(n);
    let d = digits_of(n);
    let p = padded_digits(n, width);
    if d.len() < width {
        let z = Seq::new((width - d.len()) as nat, |i: int| 48u8);
        lemma_zeros_value(z, d);
        assert forall|i: int| 0 <= i < p.len() implies is_digit(#[trigger] p[i]) by {
            if i >= z.len() {
                assert(p[i] == d[i - z.len()]);
            }
        }
    }
}

proof fn lemma_digits_of_len(n: nat)
    ensures
        n < 10 ==> digits_of(n).len() == 1,
        10 <= n < 100 ==> digits_of(n).len() == 2,
        100 <= n < 1000 ==> digits_of(n).len() == 3,
    decreases n,
{
    if n >= 10 {
        assert(n / 10 < n) by (nonlinear_arith)
            requires
                n >= 10,
        ;
        lemma_digits_of_len(n / 10);
        assert(n < 100 ==> n / 10 < 10) by (nonlinear_arith);
        assert(100 <= n < 1000 ==> 10 <= n / 10 < 100) by (nonlinear_arith);
    }
}

proof fn lemma_position_after(a: Seq<u8>, c: u8, b: Seq<u8>)
    requires
        lacks(a, c),
    ensures
        position(a + seq![c] + b, c) == a.len(),
    decreases a.len(),
{
    if a.len() > 0 {
        assert((a + seq![c] + b).drop_first() =~= a.drop_first() + seq![c] + b);
        lemma_position_after(a.drop_first(), c, b);
    } else {
        assert((a + seq![c] + b)[0] == c);
    }
}

proof fn lemma_digits_lack(s: Seq<u8>, c: u8)
    requires
        all_digits(s),
        !is_digit(c),
    ensures
        lacks(s, c),
{
}

/// A time stamp written with minutes and seconds below 60, a fraction of
/// two or three digits below 1000, and a total that fits in 64 bits decodes
/// to exactly the milliseconds it stands for.
pub proof fn lemma_time_round_trip(hours: nat, minutes: nat, seconds: nat, fraction: nat)
    requires
        minutes < 60,
        seconds < 60,
        fraction < 1000,
        clock_millis(hours as int, minutes as int, seconds as int, fraction as int) <= u64::MAX,
    ensures
        time_value(time_text(hours, minutes, seconds, fraction)) == Some(
            Duration {
                millis: clock_millis(
                    hours as int,
                    minutes as int,
                    seconds as int,
                    fraction as int,
                ) as u64,
            },
        ),
{
    assert(hours <= u64::MAX) by (nonlinear_arith)
        requires
            hours * 3_600_000 + minutes * 60_000 + seconds * 1_000 + fraction <= u64::MAX,
    ;
    let h = padded_digits(hours, 2);
    let m = padded_digits(minutes, 2);
    let sec = padded_digits(seconds, 2);
    let f = padded_digits(fraction, 2);
    lemma_padded_digits(hours, 2);
    lemma_padded_digits(minutes, 2);
    lemma_padded_digits(seconds, 2);
    lemma_padded_digits(fraction, 2);
    lemma_digits_of_len(fraction);
    assert(2 <= f.len() <= 3);
    let s = time_text(hours, minutes, seconds, fraction);
    let hms = h + seq![COLON] + m + seq![COLON] + sec;
    let ms = m + seq![COLON] + sec;
    assert(s =~= hms + seq![DOT] + f);
    assert(lacks(hms, DOT)) by {
        assert forall|i: int| 0 <= i < hms.len() implies hms[i] != DOT by {
            if i < h.len() {
                assert(hms[i] == h[i]);
            } else if i > h.len() && i < h.len() + 1 + m.len() {
                assert(hms[i] == m[i - h.len() - 1]);
            } else if i > h.len() + 1 + m.len() {
                assert(hms[i] == sec[i - h.len() - 2 - m.len()]);
            }
        }
    }
    lemma_digits_lack(f, DOT);
    lemma_digits_lack(h, COLON);
    lemma_digits_lack(m, COLON);
    lemma_digits_lack(sec, COLON);
    lemma_position_after(hms, DOT, f);
    assert(s.subrange(0, hms.len() as int) =~= hms);
    assert(s.subrange(hms.len() as int + 1, s.len() as int) =~= f);
    assert(hms =~= h + seq![COLON] + ms);
    lemma_position_after(h, COLON, ms);
    assert(hms.subrange(0, h.len() as int) =~= h);
    assert(hms.subrange(h.len() as int + 1, hms.len() as int) =~= ms);
    lemma_position_after(m, COLON, sec);
    assert(ms.subrange(0, m.len() as int) =~= m);
    assert(ms.subrange(m.len() as int + 1, ms.len() as int) =~= sec);
    assert(time_fields(s) == Some((h, m, sec, f)));
}

/// A time stamp whose minutes or seconds reach 60, or whose fraction reaches
/// 1000, decodes to nothing.
pub proof fn lemma_time_out_of_range(s: Seq<u8>)
    requires
        time_fields(s) matches Some((h, m, sec, f)) && ((digits_number(m) matches Some(mv) && mv >= 60)
            || (digits_number(sec) matches Some(sv) && sv >= 60) || (digits_number(f) matches Some(fv)
            && fv >= 1000)),
    ensures
        time_value(s) is None,
{
}

/// A time stamp with a field that is not a number decodes to nothing.
pub proof fn lemma_time_not_numeric(s: Seq<u8>)
    requires
        time_fields(s) matches Some((h, m, sec, f)) && (digits_number(h) is None || digits_number(m) is None
            || digits_number(sec) is None || digits_number(f) is None),
    ensures
        time_value(s) is None,
{
}

/// A time stamp whose fraction has fewer than two or more than three
/// characters decodes to nothing.
pub proof fn lemma_time_fraction_width(s: Seq<u8>)
    requires
        time_fields(s) matches Some((h, m, sec, f)) && (f.len() < 2 || f.len() > 3),
    ensures
        time_value(s) is None,
{
}

/// Progress never falls as more of the input is worked through, never
/// exceeds the whole, and is whole once the time reached is the length of
/// the input or more.
pub proof fn lemma_progress_monotone(total: Duration, earlier: Duration, later: Duration)
    requires
        total.millis > 0,
        earlier.millis <= later.millis,
    ensures
        progress_of(total, earlier).total == progress_of(total, later).total,
        progress_of(total, earlier).done <= progress_of(total, later).done,
        progress_of(total, later).done <= progress_of(total, later).total,
        later.millis >= total.millis ==> progress_of(total, later).done == progress_of(
            total,
            later,
        ).total,
{
}

} // verus!
