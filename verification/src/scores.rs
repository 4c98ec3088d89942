use vstd::prelude::*;
use chrono::{DateTime, Datelike, Local, NaiveDate};
use std::time::{SystemTime, UNIX_EPOCH};
use crate::text::{
    chars_vec,
    decimal,
    first_two_words,
    is_ws,
    lemma_decimal_i32,
    lemma_skip_ws_none,
    lemma_word_of,
    parse_i32,
    parse_i32_in,
    push_decimal,
    skip_whitespace,
    string_from_chars,
    string_of_range,
    word_end,
};

verus! {

/// How many best scores are kept.
pub const KEPT_SCORES: usize = 5;

/// A best score and the date on which it was made.
#[derive(Clone, Debug)]
pub struct SaveDataUnit {
    pub score: i32,
    pub date: String,
}

/// A best score as a pair of the score and the characters of the date.
pub type Record = (int, Seq<char>);

/// A unit as a record.
pub open spec fn unit_view(u: SaveDataUnit) -> Record {
    (u.score as int, u.date@)
}

/// Units as records, in order.
pub open spec fn units_view(v: Seq<SaveDataUnit>) -> Seq<Record> {
    v.map_values(|u: SaveDataUnit| unit_view(u))
}

/// `s` with `x` put after the last element whose score is at least `x`'s.
pub open spec fn insert_desc(s: Seq<Record>, x: Record) -> Seq<Record>
    decreases s.len(),
{
    if s.len() == 0 {
        seq![x]
    } else if s.last().0 >= x.0 {
        s.push(x)
    } else {
        insert_desc(s.drop_last(), x).push(s.last())
    }
}

/// The records best score first; records of equal score stay in the order
/// in which they came (a stable sort, as `sort_by` and `sort_by_key` are).
pub open spec fn sort_desc(s: Seq<Record>) -> Seq<Record>
    decreases s.len(),
{
    if s.len() == 0 {
        seq![]
    } else {
        insert_desc(sort_desc(s.drop_last()), s.last())
    }
}

/// The first five records, or all of them where there are fewer.
pub open spec fn top5(s: Seq<Record>) -> Seq<Record> {
    if s.len() <= 5 {
        s
    } else {
        s.take(5)
    }
}

/// Best score first.
pub open spec fn sorted_desc(s: Seq<Record>) -> bool {
    forall|i: int, j: int| 0 <= i < j < s.len() ==> s[i].0 >= s[j].0
}

proof fn lemma_insert_desc_split(s: Seq<Record>, x: Record, pos: int)
    requires
        0 < pos <= s.len(),
        s[pos - 1].0 < x.0,
    ensures
        insert_desc(s.take(pos), x) + s.skip(pos) == insert_desc(s.take(pos - 1), x) + s.skip(
            pos - 1,
        ),
{
    assert(s.take(pos).drop_last() =~= s.take(pos - 1));
    assert(s.take(pos).last() == s[pos - 1]);
    assert(insert_desc(s.take(pos - 1), x).push(s[pos - 1]) + s.skip(pos) =~= insert_desc(
        s.take(pos - 1),
        x,
    ) + s.skip(pos - 1));
}

/// Inserts `x` into `v` after the last unit whose score is at least `x`'s.
fn insert_sorted(v: &mut Vec<SaveDataUnit>, x: SaveDataUnit)
    ensures
        units_view(final(v)@) == insert_desc(units_view(old(v)@), unit_view(x)),
{
    let ghost s = units_view(v@);
    let mut pos = v.len();
    assert(s.take(pos as int) =~= s);
    assert(s.skip(pos as int) =~= Seq::<Record>::empty());
    while pos > 0 && v[pos - 1].score < x.score
        invariant
            0 <= pos <= v.len(),
            s == units_view(v@),
            insert_desc(s, unit_view(x)) == insert_desc(s.take(pos as int), unit_view(x)) + s.skip(
                pos as int,
            ),
        decreases pos,
    {
        proof {
            lemma_insert_desc_split(s, unit_view(x), pos as int);
        }
        pos = pos - 1;
    }
    proof {
        if pos == 0 {
            assert(s.take(0) =~= Seq::<Record>::empty());
        } else {
            assert(s.take(pos as int).last() == s[pos - 1]);
        }
    }
    v.insert(pos, x);
    assert(units_view(v@) =~= s.take(pos as int).push(unit_view(x)) + s.skip(pos as int));
}

/// The units best score first, records of equal score in their order.
fn sort_units(data: Vec<SaveDataUnit>) -> (r: Vec<SaveDataUnit>)
    ensures
        units_view(r@) == sort_desc(units_view(data@)),
{
    let ghost orig = units_view(data@);
    let mut rest = data;
    let mut sorted: Vec<SaveDataUnit> = Vec::new();
    let ghost mut done: int = 0;
    while rest.len() > 0
        invariant
            0 <= done <= orig.len(),
            units_view(rest@) == orig.skip(done),
            units_view(sorted@) == sort_desc(orig.take(done)),
        decreases rest.len(),
    {
        let ghost before = rest@;
        let x = rest.remove(0);
        assert(units_view(rest@) =~= units_view(before).drop_first());
        assert(units_view(before)[0] == unit_view(before[0]));
        assert(orig.skip(done)[0] == orig[done]);
        assert(unit_view(x) == orig[done]);
        insert_sorted(&mut sorted, x);
        proof {
            assert(orig.take(done + 1).drop_last() =~= orig.take(done));
            assert(orig.take(done + 1).last() == orig[done]);
            assert(orig.skip(done).drop_first() =~= orig.skip(done + 1));
            done = done + 1;
        }
    }
    assert(orig.take(done) =~= orig);
    sorted
}

/// Adds a score made on `date` to the best scores and keeps the five best,
/// best first; a new score that equals an old one comes after it.
pub fn place_score_to_save(score: i32, date: String, data: Vec<SaveDataUnit>) -> (r: Vec<
    SaveDataUnit,
>)
    ensures
        units_view(r@) == top5(sort_desc(units_view(data@).push((score as int, date@)))),
{
    let mut data = data;
    let ghost before = data@;
    data.push(SaveDataUnit { score, date });
    assert(units_view(data@) =~= units_view(before).push((score as int, date@)));
    let mut sorted = sort_units(data);
    let ghost s = sorted@;
    sorted.truncate(KEPT_SCORES);
    assert(units_view(sorted@) =~= top5(units_view(s)));
    sorted
}

/// The lines of a text, split at each `'\n'` (the last one may be empty).
/// A line ending in `"\r\n"` keeps its `'\r'` and the text may end in an
/// empty line, unlike `str::lines`; neither changes the records below,
/// since `'\r'` is whitespace and an empty line holds no record.
pub open spec fn split_lines(s: Seq<char>) -> (Seq<Seq<char>>, Seq<char>)
    decreases s.len(),
{
    if s.len() == 0 {
        (seq![], seq![])
    } else {
        let (done, cur) = split_lines(s.drop_last());
        if s.last() == '\n' {
            (done.push(cur), seq![])
        } else {
            (done, cur.push(s.last()))
        }
    }
}

/// All the lines of a text, the unfinished last one included.
pub open spec fn lines_of(s: Seq<char>) -> Seq<Seq<char>> {
    split_lines(s).0.push(split_lines(s).1)
}

/// The record that a line of the scores file holds: its first word read as
/// an `i32`, and its second word as the date.
pub open spec fn record_of_line(line: Seq<char>) -> Option<Record> {
    match first_two_words(line) {
        Some((w1, w2)) => match parse_i32(w1) {
            Some(v) => Some((v, w2)),
            None => None,
        },
        None => None,
    }
}

/// The records of the lines that hold one, in order.
pub open spec fn records_of(lines: Seq<Seq<char>>) -> Seq<Record>
    decreases lines.len(),
{
    if lines.len() == 0 {
        seq![]
    } else {
        let r = records_of(lines.drop_last());
        match record_of_line(lines.last()) {
            Some(x) => r.push(x),
            None => r,
        }
    }
}

/// What the best scores of a scores file are: the five best records of its
/// lines, best first.
pub open spec fn parse_scores(text: Seq<char>) -> Seq<Record> {
    top5(sort_desc(records_of(lines_of(text))))
}

/// The line that a record is saved as: score, a space, date, newline.
pub open spec fn record_line(r: Record) -> Seq<char> {
    decimal(r.0) + seq![' '] + r.1 + seq!['\n']
}

/// The lines of the records, one after the other.
pub open spec fn format_records(rs: Seq<Record>) -> Seq<char>
    decreases rs.len(),
{
    if rs.len() == 0 {
        seq![]
    } else {
        format_records(rs.drop_last()) + record_line(rs.last())
    }
}

/// The record of the line `v[start..end]`, if it holds one.
fn unit_of_line(v: &Vec<char>, start: usize, end: usize) -> (r: Option<SaveDataUnit>)
    requires
        start <= end <= v.len(),
    ensures
        r matches Some(u) ==> record_of_line(v@.subrange(start as int, end as int)) == Some(
            unit_view(u),
        ),
        r is None ==> record_of_line(v@.subrange(start as int, end as int)) is None,
{
    let a = skip_whitespace(v, start, end);
    if a == end {
        return None;
    }
    let a_end = word_end(v, a, end);
    assert(v@.subrange(a as int, end as int).skip((a_end - a) as int) =~= v@.subrange(
        a_end as int,
        end as int,
    ));
    let b = skip_whitespace(v, a_end, end);
    if b == end {
        return None;
    }
    let b_end = word_end(v, b, end);
    match parse_i32_in(v, a, a_end) {
        Some(score) => {
            let date = string_of_range(v, b, b_end);
            Some(SaveDataUnit { score, date })
        },
        None => None,
    }
}

/// Reads the best scores out of the text of a scores file: each line that
/// starts with a score (an `i32`) and a date is a record; the five best
/// are kept, best first, records of equal score in the order of the file.
pub fn parse_saved_data(contents: &str) -> (r: Vec<SaveDataUnit>)
    ensures
        units_view(r@) == parse_scores(contents@),
{
    let v = chars_vec(contents);
    let mut records: Vec<SaveDataUnit> = Vec::new();
    let ghost mut done: Seq<Seq<char>> = seq![];
    let mut start: usize = 0;
    let mut i: usize = 0;
    while i < v.len()
        invariant
            start <= i <= v.len(),
            v@ == contents@,
            split_lines(v@.take(i as int)) == (done, v@.subrange(start as int, i as int)),
            units_view(records@) == records_of(done),
        decreases v.len() - i,
    {
        assert(v@.take(i + 1).drop_last() =~= v@.take(i as int));
        if v[i] == '\n' {
            let found = unit_of_line(&v, start, i);
            let ghost before = records@;
            match found {
                Some(u) => {
                    records.push(u);
                    assert(units_view(records@) =~= units_view(before).push(unit_view(u)));
                },
                None => {},
            }
            proof {
                let line = v@.subrange(start as int, i as int);
                assert(done.push(line).drop_last() =~= done);
                assert(units_view(records@) == records_of(done.push(line)));
                done = done.push(line);
                assert(v@.subrange(i + 1, i + 1) =~= Seq::<char>::empty());
            }
            start = i + 1;
        } else {
            assert(v@.subrange(start as int, i as int).push(v@[i as int]) =~= v@.subrange(
                start as int,
                i + 1,
            ));
        }
        i = i + 1;
    }
    assert(v@.take(v.len() as int) =~= v@);
    let found = unit_of_line(&v, start, v.len());
    let ghost before = records@;
    let ghost all_lines = done.push(v@.subrange(start as int, v.len() as int));
    assert(all_lines.drop_last() =~= done);
    match found {
        Some(u) => {
            records.push(u);
            assert(units_view(records@) =~= units_view(before).push(unit_view(u)));
        },
        None => {},
    }
    assert(units_view(records@) == records_of(lines_of(contents@)));
    let mut sorted = sort_units(records);
    let ghost s = sorted@;
    sorted.truncate(KEPT_SCORES);
    assert(units_view(sorted@) =~= top5(units_view(s)));
    sorted
}

/// The text that saves the best scores: the five best records, best first,
/// one line each.
pub fn format_saved_data(data: Vec<SaveDataUnit>) -> (s: String)
    ensures
        s@ == format_records(top5(sort_desc(units_view(data@)))),
{
    let sorted = sort_units(data);
    let ghost all = units_view(sorted@);
    let n = if sorted.len() < KEPT_SCORES {
        sorted.len()
    } else {
        KEPT_SCORES
    };
    let mut out: Vec<char> = Vec::new();
    let mut k: usize = 0;
    while k < n
        invariant
            0 <= k <= n <= sorted.len(),
            n == (if sorted.len() < 5 { sorted.len() } else { 5 }),
            all == units_view(sorted@),
            out@ == format_records(all.take(k as int)),
        decreases n - k,
    {
        let ghost before = out@;
        push_decimal(&mut out, sorted[k].score as i64);
        out.push(' ');
        let date = chars_vec(sorted[k].date.as_str());
        let mut c: usize = 0;
        while c < date.len()
            invariant
                0 <= c <= date.len(),
                out@ == before + decimal(sorted@[k as int].score as int) + seq![' '] + date@.take(
                    c as int,
                ),
            decreases date.len() - c,
        {
            out.push(date[c]);
            assert(date@.take(c + 1) =~= date@.take(c as int).push(date[c as int]));
            assert(out@ =~= before + decimal(sorted@[k as int].score as int) + seq![' '] + date@.take(
                c + 1,
            ));
            c = c + 1;
        }
        out.push('\n');
        proof {
            assert(date@.take(date.len() as int) =~= date@);
            assert(all[k as int] == unit_view(sorted@[k as int]));
            assert(all.take(k + 1).drop_last() =~= all.take(k as int));
            assert(all.take(k + 1).last() == all[k as int]);
            assert(out@ =~= before + record_line(all[k as int]));
        }
        k = k + 1;
    }
    assert(all.take(n as int) =~= top5(all));
    string_from_chars(&out)
}

/// The best scores of a fresh game: five records of score 0 on the date
/// "00.00.0000".
pub fn default_saved_data() -> (r: Vec<SaveDataUnit>)
    ensures
        r@.len() == 5,
        forall|i: int| 0 <= i < 5 ==> #[trigger] unit_view(r@[i]) == (0int, "00.00.0000"@),
{
    let mut r: Vec<SaveDataUnit> = Vec::new();
    let mut k: usize = 0;
    while k < KEPT_SCORES
        invariant
            0 <= k <= 5,
            r@.len() == k,
            forall|i: int| 0 <= i < k ==> #[trigger] unit_view(r@[i]) == (0int, "00.00.0000"@),
        decreases 5 - k,
    {
        r.push(SaveDataUnit { score: 0, date: "00.00.0000".to_owned() });
        k = k + 1;
    }
    r
}

/// The date as the scores file writes it: day, month and year in decimal,
/// separated by dots.
pub open spec fn date_text(day: int, month: int, year: int) -> Seq<char> {
    decimal(day) + seq!['.'] + decimal(month) + seq!['.'] + decimal(year)
}

/// Writes a date as `day.month.year`.
pub fn format_date(day: u32, month: u32, year: i32) -> (s: String)
    ensures
        s@ == date_text(day as int, month as int, year as int),
{
    let mut out: Vec<char> = Vec::new();
    push_decimal(&mut out, day as i64);
    out.push('.');
    push_decimal(&mut out, month as i64);
    out.push('.');
    push_decimal(&mut out, year as i64);
    assert(out@ =~= date_text(day as int, month as int, year as int));
    string_from_chars(&out)
}

#[verifier::external_type_specification]
#[verifier::external_body]
pub struct ExNaiveDate(NaiveDate);

/// Today's calendar date in the machine's time zone, read as chrono's
/// `Local::now` reads it: std's `SystemTime::now` since the Unix epoch,
/// chrono's `DateTime::from_timestamp`, then `with_timezone(&Local)` and
/// `date_naive`. Where the clock is before the epoch or beyond chrono's
/// range, `Local::now` panics; here the result is `None` instead.
///
/// Trusted only in that it returns; nothing is stated of which date, nor of
/// when it is `None`.
#[verifier::external_body]
fn local_today() -> Option<NaiveDate> {
    let since_epoch = SystemTime::now().duration_since(UNIX_EPOCH).ok()?;
    let utc = DateTime::from_timestamp(since_epoch.as_secs() as i64, since_epoch.subsec_nanos())?;
    Some(utc.with_timezone(&Local).date_naive())
}

/// chrono's `Datelike::day` of a calendar date.
///
/// Trusted: it claims that the day of the month lies in `1..=31`.
#[verifier::external_body]
fn day_of(t: &NaiveDate) -> (d: u32)
    ensures
        1 <= d <= 31,
{
    t.day()
}

/// chrono's `Datelike::month` of a calendar date.
///
/// Trusted: it claims that the month lies in `1..=12`.
#[verifier::external_body]
fn month_of(t: &NaiveDate) -> (m: u32)
    ensures
        1 <= m <= 12,
{
    t.month()
}

/// chrono's `Datelike::year` of a calendar date.
///
/// Trusted only in that it returns an `i32`; which year is not stated.
#[verifier::external_body]
fn year_of(t: &NaiveDate) -> i32 {
    t.year()
}

/// The text of some date: a day of 1 to 31, a month of 1 to 12 and a year
/// that fits an `i32`, written as `day.month.year`.
pub open spec fn is_date_text(s: Seq<char>) -> bool {
    exists|d: int, m: int, y: int|
        1 <= d <= 31 && 1 <= m <= 12 && i32::MIN <= y <= i32::MAX && s == date_text(d, m, y)
}

/// Today's date in the local time zone, as `day.month.year`; `None` where
/// the machine's clock cannot be read as a date (before the Unix epoch or
/// beyond chrono's range).
pub fn get_date() -> (s: Option<String>)
    ensures
        s matches Some(t) ==> is_date_text(t@),
{
    match local_today() {
        Some(now) => {
            let d = day_of(&now);
            let m = month_of(&now);
            let y = year_of(&now);
            Some(format_date(d, m, y))
        },
        None => None,
    }
}

proof fn lemma_insert_desc_bound(t: Seq<Record>, x: Record, b: int)
    requires
        forall|i: int| 0 <= i < t.len() ==> #[trigger] t[i].0 >= b,
        x.0 >= b,
    ensures
        forall|i: int|
            0 <= i < insert_desc(t, x).len() ==> #[trigger] insert_desc(t, x)[i].0 >= b,
    decreases t.len(),
{
    let r = insert_desc(t, x);
    if t.len() == 0 {
    } else if t.last().0 >= x.0 {
        assert forall|i: int| 0 <= i < r.len() implies #[trigger] r[i].0 >= b by {
            if i < t.len() {
                assert(r[i] == t[i]);
            }
        }
    } else {
        let u = t.drop_last();
        assert(forall|i: int| 0 <= i < u.len() ==> #[trigger] u[i] == t[i]);
        lemma_insert_desc_bound(u, x, b);
        let q = insert_desc(u, x);
        assert forall|i: int| 0 <= i < r.len() implies #[trigger] r[i].0 >= b by {
            if i < q.len() {
                assert(r[i] == q[i]);
            }
        }
    }
}

proof fn lemma_insert_desc(t: Seq<Record>, x: Record)
    ensures
        insert_desc(t, x).len() == t.len() + 1,
        insert_desc(t, x).to_multiset() == t.to_multiset().insert(x),
        sorted_desc(t) ==> sorted_desc(insert_desc(t, x)),
    decreases t.len(),
{
    broadcast use vstd::seq_lib::group_to_multiset_ensures;

    if t.len() == 0 {
        assert(seq![x] =~= Seq::<Record>::empty().push(x));
    } else if t.last().0 >= x.0 {
    } else {
        let u = t.drop_last();
        lemma_insert_desc(u, x);
        assert(u.push(t.last()) =~= t);
        if sorted_desc(t) {
            lemma_insert_desc_bound(u, x, t.last().0);
        }
    }
}

/// The best scores come out best first, and sorting keeps every record:
/// it only reorders them.
pub proof fn lemma_sort_desc(s: Seq<Record>)
    ensures
        sorted_desc(sort_desc(s)),
        sort_desc(s).to_multiset() == s.to_multiset(),
        sort_desc(s).len() == s.len(),
    decreases s.len(),
{
    broadcast use vstd::seq_lib::group_to_multiset_ensures;

    if s.len() > 0 {
        lemma_sort_desc(s.drop_last());
        lemma_insert_desc(sort_desc(s.drop_last()), s.last());
        assert(s.drop_last().push(s.last()) =~= s);
    }
}

/// Sorting records that are already best first changes nothing.
pub proof fn lemma_sort_desc_sorted(s: Seq<Record>)
    requires
        sorted_desc(s),
    ensures
        sort_desc(s) == s,
    decreases s.len(),
{
    if s.len() > 0 {
        let t = s.drop_last();
        assert(sorted_desc(t));
        lemma_sort_desc_sorted(t);
        assert(t.push(s.last()) =~= s);
        if t.len() > 0 {
            assert(t.last() == s[s.len() - 2]);
        } else {
            assert(seq![s.last()] =~= s);
        }
    }
}

/// The saved best scores are at most five, best first, each of them one of
/// the records; adding a score never loses a better one.
pub proof fn lemma_top5_sorted(s: Seq<Record>)
    ensures
        top5(sort_desc(s)).len() <= 5,
        sorted_desc(top5(sort_desc(s))),
        forall|i: int|
            0 <= i < top5(sort_desc(s)).len() ==> s.contains(#[trigger] top5(sort_desc(s))[i]),
{
    broadcast use vstd::seq_lib::group_to_multiset_ensures;

    lemma_sort_desc(s);
    let t = sort_desc(s);
    assert forall|i: int| 0 <= i < top5(t).len() implies s.contains(#[trigger] top5(t)[i]) by {
        assert(top5(t)[i] == t[i]);
        assert(t.contains(t[i]));
        assert(t.to_multiset().count(t[i]) > 0);
    }
}

/// A record that a line of the scores file can hold and read back: a date
/// that is not empty and holds no whitespace.
pub open spec fn savable(r: Record) -> bool {
    &&& i32::MIN <= r.0 <= i32::MAX
    &&& r.1.len() >= 1
    &&& forall|i: int| 0 <= i < r.1.len() ==> !is_ws(#[trigger] r.1[i])
}

/// The line of a record without its newline.
pub open spec fn record_body(r: Record) -> Seq<char> {
    decimal(r.0) + seq![' '] + r.1
}

proof fn lemma_split_lines_no_newline(p: Seq<char>, b: Seq<char>)
    requires
        split_lines(p).1 == Seq::<char>::empty(),
        forall|i: int| 0 <= i < b.len() ==> #[trigger] b[i] != '\n',
    ensures
        split_lines(p + b) == (split_lines(p).0, b),
    decreases b.len(),
{
    if b.len() == 0 {
        assert(p + b =~= p);
    } else {
        lemma_split_lines_no_newline(p, b.drop_last());
        assert((p + b).drop_last() =~= p + b.drop_last());
        assert(b.drop_last().push(b.last()) =~= b);
    }
}

proof fn lemma_record_body(r: Record)
    requires
        savable(r),
    ensures
        forall|i: int| 0 <= i < record_body(r).len() ==> #[trigger] record_body(r)[i] != '\n',
        record_of_line(record_body(r)) == Some(r),
{
    let d = decimal(r.0);
    lemma_decimal_i32(r.0);
    let body = record_body(r);
    assert forall|i: int| 0 <= i < body.len() implies #[trigger] body[i] != '\n' by {
        if i < d.len() {
            assert(body[i] == d[i]);
        } else if i > d.len() {
            assert(body[i] == r.1[i - d.len() - 1]);
        }
    }
    assert(body == d + (seq![' '] + r.1));
    lemma_skip_ws_none(body);
    lemma_word_of(d, seq![' '] + r.1);
    let rest = body.skip(d.len() as int);
    assert(rest =~= seq![' '] + r.1);
    assert(rest.drop_first() =~= r.1);
    lemma_skip_ws_none(r.1);
    assert(crate::text::skip_ws(rest) == r.1);
    lemma_word_of(r.1, Seq::<char>::empty());
    assert(r.1 + Seq::<char>::empty() =~= r.1);
}

proof fn lemma_format_lines(rs: Seq<Record>)
    requires
        forall|i: int| 0 <= i < rs.len() ==> savable(#[trigger] rs[i]),
    ensures
        split_lines(format_records(rs)) == (rs.map_values(|r: Record| record_body(r)), Seq::<
            char,
        >::empty()),
    decreases rs.len(),
{
    if rs.len() > 0 {
        let t = rs.drop_last();
        let r = rs.last();
        assert(forall|i: int| 0 <= i < t.len() ==> #[trigger] t[i] == rs[i]);
        lemma_format_lines(t);
        lemma_record_body(r);
        let p = format_records(t);
        let body = record_body(r);
        lemma_split_lines_no_newline(p, body);
        assert(format_records(rs) == (p + body).push('\n')) by {
            assert(record_line(r) =~= body.push('\n'));
            assert(p + body.push('\n') =~= (p + body).push('\n'));
        }
        let whole = (p + body).push('\n');
        assert(whole.drop_last() =~= p + body);
        assert(whole.last() == '\n');
        assert(split_lines(whole) == (split_lines(p).0.push(body), Seq::<char>::empty()));
        assert(t.map_values(|r: Record| record_body(r)).push(body) =~= rs.map_values(
            |r: Record| record_body(r),
        ));
    } else {
        assert(rs.map_values(|r: Record| record_body(r)) =~= Seq::<Seq<char>>::empty());
    }
}

proof fn lemma_records_of_bodies(rs: Seq<Record>)
    requires
        forall|i: int| 0 <= i < rs.len() ==> savable(#[trigger] rs[i]),
    ensures
        records_of(rs.map_values(|r: Record| record_body(r))) == rs,
    decreases rs.len(),
{
    let lines = rs.map_values(|r: Record| record_body(r));
    if rs.len() > 0 {
        let t = rs.drop_last();
        assert(forall|i: int| 0 <= i < t.len() ==> #[trigger] t[i] == rs[i]);
        lemma_records_of_bodies(t);
        assert(lines.drop_last() =~= t.map_values(|r: Record| record_body(r)));
        lemma_record_body(rs.last());
        assert(t.push(rs.last()) =~= rs);
    } else {
        assert(rs =~= Seq::<Record>::empty());
    }
}

/// Loading the scores file gives back what saving wrote: the text that
/// `format_saved_data` makes of any scores reads back, through
/// `parse_saved_data`, as the same five best scores in the same order,
/// provided each date is a single non-empty word.
pub proof fn lemma_save_then_load(rs: Seq<Record>)
    requires
        forall|i: int| 0 <= i < rs.len() ==> savable(#[trigger] rs[i]),
    ensures
        parse_scores(format_records(top5(sort_desc(rs)))) == top5(sort_desc(rs)),
{
    broadcast use vstd::seq_lib::group_to_multiset_ensures;

    let kept = top5(sort_desc(rs));
    lemma_top5_sorted(rs);
    assert forall|i: int| 0 <= i < kept.len() implies savable(#[trigger] kept[i]) by {
        assert(rs.contains(kept[i]));
    }
    lemma_format_lines(kept);
    let bodies = kept.map_values(|r: Record| record_body(r));
    let lines = lines_of(format_records(kept));
    assert(lines == bodies.push(Seq::<char>::empty()));
    assert(lines.drop_last() =~= bodies);
    assert(record_of_line(Seq::<char>::empty()) is None);
    lemma_records_of_bodies(kept);
    assert(records_of(lines) == kept);
    lemma_sort_desc_sorted(kept);
}

/// Best scores as a game keeps them: one to five records, best first.
pub open spec fn saved_ok(v: Seq<Record>) -> bool {
    1 <= v.len() <= 5 && sorted_desc(v)
}

/// The records of a fresh game: five of score 0 on the date "00.00.0000".
pub open spec fn default_records() -> Seq<Record> {
    Seq::new(5, |i: int| (0int, "00.00.0000"@))
}

/// Adding a score to best scores that a game keeps gives best scores that a
/// game keeps.
pub proof fn lemma_place_keeps_saved_ok(old_records: Seq<Record>, x: Record)
    ensures
        saved_ok(top5(sort_desc(old_records.push(x)))),
{
    lemma_top5_sorted(old_records.push(x));
    lemma_sort_desc(old_records.push(x));
}

/// The best scores a game starts with, from the text of the scores file
/// (`None` where it could not be read): the scores it holds, or, where it
/// holds none, five scores of 0 dated "00.00.0000", which are then to be
/// written back (the `bool`).
pub fn initial_scores(contents: Option<&str>) -> (r: (Vec<SaveDataUnit>, bool))
    ensures
        ({
            let p = match contents {
                Some(t) => parse_scores(t@),
                None => Seq::<Record>::empty(),
            };
            &&& p.len() == 0 ==> r.1 && units_view(r.0@) == default_records()
            &&& p.len() > 0 ==> !r.1 && units_view(r.0@) == p
        }),
        saved_ok(units_view(r.0@)),
{
    let loaded = match contents {
        Some(t) => parse_saved_data(t),
        None => Vec::new(),
    };
    proof {
        if let Some(t) = contents {
            lemma_top5_sorted(records_of(lines_of(t@)));
        }
    }
    if loaded.len() == 0 {
        let d = default_saved_data();
        assert(units_view(d@) =~= default_records());
        (d, true)
    } else {
        (loaded, false)
    }
}

} // verus!
