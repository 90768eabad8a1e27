use vstd::prelude::*;
use crate::datetime::DateTime;
use crate::errors::BBError;
use crate::text::{
    all_digits, digits2, digits4, find_char, is_digit, lacks, lemma_digits2, lemma_digits4,
    number_value, read_number,
};

verus! {

/// What a `FileVersion` holds, as mathematical values. An empty `name` (and
/// `extension`) stands for a version written without the prefix.
pub struct VersionModel {
    pub name: Seq<char>,
    pub extension: Seq<char>,
    pub date_time: DateTime,
    pub revision: Option<Seq<char>>,
}

/// One parsed version of a backed-up file.
#[derive(Debug, Clone, PartialEq, Eq, Ord)]
pub struct FileVersion {
    /// Base name of the file; empty where the version was written bare.
    pub name: String,
    /// Extension of the file; empty exactly when `name` is.
    pub extension: String,
    pub date_time: DateTime,
    /// Digits that tell apart versions written within the same second.
    pub revision: Option<String>,
}

pub open spec fn opt_view(r: Option<String>) -> Option<Seq<char>> {
    match r {
        Some(s) => Some(s@),
        None => None,
    }
}

impl View for FileVersion {
    type V = VersionModel;

    open spec fn view(&self) -> VersionModel {
        VersionModel {
            name: self.name@,
            extension: self.extension@,
            date_time: self.date_time,
            revision: opt_view(self.revision),
        }
    }
}

/// A revision is absent, or one or more digits.
pub open spec fn revision_wf(r: Option<Seq<char>>) -> bool {
    r matches Some(d) ==> d.len() > 0 && all_digits(d)
}

/// A timestamp that exists and whose year is written in four digits.
pub open spec fn stamp_wf(d: DateTime) -> bool {
    d.wf() && 0 <= d.year <= 9999
}

/// Each timestamp field fits the number of digits it is written in.
pub open spec fn stamp_shaped(d: DateTime) -> bool {
    &&& 0 <= d.year <= 9999
    &&& d.month < 100
    &&& d.day < 100
    &&& d.hour < 100
    &&& d.minute < 100
    &&& d.second < 100
}

impl VersionModel {
    /// Written in the grammar's shape, whether or not its timestamp exists.
    pub open spec fn shaped(self) -> bool {
        &&& (self.name.len() == 0 <==> self.extension.len() == 0)
        &&& lacks(self.name, '.')
        &&& lacks(self.extension, '.')
        &&& stamp_shaped(self.date_time)
        &&& revision_wf(self.revision)
    }

    /// A version that the grammar can write: name and extension both present
    /// and free of `.`, or both absent; a real timestamp; a revision of digits.
    pub open spec fn wf(self) -> bool {
        &&& (self.name.len() == 0 <==> self.extension.len() == 0)
        &&& lacks(self.name, '.')
        &&& lacks(self.extension, '.')
        &&& stamp_wf(self.date_time)
        &&& revision_wf(self.revision)
    }
}

/// `YYYYMMDD-HHMMSS`.
pub open spec fn stamp_text(d: DateTime) -> Seq<char> {
    digits4(d.year as int) + digits2(d.month as int) + digits2(d.day as int) + seq!['-']
        + digits2(d.hour as int) + digits2(d.minute as int) + digits2(d.second as int)
}

/// `_r` and the digits, or nothing.
pub open spec fn revision_text(r: Option<Seq<char>>) -> Seq<char> {
    match r {
        Some(d) => seq!['_', 'r'] + d,
        None => Seq::empty(),
    }
}

/// `name.extension.`, or nothing where the name is absent.
pub open spec fn prefix_text(name: Seq<char>, extension: Seq<char>) -> Seq<char> {
    if name.len() == 0 {
        Seq::empty()
    } else {
        name + seq!['.'] + extension + seq!['.']
    }
}

/// The text that the version grammar gives to `m`.
pub open spec fn encoding(m: VersionModel) -> Seq<char> {
    prefix_text(m.name, m.extension) + stamp_text(m.date_time) + revision_text(m.revision)
}

/// The timestamp and revision part of an encoding.
pub open spec fn tail_text(d: DateTime, r: Option<Seq<char>>) -> Seq<char> {
    stamp_text(d) + revision_text(r)
}

/// Where each field of a timestamp stands in its text, which holds no `.`.
proof fn lemma_stamp_shape(d: DateTime)
    requires
        stamp_shaped(d),
    ensures
        lacks(stamp_text(d), '.'),
        stamp_text(d).len() == 15,
        stamp_text(d).subrange(0, 4) == digits4(d.year as int),
        stamp_text(d).subrange(4, 6) == digits2(d.month as int),
        stamp_text(d).subrange(6, 8) == digits2(d.day as int),
        stamp_text(d)[8] == '-',
        stamp_text(d).subrange(9, 11) == digits2(d.hour as int),
        stamp_text(d).subrange(11, 13) == digits2(d.minute as int),
        stamp_text(d).subrange(13, 15) == digits2(d.second as int),
        number_value(digits4(d.year as int)) == d.year,
        number_value(digits2(d.month as int)) == d.month,
        number_value(digits2(d.day as int)) == d.day,
        number_value(digits2(d.hour as int)) == d.hour,
        number_value(digits2(d.minute as int)) == d.minute,
        number_value(digits2(d.second as int)) == d.second,
{
    let t = stamp_text(d);
    lemma_digits4(Seq::empty(), d.year as int);
    lemma_digits2(Seq::empty(), d.month as int);
    lemma_digits2(Seq::empty(), d.day as int);
    lemma_digits2(Seq::empty(), d.hour as int);
    lemma_digits2(Seq::empty(), d.minute as int);
    lemma_digits2(Seq::empty(), d.second as int);
    assert(t.subrange(0, 4) =~= digits4(d.year as int));
    assert(t.subrange(4, 6) =~= digits2(d.month as int));
    assert(t.subrange(6, 8) =~= digits2(d.day as int));
    assert(t.subrange(9, 11) =~= digits2(d.hour as int));
    assert(t.subrange(11, 13) =~= digits2(d.minute as int));
    assert(t.subrange(13, 15) =~= digits2(d.second as int));
    assert forall|i: int| 0 <= i < t.len() implies t[i] != '.' by {
        if i < 4 {
            assert(t[i] == digits4(d.year as int)[i]);
        } else if i < 6 {
            assert(t[i] == digits2(d.month as int)[i - 4]);
        } else if i < 8 {
            assert(t[i] == digits2(d.day as int)[i - 6]);
        } else if i < 9 {
        } else if i < 11 {
            assert(t[i] == digits2(d.hour as int)[i - 9]);
        } else if i < 13 {
            assert(t[i] == digits2(d.minute as int)[i - 11]);
        } else {
            assert(t[i] == digits2(d.second as int)[i - 13]);
        }
    }
}

/// The digits of each field of a timestamp's text read back as that field.
proof fn lemma_stamp_fields(t: Seq<char>, d: DateTime)
    requires
        stamp_wf(d),
        t == stamp_text(d),
    ensures
        all_digits(t.subrange(0, 4)) && number_value(t.subrange(0, 4)) == d.year,
        all_digits(t.subrange(4, 6)) && number_value(t.subrange(4, 6)) == d.month,
        all_digits(t.subrange(6, 8)) && number_value(t.subrange(6, 8)) == d.day,
        t[8] == '-',
        all_digits(t.subrange(9, 11)) && number_value(t.subrange(9, 11)) == d.hour,
        all_digits(t.subrange(11, 13)) && number_value(t.subrange(11, 13)) == d.minute,
        all_digits(t.subrange(13, 15)) && number_value(t.subrange(13, 15)) == d.second,
{
    lemma_stamp_shape(d);
    lemma_digits4(Seq::empty(), d.year as int);
    lemma_digits2(Seq::empty(), d.month as int);
    lemma_digits2(Seq::empty(), d.day as int);
    lemma_digits2(Seq::empty(), d.hour as int);
    lemma_digits2(Seq::empty(), d.minute as int);
    lemma_digits2(Seq::empty(), d.second as int);
}

/// A revision's text holds no `.`.
proof fn lemma_revision_shape(r: Option<Seq<char>>)
    requires
        revision_wf(r),
    ensures
        lacks(revision_text(r), '.'),
{
    if let Some(ds) = r {
        assert forall|i: int| 0 <= i < revision_text(r).len() implies revision_text(r)[i] != '.' by {
            if i >= 2 {
                assert(is_digit(ds[i - 2]));
            }
        }
    }
}

/// Reads `YYYYMMDD-HHMMSS` from the 15 characters of `s` at `start`.
fn parse_stamp(s: &str, start: usize) -> (r: Option<DateTime>)
    requires
        start + 15 <= s@.len(),
    ensures
        r matches Some(d) ==> stamp_wf(d) && s@.subrange(start as int, start + 15) == stamp_text(d),
        r is None ==> forall|d: DateTime|
            stamp_wf(d) ==> s@.subrange(start as int, start + 15) != #[trigger] stamp_text(d),
{
    let n = s.unicode_len();
    assert(start + 15 <= n);
    let ghost t = s@.subrange(start as int, start + 15);
    let year = read_number(s, start, 4);
    let month = read_number(s, start + 4, 2);
    let day = read_number(s, start + 6, 2);
    let dash = s.get_char(start + 8);
    let hour = read_number(s, start + 9, 2);
    let minute = read_number(s, start + 11, 2);
    let second = read_number(s, start + 13, 2);
    assert(t.subrange(0, 4) =~= s@.subrange(start as int, start + 4));
    assert(t.subrange(4, 6) =~= s@.subrange(start + 4, start + 6));
    assert(t.subrange(6, 8) =~= s@.subrange(start + 6, start + 8));
    assert(t.subrange(9, 11) =~= s@.subrange(start + 9, start + 11));
    assert(t.subrange(11, 13) =~= s@.subrange(start + 11, start + 13));
    assert(t.subrange(13, 15) =~= s@.subrange(start + 13, start + 15));
    assert(t[8] == dash);
    if year.is_none() || month.is_none() || day.is_none() || dash != '-' || hour.is_none()
        || minute.is_none() || second.is_none() {
        proof {
            assert forall|d: DateTime| stamp_wf(d) implies t != #[trigger] stamp_text(d) by {
                if t == stamp_text(d) {
                    lemma_stamp_fields(t, d);
                }
            }
        }
        return None;
    }
    let year = year.unwrap();
    let month = month.unwrap();
    let day = day.unwrap();
    let hour = hour.unwrap();
    let minute = minute.unwrap();
    let second = second.unwrap();
    proof {
        lemma_digits4(t.subrange(0, 4), 0);
        lemma_digits2(t.subrange(4, 6), 0);
        lemma_digits2(t.subrange(6, 8), 0);
        lemma_digits2(t.subrange(9, 11), 0);
        lemma_digits2(t.subrange(11, 13), 0);
        lemma_digits2(t.subrange(13, 15), 0);
    }
    let stamp = DateTime::new(year as i32, month, day, hour, minute, second);
    match stamp {
        None => {
            proof {
                assert forall|d: DateTime| stamp_wf(d) implies t != #[trigger] stamp_text(d) by {
                    if t == stamp_text(d) {
                        lemma_stamp_fields(t, d);
                    }
                }
            }
            None
        },
        Some(d) => {
            assert(t =~= stamp_text(d));
            Some(d)
        },
    }
}

/// Reads an optional `_r` revision from position `from` to the end of `s`.
fn parse_revision(s: &str, from: usize) -> (r: Option<Option<String>>)
    requires
        from <= s@.len(),
    ensures
        r matches Some(rev) ==> revision_wf(opt_view(rev)) && s@.subrange(from as int, s@.len() as int)
            == revision_text(opt_view(rev)),
        r is None ==> forall|rev: Option<Seq<char>>|
            revision_wf(rev) ==> s@.subrange(from as int, s@.len() as int) != #[trigger] revision_text(
                rev,
            ),
{
    let n = s.unicode_len();
    let ghost rest = s@.subrange(from as int, n as int);
    if from == n {
        assert(rest =~= revision_text(None));
        return Some(None);
    }
    let long_enough = n - from >= 3;
    let ok = long_enough && s.get_char(from) == '_' && s.get_char(from + 1) == 'r'
        && all_digits_between(s, from + 2, n);
    if !ok {
        proof {
            assert forall|rev: Option<Seq<char>>| revision_wf(rev) implies rest
                != #[trigger] revision_text(rev) by {
                if rest == revision_text(rev) {
                    if let Some(ds) = rev {
                        assert(rest.len() == n - from);
                        assert(long_enough);
                        assert(rest[0] == s@[from as int]);
                        assert(rest[1] == s@[from + 1]);
                        assert(revision_text(rev) == seq!['_', 'r'] + ds);
                        assert forall|i: int| 0 <= i < ds.len() implies s@.subrange(
                            from + 2,
                            n as int,
                        )[i] == ds[i] by {
                            assert(rest[i + 2] == ds[i]);
                        }
                        assert(s@.subrange(from + 2, n as int) =~= ds);
                    } else {
                        assert(rest.len() > 0);
                    }
                }
            }
        }
        return None;
    }
    let digits = String::from_str(s.substring_char(from + 2, n));
    assert(rest =~= seq!['_', 'r'] + digits@);
    Some(Some(digits))
}

/// Reads `YYYYMMDD-HHMMSS` and an optional `_r` revision from position `start`
/// to the end of `s`.
fn parse_tail(s: &str, start: usize) -> (r: Option<(DateTime, Option<String>)>)
    requires
        start <= s@.len(),
    ensures
        r matches Some((d, rev)) ==> stamp_wf(d) && revision_wf(opt_view(rev)) && s@.subrange(
            start as int,
            s@.len() as int,
        ) == tail_text(d, opt_view(rev)),
        r is None ==> forall|d: DateTime, rev: Option<Seq<char>>|
            stamp_wf(d) && revision_wf(rev) ==> s@.subrange(start as int, s@.len() as int)
                != #[trigger] tail_text(d, rev),
{
    let n = s.unicode_len();
    let ghost t = s@.subrange(start as int, n as int);
    if n - start < 15 {
        assert forall|d: DateTime, rev: Option<Seq<char>>|
            stamp_wf(d) && revision_wf(rev) implies t != #[trigger] tail_text(d, rev) by {
            assert(t.len() < 15);
            assert(stamp_text(d).len() == 15);
            assert(tail_text(d, rev).len() >= 15);
        }
        return None;
    }
    let stamp = parse_stamp(s, start);
    let rev = parse_revision(s, start + 15);
    assert(t.subrange(0, 15) =~= s@.subrange(start as int, start + 15));
    assert(t.subrange(15, t.len() as int) =~= s@.subrange(start + 15, n as int));
    match (stamp, rev) {
        (Some(d), Some(rv)) => {
            assert(t =~= tail_text(d, opt_view(rv)));
            Some((d, rv))
        },
        _ => {
            proof {
                assert forall|d: DateTime, rv: Option<Seq<char>>|
                    stamp_wf(d) && revision_wf(rv) implies t != #[trigger] tail_text(d, rv) by {
                    assert(stamp_text(d).len() == 15);
                    if t == tail_text(d, rv) {
                        assert(t.subrange(0, 15) =~= stamp_text(d));
                        assert(t.subrange(15, t.len() as int) =~= revision_text(rv));
                    }
                }
            }
            None
        },
    }
}

/// Every character of `s` from `from` up to `to` is a decimal digit.
fn all_digits_between(s: &str, from: usize, to: usize) -> (r: bool)
    requires
        from <= to <= s@.len(),
    ensures
        r == all_digits(s@.subrange(from as int, to as int)),
{
    let mut i = from;
    while i < to
        invariant
            from <= i <= to <= s@.len(),
            all_digits(s@.subrange(from as int, i as int)),
        decreases to - i,
    {
        if crate::text::digit_of(s.get_char(i)).is_none() {
            assert(s@.subrange(from as int, to as int)[i - from] == s@[i as int]);
            return false;
        }
        assert(s@.subrange(from as int, i + 1) =~= s@.subrange(from as int, i as int).push(
            s@[i as int],
        ));
        i = i + 1;
    }
    true
}


/// How an encoding is laid out around its `.` separators.
proof fn lemma_encoding_shape(m: VersionModel)
    requires
        m.shaped(),
    ensures
        m.name.len() == 0 ==> encoding(m) == tail_text(m.date_time, m.revision) && lacks(
            encoding(m),
            '.',
        ),
        m.name.len() > 0 ==> {
            let e = encoding(m);
            let k = m.name.len() as int;
            let j = k + 1 + m.extension.len();
            &&& e.subrange(0, k) == m.name
            &&& e[k] == '.'
            &&& e.subrange(k + 1, j) == m.extension
            &&& e[j] == '.'
            &&& e.subrange(j + 1, e.len() as int) == tail_text(m.date_time, m.revision)
            &&& lacks(e.subrange(j + 1, e.len() as int), '.')
        },
{
    lemma_stamp_shape(m.date_time);
    lemma_revision_shape(m.revision);
    let tail = tail_text(m.date_time, m.revision);
    assert forall|i: int| 0 <= i < tail.len() implies tail[i] != '.' by {
        if i < 15 {
            assert(tail[i] == stamp_text(m.date_time)[i]);
        } else {
            assert(tail[i] == revision_text(m.revision)[i - 15]);
        }
    }
    let e = encoding(m);
    if m.name.len() == 0 {
        assert(e =~= tail);
    } else {
        let k = m.name.len() as int;
        let j = k + 1 + m.extension.len();
        assert(e =~= m.name + seq!['.'] + m.extension + seq!['.'] + tail);
        assert(e.subrange(0, k) =~= m.name);
        assert(e.subrange(k + 1, j) =~= m.extension);
        assert(e.subrange(j + 1, e.len() as int) =~= tail);
    }
}

/// In `s`, a dot-free `a` at `k` followed by a `.` puts the first `.` at or
/// after `k` right after `a`.
proof fn lemma_first_dot(s: Seq<char>, a: Seq<char>, k: int, p: int)
    requires
        0 <= k <= p < s.len(),
        k + a.len() < s.len(),
        s.subrange(k, k + a.len()) == a,
        lacks(a, '.'),
        s[k + a.len()] == '.',
        s[p] == '.',
        lacks(s.subrange(k, p), '.'),
    ensures
        p == k + a.len(),
{
    if p < k + a.len() {
        assert(s.subrange(k, k + a.len())[p - k] == s[p]);
    } else if p > k + a.len() {
        assert(s.subrange(k, p)[a.len() as int] == s[k + a.len()]);
    }
}

/// The message of the error that rejects `input`: the input and the cause.
pub open spec fn rejection_message(input: Seq<char>) -> Seq<char> {
    "unable to parse '"@ + input
        + "': not a version of the form [name.extension.]YYYYMMDD-HHMMSS[_rN] with a date and time that exist"@
}

/// `e` is the `ParseError` that rejects `input`.
pub open spec fn rejects(e: BBError, input: Seq<char>) -> bool {
    e matches BBError::ParseError(m) && m@ == rejection_message(input)
}

/// The error for an input that the grammar does not accept.
fn rejection(input: &str) -> (e: BBError)
    ensures
        rejects(e, input@),
{
    let msg = String::from_str("unable to parse '").concat(input).concat(
        "': not a version of the form [name.extension.]YYYYMMDD-HHMMSS[_rN] with a date and time that exist",
    );
    BBError::ParseError(msg)
}

impl FileVersion {
    /// A version from its parts. Its timestamp exists and its year has four
    /// digits, as for every version the grammar writes.
    pub fn new(name: String, extension: String, date_time: DateTime, revision: Option<String>) -> (r:
        FileVersion)
        requires
            stamp_wf(date_time),
        ensures
            r.name@ == name@,
            r.extension@ == extension@,
            r.date_time == date_time,
            opt_view(r.revision) == opt_view(revision),
    {
        FileVersion { name, extension, date_time, revision }
    }

    /// Parses a version string; the same as `FileVersionParser::parse`.
    pub fn from_str(name: &str) -> (r: Result<FileVersion, BBError>)
        ensures
            r matches Ok(v) ==> v@.wf() && encoding(v@) == name@,
            r matches Err(e) ==> rejects(e, name@) && forall|m: VersionModel|
                m.wf() ==> #[trigger] encoding(m) != name@,
    {
        FileVersionParser::parse(name)
    }
}

/// Parser of the version grammar
/// `[name "." extension "."] YYYYMMDD "-" HHMMSS ["_r" digits]`.
pub struct FileVersionParser;

impl FileVersionParser {
    /// The version that `input` writes. It is rejected with `ParseError`
    /// exactly when no well-formed version is written that way: a bad shape, a
    /// date or time that does not exist, or a character out of place.
    #[verifier::rlimit(60)]
    pub fn parse(input: &str) -> (r: Result<FileVersion, BBError>)
        ensures
            r matches Ok(v) ==> v@.wf() && encoding(v@) == input@,
            r matches Err(e) ==> rejects(e, input@) && forall|m: VersionModel|
                m.wf() ==> #[trigger] encoding(m) != input@,
    {
        let n = input.unicode_len();
        let ghost s = input@;
        assert(s.subrange(0, n as int) =~= s);
        match find_char(input, '.', 0) {
            None => {
                match parse_tail(input, 0) {
                    Some((d, rev)) => {
                        let v = FileVersion {
                            name: String::new(),
                            extension: String::new(),
                            date_time: d,
                            revision: rev,
                        };
                        assert(encoding(v@) =~= s);
                        Ok(v)
                    },
                    None => {
                        assert forall|m: VersionModel| m.wf() implies #[trigger] encoding(m) != s by {
                            lemma_encoding_shape(m);
                            if m.name.len() > 0 && encoding(m) == s {
                                assert(s.subrange(0, n as int)[m.name.len() as int] == '.');
                            }
                        }
                        Err(rejection(input))
                    },
                }
            },
            Some(p1) => {
                assert forall|m: VersionModel| m.wf() && #[trigger] encoding(m) == s implies m.name.len()
                    == p1 by {
                    lemma_encoding_shape(m);
                    if m.name.len() == 0 {
                        assert(s[p1 as int] == '.');
                    } else {
                        lemma_first_dot(s, m.name, 0, p1 as int);
                    }
                }
                if p1 == 0 {
                    assert forall|m: VersionModel| m.wf() implies #[trigger] encoding(m) != s by {
                        lemma_encoding_shape(m);
                    }
                    return Err(rejection(input));
                }
                match find_char(input, '.', p1 + 1) {
                    None => {
                        assert forall|m: VersionModel| m.wf() implies #[trigger] encoding(m) != s by {
                            lemma_encoding_shape(m);
                            if encoding(m) == s {
                                let j = p1 + 1 + m.extension.len();
                                assert(s.subrange(p1 + 1, n as int)[j - p1 - 1] == s[j]);
                            }
                        }
                        Err(rejection(input))
                    },
                    Some(p2) => {
                        assert forall|m: VersionModel| m.wf() && #[trigger] encoding(m) == s implies p2
                            == p1 + 1 + m.extension.len() by {
                            lemma_encoding_shape(m);
                            lemma_first_dot(s, m.extension, p1 + 1, p2 as int);
                        }
                        if p2 == p1 + 1 {
                            assert forall|m: VersionModel| m.wf() implies #[trigger] encoding(m) != s by {
                                lemma_encoding_shape(m);
                            }
                            return Err(rejection(input));
                        }
                        match parse_tail(input, p2 + 1) {
                            Some((d, rev)) => {
                                let name = String::from_str(input.substring_char(0, p1));
                                let extension = String::from_str(input.substring_char(p1 + 1, p2));
                                let v = FileVersion { name, extension, date_time: d, revision: rev };
                                proof {
                                    lemma_stamp_shape(d);
                                    lemma_revision_shape(opt_view(rev));
                                }
                                assert(s =~= s.subrange(0, p1 as int) + seq!['.'] + s.subrange(
                                    p1 + 1,
                                    p2 as int,
                                ) + seq!['.'] + s.subrange(p2 + 1, n as int));
                                assert(encoding(v@) =~= s);
                                Ok(v)
                            },
                            None => {
                                assert forall|m: VersionModel| m.wf() implies #[trigger] encoding(m)
                                    != s by {
                                    lemma_encoding_shape(m);
                                }
                                Err(rejection(input))
                            },
                        }
                    },
                }
            },
        }
    }
}


/// Two timestamp and revision texts are equal only for equal parts.
proof fn lemma_tail_injective(d1: DateTime, r1: Option<Seq<char>>, d2: DateTime, r2: Option<Seq<char>>)
    requires
        stamp_shaped(d1),
        stamp_shaped(d2),
        revision_wf(r1),
        revision_wf(r2),
        tail_text(d1, r1) == tail_text(d2, r2),
    ensures
        d1 == d2,
        r1 == r2,
{
    lemma_stamp_shape(d1);
    lemma_stamp_shape(d2);
    let t = tail_text(d1, r1);
    assert(t.subrange(0, 15) =~= stamp_text(d1));
    assert(tail_text(d2, r2).subrange(0, 15) =~= stamp_text(d2));
    assert(stamp_text(d1).subrange(0, 4) == stamp_text(d2).subrange(0, 4));
    assert(stamp_text(d1).subrange(4, 6) == stamp_text(d2).subrange(4, 6));
    assert(stamp_text(d1).subrange(6, 8) == stamp_text(d2).subrange(6, 8));
    assert(stamp_text(d1).subrange(9, 11) == stamp_text(d2).subrange(9, 11));
    assert(stamp_text(d1).subrange(11, 13) == stamp_text(d2).subrange(11, 13));
    assert(stamp_text(d1).subrange(13, 15) == stamp_text(d2).subrange(13, 15));
    assert(t.subrange(15, t.len() as int) =~= revision_text(r1));
    assert(t.subrange(15, t.len() as int) =~= revision_text(r2));
    match (r1, r2) {
        (Some(a), Some(b)) => {
            assert(a =~= revision_text(r1).subrange(2, revision_text(r1).len() as int));
            assert(b =~= revision_text(r2).subrange(2, revision_text(r2).len() as int));
        },
        _ => {},
    }
}

/// Two versions in the grammar's shape with the same text are the same version.
pub proof fn lemma_encoding_injective(m1: VersionModel, m2: VersionModel)
    requires
        m1.shaped(),
        m2.shaped(),
        encoding(m1) == encoding(m2),
    ensures
        m1 == m2,
{
    lemma_encoding_shape(m1);
    lemma_encoding_shape(m2);
    let e = encoding(m1);
    if m1.name.len() == 0 || m2.name.len() == 0 {
        if m1.name.len() > 0 {
            assert(e[m1.name.len() as int] == '.');
        } else if m2.name.len() > 0 {
            assert(e[m2.name.len() as int] == '.');
        }
        lemma_tail_injective(m1.date_time, m1.revision, m2.date_time, m2.revision);
        assert(m1.name =~= m2.name);
        assert(m1.extension =~= m2.extension);
    } else {
        let k = m1.name.len() as int;
        lemma_first_dot(e, m2.name, 0, k);
        let j = k + 1 + m1.extension.len();
        lemma_first_dot(e, m2.extension, k + 1, j);
        lemma_tail_injective(m1.date_time, m1.revision, m2.date_time, m2.revision);
    }
}

/// Rendering a version in the grammar and reading the text back gives that
/// same version: no other well-formed version is written the same way.
pub proof fn lemma_round_trip(m: VersionModel)
    requires
        m.wf(),
        m.name.len() > 0,
    ensures
        forall|w: VersionModel| w.wf() && #[trigger] encoding(w) == encoding(m) ==> w == m,
{
    assert forall|w: VersionModel| w.wf() && #[trigger] encoding(w) == encoding(m) implies w == m by {
        lemma_encoding_injective(w, m);
    }
}

/// A text in the grammar's shape whose date or time does not exist (month 13,
/// February 30, hour 24) is the text of no well-formed version, so parsing
/// rejects it.
pub proof fn lemma_rejects_impossible_timestamp(m: VersionModel)
    requires
        m.shaped(),
        !m.date_time.wf(),
    ensures
        forall|w: VersionModel| w.wf() ==> #[trigger] encoding(w) != encoding(m),
{
    assert forall|w: VersionModel| w.wf() implies #[trigger] encoding(w) != encoding(m) by {
        if encoding(w) == encoding(m) {
            lemma_encoding_injective(w, m);
        }
    }
}

} // verus!
