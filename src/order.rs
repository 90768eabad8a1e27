//! The order of versions: by name, extension, timestamp, then revision.
use vstd::prelude::*;
use core::cmp::Ordering;
use vstd::std_specs::cmp::PartialOrdSpec;
use crate::datetime::{DateTime, dt_le, dt_lt};
use crate::fileversionparser::{FileVersion, VersionModel};

verus! {

/// Lexicographic order of character sequences, as `str` orders text.
pub open spec fn text_cmp(a: Seq<char>, b: Seq<char>) -> Ordering
    decreases a.len(),
{
    if a.len() == 0 {
        if b.len() == 0 {
            Ordering::Equal
        } else {
            Ordering::Less
        }
    } else if b.len() == 0 {
        Ordering::Greater
    } else if (a[0] as u32) < (b[0] as u32) {
        Ordering::Less
    } else if (a[0] as u32) > (b[0] as u32) {
        Ordering::Greater
    } else {
        text_cmp(a.drop_first(), b.drop_first())
    }
}

/// Chronological order of timestamps.
pub open spec fn date_time_cmp(a: DateTime, b: DateTime) -> Ordering {
    if a == b {
        Ordering::Equal
    } else if dt_le(a, b) {
        Ordering::Less
    } else {
        Ordering::Greater
    }
}

/// An absent revision comes before any present one.
pub open spec fn revision_cmp(a: Option<Seq<char>>, b: Option<Seq<char>>) -> Ordering {
    match (a, b) {
        (None, None) => Ordering::Equal,
        (None, Some(_)) => Ordering::Less,
        (Some(_), None) => Ordering::Greater,
        (Some(x), Some(y)) => text_cmp(x, y),
    }
}

/// Versions compared by name, then extension, then timestamp, then revision.
pub open spec fn version_cmp(a: VersionModel, b: VersionModel) -> Ordering {
    let by_name = text_cmp(a.name, b.name);
    let by_extension = text_cmp(a.extension, b.extension);
    let by_time = date_time_cmp(a.date_time, b.date_time);
    if by_name != Ordering::Equal {
        by_name
    } else if by_extension != Ordering::Equal {
        by_extension
    } else if by_time != Ordering::Equal {
        by_time
    } else {
        revision_cmp(a.revision, b.revision)
    }
}

/// Compares two texts character by character.
fn compare_text(a: &str, b: &str) -> (r: Ordering)
    ensures
        r == text_cmp(a@, b@),
{
    let n = a.unicode_len();
    let m = b.unicode_len();
    let mut i: usize = 0;
    assert(a@.subrange(0, n as int) =~= a@);
    assert(b@.subrange(0, m as int) =~= b@);
    while i < n && i < m
        invariant
            n == a@.len(),
            m == b@.len(),
            i <= n,
            i <= m,
            text_cmp(a@, b@) == text_cmp(a@.subrange(i as int, n as int), b@.subrange(i as int, m as int)),
        decreases n - i,
    {
        let x = a.get_char(i);
        let y = b.get_char(i);
        let ghost sa = a@.subrange(i as int, n as int);
        let ghost sb = b@.subrange(i as int, m as int);
        assert(sa[0] == x && sb[0] == y);
        if (x as u32) < (y as u32) {
            return Ordering::Less;
        } else if (x as u32) > (y as u32) {
            return Ordering::Greater;
        }
        assert(sa.drop_first() =~= a@.subrange(i + 1, n as int));
        assert(sb.drop_first() =~= b@.subrange(i + 1, m as int));
        i = i + 1;
    }
    if i < n {
        Ordering::Greater
    } else if i < m {
        Ordering::Less
    } else {
        Ordering::Equal
    }
}

fn compare_date_time(a: &DateTime, b: &DateTime) -> (r: Ordering)
    ensures
        r == date_time_cmp(*a, *b),
{
    if a.le(b) {
        if b.le(a) {
            Ordering::Equal
        } else {
            Ordering::Less
        }
    } else {
        Ordering::Greater
    }
}

impl PartialOrd for FileVersion {
    fn partial_cmp(&self, other: &FileVersion) -> (r: Option<Ordering>)
        ensures
            r == Some(version_cmp(self@, other@)),
    {
        let by_name = compare_text(self.name.as_str(), other.name.as_str());
        if !matches!(by_name, Ordering::Equal) {
            return Some(by_name);
        }
        let by_extension = compare_text(self.extension.as_str(), other.extension.as_str());
        if !matches!(by_extension, Ordering::Equal) {
            return Some(by_extension);
        }
        let by_time = compare_date_time(&self.date_time, &other.date_time);
        if !matches!(by_time, Ordering::Equal) {
            return Some(by_time);
        }
        let by_revision = match (&self.revision, &other.revision) {
            (None, None) => Ordering::Equal,
            (None, Some(_)) => Ordering::Less,
            (Some(_), None) => Ordering::Greater,
            (Some(x), Some(y)) => compare_text(x.as_str(), y.as_str()),
        };
        Some(by_revision)
    }
}

impl vstd::std_specs::cmp::PartialOrdSpecImpl for FileVersion {
    open spec fn obeys_partial_cmp_spec() -> bool {
        true
    }

    open spec fn partial_cmp_spec(&self, other: &FileVersion) -> Option<Ordering> {
        Some(version_cmp(self@, other@))
    }
}

/// A text compares equal to itself.
proof fn lemma_text_cmp_reflexive(a: Seq<char>)
    ensures
        text_cmp(a, a) == Ordering::Equal,
    decreases a.len(),
{
    if a.len() > 0 {
        lemma_text_cmp_reflexive(a.drop_first());
    }
}

/// Of two versions that differ only in their timestamps, the earlier one is
/// the lesser.
pub proof fn lemma_earlier_is_less(a: FileVersion, b: FileVersion)
    requires
        a@.name == b@.name,
        a@.extension == b@.extension,
        a@.revision == b@.revision,
        dt_lt(a.date_time, b.date_time),
    ensures
        version_cmp(a@, b@) == Ordering::Less,
        a.partial_cmp_spec(&b) == Some(Ordering::Less),
{
    lemma_text_cmp_reflexive(a@.name);
    lemma_text_cmp_reflexive(a@.extension);
}

} // verus!
