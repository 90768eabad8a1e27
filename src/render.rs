//! Writing a version back out as text.
use vstd::prelude::*;
use crate::datetime::DateTime;
use crate::fileversionparser::{
    FileVersion, VersionModel, encoding, prefix_text, revision_text, stamp_shaped, stamp_text,
};
use crate::text::{char_of_digit, digits2, digits4};

verus! {

/// Relies on `String::push`: appends one character.
#[verifier::external_body]
fn push_char(s: &mut String, c: char)
    ensures
        final(s)@ == old(s)@.push(c),
{
    s.push(c)
}

fn push_text(s: &mut String, t: &str)
    ensures
        final(s)@ == old(s)@ + t@,
{
    s.append(t)
}

fn push_digits2(s: &mut String, n: u32)
    requires
        n < 100,
    ensures
        final(s)@ == old(s)@ + digits2(n as int),
{
    push_char(s, char_of_digit(n / 10));
    push_char(s, char_of_digit(n % 10));
}

fn push_digits4(s: &mut String, n: u32)
    requires
        n < 10000,
    ensures
        final(s)@ == old(s)@ + digits4(n as int),
{
    push_char(s, char_of_digit(n / 1000));
    push_char(s, char_of_digit((n / 100) % 10));
    push_char(s, char_of_digit((n / 10) % 10));
    push_char(s, char_of_digit(n % 10));
}

/// The date and time digits, with `separator` between the date and the time.
pub open spec fn stamp_digits(d: DateTime, separator: Seq<char>) -> Seq<char> {
    digits4(d.year as int) + digits2(d.month as int) + digits2(d.day as int) + separator + digits2(
        d.hour as int,
    ) + digits2(d.minute as int) + digits2(d.second as int)
}

/// `(name.extension.YYYYMMDDHHMMSS)`, with `_r` and the revision before the
/// closing parenthesis where there is one.
pub open spec fn display_text(m: VersionModel) -> Seq<char> {
    seq!['('] + m.name + seq!['.'] + m.extension + seq!['.'] + stamp_digits(m.date_time, Seq::empty())
        + revision_text(m.revision) + seq![')']
}

fn push_stamp(s: &mut String, d: &DateTime, separated: bool)
    requires
        stamp_shaped(*d),
    ensures
        final(s)@ == old(s)@ + stamp_digits(*d, if separated { seq!['-'] } else { Seq::empty() }),
{
    push_digits4(s, d.year as u32);
    push_digits2(s, d.month);
    push_digits2(s, d.day);
    if separated {
        push_char(s, '-');
    }
    push_digits2(s, d.hour);
    push_digits2(s, d.minute);
    push_digits2(s, d.second);
    assert(final(s)@ =~= old(s)@ + stamp_digits(*d, if separated { seq!['-'] } else { Seq::empty() }));
}

fn push_revision(s: &mut String, revision: &Option<String>)
    ensures
        final(s)@ == old(s)@ + revision_text(crate::fileversionparser::opt_view(*revision)),
{
    match revision {
        Some(r) => {
            push_char(s, '_');
            push_char(s, 'r');
            push_text(s, r.as_str());
            assert(final(s)@ =~= old(s)@ + revision_text(crate::fileversionparser::opt_view(*revision)));
        },
        None => {
            assert(final(s)@ =~= old(s)@);
        },
    }
}

impl FileVersion {
    /// The version in the grammar that `FileVersionParser::parse` reads:
    /// `name.extension.YYYYMMDD-HHMMSS`, then `_r` and the revision if any;
    /// without the name and extension where they are empty.
    pub fn encode(&self) -> (r: String)
        requires
            stamp_shaped(self.date_time),
        ensures
            r@ == encoding(self@),
    {
        let mut s = String::new();
        if self.name.unicode_len() > 0 {
            push_text(&mut s, self.name.as_str());
            push_char(&mut s, '.');
            push_text(&mut s, self.extension.as_str());
            push_char(&mut s, '.');
        }
        let ghost prefix = s@;
        assert(prefix =~= prefix_text(self@.name, self@.extension));
        push_stamp(&mut s, &self.date_time, true);
        assert(stamp_digits(self.date_time, seq!['-']) =~= stamp_text(self.date_time));
        push_revision(&mut s, &self.revision);
        assert(s@ =~= encoding(self@));
        s
    }

    /// The version for display: `(name.extension.YYYYMMDDHHMMSS)`, with
    /// `_r` and the revision before the closing parenthesis where there is one.
    pub fn to_string(&self) -> (r: String)
        requires
            stamp_shaped(self.date_time),
        ensures
            r@ == display_text(self@),
    {
        let mut s = String::new();
        push_char(&mut s, '(');
        push_text(&mut s, self.name.as_str());
        push_char(&mut s, '.');
        push_text(&mut s, self.extension.as_str());
        push_char(&mut s, '.');
        push_stamp(&mut s, &self.date_time, false);
        push_revision(&mut s, &self.revision);
        push_char(&mut s, ')');
        assert(s@ =~= display_text(self@));
        s
    }
}

} // verus!
