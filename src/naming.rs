//! Archive file names: `World Backup <world> <DD-MM-YYYY HH_MM_SS>.tar.gz`.

use vstd::prelude::*;
use vstd::string::StrSliceExecFns;
use vstd::string::StringExecFns;
use chrono::Datelike;
use chrono::Timelike;
use crate::text::chars_of;
use crate::text::contains_chars;
use crate::text::contains_text;
use crate::text::ends_with;
use crate::text::ends_with_chars;

verus! {

/// The character of the decimal digit `d`.
pub open spec fn digit_char(d: int) -> char {
    seq!['0', '1', '2', '3', '4', '5', '6', '7', '8', '9'][d]
}

/// Decimal notation of `n`, without leading zeros.
pub open spec fn decimal(n: nat) -> Seq<char>
    decreases n,
{
    if n < 10 {
        seq![digit_char(n as int)]
    } else {
        decimal(n / 10).push(digit_char((n % 10) as int))
    }
}

/// `s` with zeros added in front until it is at least `width` long.
pub open spec fn zero_padded(s: Seq<char>, width: nat) -> Seq<char> {
    if s.len() < width {
        Seq::new((width - s.len()) as nat, |i: int| '0') + s
    } else {
        s
    }
}

/// Two digits, with a leading zero below ten.
pub open spec fn two_digits(n: nat) -> Seq<char> {
    zero_padded(decimal(n), 2)
}

/// The year as the `%Y` field writes it: at least four digits, zero padded,
/// and a sign in front of any year outside 0..=9999.
pub open spec fn year_text(y: int) -> Seq<char> {
    let magnitude = zero_padded(decimal(if y < 0 { (-y) as nat } else { y as nat }), 4);
    if 0 <= y <= 9999 {
        magnitude
    } else if y < 0 {
        seq!['-'] + magnitude
    } else {
        seq!['+'] + magnitude
    }
}

/// A local date and wall-clock time, to the second.
#[derive(Clone, Copy, Debug, PartialEq, Eq, Structural)]
pub struct Timestamp {
    pub year: i32,
    pub month: u32,
    pub day: u32,
    pub hour: u32,
    pub minute: u32,
    pub second: u32,
}

impl Timestamp {
    /// Every field within the range of a calendar date and a time of day.
    pub open spec fn wf(&self) -> bool {
        &&& 1 <= self.month <= 12
        &&& 1 <= self.day <= 31
        &&& self.hour < 24
        &&& self.minute < 60
        &&& self.second < 60
    }

    /// `DD-MM-YYYY HH_MM_SS`.
    pub open spec fn text(&self) -> Seq<char> {
        two_digits(self.day as nat) + seq!['-'] + two_digits(self.month as nat) + seq!['-']
            + year_text(self.year as int) + seq![' '] + two_digits(self.hour as nat) + seq!['_']
            + two_digits(self.minute as nat) + seq!['_'] + two_digits(self.second as nat)
    }

    /// `DD-MM-YYYY HH_MM_SS`, the form that archive names embed.
    pub fn format(&self) -> (r: String)
        requires
            self.wf(),
        ensures
            r@ == self.text(),
    {
        let mut r = two_digit_text(self.day as u64);
        r.append("-");
        r.append(two_digit_text(self.month as u64).as_str());
        r.append("-");
        r.append(year_digits(self.year).as_str());
        r.append(" ");
        r.append(two_digit_text(self.hour as u64).as_str());
        r.append("_");
        r.append(two_digit_text(self.minute as u64).as_str());
        r.append("_");
        r.append(two_digit_text(self.second as u64).as_str());
        proof {
            reveal_strlit("-");
            reveal_strlit(" ");
            reveal_strlit("_");
        }
        r
    }
}

/// The one-character text of a decimal digit.
fn digit_text(d: u64) -> (r: &'static str)
    requires
        d < 10,
    ensures
        r@ == seq![digit_char(d as int)],
{
    proof {
        reveal_strlit("0123456789");
        assert("0123456789"@ =~= seq!['0', '1', '2', '3', '4', '5', '6', '7', '8', '9']);
    }
    let r = "0123456789".substring_char(d as usize, (d + 1) as usize);
    assert(r@ =~= seq![digit_char(d as int)]);
    r
}

/// Decimal notation of `n`, without leading zeros.
pub fn decimal_text(n: u64) -> (r: String)
    ensures
        r@ == decimal(n as nat),
    decreases n,
{
    if n < 10 {
        String::from_str(digit_text(n))
    } else {
        let mut r = decimal_text(n / 10);
        r.append(digit_text(n % 10));
        r
    }
}

/// `s` with zeros added in front until it is at least `width` characters long.
fn zero_padded_text(s: String, width: usize) -> (r: String)
    ensures
        r@ == zero_padded(s@, width as nat),
{
    let len = s.as_str().unicode_len();
    if len >= width {
        return s;
    }
    let mut r = String::new();
    let mut i: usize = 0;
    while i < width - len
        invariant
            len == s@.len(),
            len < width,
            i <= width - len,
            r@ =~= Seq::new(i as nat, |j: int| '0'),
        decreases width - len - i,
    {
        proof {
            reveal_strlit("0");
        }
        r.append("0");
        i = i + 1;
    }
    r.append(s.as_str());
    r
}

/// Two digits, with a leading zero below ten.
pub fn two_digit_text(n: u64) -> (r: String)
    requires
        n < 100,
    ensures
        r@ == two_digits(n as nat),
{
    proof {
        reveal_with_fuel(decimal, 2);
    }
    zero_padded_text(decimal_text(n), 2)
}

/// The year as the `%Y` field writes it.
pub fn year_digits(y: i32) -> (r: String)
    ensures
        r@ == year_text(y as int),
{
    let magnitude: u64 = if y < 0 { (-(y as i64)) as u64 } else { y as u64 };
    let digits = zero_padded_text(decimal_text(magnitude), 4);
    proof {
        reveal_strlit("-");
        reveal_strlit("+");
    }
    if 0 <= y && y <= 9999 {
        digits
    } else if y < 0 {
        String::from_str("-").concat(digits.as_str())
    } else {
        String::from_str("+").concat(digits.as_str())
    }
}

/// `World Backup `, the start of every archive name.
pub open spec fn name_prefix() -> Seq<char> {
    seq!['W', 'o', 'r', 'l', 'd', ' ', 'B', 'a', 'c', 'k', 'u', 'p', ' ']
}

/// `.tar.gz`, the end of every archive name.
pub open spec fn archive_suffix() -> Seq<char> {
    seq!['.', 't', 'a', 'r', '.', 'g', 'z']
}

/// The file name of the archive of `world` taken at `t`.
pub open spec fn archive_name(world: Seq<char>, t: Timestamp) -> Seq<char> {
    name_prefix() + world + seq![' '] + t.text() + archive_suffix()
}

/// An archive name without its suffix.
pub open spec fn archive_stem(name: Seq<char>) -> Seq<char> {
    name.subrange(0, name.len() - archive_suffix().len())
}

/// The rule by which an archive is counted as one of `world`'s: its name has
/// the archive suffix, and the world's name occurs anywhere in the rest.
pub open spec fn is_archive_of(name: Seq<char>, world: Seq<char>) -> bool {
    ends_with(name, archive_suffix()) && contains_text(archive_stem(name), world)
}

/// The file name of the archive of `world` taken at `t`.
pub fn archive_file_name(world: &str, t: &Timestamp) -> (r: String)
    requires
        t.wf(),
    ensures
        r@ == archive_name(world@, *t),
{
    proof {
        reveal_strlit("World Backup ");
        reveal_strlit(" ");
        reveal_strlit(".tar.gz");
    }
    let mut r = String::from_str("World Backup ");
    r.append(world);
    r.append(" ");
    r.append(t.format().as_str());
    r.append(".tar.gz");
    assert(r@ =~= archive_name(world@, *t));
    r
}

/// The first `n` characters of `v`.
fn prefix_chars(v: &Vec<char>, n: usize) -> (r: Vec<char>)
    requires
        n <= v@.len(),
    ensures
        r@ == v@.take(n as int),
{
    let mut r: Vec<char> = Vec::new();
    let mut i: usize = 0;
    while i < n
        invariant
            n <= v@.len(),
            i <= n,
            r@ =~= v@.take(i as int),
        decreases n - i,
    {
        r.push(v[i]);
        i = i + 1;
    }
    r
}

/// Whether the file `name` counts as an archive of `world`.
pub fn is_archive_of_chars(name: &Vec<char>, world: &Vec<char>) -> (r: bool)
    ensures
        r == is_archive_of(name@, world@),
{
    proof {
        reveal_strlit(".tar.gz");
    }
    let suffix = chars_of(".tar.gz");
    assert(suffix@ =~= archive_suffix());
    if !ends_with_chars(name, &suffix) {
        return false;
    }
    let stem = prefix_chars(name, name.len() - suffix.len());
    assert(stem@ =~= archive_stem(name@));
    contains_chars(&stem, world)
}

/// Whether the file `name` counts as an archive of `world`.
pub fn is_archive_of_world(name: &str, world: &str) -> (r: bool)
    ensures
        r == is_archive_of(name@, world@),
{
    is_archive_of_chars(&chars_of(name), &chars_of(world))
}

/// Relies on std's `SystemTime::elapsed`, applied to `UNIX_EPOCH`: the
/// seconds and nanoseconds since 1970-01-01 UTC, or `None` when the system
/// clock reads earlier. The nanoseconds are below one second.
#[verifier::external_body]
fn unix_clock() -> (r: Option<(u64, u32)>)
    ensures
        r matches Some(p) ==> p.1 < 1_000_000_000,
{
    let d = std::time::UNIX_EPOCH.elapsed().ok()?;
    Some((d.as_secs(), d.subsec_nanos()))
}

/// Relies on chrono's `DateTime::from_timestamp` (`None` out of its range)
/// and `with_timezone(&Local)`, read through the `Datelike` and `Timelike`
/// accessors: month and day counted from one, hour, minute and second from
/// zero, the second below 60.
#[verifier::external_body]
fn local_time_at(secs: i64, nanos: u32) -> (r: Option<Timestamp>)
    ensures
        r matches Some(t) ==> t.wf(),
{
    let now = chrono::DateTime::from_timestamp(secs, nanos)?.with_timezone(&chrono::Local);
    Some(Timestamp {
        year: now.year(),
        month: now.month(),
        day: now.day(),
        hour: now.hour(),
        minute: now.minute(),
        second: now.second(),
    })
}

/// The local date and time now, or `None` when the system clock reads before
/// 1970 or beyond what a date can hold.
pub fn local_now() -> (r: Option<Timestamp>)
    ensures
        r matches Some(t) ==> t.wf(),
{
    match unix_clock() {
        Some((secs, nanos)) => if secs <= i64::MAX as u64 {
            local_time_at(secs as i64, nanos)
        } else {
            None
        },
        None => None,
    }
}

} // verus!
