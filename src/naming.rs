use vstd::prelude::*;
use vstd::string::StringExecFns;

use crate::numeral::{decimal, push_decimal};
use crate::text::{chars_of, push_char, string_of};

verus! {

/// The directory that holds the logs.
pub const LOG_DIR: &'static str = "log";

/// The directory that holds the charts drawn from the logs.
pub const ANALYSIS_DIR: &'static str = "log/analyze";

/// A moment in UTC, by calendar fields: month and day from 1, hour, minute and second
/// from 0.
#[derive(Debug, Clone, Copy, PartialEq, Eq, Structural)]
pub struct Timestamp {
    pub year: i32,
    pub month: u32,
    pub day: u32,
    pub hour: u32,
    pub minute: u32,
    pub second: u32,
}

/// The numeral of `n` with zeros before it up to `width` characters.
pub open spec fn padded(n: nat, width: nat) -> Seq<char> {
    let zeros: nat = if width > decimal(n).len() {
        (width - decimal(n).len()) as nat
    } else {
        0
    };
    Seq::new(zeros, |i: int| '0') + decimal(n)
}

/// The year as four digits with leading zeros for years 0 to 9999; for any other year,
/// a sign (`+` or `-`) and then its magnitude, at least four digits.
pub open spec fn year_text(y: int) -> Seq<char> {
    if 0 <= y <= 9999 {
        padded(y as nat, 4)
    } else if y > 9999 {
        seq!['+'] + padded(y as nat, 4)
    } else {
        seq!['-'] + padded((-y) as nat, 4)
    }
}

/// The timestamp as year, month and day, an underscore, then hour, minute and
/// second, each but the year in two digits.
pub open spec fn stamp_text(t: Timestamp) -> Seq<char> {
    year_text(t.year as int) + padded(t.month as nat, 2) + padded(t.day as nat, 2) + seq!['_']
        + padded(t.hour as nat, 2) + padded(t.minute as nat, 2) + padded(t.second as nat, 2)
}

/// Appends the numeral of `n`, with leading zeros up to `width` characters.
pub fn push_padded(out: &mut String, n: u128, width: usize)
    ensures
        final(out)@ == old(out)@ + padded(n as nat, width as nat),
{
    let mut digits = String::new();
    push_decimal(&mut digits, n);
    let dv = chars_of(digits.as_str());
    let mut k: usize = dv.len();
    let ghost start = out@;
    while k < width
        invariant
            dv@ == decimal(n as nat),
            dv.len() <= k,
            k <= width || k == dv.len(),
            out@ == start + Seq::new((k - dv.len()) as nat, |i: int| '0'),
        decreases width - k,
    {
        push_char(out, '0');
        k = k + 1;
        assert(out@ =~= start + Seq::new((k - dv.len()) as nat, |i: int| '0'));
    }
    out.append(digits.as_str());
    assert(final(out)@ =~= old(out)@ + padded(n as nat, width as nat));
}

/// Appends the year as `year_text` says.
fn push_year(out: &mut String, y: i32)
    ensures
        final(out)@ == old(out)@ + year_text(y as int),
{
    if 0 <= y && y <= 9999 {
        push_padded(out, y as u128, 4);
    } else if y > 9999 {
        push_char(out, '+');
        push_padded(out, y as u128, 4);
    } else {
        push_char(out, '-');
        let m: u128 = (-(y as i64)) as u128;
        push_padded(out, m, 4);
    }
    assert(final(out)@ =~= old(out)@ + year_text(y as int));
}

impl Timestamp {
    /// The timestamp as `stamp_text` says, e.g. `20240131_235959`.
    pub fn stamp(&self) -> (r: String)
        ensures
            r@ == stamp_text(*self),
    {
        let mut out = String::new();
        push_year(&mut out, self.year);
        push_padded(&mut out, self.month as u128, 2);
        push_padded(&mut out, self.day as u128, 2);
        push_char(&mut out, '_');
        push_padded(&mut out, self.hour as u128, 2);
        push_padded(&mut out, self.minute as u128, 2);
        push_padded(&mut out, self.second as u128, 2);
        assert(out@ =~= stamp_text(*self));
        out
    }
}

/// The path of the log started at `t`.
pub open spec fn log_path_text(t: Timestamp) -> Seq<char> {
    "log/least_squares_log_"@ + stamp_text(t) + ".txt"@
}

/// The path of the log started at `t`, under the log directory.
pub fn log_file_name(t: &Timestamp) -> (r: String)
    ensures
        r@ == log_path_text(*t),
{
    let mut out = String::new();
    out.append("log/least_squares_log_");
    let s = t.stamp();
    out.append(s.as_str());
    out.append(".txt");
    assert(out@ =~= log_path_text(*t));
    out
}

/// `s` with every occurrence of `p` taken out, reading from the left, where `p` is not
/// empty.
pub open spec fn remove_all(s: Seq<char>, p: Seq<char>) -> Seq<char>
    decreases s.len(),
{
    if p.len() == 0 || s.len() < p.len() {
        s
    } else if s.subrange(0, p.len() as int) == p {
        remove_all(s.subrange(p.len() as int, s.len() as int), p)
    } else {
        seq![s[0]] + remove_all(s.drop_first(), p)
    }
}

/// Whether `p` occurs in `s` at index `i`.
fn occurs_at(s: &Vec<char>, i: usize, p: &Vec<char>) -> (r: bool)
    requires
        i <= s.len(),
    ensures
        r == (i + p.len() <= s.len() && s@.subrange(i as int, i + p.len()) == p@),
{
    if p.len() > s.len() - i {
        return false;
    }
    let mut k: usize = 0;
    while k < p.len()
        invariant
            i + p.len() <= s.len(),
            k <= p.len(),
            forall|j: int| 0 <= j < k ==> s@[i + j] == p@[j],
        decreases p.len() - k,
    {
        if s[i + k] != p[k] {
            assert(s@.subrange(i as int, i + p.len())[k as int] != p@[k as int]);
            return false;
        }
        k = k + 1;
    }
    assert(s@.subrange(i as int, i + p.len()) =~= p@);
    true
}

/// `s` with every occurrence of `p` taken out, as `remove_all` says.
pub fn remove_all_of(s: &str, p: &str) -> (r: String)
    ensures
        r@ == remove_all(s@, p@),
{
    let sv = chars_of(s);
    let pv = chars_of(p);
    let mut out: Vec<char> = Vec::new();
    let mut i: usize = 0;
    assert(sv@.subrange(0, sv@.len() as int) =~= sv@);
    assert(out@ + remove_all(sv@, pv@) =~= remove_all(sv@, pv@));
    while i < sv.len()
        invariant
            sv@ == s@,
            pv@ == p@,
            i <= sv.len(),
            out@ + remove_all(sv@.subrange(i as int, sv@.len() as int), pv@) == remove_all(sv@, pv@),
        decreases sv.len() - i,
    {
        let ghost rest = sv@.subrange(i as int, sv@.len() as int);
        if pv.len() > 0 && occurs_at(&sv, i, &pv) {
            assert(rest.subrange(0, pv@.len() as int) =~= pv@);
            assert(rest.subrange(pv@.len() as int, rest.len() as int) =~= sv@.subrange(
                i + pv@.len(),
                sv@.len() as int,
            ));
            i = i + pv.len();
        } else {
            let ghost before = out@;
            out.push(sv[i]);
            assert(rest.drop_first() =~= sv@.subrange(i + 1, sv@.len() as int));
            proof {
                if pv@.len() == 0 || rest.len() < pv@.len() {
                    assert(remove_all(rest.drop_first(), pv@) == rest.drop_first());
                    assert(rest =~= seq![rest[0]] + rest.drop_first());
                } else {
                    assert(rest.subrange(0, pv@.len() as int) =~= sv@.subrange(
                        i as int,
                        i + pv@.len(),
                    ));
                }
            }
            assert(out@ + remove_all(rest.drop_first(), pv@) =~= before + (seq![rest[0]]
                + remove_all(rest.drop_first(), pv@)));
            i = i + 1;
        }
    }
    assert(remove_all(sv@.subrange(i as int, sv@.len() as int), pv@) =~= Seq::<char>::empty());
    assert(out@ =~= remove_all(s@, p@));
    string_of(out.as_slice())
}

/// The base name of the charts drawn from the log at `log_path`: the path without
/// any `log/` and then without any `.txt`.
pub open spec fn base_name_text(log_path: Seq<char>) -> Seq<char> {
    remove_all(remove_all(log_path, "log/"@), ".txt"@)
}

/// The base name of the charts drawn from the log at `log_path`.
pub fn analysis_base_name(log_path: &str) -> (r: String)
    ensures
        r@ == base_name_text(log_path@),
{
    let a = remove_all_of(log_path, "log/");
    remove_all_of(a.as_str(), ".txt")
}

/// The path of the timing chart for the base name `base`.
pub open spec fn time_chart_text(base: Seq<char>) -> Seq<char> {
    "log/analyze/plot_time_"@ + base + ".png"@
}

/// The path of the timing chart for the base name `base`.
pub fn time_chart_path(base: &str) -> (r: String)
    ensures
        r@ == time_chart_text(base@),
{
    let mut out = String::new();
    out.append("log/analyze/plot_time_");
    out.append(base);
    out.append(".png");
    assert(out@ =~= time_chart_text(base@));
    out
}

/// The path of the chart of body `body` (counted from 0) in `dims` dimensions for the
/// base name `base`; bodies are named from 1.
pub open spec fn trajectory_chart_text(base: Seq<char>, body: nat, dims: nat) -> Seq<char> {
    "log/analyze/plot_trajectory_ball"@ + decimal(body + 1) + "_"@ + decimal(dims) + "D_"@ + base
        + ".png"@
}

/// The path of the chart of body `body` in `dims` dimensions for the base name `base`.
pub fn trajectory_chart_path(base: &str, body: usize, dims: usize) -> (r: String)
    ensures
        r@ == trajectory_chart_text(base@, body as nat, dims as nat),
{
    let mut out = String::new();
    out.append("log/analyze/plot_trajectory_ball");
    push_decimal(&mut out, body as u128 + 1);
    out.append("_");
    push_decimal(&mut out, dims as u128);
    out.append("D_");
    out.append(base);
    out.append(".png");
    assert(out@ =~= trajectory_chart_text(base@, body as nat, dims as nat));
    out
}

} // verus!
