//! Where OMT keeps its files, and the lines of its log.
//!
//! Log files are `{storage}/logs/{exe}{pid}.log`; the storage directory is
//! `~/.OMT` (`%ProgramData%\OMT` on Windows) unless the `OMT_STORAGE_PATH`
//! environment variable names another. The values read from the environment,
//! and whether the platform is Windows, are handed in by the caller.
use vstd::prelude::*;
use crate::text::{owned, push_str, push_char, push_decimal, decimal, str_chars};

verus! {

broadcast use vstd::string::group_string_axioms;

/// Environment variable overriding the OMT storage directory.
pub const OMT_STORAGE_PATH: &'static str = "OMT_STORAGE_PATH";

/// `dir` joined with the relative or absolute path `name`, as
/// `PathBuf::join` does on Unix: an absolute `name` replaces `dir`;
/// otherwise a `/` separates them unless `dir` is empty or ends with one.
pub open spec fn path_join(dir: Seq<char>, name: Seq<char>) -> Seq<char> {
    if name.len() > 0 && name[0] == '/' {
        name
    } else if dir.len() == 0 {
        name
    } else if dir.last() == '/' {
        dir + name
    } else {
        dir + seq!['/'] + name
    }
}

/// `dir` joined with `name`.
pub fn join_path(dir: &str, name: &str) -> (r: String)
    ensures
        r@ == path_join(dir@, name@),
{
    let ncs = str_chars(name);
    let dcs = str_chars(dir);
    if ncs.len() > 0 && ncs[0] == '/' {
        return owned(name);
    }
    if dcs.len() == 0 {
        return owned(name);
    }
    let mut out = owned(dir);
    if dcs[dcs.len() - 1] != '/' {
        push_char(&mut out, '/');
    }
    push_str(&mut out, name);
    assert(out@ =~= path_join(dir@, name@));
    out
}

/// Whether `c` separates path components on Windows.
pub open spec fn is_windows_sep(c: char) -> bool {
    c == '\\' || c == '/'
}

/// Whether `s` starts with a drive prefix `X:`.
pub open spec fn has_drive(s: Seq<char>) -> bool {
    s.len() >= 2 && s[1] == ':' && (('a' <= s[0] <= 'z') || ('A' <= s[0] <= 'Z'))
}

/// `dir` joined with `name` as `PathBuf::join` does on Windows (drive
/// prefixes only): a `name` with a drive replaces `dir`; a `name` starting
/// with a separator keeps only the drive of `dir`; otherwise a `\` separates
/// them unless `dir` is empty, ends with a separator or is a bare drive.
pub open spec fn windows_join(dir: Seq<char>, name: Seq<char>) -> Seq<char> {
    if has_drive(name) {
        name
    } else if name.len() > 0 && is_windows_sep(name[0]) {
        if has_drive(dir) {
            dir.take(2) + name
        } else {
            name
        }
    } else if dir.len() == 0 || is_windows_sep(dir.last()) || (dir.len() == 2 && has_drive(dir)) {
        dir + name
    } else {
        dir + seq!['\\'] + name
    }
}

/// `dir` joined with `name` on Windows (`windows`) or Unix.
pub open spec fn path_join_on(windows: bool, dir: Seq<char>, name: Seq<char>) -> Seq<char> {
    if windows {
        windows_join(dir, name)
    } else {
        path_join(dir, name)
    }
}

fn is_sep_char(c: char) -> (r: bool)
    ensures
        r == is_windows_sep(c),
{
    c == '\\' || c == '/'
}

fn drive_at_start(cs: &[char]) -> (r: bool)
    ensures
        r == has_drive(cs@),
{
    cs.len() >= 2 && cs[1] == ':' && (('a' <= cs[0] && cs[0] <= 'z') || ('A' <= cs[0] && cs[0]
        <= 'Z'))
}

/// `dir` joined with `name` on Windows (`windows`) or Unix.
pub fn join_path_on(windows: bool, dir: &str, name: &str) -> (r: String)
    ensures
        r@ == path_join_on(windows, dir@, name@),
{
    if !windows {
        return join_path(dir, name);
    }
    let ncs = str_chars(name);
    let dcs = str_chars(dir);
    if drive_at_start(ncs.as_slice()) {
        return owned(name);
    }
    if ncs.len() > 0 && is_sep_char(ncs[0]) {
        if drive_at_start(dcs.as_slice()) {
            let mut out = String::new();
            push_char(&mut out, dcs[0]);
            push_char(&mut out, dcs[1]);
            push_str(&mut out, name);
            assert(out@ =~= windows_join(dir@, name@));
            return out;
        }
        return owned(name);
    }
    let mut out = owned(dir);
    if !(dcs.len() == 0 || is_sep_char(dcs[dcs.len() - 1]) || (dcs.len() == 2
        && drive_at_start(dcs.as_slice()))) {
        push_char(&mut out, '\\');
    }
    push_str(&mut out, name);
    assert(out@ =~= windows_join(dir@, name@));
    out
}

/// The default storage directory: `{home}/.OMT` (with `.` when no home
/// directory is known), or on Windows `{program_data}\OMT` (with
/// `C:\ProgramData` when that directory is not known).
pub open spec fn default_storage_text(
    windows: bool,
    program_data: Option<Seq<char>>,
    home: Option<Seq<char>>,
) -> Seq<char> {
    if windows {
        windows_join(
            match program_data {
                Some(p) => p,
                None => "C:\\ProgramData"@,
            },
            "OMT"@,
        )
    } else {
        path_join(
            match home {
                Some(h) => h,
                None => "."@,
            },
            ".OMT"@,
        )
    }
}

/// `Some` view of an optional text.
pub open spec fn opt_text(o: Option<&str>) -> Option<Seq<char>> {
    match o {
        Some(t) => Some(t@),
        None => None,
    }
}

/// Default storage directory: `{home}/.OMT`, or `{program_data}\OMT` on
/// Windows.
pub fn default_storage_dir(windows: bool, program_data: Option<&str>, home: Option<&str>) -> (r: String)
    ensures
        r@ == default_storage_text(windows, opt_text(program_data), opt_text(home)),
{
    if windows {
        match program_data {
            Some(p) => join_path_on(true, p, "OMT"),
            None => join_path_on(true, "C:\\ProgramData", "OMT"),
        }
    } else {
        match home {
            Some(h) => join_path(h, ".OMT"),
            None => join_path(".", ".OMT"),
        }
    }
}

/// The storage directory: the override when one is set and not empty, else
/// the default.
pub fn storage_dir_from(
    windows: bool,
    storage_override: Option<&str>,
    program_data: Option<&str>,
    home: Option<&str>,
) -> (r: String)
    ensures
        r@ == match storage_override {
            Some(p) => if p@.len() > 0 {
                p@
            } else {
                default_storage_text(windows, opt_text(program_data), opt_text(home))
            },
            None => default_storage_text(windows, opt_text(program_data), opt_text(home)),
        },
{
    match storage_override {
        Some(p) => if p.is_empty() {
            default_storage_dir(windows, program_data, home)
        } else {
            owned(p)
        },
        None => default_storage_dir(windows, program_data, home),
    }
}

/// `{storage}/logs`.
pub fn logs_dir(windows: bool, storage: &str) -> (r: String)
    ensures
        r@ == path_join_on(windows, storage@, "logs"@),
{
    join_path_on(windows, storage, "logs")
}

/// The log file name `{exe}{pid}.log` (`{pid}.log` when the executable's
/// name is unknown).
pub open spec fn log_file_name(exe_name: Option<Seq<char>>, pid: u32) -> Seq<char> {
    match exe_name {
        Some(n) => n + decimal(pid as nat) + ".log"@,
        None => decimal(pid as nat) + ".log"@,
    }
}

/// `{exe}{pid}.log` under the logs directory.
pub fn default_log_path(windows: bool, logs: &str, exe_name: Option<&str>, pid: u32) -> (r: String)
    ensures
        r@ == path_join_on(windows, logs@, log_file_name(match exe_name {
            Some(n) => Some(n@),
            None => None,
        }, pid)),
{
    let mut name = match exe_name {
        Some(n) => owned(n),
        None => String::new(),
    };
    push_decimal(&mut name, pid as u64);
    push_str(&mut name, ".log");
    assert(name@ =~= log_file_name(match exe_name {
        Some(n) => Some(n@),
        None => None,
    }, pid));
    join_path_on(windows, logs, name.as_str())
}

/// A log line: `{datetime},[{source}],{message}`.
pub fn log_line(datetime: &str, message: &str, source: &str) -> (r: String)
    ensures
        r@ == datetime@ + ",["@ + source@ + "],"@ + message@,
{
    let mut out = owned(datetime);
    push_str(&mut out, ",[");
    push_str(&mut out, source);
    push_str(&mut out, "],");
    push_str(&mut out, message);
    out
}

/// `n` in decimal, padded with leading zeros to `width` characters.
pub open spec fn zero_padded(n: nat, width: nat) -> Seq<char> {
    if decimal(n).len() >= width {
        decimal(n)
    } else {
        Seq::new((width - decimal(n).len()) as nat, |i: int| '0') + decimal(n)
    }
}

/// `n` in decimal, padded with leading zeros to `width` characters, a `-`
/// before negative numbers counting in the width (`{:0width$}`).
pub open spec fn signed_padded(n: int, width: nat) -> Seq<char> {
    if n < 0 {
        seq!['-'] + zero_padded((-n) as nat, if width > 0 {
            (width - 1) as nat
        } else {
            0
        })
    } else {
        zero_padded(n as nat, width)
    }
}

/// Appends `n` in decimal, zero-padded to `width` characters.
fn push_padded(out: &mut String, n: u64, width: usize)
    ensures
        final(out)@ == old(out)@ + zero_padded(n as nat, width as nat),
{
    let mut digits = String::new();
    push_decimal(&mut digits, n);
    let dcs = str_chars(digits.as_str());
    assert(dcs@ == decimal(n as nat));
    let ghost start = out@;
    if dcs.len() < width {
        let mut k: usize = 0;
        while k < width - dcs.len()
            invariant
                dcs.len() < width,
                k <= width - dcs@.len(),
                out@ == start + Seq::new(k as nat, |i: int| '0'),
            decreases width - dcs.len() - k,
        {
            push_char(out, '0');
            k = k + 1;
            assert(out@ =~= start + Seq::new(k as nat, |i: int| '0'));
        }
    }
    push_str(out, digits.as_str());
    assert(out@ =~= start + zero_padded(n as nat, width as nat));
}

/// Appends `n` in decimal, zero-padded to `width` characters after its sign.
fn push_signed_padded(out: &mut String, n: i64, width: usize)
    ensures
        final(out)@ == old(out)@ + signed_padded(n as int, width as nat),
{
    if n < 0 {
        push_char(out, '-');
        let m: u64 = ((-(n + 1)) as u64) + 1;
        let w: usize = if width > 0 {
            width - 1
        } else {
            0
        };
        push_padded(out, m, w);
    } else {
        push_padded(out, n as u64, width);
    }
    assert(final(out)@ =~= old(out)@ + signed_padded(n as int, width as nat));
}

/// Local date and time as `YYYY-MM-DD hh:mm:ss`.
pub open spec fn datetime_text(year: int, month: int, day: int, hour: int, minute: int, second: int) -> Seq<char> {
    signed_padded(year, 4) + "-"@ + signed_padded(month, 2) + "-"@ + signed_padded(day, 2) + " "@
        + signed_padded(hour, 2) + ":"@ + signed_padded(minute, 2) + ":"@ + signed_padded(
        second,
        2,
    )
}

/// Format a local date and time as `YYYY-MM-DD hh:mm:ss`.
pub fn format_datetime(year: i64, month: i64, day: i64, hour: i64, minute: i64, second: i64) -> (r: String)
    ensures
        r@ == datetime_text(year as int, month as int, day as int, hour as int, minute as int, second as int),
{
    let mut out = String::new();
    push_signed_padded(&mut out, year, 4);
    push_str(&mut out, "-");
    push_signed_padded(&mut out, month, 2);
    push_str(&mut out, "-");
    push_signed_padded(&mut out, day, 2);
    push_str(&mut out, " ");
    push_signed_padded(&mut out, hour, 2);
    push_str(&mut out, ":");
    push_signed_padded(&mut out, minute, 2);
    push_str(&mut out, ":");
    push_signed_padded(&mut out, second, 2);
    assert(out@ =~= datetime_text(year as int, month as int, day as int, hour as int, minute as int, second as int));
    out
}

/// Format the fields of a C `struct tm` (years since 1900, months from 0)
/// as `YYYY-MM-DD hh:mm:ss`.
pub fn tm_datetime(tm_year: i32, tm_mon: i32, tm_mday: i32, tm_hour: i32, tm_min: i32, tm_sec: i32) -> (r: String)
    ensures
        r@ == datetime_text(tm_year + 1900, tm_mon + 1, tm_mday as int, tm_hour as int, tm_min as int, tm_sec as int),
{
    format_datetime(
        tm_year as i64 + 1900,
        tm_mon as i64 + 1,
        tm_mday as i64,
        tm_hour as i64,
        tm_min as i64,
        tm_sec as i64,
    )
}

} // verus!
