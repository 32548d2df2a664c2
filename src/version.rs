//! Recognising version directories: a path whose final segment is
//! `<digits>.<digits>`.
use vstd::prelude::*;

verus! {

/// The regular expression that picks out a version directory. The two groups
/// are the major and the minor number; the match is anchored at the end, so a
/// third component such as `1.10.0` is not recognised.
pub const VERSION_DIR_PATTERN: &'static str = r".*/([0-9]+)\.([0-9]+)$";

pub open spec fn is_digit(c: char) -> bool {
    '0' <= c && c <= '9'
}

/// A nonempty run of ASCII decimal digits.
pub open spec fn is_digit_run(s: Seq<char>) -> bool {
    s.len() > 0 && forall|i: int| 0 <= i < s.len() ==> is_digit(#[trigger] s[i])
}

/// `path` is some prefix, a `/`, then `major`, a `.` and `minor`, with both
/// numbers written in decimal digits.
pub open spec fn splits_as_version(path: Seq<char>, major: Seq<char>, minor: Seq<char>) -> bool {
    &&& is_digit_run(major)
    &&& is_digit_run(minor)
    &&& exists|prefix: Seq<char>| path == prefix + seq!['/'] + major + seq!['.'] + minor
}

pub open spec fn is_version_path(path: Seq<char>) -> bool {
    exists|major: Seq<char>, minor: Seq<char>| splits_as_version(path, major, minor)
}

/// Relies on `regex::Regex::new` and `regex::Regex::captures`: the pattern
/// compiles, and on a match its two groups are the digit runs that end the
/// path (`[0-9]+`, a literal dot, `[0-9]+`, then the end of the text).
#[verifier::external_body]
fn capture_version(pattern: &str, path: &str) -> (r: Option<(String, String)>)
    requires
        pattern@ == VERSION_DIR_PATTERN@,
    ensures
        r is Some <==> is_version_path(path@),
        r matches Some(groups) ==> splits_as_version(path@, groups.0@, groups.1@),
{
    let re = regex::Regex::new(pattern).unwrap();
    re.captures(path).map(|c| (c[1].to_string(), c[2].to_string()))
}

/// The value of a decimal digit character.
pub open spec fn digit_value(c: char) -> nat {
    ((c as u32) - ('0' as u32)) as nat
}

/// The number that a run of decimal digits writes, most significant first.
pub open spec fn decimal_value(s: Seq<char>) -> nat
    decreases s.len(),
{
    if s.len() == 0 {
        0
    } else {
        decimal_value(s.drop_last()) * 10 + digit_value(s.last())
    }
}

/// The key `(major, minor)` that a directory path stands for: none when its
/// final segment is not `<digits>.<digits>`, or when a number does not fit
/// in `u32`.
pub open spec fn version_key(path: Seq<char>) -> Option<(u32, u32)> {
    if is_version_path(path) {
        let (major, minor) = choose|major: Seq<char>, minor: Seq<char>|
            splits_as_version(path, major, minor);
        if decimal_value(major) <= u32::MAX && decimal_value(minor) <= u32::MAX {
            Some((decimal_value(major) as u32, decimal_value(minor) as u32))
        } else {
            None
        }
    } else {
        None
    }
}

pub open spec fn digit_char(d: nat) -> char {
    if d == 0 {
        '0'
    } else if d == 1 {
        '1'
    } else if d == 2 {
        '2'
    } else if d == 3 {
        '3'
    } else if d == 4 {
        '4'
    } else if d == 5 {
        '5'
    } else if d == 6 {
        '6'
    } else if d == 7 {
        '7'
    } else if d == 8 {
        '8'
    } else {
        '9'
    }
}

/// `n` in decimal, without leading zeros.
pub open spec fn decimal_text(n: nat) -> Seq<char>
    decreases n,
{
    if n < 10 {
        seq![digit_char(n)]
    } else {
        decimal_text(n / 10).push(digit_char(n % 10))
    }
}

/// The display label of a version: `"{major}.{minor}"`.
pub open spec fn label_of(major: u32, minor: u32) -> Seq<char> {
    decimal_text(major as nat) + seq!['.'] + decimal_text(minor as nat)
}

/// What one decomposition of a version path says about its characters.
proof fn lemma_split_chars(path: Seq<char>, prefix: Seq<char>, major: Seq<char>, minor: Seq<char>)
    requires
        is_digit_run(major),
        is_digit_run(minor),
        path == prefix + seq!['/'] + major + seq!['.'] + minor,
    ensures
        path.len() == prefix.len() + major.len() + minor.len() + 2,
        path[prefix.len() as int] == '/',
        path[prefix.len() + major.len() + 1int] == '.',
        forall|i: int| 0 <= i < major.len() ==> path[prefix.len() + 1 + i] == major[i],
        forall|i: int| 0 <= i < minor.len() ==> path[prefix.len() + major.len() + 2 + i] == minor[i],
{
    assert forall|i: int| 0 <= i < major.len() implies path[prefix.len() + 1 + i] == major[i] by {
        assert((prefix + seq!['/'] + major)[prefix.len() + 1 + i] == major[i]);
    }
}

/// A version path has exactly one decomposition: the digits after the last
/// `/`, split at the only dot.
pub proof fn lemma_version_split_unique(
    path: Seq<char>,
    major1: Seq<char>,
    minor1: Seq<char>,
    major2: Seq<char>,
    minor2: Seq<char>,
)
    requires
        splits_as_version(path, major1, minor1),
        splits_as_version(path, major2, minor2),
    ensures
        major1 == major2,
        minor1 == minor2,
{
    let q1 = choose|q: Seq<char>| path == q + seq!['/'] + major1 + seq!['.'] + minor1;
    let q2 = choose|q: Seq<char>| path == q + seq!['/'] + major2 + seq!['.'] + minor2;
    lemma_split_chars(path, q1, major1, minor1);
    lemma_split_chars(path, q2, major2, minor2);
    if q1.len() < q2.len() {
        let k = q2.len() - q1.len() - 1;
        if k < major1.len() {
            assert(is_digit(major1[k]));
        } else if k > major1.len() {
            assert(is_digit(minor1[k - major1.len() - 1]));
        }
        assert(false);
    } else if q2.len() < q1.len() {
        let k = q1.len() - q2.len() - 1;
        if k < major2.len() {
            assert(is_digit(major2[k]));
        } else if k > major2.len() {
            assert(is_digit(minor2[k - major2.len() - 1]));
        }
        assert(false);
    }
    if major1.len() < major2.len() {
        assert(is_digit(major2[major1.len() as int]));
        assert(false);
    } else if major2.len() < major1.len() {
        assert(is_digit(major1[major2.len() as int]));
        assert(false);
    }
    assert(major1 =~= major2);
    assert(minor1 =~= minor2);
}

/// A prefix of a digit run never writes a larger number than the whole run.
proof fn lemma_decimal_value_prefix(s: Seq<char>, i: int)
    requires
        0 <= i <= s.len(),
    ensures
        decimal_value(s.take(i)) <= decimal_value(s),
    decreases s.len(),
{
    if i < s.len() {
        assert(s.drop_last().take(i) =~= s.take(i));
        lemma_decimal_value_prefix(s.drop_last(), i);
    } else {
        assert(s.take(i) =~= s);
    }
}

/// A name that ends in three dotted numbers, such as `public/1.10.0`, is no
/// version directory: only two-part versions are recognised.
pub proof fn lemma_three_part_not_version(rest: Seq<char>, mid: Seq<char>, last: Seq<char>)
    requires
        is_digit_run(mid),
        is_digit_run(last),
    ensures
        !is_version_path(rest + seq!['.'] + mid + seq!['.'] + last),
{
    let path = rest + seq!['.'] + mid + seq!['.'] + last;
    let n = path.len();
    assert(n == rest.len() + mid.len() + last.len() + 2);
    assert(path[rest.len() as int] == '.');
    assert(path[rest.len() + mid.len() + 1int] == '.');
    assert forall|i: int| 0 <= i < mid.len() implies path[rest.len() + 1 + i] == mid[i] by {
        assert((rest + seq!['.'] + mid)[rest.len() + 1 + i] == mid[i]);
    }
    assert forall|i: int| 0 <= i < last.len() implies path[rest.len() + mid.len() + 2 + i]
        == last[i] by {}
    if is_version_path(path) {
        let (major, minor) = choose|major: Seq<char>, minor: Seq<char>|
            splits_as_version(path, major, minor);
        let q = choose|q: Seq<char>| path == q + seq!['/'] + major + seq!['.'] + minor;
        lemma_split_chars(path, q, major, minor);
        if minor.len() > last.len() {
            let k = minor.len() - last.len() - 1;
            assert(path[q.len() + major.len() + 2 + k] == minor[k]);
            assert(is_digit(minor[k]));
        } else if minor.len() < last.len() {
            let k = last.len() - minor.len() - 1;
            assert(path[rest.len() + mid.len() + 2 + k] == last[k]);
            assert(is_digit(last[k]));
        } else if major.len() > mid.len() {
            let k = major.len() - mid.len() - 1;
            assert(path[q.len() + 1 + k] == major[k]);
            assert(is_digit(major[k]));
        } else if major.len() < mid.len() {
            let k = mid.len() - major.len() - 1;
            assert(path[rest.len() + 1 + k] == mid[k]);
            assert(is_digit(mid[k]));
        }
        assert(false);
    }
}

/// Reads a run of decimal digits as a `u32`; `None` when the number does not
/// fit.
fn parse_digits(s: &str) -> (r: Option<u32>)
    requires
        is_digit_run(s@),
    ensures
        decimal_value(s@) <= u32::MAX ==> r == Some(decimal_value(s@) as u32),
        decimal_value(s@) > u32::MAX ==> r is None,
{
    let n = s.unicode_len();
    let mut acc: u32 = 0;
    let mut i: usize = 0;
    while i < n
        invariant
            i <= n,
            n == s@.len(),
            is_digit_run(s@),
            acc as nat == decimal_value(s@.take(i as int)),
        decreases n - i,
    {
        let c = s.get_char(i);
        assert(is_digit(s@[i as int]));
        let d: u32 = (c as u32) - ('0' as u32);
        assert(s@.take(i + 1).drop_last() =~= s@.take(i as int));
        assert(decimal_value(s@.take(i + 1)) == acc * 10 + d);
        if acc > (u32::MAX - d) / 10 {
            assert(acc * 10 + d > u32::MAX) by (nonlinear_arith)
                requires
                    acc > (u32::MAX - d) / 10,
                    d <= 9,
            ;
            proof {
                lemma_decimal_value_prefix(s@, i + 1);
            }
            return None;
        }
        assert(acc * 10 + d <= u32::MAX) by (nonlinear_arith)
            requires
                acc <= (u32::MAX - d) / 10,
                d <= 9,
        ;
        acc = acc * 10 + d;
        i = i + 1;
    }
    assert(s@.take(n as int) =~= s@);
    Some(acc)
}

fn digit_str(d: u32) -> (r: &'static str)
    requires
        d < 10,
    ensures
        r@ == seq![digit_char(d as nat)],
{
    proof {
        reveal_strlit("0");
        reveal_strlit("1");
        reveal_strlit("2");
        reveal_strlit("3");
        reveal_strlit("4");
        reveal_strlit("5");
        reveal_strlit("6");
        reveal_strlit("7");
        reveal_strlit("8");
        reveal_strlit("9");
    }
    let r = if d == 0 {
        "0"
    } else if d == 1 {
        "1"
    } else if d == 2 {
        "2"
    } else if d == 3 {
        "3"
    } else if d == 4 {
        "4"
    } else if d == 5 {
        "5"
    } else if d == 6 {
        "6"
    } else if d == 7 {
        "7"
    } else if d == 8 {
        "8"
    } else {
        "9"
    };
    assert(r@ =~= seq![digit_char(d as nat)]);
    r
}

/// Appends `n` in decimal.
fn append_decimal(s: &mut String, n: u32)
    ensures
        final(s)@ == old(s)@ + decimal_text(n as nat),
    decreases n,
{
    if n >= 10 {
        append_decimal(s, n / 10);
    }
    s.append(digit_str(n % 10));
    assert(final(s)@ =~= old(s)@ + decimal_text(n as nat));
}

/// The display label `"{major}.{minor}"`.
pub fn version_label(major: u32, minor: u32) -> (r: String)
    ensures
        r@ == label_of(major, minor),
{
    let mut s = String::new();
    append_decimal(&mut s, major);
    proof {
        reveal_strlit(".");
    }
    s.append(".");
    append_decimal(&mut s, minor);
    assert(s@ =~= label_of(major, minor));
    s
}

/// Reads a directory path as a version entry `(major, minor, label)`, or
/// `None` when the path is no version directory.
pub fn parse_version(path: &str) -> (r: Option<(u32, u32, String)>)
    ensures
        r is None <==> version_key(path@) is None,
        r matches Some(e) ==> version_key(path@) == Some((e.0, e.1)) && e.2@ == label_of(e.0, e.1),
{
    match capture_version(VERSION_DIR_PATTERN, path) {
        None => None,
        Some(groups) => {
            let (major_text, minor_text) = groups;
            proof {
                let (a, b) = choose|a: Seq<char>, b: Seq<char>| splits_as_version(path@, a, b);
                lemma_version_split_unique(path@, a, b, major_text@, minor_text@);
            }
            match (parse_digits(major_text.as_str()), parse_digits(minor_text.as_str())) {
                (Some(major), Some(minor)) => Some((major, minor, version_label(major, minor))),
                _ => None,
            }
        },
    }
}

} // verus!
