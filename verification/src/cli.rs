use vstd::prelude::*;

use crate::text::str_to_chars;

verus! {

/// The standalone player's command line.
#[derive(Debug, Clone)]
pub struct Cli {
    /// LAV program to load.
    pub program: String,
    /// Parse the program and print its metadata without running it.
    pub info: bool,
    /// Run without opening a window.
    pub headless: bool,
    /// Number of frames to run in headless mode.
    pub frames: usize,
    /// Save the last frame to a PNG file.
    pub screenshot: Option<String>,
    /// Initial integer window scale.
    pub scale: usize,
    /// Do not write virtual file changes back to disk.
    pub read_only: bool,
    /// Arguments exposed to the guest program.
    pub arguments: Vec<String>,
}

pub open spec fn is_digit(c: char) -> bool {
    '0' <= c <= '9'
}

/// The value of a string of decimal digits.
pub open spec fn digits_value(s: Seq<char>) -> nat
    decreases s.len(),
{
    if s.len() == 0 {
        0
    } else {
        digits_value(s.drop_last()) * 10 + (s.last() as nat - '0' as nat) as nat
    }
}

/// The digits of an unsigned number as `str::parse` reads it: a leading
/// `+` is dropped when digits follow it.
pub open spec fn unsigned_digits(s: Seq<char>) -> Seq<char> {
    if s.len() > 1 && s[0] == '+' {
        s.drop_first()
    } else {
        s
    }
}

/// What `str::parse::<usize>` gives: the value of one or more decimal
/// digits after an optional `+`, when it fits in `usize`.
pub open spec fn parsed_usize(s: Seq<char>) -> Option<usize> {
    let d = unsigned_digits(s);
    if d.len() > 0 && (forall|i: int| 0 <= i < d.len() ==> is_digit(#[trigger] d[i])) && digits_value(d)
        <= usize::MAX {
        Some(digits_value(d) as usize)
    } else {
        None
    }
}

proof fn lemma_digits_value_grows(s: Seq<char>, c: char)
    requires
        is_digit(c),
    ensures
        digits_value(s.push(c)) == digits_value(s) * 10 + (c as nat - '0' as nat),
        digits_value(s.push(c)) >= digits_value(s),
{
    assert(s.push(c).drop_last() =~= s);
}

/// Parses a decimal `usize` (see `parsed_usize`).
fn parse_usize(value: &str) -> (r: Option<usize>)
    ensures
        r == parsed_usize(value@),
{
    let chars = str_to_chars(value);
    let start: usize = if chars.len() > 1 && chars[0] == '+' { 1 } else { 0 };
    let ghost d = unsigned_digits(value@);
    assert(d =~= chars@.subrange(start as int, chars@.len() as int));
    if start >= chars.len() {
        return None;
    }
    let mut total: usize = 0;
    let mut i: usize = start;
    while i < chars.len()
        invariant
            start <= i <= chars.len(),
            d == unsigned_digits(value@),
            d =~= chars@.subrange(start as int, chars@.len() as int),
            forall|j: int| 0 <= j < i - start ==> is_digit(#[trigger] d[j]),
            total == digits_value(d.subrange(0, i - start)),
        decreases chars.len() - i,
    {
        let c = chars[i];
        if !('0' <= c && c <= '9') {
            assert(!is_digit(d[i - start]));
            return None;
        }
        let digit = (c as u32 - '0' as u32) as usize;
        proof {
            assert(d.subrange(0, i - start + 1) =~= d.subrange(0, i - start).push(c));
            lemma_digits_value_grows(d.subrange(0, i - start), c);
        }
        assert(digit <= 9);
        if total > (usize::MAX - digit) / 10 {
            assert(total * 10 + digit > usize::MAX) by (nonlinear_arith)
                requires
                    total > (usize::MAX - digit) / 10,
                    digit <= 9,
            ;
            proof {
                if forall|j: int| 0 <= j < d.len() ==> is_digit(#[trigger] d[j]) {
                    lemma_digits_prefix_bound(d, (i - start + 1) as nat);
                }
            }
            return None;
        }
        assert(total * 10 + digit <= usize::MAX) by (nonlinear_arith)
            requires
                total <= (usize::MAX - digit) / 10,
                digit <= 9,
        ;
        total = total * 10 + digit;
        i += 1;
    }
    assert(d.subrange(0, d.len() as int) =~= d);
    Some(total)
}

/// A longer prefix of digits is worth at least as much.
proof fn lemma_digits_prefix_bound(d: Seq<char>, n: nat)
    requires
        n <= d.len(),
        forall|j: int| 0 <= j < d.len() ==> is_digit(#[trigger] d[j]),
    ensures
        digits_value(d.subrange(0, n as int)) <= digits_value(d),
    decreases d.len() - n,
{
    if n < d.len() {
        lemma_digits_prefix_bound(d, n + 1);
        assert(d.subrange(0, n + 1int) =~= d.subrange(0, n as int).push(d[n as int]));
        lemma_digits_value_grows(d.subrange(0, n as int), d[n as int]);
    } else {
        assert(d.subrange(0, n as int) =~= d);
    }
}

/// The window scale of the command line: an integer from 1 to 8.
pub fn parse_scale(value: &str) -> (r: core::result::Result<usize, String>)
    ensures
        match parsed_usize(value@) {
            None => r matches Err(m) && m@ == "scale must be an integer"@,
            Some(n) => if 1 <= n <= 8 {
                r == Ok::<usize, String>(n)
            } else {
                r matches Err(m) && m@ == "scale must be between 1 and 8"@
            },
        },
{
    let scale = match parse_usize(value) {
        Some(n) => n,
        None => return Err("scale must be an integer".to_owned()),
    };
    if 1 <= scale && scale <= 8 {
        Ok(scale)
    } else {
        Err("scale must be between 1 and 8".to_owned())
    }
}

} // verus!
