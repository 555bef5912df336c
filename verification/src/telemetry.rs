//! Hardware energy readings from the Linux RAPL interface.
//!
//! The kernel exposes a running energy counter, in microjoules, as the text
//! of a file. Reading the file is left to the caller; what the text says, and
//! what two readings say of the energy used between them, is decided here.
use vstd::prelude::*;

verus! {

/// Reads the package energy counter of Linux RAPL (`intel-rapl:0`).
pub struct LinuxRaplReader;

/// The characters with the Unicode `White_Space` property, as `char::is_whitespace` tests them.
pub open spec fn is_white_space(c: char) -> bool {
    ||| '\u{9}' <= c <= '\u{d}'
    ||| c == ' '
    ||| c == '\u{85}'
    ||| c == '\u{a0}'
    ||| c == '\u{1680}'
    ||| '\u{2000}' <= c <= '\u{200a}'
    ||| c == '\u{2028}'
    ||| c == '\u{2029}'
    ||| c == '\u{202f}'
    ||| c == '\u{205f}'
    ||| c == '\u{3000}'
}

/// `s` without its leading white space.
pub open spec fn trim_start(s: Seq<char>) -> Seq<char>
    decreases s.len(),
{
    if s.len() > 0 && is_white_space(s[0]) {
        trim_start(s.drop_first())
    } else {
        s
    }
}

/// `s` without its trailing white space.
pub open spec fn trim_end(s: Seq<char>) -> Seq<char>
    decreases s.len(),
{
    if s.len() > 0 && is_white_space(s.last()) {
        trim_end(s.drop_last())
    } else {
        s
    }
}

/// `s` without leading and trailing white space, as `str::trim` gives it.
pub open spec fn trimmed(s: Seq<char>) -> Seq<char> {
    trim_end(trim_start(s))
}

pub open spec fn is_decimal_digit(c: char) -> bool {
    '0' <= c <= '9'
}

/// The number that the decimal digits `s` write, most significant first.
pub open spec fn decimal_value(s: Seq<char>) -> nat
    decreases s.len(),
{
    if s.len() == 0 {
        0
    } else {
        decimal_value(s.drop_last()) * 10 + ((s.last() as int - '0' as int) as nat)
    }
}

/// The value of the decimal text `digits`: `None` when it is empty, holds
/// anything but the digits 0 to 9, or does not fit in a `u64`.
pub open spec fn decimal_u64(digits: Seq<char>) -> Option<u64> {
    if digits.len() > 0 && (forall|i: int| 0 <= i < digits.len() ==> is_decimal_digit(#[trigger] digits[i]))
        && decimal_value(digits) <= u64::MAX {
        Some(decimal_value(digits) as u64)
    } else {
        None
    }
}

/// What `str::parse::<u64>` gives of `s`, as an `Option`: an optional `+`
/// followed by decimal text that `decimal_u64` reads.
pub open spec fn parse_u64(s: Seq<char>) -> Option<u64> {
    if s.len() > 0 && s[0] == '+' {
        decimal_u64(s.drop_first())
    } else {
        decimal_u64(s)
    }
}

/// The counter that the text of the energy file gives: its trimmed text read as a `u64`.
pub open spec fn energy_reading(content: Seq<char>) -> Option<u64> {
    parse_u64(trimmed(content))
}

/// The energy used between the readings `start` and `end`, when both were
/// taken and the counter did not go back.
pub open spec fn energy_between(start: Option<u64>, end: Option<u64>) -> Option<u64> {
    match (start, end) {
        (Some(s), Some(e)) => if s <= e { Some((e - s) as u64) } else { None },
        _ => None,
    }
}

fn is_white_space_char(c: char) -> (b: bool)
    ensures
        b == is_white_space(c),
{
    ('\u{9}' <= c && c <= '\u{d}') || c == ' ' || c == '\u{85}' || c == '\u{a0}' || c == '\u{1680}'
        || ('\u{2000}' <= c && c <= '\u{200a}') || c == '\u{2028}' || c == '\u{2029}' || c
        == '\u{202f}' || c == '\u{205f}' || c == '\u{3000}'
}

/// The characters of `s`, in order.
fn chars_of(s: &str) -> (res: Vec<char>)
    ensures
        res@ == s@,
{
    broadcast use vstd::string::axiom_spec_iter;

    let mut out: Vec<char> = Vec::new();
    for c in it: s.chars()
        invariant
            it.seq() == s@,
            out@ == it.seq().take(it.index() as int),
    {
        proof {
            assert(it.seq().take(it.index() as int + 1) =~= out@.push(c));
        }
        out.push(c);
    }
    proof {
        assert(out@ =~= s@);
    }
    out
}

proof fn lemma_trim_start_skips(s: Seq<char>, a: int)
    requires
        0 <= a < s.len(),
        is_white_space(s[a]),
    ensures
        trim_start(s.subrange(a, s.len() as int)) == trim_start(s.subrange(a + 1, s.len() as int)),
{
    assert(s.subrange(a, s.len() as int).drop_first() =~= s.subrange(a + 1, s.len() as int));
}

proof fn lemma_trim_end_skips(s: Seq<char>, b: int)
    requires
        0 < b <= s.len(),
        is_white_space(s[b - 1]),
    ensures
        trim_end(s.subrange(0, b)) == trim_end(s.subrange(0, b - 1)),
{
    assert(s.subrange(0, b).drop_last() =~= s.subrange(0, b - 1));
}

proof fn lemma_decimal_value_step(s: Seq<char>, i: int)
    requires
        0 <= i < s.len(),
    ensures
        decimal_value(s.take(i + 1)) == decimal_value(s.take(i)) * 10 + ((s[i] as int - '0' as int) as nat),
{
    assert(s.take(i + 1).drop_last() =~= s.take(i));
}

proof fn lemma_decimal_value_grows(s: Seq<char>, i: int)
    requires
        0 <= i <= s.len(),
        forall|k: int| 0 <= k < s.len() ==> is_decimal_digit(#[trigger] s[k]),
    ensures
        decimal_value(s.take(i)) <= decimal_value(s),
    decreases s.len() - i,
{
    if i < s.len() {
        lemma_decimal_value_step(s, i);
        lemma_decimal_value_grows(s, i + 1);
    } else {
        assert(s.take(i) =~= s);
    }
}

/// The value of the decimal text `digits[from..to]`, or `None` when it is empty,
/// holds anything but digits, or does not fit in a `u64`.
fn parse_digits(digits: &Vec<char>, from: usize, to: usize) -> (res: Option<u64>)
    requires
        from <= to <= digits@.len(),
    ensures
        res == decimal_u64(digits@.subrange(from as int, to as int)),
{
    let ghost d = digits@.subrange(from as int, to as int);
    if from == to {
        return None;
    }
    let mut i: usize = from;
    while i < to
        invariant
            from <= i <= to <= digits@.len(),
            d == digits@.subrange(from as int, to as int),
            forall|k: int| 0 <= k < i - from ==> is_decimal_digit(#[trigger] d[k]),
        decreases to - i,
    {
        let c = digits[i];
        if !('0' <= c && c <= '9') {
            assert(!is_decimal_digit(d[i - from]));
            return None;
        }
        i = i + 1;
    }
    let mut value: u64 = 0;
    let mut j: usize = from;
    while j < to
        invariant
            from <= j <= to <= digits@.len(),
            d == digits@.subrange(from as int, to as int),
            forall|k: int| 0 <= k < d.len() ==> is_decimal_digit(#[trigger] d[k]),
            value == decimal_value(d.take(j - from)),
        decreases to - j,
    {
        let c = digits[j];
        proof {
            assert(d[j - from] == c);
            lemma_decimal_value_step(d, j - from);
        }
        let digit = (c as u32 - '0' as u32) as u64;
        if value > (u64::MAX - digit) / 10 {
            proof {
                assert(decimal_value(d.take(j - from + 1)) > u64::MAX) by (nonlinear_arith)
                    requires
                        value > (u64::MAX - digit) / 10,
                        decimal_value(d.take(j - from + 1)) == value * 10 + digit,
                        digit <= 9,
                ;
                lemma_decimal_value_grows(d, j - from + 1);
            }
            return None;
        }
        assert(value * 10 + digit <= u64::MAX) by (nonlinear_arith)
            requires
                value <= (u64::MAX - digit) / 10,
                digit <= 9,
        ;
        value = value * 10 + digit;
        j = j + 1;
    }
    proof {
        assert(d.take(d.len() as int) =~= d);
    }
    Some(value)
}

impl LinuxRaplReader {
    /// The counter, in microjoules, that the text `content` of the energy file
    /// gives: the text without surrounding white space, read as a `u64`; `None`
    /// when it is not one.
    pub fn parse_energy_counter(content: &str) -> (res: Option<u64>)
        ensures
            res == energy_reading(content@),
    {
        let chars = chars_of(content);
        let n = chars.len();
        let ghost s = chars@;
        let mut a: usize = 0;
        assert(s.subrange(0, n as int) =~= s);
        while a < n && is_white_space_char(chars[a])
            invariant
                a <= n == s.len(),
                s == chars@,
                trim_start(s) == trim_start(s.subrange(a as int, n as int)),
            decreases n - a,
        {
            proof {
                lemma_trim_start_skips(s, a as int);
            }
            a = a + 1;
        }
        let ghost t = s.subrange(a as int, n as int);
        assert(trim_start(t) == t);
        let mut b: usize = n;
        assert(t.subrange(0, n - a) =~= t);
        while b > a && is_white_space_char(chars[b - 1])
            invariant
                a <= b <= n == s.len(),
                s == chars@,
                t == s.subrange(a as int, n as int),
                trim_end(t) == trim_end(t.subrange(0, b - a)),
            decreases b,
        {
            proof {
                lemma_trim_end_skips(t, (b - a) as int);
                assert(t.subrange(0, (b - a) as int - 1) =~= t.subrange(0, (b - 1 - a) as int));
            }
            b = b - 1;
        }
        let ghost u = t.subrange(0, b - a);
        assert(trim_end(u) == u);
        assert(u =~= s.subrange(a as int, b as int));
        assert(trimmed(content@) == u);
        if a < b && chars[a] == '+' {
            proof {
                assert(u.drop_first() =~= s.subrange(a + 1, b as int));
            }
            parse_digits(&chars, a + 1, b)
        } else {
            proof {
                if u.len() > 0 {
                    assert(u[0] == chars@[a as int]);
                }
            }
            parse_digits(&chars, a, b)
        }
    }
}

/// The energy used between the counter readings `start` and `end`, in
/// microjoules: their difference when both were taken and the counter did not
/// go back (a reading that wrapped around gives `None`).
pub fn hardware_energy_delta(start: Option<u64>, end: Option<u64>) -> (res: Option<u64>)
    ensures
        res == energy_between(start, end),
{
    match (start, end) {
        (Some(s), Some(e)) => if s <= e {
            Some(e - s)
        } else {
            None
        },
        _ => None,
    }
}

} // verus!
