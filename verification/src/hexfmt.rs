//! Hexadecimal text of byte strings, as digests and signatures are printed.
use vstd::prelude::*;

verus! {

/// The digit that stands for the value `d` (0 to 15), in lower or upper case.
pub open spec fn hex_digit(d: int, upper: bool) -> char {
    if d < 10 {
        (d + 48) as char
    } else if upper {
        (d + 55) as char
    } else {
        (d + 87) as char
    }
}

/// Two digits per byte, high nibble first.
pub open spec fn hex_text(bytes: Seq<u8>, upper: bool) -> Seq<char> {
    Seq::new(
        2 * bytes.len(),
        |i: int|
            if i % 2 == 0 {
                hex_digit((bytes[i / 2] / 16) as int, upper)
            } else {
                hex_digit((bytes[i / 2] % 16) as int, upper)
            },
    )
}

/// Appends one character to a `String` (`String::push`).
#[verifier::external_body]
pub(crate) fn push_char(s: &mut String, c: char)
    ensures
        final(s)@ == old(s)@.push(c),
{
    s.push(c);
}

fn digit_char(d: u8, upper: bool) -> (c: char)
    requires
        d < 16,
    ensures
        c == hex_digit(d as int, upper),
{
    if d < 10 {
        (d + 48) as char
    } else if upper {
        (d + 55) as char
    } else {
        (d + 87) as char
    }
}

/// Appends the hexadecimal text of `bytes` to `prefix`.
pub fn append_hex(prefix: String, bytes: &[u8], upper: bool) -> (res: String)
    ensures
        res@ == prefix@ + hex_text(bytes@, upper),
{
    let mut out = prefix;
    let ghost start = out@;
    let n = bytes.len();
    let mut i: usize = 0;
    while i < n
        invariant
            n == bytes@.len(),
            i <= n,
            out@ =~= start + hex_text(bytes@.subrange(0, i as int), upper),
        decreases n - i,
    {
        let b = bytes[i];
        push_char(&mut out, digit_char(b / 16, upper));
        push_char(&mut out, digit_char(b % 16, upper));
        proof {
            assert(hex_text(bytes@.subrange(0, i + 1), upper) =~= hex_text(
                bytes@.subrange(0, i as int),
                upper,
            ).push(hex_digit((b / 16) as int, upper)).push(hex_digit((b % 16) as int, upper)));
        }
        i = i + 1;
    }
    proof {
        assert(bytes@.subrange(0, n as int) =~= bytes@);
    }
    out
}

/// Lower-case hexadecimal text of `bytes`.
pub fn lower_hex(bytes: &[u8]) -> (res: String)
    ensures
        res@ == hex_text(bytes@, false),
{
    let r = append_hex(String::new(), bytes, false);
    proof {
        assert(Seq::<char>::empty() + hex_text(bytes@, false) =~= hex_text(bytes@, false));
    }
    r
}

/// Hexadecimal text is ASCII.
pub proof fn lemma_hex_text_ascii(bytes: Seq<u8>, upper: bool)
    ensures
        vstd::utf8::is_ascii_chars(hex_text(bytes, upper)),
        hex_text(bytes, upper).len() == 2 * bytes.len(),
{
    let t = hex_text(bytes, upper);
    assert forall|i: int| 0 <= i < t.len() implies '\0' <= #[trigger] t[i] <= '\u{7f}' by {
        let d: int = if i % 2 == 0 {
            (bytes[i / 2] / 16) as int
        } else {
            (bytes[i / 2] % 16) as int
        };
        assert(0 <= d < 16);
        assert(t[i] == hex_digit(d, upper));
    }
}

} // verus!
