use vstd::prelude::*;
use vstd::std_specs::iter::IteratorSpec;

verus! {

/// What one character becomes when a string is made safe for display:
/// the usual backslash escapes for newline, carriage return, tab, backslash
/// and double quote, a question mark for anything else outside printable
/// ASCII, and the character itself otherwise.
pub open spec fn escape_char(c: char) -> Seq<char> {
    if c == '\n' {
        seq!['\\', 'n']
    } else if c == '\r' {
        seq!['\\', 'r']
    } else if c == '\t' {
        seq!['\\', 't']
    } else if c == '\\' {
        seq!['\\', '\\']
    } else if c == '"' {
        seq!['\\', '"']
    } else if (c as u32) < 0x20 || (c as u32) > 0x7e {
        seq!['?']
    } else {
        seq![c]
    }
}

/// The escapes of the characters of `s`, one after another.
pub open spec fn escape_chars(s: Seq<char>) -> Seq<char>
    decreases s.len(),
{
    if s.len() == 0 {
        Seq::empty()
    } else {
        escape_chars(s.drop_last()) + escape_char(s.last())
    }
}

/// `s` between double quotes, escaped; where `s` takes more than `max_len`
/// bytes only its first `max_len` characters are kept, followed by an ellipsis.
pub open spec fn print_safe_spec(s: Seq<char>, max_len: usize) -> Seq<char> {
    if vstd::utf8::encode_utf8(s).len() as usize > max_len {
        seq!['"'] + escape_chars(prefix(s, max_len as int)) + seq!['.', '.', '.', '"']
    } else {
        seq!['"'] + escape_chars(s) + seq!['"']
    }
}

/// The first `n` items of `s`, or all of `s` where it has fewer.
pub open spec fn prefix<T>(s: Seq<T>, n: int) -> Seq<T> {
    if 0 <= n < s.len() {
        s.take(n)
    } else {
        s
    }
}

/// Whether two strings hold the same characters.
pub fn str_eq(a: &str, b: &str) -> (r: bool)
    ensures
        r == (a@ == b@),
{
    let x = a.as_bytes();
    let y = b.as_bytes();
    proof {
        vstd::utf8::encode_utf8_decode_utf8(a@);
        vstd::utf8::encode_utf8_decode_utf8(b@);
        assert(x@ == vstd::utf8::encode_utf8(a@));
        assert(y@ == vstd::utf8::encode_utf8(b@));
    }
    if x.len() != y.len() {
        return false;
    }
    let mut i: usize = 0;
    while i < x.len()
        invariant
            i <= x@.len(),
            x@.len() == y@.len(),
            x@ == vstd::utf8::encode_utf8(a@),
            y@ == vstd::utf8::encode_utf8(b@),
            forall|j: int| 0 <= j < i ==> x@[j] == y@[j],
        decreases x@.len() - i,
    {
        if x[i] != y[i] {
            return false;
        }
        i = i + 1;
    }
    proof {
        assert(x@ =~= y@);
    }
    true
}

/// `String::from_iter` on the characters of a vector: the string made of
/// exactly these characters, in this order.
#[verifier::external_body]
pub(crate) fn string_from_chars(chars: &Vec<char>) -> (s: String)
    ensures
        s@ == chars@,
{
    String::from_iter(chars.iter())
}

/// Appends to `out` the escape of `c`.
pub(crate) fn push_escaped(out: &mut Vec<char>, c: char)
    ensures
        final(out)@ == old(out)@ + escape_char(c),
{
    let ghost before = out@;
    if c == '\n' {
        out.push('\\');
        out.push('n');
    } else if c == '\r' {
        out.push('\\');
        out.push('r');
    } else if c == '\t' {
        out.push('\\');
        out.push('t');
    } else if c == '\\' {
        out.push('\\');
        out.push('\\');
    } else if c == '"' {
        out.push('\\');
        out.push('"');
    } else if (c as u32) < 0x20 || (c as u32) > 0x7e {
        out.push('?');
    } else {
        out.push(c);
    }
    assert(out@ =~= before + escape_char(c));
}

/// The escaped characters of `s`, or of its first `limit` characters where a
/// limit is given.
pub(crate) fn escape_prefix(s: &str, limit: Option<usize>) -> (out: Vec<char>)
    ensures
        out@ == match limit {
            Some(n) => escape_chars(prefix(s@, n as int)),
            None => escape_chars(s@),
        },
{
    let mut out: Vec<char> = Vec::new();
    let mut taken: usize = 0;
    let ghost mut done: int = 0;
    proof {
        vstd::string::axiom_spec_iter(s);
    }
    for c in it: s.chars()
        invariant
            it.seq() == s@,
            0 <= done <= it.index(),
            limit is None ==> done == it.index(),
            limit matches Some(n) ==> taken == done && done == if it.index() < n {
                it.index()
            } else {
                n as int
            },
            out@ == escape_chars(s@.take(done)),
    {
        let room = match limit {
            Some(n) => taken < n,
            None => true,
        };
        if room {
            proof {
                assert(s@.take(done + 1).drop_last() =~= s@.take(done));
                done = done + 1;
            }
            push_escaped(&mut out, c);
            if limit.is_some() {
                taken = taken + 1;
            }
        }
    }
    proof {
        if done == s@.len() {
            assert(s@.take(done) =~= s@);
        }
    }
    out
}

/// Appends to `out` the characters of `s`.
pub fn push_str_chars(out: &mut Vec<char>, s: &str)
    ensures
        final(out)@ == old(out)@ + s@,
{
    let ghost before = out@;
    proof {
        vstd::string::axiom_spec_iter(s);
        assert(before + s@.take(0) =~= before);
    }
    for c in it: s.chars()
        invariant
            it.seq() == s@,
            out@ == before + s@.take(it.index()),
    {
        out.push(c);
        proof {
            assert(before + s@.take(it.index() + 1) =~= (before + s@.take(it.index())).push(c));
        }
    }
    proof {
        assert(s@.take(s@.len() as int) =~= s@);
    }
}

/// Escapes special characters in a sequence of characters for display.
pub fn escape_string_chars(s: &Vec<char>) -> (r: String)
    ensures
        r@ == escape_chars(s@),
{
    let mut out: Vec<char> = Vec::new();
    let mut i: usize = 0;
    while i < s.len()
        invariant
            i <= s.len(),
            out@ == escape_chars(s@.take(i as int)),
        decreases s.len() - i,
    {
        proof {
            assert(s@.take(i + 1).drop_last() =~= s@.take(i as int));
        }
        push_escaped(&mut out, s[i]);
        i = i + 1;
    }
    proof {
        assert(s@.take(i as int) =~= s@);
    }
    string_from_chars(&out)
}

/// Escapes special characters in a string for display.
pub fn escape_string(s: &str) -> (r: String)
    ensures
        r@ == escape_chars(s@),
{
    let out = escape_prefix(s, None);
    string_from_chars(&out)
}

/// A string between double quotes, escaped, and cut short with an ellipsis
/// where it takes more than `max_len` bytes.
pub fn print_safe(name: &str, max_len: usize) -> (r: String)
    ensures
        r@ == print_safe_spec(name@, max_len),
{
    let mut out: Vec<char> = Vec::new();
    out.push('"');
    if name.len() > max_len {
        let mut body = escape_prefix(name, Some(max_len));
        let ghost b = body@;
        out.append(&mut body);
        out.push('.');
        out.push('.');
        out.push('.');
        out.push('"');
        assert(out@ =~= seq!['"'] + b + seq!['.', '.', '.', '"']);
    } else {
        let mut body = escape_prefix(name, None);
        let ghost b = body@;
        out.append(&mut body);
        out.push('"');
        assert(out@ =~= seq!['"'] + b + seq!['"']);
    }
    string_from_chars(&out)
}

/// The character of a digit.
pub open spec fn digit_char(d: int) -> char {
    ((48 + d) as u8) as char
}

/// A number in decimal digits.
pub open spec fn decimal(n: nat) -> Seq<char>
    decreases n,
{
    if n < 10 {
        seq![digit_char(n as int)]
    } else {
        decimal(n / 10).push(digit_char((n % 10) as int))
    }
}

/// Appends to `out` the decimal digits of `n`.
pub fn push_decimal(out: &mut Vec<char>, n: u64)
    ensures
        final(out)@ == old(out)@ + decimal(n as nat),
{
    let ghost before = out@;
    // The digits from the lowest on; turned round below
    let mut digits: Vec<char> = Vec::new();
    let mut rest = n;
    while rest >= 10
        invariant
            decimal(n as nat) == decimal(rest as nat) + digits@.reverse(),
        decreases rest,
    {
        let d = (rest % 10) as u8;
        let ghost old_digits = digits@;
        digits.push((48 + d) as char);
        proof {
            assert(digits@.reverse() =~= seq![digit_char((rest % 10) as int)] + old_digits.reverse());
            assert(decimal(rest as nat) == decimal((rest / 10) as nat).push(
                digit_char((rest % 10) as int),
            ));
            assert(decimal((rest / 10) as nat).push(digit_char((rest % 10) as int))
                + old_digits.reverse() =~= decimal((rest / 10) as nat) + digits@.reverse());
        }
        rest = rest / 10;
    }
    out.push((48 + rest as u8) as char);
    let mut i = digits.len();
    while i > 0
        invariant
            i <= digits@.len(),
            out@ == before + decimal(rest as nat) + digits@.reverse().take(digits@.len() - i),
        decreases i,
    {
        i = i - 1;
        out.push(digits[i]);
        proof {
            let r = digits@.reverse();
            assert(r.take(digits@.len() - i) =~= r.take(digits@.len() - i - 1).push(digits@[i as int]));
        }
    }
    proof {
        assert(digits@.reverse().take(digits@.len() as int) =~= digits@.reverse());
        assert(before + decimal(rest as nat) + digits@.reverse() =~= before + (decimal(rest as nat)
            + digits@.reverse()));
    }
}

/// The bytes of a kilobyte.
pub const KB: usize = 1024;

/// The bytes of a megabyte.
pub const MB: usize = 1048576;

/// The bytes of a gigabyte.
pub const GB: usize = 1073741824;

/// `bytes` in hundredths of `unit`, to the nearest; a half counts up.
pub open spec fn hundredths(bytes: int, unit: int) -> int {
    (bytes * 100 + unit / 2) / unit
}

/// A number of hundredths with two digits behind the point, and the sign
/// of its unit.
pub open spec fn with_unit(h: int, unit: char) -> Seq<char> {
    decimal((h / 100) as nat) + seq!['.', digit_char((h / 10) % 10), digit_char(h % 10), unit]
}

/// A number of bytes as a person reads it: in bytes below a kilobyte, and
/// else in the largest unit that it fills, with two digits behind the point.
pub open spec fn format_bytes_spec(bytes: int) -> Seq<char> {
    if bytes >= GB {
        with_unit(hundredths(bytes, GB as int), 'G')
    } else if bytes >= MB {
        with_unit(hundredths(bytes, MB as int), 'M')
    } else if bytes >= KB {
        with_unit(hundredths(bytes, KB as int), 'k')
    } else {
        decimal(bytes as nat).push('b')
    }
}

/// Formats bytes into human-readable format
pub fn format_bytes(bytes: usize) -> (r: String)
    ensures
        r@ == format_bytes_spec(bytes as int),
{
    let mut out: Vec<char> = Vec::new();
    let (unit, sign) = if bytes >= GB {
        (GB, 'G')
    } else if bytes >= MB {
        (MB, 'M')
    } else if bytes >= KB {
        (KB, 'k')
    } else {
        push_decimal(&mut out, bytes as u64);
        out.push('b');
        proof {
            assert(out@ =~= decimal(bytes as nat).push('b'));
        }
        return string_from_chars(&out);
    };
    let h: u128 = (bytes as u128 * 100 + (unit as u128) / 2) / (unit as u128);
    proof {
        assert(h == hundredths(bytes as int, unit as int));
        assert(h / 100 <= u64::MAX) by {
            assert(bytes as u128 * 100 + (unit as u128) / 2 <= 0xffff_ffff_ffff_ffff * 100 + unit);
        }
    }
    push_decimal(&mut out, (h / 100) as u64);
    let ghost whole = out@;
    out.push('.');
    out.push((48 + ((h / 10) % 10) as u8) as char);
    out.push((48 + (h % 10) as u8) as char);
    out.push(sign);
    proof {
        assert(out@ =~= with_unit(h as int, sign));
    }
    string_from_chars(&out)
}

/// The parts of a list, with `, ` between them.
pub open spec fn joined(parts: Seq<Seq<char>>) -> Seq<char>
    decreases parts.len(),
{
    if parts.len() == 0 {
        Seq::empty()
    } else if parts.len() == 1 {
        parts[0]
    } else {
        joined(parts.drop_last()) + seq![',', ' '] + parts.last()
    }
}

/// Appends a part to a list of parts that is being joined: behind `, `
/// unless it is the first.
pub proof fn lemma_joined_push(parts: Seq<Seq<char>>, part: Seq<char>)
    ensures
        joined(parts.push(part)) == if parts.len() == 0 {
            part
        } else {
            joined(parts) + seq![',', ' '] + part
        },
{
    assert(parts.push(part).drop_last() =~= parts);
}

/// A size as far as a counter holds it.
pub open spec fn capped(n: int) -> usize {
    if n > usize::MAX {
        usize::MAX
    } else if n < 0 {
        0
    } else {
        n as usize
    }
}

/// The bytes of `count` items of `each` bytes, as far as a counter holds
/// them.
pub fn bytes_of(count: usize, each: usize) -> (r: usize)
    ensures
        r == capped(count * each),
{
    match count.checked_mul(each) {
        Some(bytes) => bytes,
        None => usize::MAX,
    }
}

} // verus!
