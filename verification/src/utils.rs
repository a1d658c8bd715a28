//! Small helpers: printable text of bytes, hexadecimal dumps, octal
//! fields and the `update.xml` no-erase marks.

use vstd::prelude::*;
use vstd::string::StringExecFns;

use crate::number::{digits_value, format_radix, pad_left, pad_left_bytes, radix_digits};
use crate::text::{str_eq, trim, trim_chars};

verus! {

/// Appends `c` to `s` with `String::push`, which the standard library
/// documents as appending the character to the end of the string.
#[verifier::external_body]
fn push_char(s: &mut String, c: char)
    ensures
        final(s)@ == old(s)@.push(c),
{
    s.push(c);
}

/// The character a byte stands for when a buffer is shown as text: tab,
/// line feed and carriage return show as a space, any other byte as the
/// character of the same number.
pub open spec fn shown_char(b: u8) -> char {
    if b == 9 || b == 10 || b == 13 {
        ' '
    } else {
        b as char
    }
}

/// The text a buffer shows as.
pub open spec fn spec_u8_ascii(line: Seq<u8>) -> Seq<char> {
    Seq::new(line.len(), |i: int| shown_char(line[i]))
}

/// The characters of the same numbers as the bytes.
pub open spec fn ascii_chars(s: Seq<u8>) -> Seq<char> {
    Seq::new(s.len(), |i: int| s[i] as char)
}

/// The text a buffer shows as: each byte as the character of the same
/// number, with tab, line feed and carriage return shown as spaces.
pub fn u8_ascii(line: &[u8]) -> (r: String)
    ensures
        r@ == spec_u8_ascii(line@),
{
    let mut s = String::new();
    let mut i: usize = 0;
    while i < line.len()
        invariant
            i <= line.len(),
            s@ =~= spec_u8_ascii(line@.take(i as int)),
        decreases line.len() - i,
    {
        let b = line[i];
        let c = if b == 9 || b == 10 || b == 13 {
            ' '
        } else {
            b as char
        };
        push_char(&mut s, c);
        i = i + 1;
    }
    assert(line@.take(line.len() as int) =~= line@);
    s
}

/// A buffer as it is displayed: each byte as the character of the same
/// number.
pub fn byte_text(bytes: &[u8]) -> (r: String)
    ensures
        r@ == ascii_chars(bytes@),
{
    let mut s = String::new();
    push_ascii(&mut s, bytes);
    s
}

fn push_ascii(s: &mut String, bytes: &[u8])
    ensures
        final(s)@ == old(s)@ + ascii_chars(bytes@),
{
    let mut i: usize = 0;
    let ghost start = s@;
    while i < bytes.len()
        invariant
            i <= bytes.len(),
            s@ =~= start + ascii_chars(bytes@.take(i as int)),
        decreases bytes.len() - i,
    {
        push_char(s, bytes[i] as char);
        i = i + 1;
    }
    assert(bytes@.take(bytes.len() as int) =~= bytes@);
}

/// A byte in two upper-case hexadecimal digits.
pub open spec fn byte_hex(b: u8) -> Seq<char> {
    ascii_chars(pad_left(radix_digits(b as nat, 16, true), 2, 48u8))
}

/// Each byte of a chunk in two upper-case hexadecimal digits and a space.
pub open spec fn chunk_hex(chunk: Seq<u8>) -> Seq<char>
    decreases chunk.len(),
{
    if chunk.len() == 0 {
        Seq::empty()
    } else {
        chunk_hex(chunk.drop_last()) + byte_hex(chunk.last()) + seq![' ']
    }
}

/// `s` with spaces after it until it is `width` long.
pub open spec fn pad_right_chars(s: Seq<char>, width: nat) -> Seq<char> {
    if s.len() < width {
        s + Seq::new((width - s.len()) as nat, |i: int| ' ')
    } else {
        s
    }
}

/// One line of a dump: `0x`, the chunk's offset in upper-case hexadecimal
/// (the index in seven digits and a `0`), two spaces, the bytes in
/// hexadecimal padded to 48 characters, a space, the chunk as text, and a
/// line feed.
pub open spec fn dump_line(index: nat, chunk: Seq<u8>) -> Seq<char> {
    seq!['0', 'x'] + ascii_chars(pad_left(radix_digits(index, 16, true), 7, 48u8)) + seq![
        '0',
        ' ',
        ' ',
    ] + pad_right_chars(chunk_hex(chunk), 48) + seq![' '] + spec_u8_ascii(chunk) + seq!['\n']
}

/// The `i`-th chunk of 16 bytes of a buffer (the last one may be shorter).
pub open spec fn chunk_of(buffer: Seq<u8>, i: nat) -> Seq<u8> {
    let start: int = 16 * (i as int);
    let end: int = if start + 16 <= buffer.len() {
        start + 16
    } else {
        buffer.len() as int
    };
    buffer.subrange(start, end)
}

/// The number of lines of a dump: one per chunk of 16 bytes, at most 64.
pub open spec fn dump_count(len: nat) -> nat {
    if (len + 15) / 16 < 64 {
        ((len + 15) / 16) as nat
    } else {
        64
    }
}

/// The first `k` lines of a dump of `buffer`.
pub open spec fn dump_lines(buffer: Seq<u8>, k: nat) -> Seq<char>
    decreases k,
{
    if k == 0 {
        Seq::empty()
    } else {
        dump_lines(buffer, (k - 1) as nat) + dump_line((k - 1) as nat, chunk_of(buffer, (k - 1) as nat))
    }
}

/// A dump of a buffer under a heading: the message and a colon, then a
/// line for each of the first 64 chunks of 16 bytes.
pub open spec fn spec_formatted_hex(message: Seq<char>, buffer: Seq<u8>) -> Seq<char> {
    message + seq![':', '\n'] + dump_lines(buffer, dump_count(buffer.len()))
}

fn push_chunk_hex(s: &mut String, chunk: &[u8])
    requires
        chunk@.len() <= 16,
    ensures
        final(s)@ == old(s)@ + pad_right_chars(chunk_hex(chunk@), 48),
{
    let ghost start = s@;
    let mut i: usize = 0;
    assert(chunk@.take(0) =~= Seq::<u8>::empty());
    while i < chunk.len()
        invariant
            i <= chunk.len() <= 16,
            s@ =~= start + chunk_hex(chunk@.take(i as int)),
            chunk_hex(chunk@.take(i as int)).len() == 3 * i,
        decreases chunk.len() - i,
    {
        let digits = pad_left_bytes(format_radix(chunk[i] as u64, 16, true), 2, 48u8);
        proof {
            assert(chunk@.take(i + 1).drop_last() =~= chunk@.take(i as int));
            lemma_byte_hex_len(chunk@[i as int]);
        }
        push_ascii(s, digits.as_slice());
        push_char(s, ' ');
        i = i + 1;
    }
    assert(chunk@.take(chunk.len() as int) =~= chunk@);
    let mut k: usize = 3 * chunk.len();
    let ghost hex = s@;
    while k < 48
        invariant
            3 * chunk.len() <= k <= 48,
            s@ =~= hex + Seq::new((k - 3 * chunk.len()) as nat, |j: int| ' '),
        decreases 48 - k,
    {
        push_char(s, ' ');
        k = k + 1;
    }
}

proof fn lemma_byte_hex_len(b: u8)
    ensures
        byte_hex(b).len() == 2,
{
    let d = radix_digits(b as nat, 16, true);
    if b < 16 {
        assert(d.len() == 1);
    } else {
        assert(b / 16 < 16);
        assert(radix_digits((b / 16) as nat, 16, true).len() == 1);
    }
}

/// A dump of `buffer` under the heading `message`, as
/// `spec_formatted_hex` states: the text that is traced.
#[verifier::rlimit(40)]
pub fn trace_formatted_hex(message: &str, buffer: &[u8]) -> (r: String)
    ensures
        r@ == spec_formatted_hex(message@, buffer@),
{
    let mut s = String::from_str(message);
    push_char(&mut s, ':');
    push_char(&mut s, '\n');
    let len = buffer.len();
    let count: usize = if len / 16 + (if len % 16 == 0 { 0usize } else { 1usize }) < 64 {
        len / 16 + (if len % 16 == 0 { 0usize } else { 1usize })
    } else {
        64
    };
    assert(count == dump_count(len as nat));
    let mut i: usize = 0;
    let ghost head = s@;
    while i < count
        invariant
            i <= count,
            count == dump_count(len as nat),
            count <= 64,
            len == buffer@.len(),
            s@ =~= head + dump_lines(buffer@, i as nat),
        decreases count - i,
    {
        let start = 16 * i;
        let end = if 16 * i + 16 <= len {
            16 * i + 16
        } else {
            len
        };
        let chunk = vstd::slice::slice_subrange(buffer, start, end);
        assert(chunk@ == chunk_of(buffer@, i as nat));
        let ghost before = s@;
        push_char(&mut s, '0');
        push_char(&mut s, 'x');
        let index = pad_left_bytes(format_radix(i as u64, 16, true), 7, 48u8);
        push_ascii(&mut s, index.as_slice());
        push_char(&mut s, '0');
        push_char(&mut s, ' ');
        push_char(&mut s, ' ');
        push_chunk_hex(&mut s, chunk);
        push_char(&mut s, ' ');
        let text = u8_ascii(chunk);
        s.append(text.as_str());
        push_char(&mut s, '\n');
        assert(s@ =~= before + dump_line(i as nat, chunk_of(buffer@, i as nat)));
        i = i + 1;
    }
    s
}

/// An octal digit.
pub open spec fn is_octal(b: u8) -> bool {
    48 <= b <= 55
}

/// The number of bytes before the first octal digit.
pub open spec fn non_octal_prefix_len(s: Seq<u8>) -> nat
    decreases s.len(),
{
    if s.len() == 0 || is_octal(s[0]) {
        0
    } else {
        1 + non_octal_prefix_len(s.drop_first())
    }
}

/// The octal digits at the start of `s`.
pub open spec fn octal_run(s: Seq<u8>) -> Seq<u8>
    decreases s.len(),
{
    if s.len() == 0 || !is_octal(s[0]) {
        Seq::empty()
    } else {
        seq![s[0]] + octal_run(s.drop_first())
    }
}

/// What `parseoct` reads from the first `n` bytes of `p`: it passes over
/// the bytes before the first octal digit and reads the octal digits that
/// follow, modulo 2^64.
pub open spec fn spec_parseoct(p: Seq<u8>, n: nat) -> nat {
    let s = if n < p.len() {
        p.take(n as int)
    } else {
        p
    };
    let t = s.skip(non_octal_prefix_len(s) as int);
    digits_value(octal_run(t), 8) % 0x1_0000_0000_0000_0000
}

proof fn lemma_non_octal_prefix(s: Seq<u8>, i: int)
    requires
        0 <= i <= s.len(),
        forall|k: int| 0 <= k < i ==> !is_octal(#[trigger] s[k]),
        i == s.len() || is_octal(s[i]),
    ensures
        non_octal_prefix_len(s) == i,
    decreases i,
{
    if i > 0 {
        assert forall|k: int| 0 <= k < i - 1 implies !is_octal(#[trigger] s.drop_first()[k]) by {
            assert(s.drop_first()[k] == s[k + 1]);
        }
        lemma_non_octal_prefix(s.drop_first(), i - 1);
    }
}

proof fn lemma_octal_run(s: Seq<u8>, j: int)
    requires
        0 <= j <= s.len(),
        forall|k: int| 0 <= k < j ==> is_octal(#[trigger] s[k]),
        j == s.len() || !is_octal(s[j]),
    ensures
        octal_run(s) == s.take(j),
    decreases j,
{
    if j > 0 {
        assert forall|k: int| 0 <= k < j - 1 implies is_octal(#[trigger] s.drop_first()[k]) by {
            assert(s.drop_first()[k] == s[k + 1]);
        }
        lemma_octal_run(s.drop_first(), j - 1);
        assert(seq![s[0]] + s.drop_first().take(j - 1) =~= s.take(j));
    } else {
        assert(s.take(0) =~= Seq::<u8>::empty());
    }
}

proof fn lemma_octal_step(v: int, d: int)
    requires
        v >= 0,
        0 <= d,
    ensures
        ((v % 0x1_0000_0000_0000_0000) * 8 + d) % 0x1_0000_0000_0000_0000 == (v * 8 + d)
            % 0x1_0000_0000_0000_0000,
{
    let m: int = 0x1_0000_0000_0000_0000;
    vstd::arithmetic::div_mod::lemma_add_mod_noop((v % m) * 8, d, m);
    vstd::arithmetic::div_mod::lemma_mul_mod_noop_left(v, 8, m);
    vstd::arithmetic::div_mod::lemma_add_mod_noop(v * 8, d, m);
}

/// Reads an octal field: within the first `n` bytes of `p`, passes over
/// the bytes before the first octal digit, then reads the octal digits that
/// follow; the value is taken modulo 2^64.
pub fn parseoct(p: &[u8], n: usize) -> (r: u64)
    ensures
        r == spec_parseoct(p@, n as nat),
{
    let m = if n < p.len() {
        n
    } else {
        p.len()
    };
    let ghost s = p@.take(m as int);
    assert(s == (if n < p@.len() {
        p@.take(n as int)
    } else {
        p@
    }));
    let mut i: usize = 0;
    while i < m && !(48 <= p[i] && p[i] <= 55)
        invariant
            i <= m <= p@.len(),
            s == p@.take(m as int),
            forall|k: int| 0 <= k < i ==> !is_octal(#[trigger] s[k]),
        decreases m - i,
    {
        i = i + 1;
    }
    proof {
        lemma_non_octal_prefix(s, i as int);
    }
    let ghost t = s.skip(i as int);
    let mut acc: u64 = 0;
    let mut j: usize = i;
    assert(t.take(0) =~= Seq::<u8>::empty());
    while j < m && 48 <= p[j] && p[j] <= 55
        invariant
            i <= j <= m <= p@.len(),
            s == p@.take(m as int),
            t == s.skip(i as int),
            forall|k: int| 0 <= k < j - i ==> is_octal(#[trigger] t[k]),
            acc == digits_value(t.take(j - i), 8) % 0x1_0000_0000_0000_0000,
        decreases m - j,
    {
        let d = (p[j] - 48) as u64;
        proof {
            assert(t[j - i] == p@[j as int]);
            assert(t.take(j - i + 1).drop_last() =~= t.take(j - i));
            lemma_octal_step(digits_value(t.take(j - i), 8) as int, d as int);
        }
        acc = (((acc as u128) * 8 + d as u128) % 0x1_0000_0000_0000_0000u128) as u64;
        j = j + 1;
    }
    proof {
        if j < m {
            assert(t[j - i] == p@[j as int]);
        }
        lemma_octal_run(t, j - i);
    }
    acc
}

/// The mark in `update.xml` that keeps a file from being flashed:
/// `<NOERASE>` and the file's name and `</NOERASE>`.
pub open spec fn noerase_mark(search_for: Seq<char>) -> Seq<char> {
    "<NOERASE>"@ + search_for + "</NOERASE>"@
}

/// The line of `update.xml` marks `search_for` as not to be erased: once
/// trimmed it is exactly `<NOERASE>search_for</NOERASE>`.
pub fn is_noerase_line(line: &str, search_for: &str) -> (r: bool)
    ensures
        r == (line@.len() > 0 && trim_chars(line@) == noerase_mark(search_for@)),
{
    if line.is_empty() {
        return false;
    }
    let mut expected = String::from_str("<NOERASE>");
    expected.append(search_for);
    expected.append("</NOERASE>");
    str_eq(trim(line), expected.as_str())
}

/// Each byte in two upper-case hexadecimal digits, with nothing between.
pub open spec fn spec_hex_upper(data: Seq<u8>) -> Seq<char>
    decreases data.len(),
{
    if data.len() == 0 {
        Seq::empty()
    } else {
        spec_hex_upper(data.drop_last()) + byte_hex(data.last())
    }
}

/// The bytes in upper-case hexadecimal, two digits each, as a root key
/// hash is shown.
pub fn hex_upper(data: &[u8]) -> (r: String)
    ensures
        r@ == spec_hex_upper(data@),
{
    let mut s = String::new();
    let mut i: usize = 0;
    assert(data@.take(0) =~= Seq::<u8>::empty());
    while i < data.len()
        invariant
            i <= data.len(),
            s@ =~= spec_hex_upper(data@.take(i as int)),
        decreases data.len() - i,
    {
        let digits = pad_left_bytes(format_radix(data[i] as u64, 16, true), 2, 48u8);
        assert(data@.take(i + 1).drop_last() =~= data@.take(i as int));
        push_ascii(&mut s, digits.as_slice());
        i = i + 1;
    }
    assert(data@.take(data.len() as int) =~= data@);
    s
}

} // verus!
