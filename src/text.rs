//! Character-level text primitives: cutting at ASCII separators, line
//! splitting, trimming and decimal numerals, each stated over `Seq<char>`.
use vstd::prelude::*;
use vstd::utf8::*;

verus! {

/// The UTF-8 encoding of a concatenation is the concatenation of the encodings.
proof fn lemma_encode_concat(a: Seq<char>, b: Seq<char>)
    ensures
        encode_utf8(a + b) == encode_utf8(a) + encode_utf8(b),
    decreases a.len(),
{
    if a.len() == 0 {
        assert(a + b =~= b);
        assert(encode_utf8(a) + encode_utf8(b) =~= encode_utf8(b));
    } else {
        assert((a + b).drop_first() =~= a.drop_first() + b);
        lemma_encode_concat(a.drop_first(), b);
        assert(encode_utf8(a + b) =~= encode_utf8(a) + encode_utf8(b));
    }
}

/// Two character sequences with the same encoding are equal.
proof fn lemma_encode_injective(a: Seq<char>, b: Seq<char>)
    requires
        encode_utf8(a) == encode_utf8(b),
    ensures
        a == b,
{
    encode_utf8_decode_utf8(a);
    encode_utf8_decode_utf8(b);
}

/// The first byte of a character's encoding is below 0x80 exactly when the
/// character is ASCII, and then it is the whole encoding.
proof fn lemma_scalar_first_byte(c: char)
    ensures
        encode_scalar(c as u32).len() >= 1,
        encode_scalar(c as u32)[0] < 0x80 <==> (c as u32) < 0x80,
        (c as u32) < 0x80 ==> encode_scalar(c as u32) == seq![(c as u32) as u8],
{
    char_is_scalar(c);
    let v = c as u32;
    if v < 0x80 {
        assert((v & 0x7F) as u8 == v as u8) by (bit_vector)
            requires
                v < 0x80,
        ;
    } else if has_width_2_encoding(v) {
        let y = ((v >> 6) & 0x1F) as u8;
        assert(0xC0u8 | y >= 0x80) by (bit_vector);
    } else if has_width_3_encoding(v) {
        let y = ((v >> 12) & 0x0F) as u8;
        assert(0xE0u8 | y >= 0x80) by (bit_vector);
    } else {
        let y = ((v >> 18) & 0x7) as u8;
        assert(0xF0u8 | y >= 0x80) by (bit_vector);
    }
}

/// An encoding starts with the ASCII byte of `c` exactly when the sequence
/// starts with `c`; the remaining bytes then encode the remaining characters.
proof fn lemma_encode_first_ascii(cs: Seq<char>, c: char)
    requires
        (c as u32) < 0x80,
    ensures
        (encode_utf8(cs).len() > 0 && encode_utf8(cs)[0] == (c as u32) as u8) <==> (cs.len() > 0
            && cs[0] == c),
        cs.len() > 0 && cs[0] == c ==> encode_utf8(cs).drop_first() == encode_utf8(cs.drop_first()),
{
    if cs.len() > 0 {
        lemma_scalar_first_byte(cs[0]);
        lemma_scalar_first_byte(c);
        let e = encode_utf8(cs);
        assert(e[0] == encode_scalar(cs[0] as u32)[0]);
        if e[0] == (c as u32) as u8 {
            char_u32_cast(cs[0], cs[0] as u32);
            char_u32_cast(c, c as u32);
        }
        if cs[0] == c {
            assert(e.drop_first() =~= encode_utf8(cs.drop_first()));
        }
    }
}

/// A sequence whose encoding lacks the byte of an ASCII character lacks the character.
proof fn lemma_absent_ascii(cs: Seq<char>, c: char)
    requires
        (c as u32) < 0x80,
        forall|j: int| 0 <= j < encode_utf8(cs).len() ==> encode_utf8(cs)[j] != (c as u32) as u8,
    ensures
        !cs.contains(c),
    decreases cs.len(),
{
    if cs.len() > 0 {
        lemma_encode_first_ascii(cs, c);
        let first = encode_scalar(cs[0] as u32);
        let rest = cs.drop_first();
        assert(encode_utf8(cs) == first + encode_utf8(rest));
        assert forall|j: int| 0 <= j < encode_utf8(rest).len() implies encode_utf8(rest)[j] != (
        c as u32) as u8 by {
            assert(encode_utf8(rest)[j] == encode_utf8(cs)[j + first.len()]);
        }
        lemma_absent_ascii(rest, c);
        assert forall|i: int| 0 <= i < cs.len() implies cs[i] != c by {
            if i > 0 {
                assert(cs[i] == rest[i - 1]);
            }
        }
    }
}

/// The index of the first `c` in `s`, or the length of `s` when there is none.
pub open spec fn first_index(s: Seq<char>, c: char) -> int
    decreases s.len(),
{
    if s.len() == 0 {
        0
    } else if s[0] == c {
        0
    } else {
        1 + first_index(s.drop_first(), c)
    }
}

pub proof fn lemma_first_index(s: Seq<char>, c: char)
    ensures
        0 <= first_index(s, c) <= s.len(),
        first_index(s, c) < s.len() <==> s.contains(c),
        first_index(s, c) < s.len() ==> s[first_index(s, c)] == c,
        !s.take(first_index(s, c)).contains(c),
    decreases s.len(),
{
    if s.len() > 0 {
        lemma_first_index(s.drop_first(), c);
        if s[0] != c {
            let k = first_index(s.drop_first(), c);
            if s.drop_first().contains(c) {
                let i = choose|i: int| 0 <= i < s.drop_first().len() && s.drop_first()[i] == c;
                assert(s[i + 1] == c);
            }
            if s.contains(c) {
                let i = choose|i: int| 0 <= i < s.len() && s[i] == c;
                assert(s.drop_first()[i - 1] == c);
            }
            assert forall|i: int| 0 <= i < k + 1 implies #[trigger] s.take(k + 1)[i] != c by {
                if i > 0 {
                    assert(s.take(k + 1)[i] == s.drop_first().take(k)[i - 1]);
                }
            }
        } else {
            assert(s.contains(c)) by {
                assert(s[0] == c);
            }
        }
    }
}

/// When `s` is `a`, then `c`, then `b`, with no `c` in `a`, the first `c` is at `a.len()`.
pub proof fn lemma_first_index_at(s: Seq<char>, c: char, a: Seq<char>, b: Seq<char>)
    requires
        s == a + seq![c] + b,
        !a.contains(c),
    ensures
        first_index(s, c) == a.len(),
        s.take(a.len() as int) == a,
        s.skip(a.len() as int + 1) == b,
    decreases a.len(),
{
    if a.len() == 0 {
        assert(s[0] == c);
    } else {
        assert(s[0] == a[0]);
        assert(!a.drop_first().contains(c)) by {
            if a.drop_first().contains(c) {
                let i = choose|i: int| 0 <= i < a.drop_first().len() && a.drop_first()[i] == c;
                assert(a[i + 1] == c);
            }
        }
        assert(s.drop_first() =~= a.drop_first() + seq![c] + b);
        lemma_first_index_at(s.drop_first(), c, a.drop_first(), b);
    }
    assert(s.take(a.len() as int) =~= a);
    assert(s.skip(a.len() as int + 1) =~= b);
}

/// Cuts `s` at the first occurrence of the ASCII character `sep`, which is
/// dropped: the text before it and the text after it.
pub fn split_once_ascii<'a>(s: &'a str, sep: char) -> (r: Option<(&'a str, &'a str)>)
    requires
        (sep as u32) < 0x80,
    ensures
        r is None <==> !s@.contains(sep),
        r matches Some((a, b)) ==> s@ == a@ + seq![sep] + b@ && !a@.contains(sep),
{
    let bytes = s.as_bytes();
    let target = sep as u32 as u8;
    let mut k: usize = 0;
    proof {
        encode_utf8_valid_utf8(s@);
    }
    while k < bytes.len()
        invariant
            bytes@ == encode_utf8(s@),
            target == (sep as u32) as u8,
            (sep as u32) < 0x80,
            k <= bytes@.len(),
            forall|j: int| 0 <= j < k ==> bytes@[j] != target,
        decreases bytes@.len() - k,
    {
        if bytes[k] == target {
            let ghost bs = bytes@;
            proof {
                encode_utf8_valid_utf8(s@);
                is_char_boundary_iff_not_is_continuation_byte(bs, k as int);
            }
            let (a, t) = s.split_at(k);
            proof {
                lemma_encode_concat(a@, t@);
                assert(bs.subrange(0, k as int) + bs.subrange(k as int, bs.len() as int) =~= bs);
                lemma_encode_injective(a@ + t@, s@);
                lemma_encode_first_ascii(t@, sep);
                assert(encode_utf8(t@)[0] == bs[k as int]);
                encode_utf8_valid_utf8(t@);
                reveal_with_fuel(is_char_boundary, 2);
                assert(is_char_boundary(encode_utf8(t@), 1));
            }
            let (_, b) = t.split_at(1);
            proof {
                assert(encode_utf8(b@) =~= encode_utf8(t@).drop_first());
                lemma_encode_injective(b@, t@.drop_first());
                assert(t@ =~= seq![sep] + b@);
                assert(s@ =~= a@ + seq![sep] + b@);
                assert(s@[a@.len() as int] == sep);
                assert forall|j: int| 0 <= j < encode_utf8(a@).len() implies encode_utf8(a@)[j]
                    != target by {
                    assert(encode_utf8(a@)[j] == bs[j]);
                }
                lemma_absent_ascii(a@, sep);
            }
            return Some((a, b));
        }
        k = k + 1;
    }
    proof {
        lemma_absent_ascii(s@, sep);
    }
    None
}

/// The pieces of `s` between occurrences of `c`, as `str::split` gives them:
/// one more piece than there are occurrences, empty pieces included.
pub open spec fn split_on(s: Seq<char>, c: char) -> Seq<Seq<char>>
    decreases s.len(),
{
    if s.contains(c) {
        proof {
            lemma_first_index(s, c);
        }
        seq![s.take(first_index(s, c))] + split_on(s.skip(first_index(s, c) + 1), c)
    } else {
        seq![s]
    }
}

/// The views of a sequence of string slices.
pub open spec fn views<'a>(v: Seq<&'a str>) -> Seq<Seq<char>> {
    v.map_values(|p: &'a str| p@)
}

/// Splits `s` at every occurrence of the ASCII character `sep`.
pub fn split_ascii<'a>(s: &'a str, sep: char) -> (r: Vec<&'a str>)
    requires
        (sep as u32) < 0x80,
    ensures
        views(r@) == split_on(s@, sep),
{
    let mut pieces: Vec<&'a str> = Vec::new();
    let mut rest = s;
    loop
        invariant
            (sep as u32) < 0x80,
            split_on(s@, sep) == views(pieces@) + split_on(rest@, sep),
        decreases rest@.len(),
    {
        match split_once_ascii(rest, sep) {
            None => {
                pieces.push(rest);
                proof {
                    assert(views(pieces@) =~= views(pieces@.drop_last()) + seq![rest@]);
                }
                return pieces;
            },
            Some((a, b)) => {
                proof {
                    lemma_first_index_at(rest@, sep, a@, b@);
                    assert(split_on(rest@, sep) == seq![a@] + split_on(b@, sep));
                }
                let ghost old_pieces = pieces@;
                pieces.push(a);
                proof {
                    assert(views(pieces@) =~= views(old_pieces) + seq![a@]);
                    assert(views(old_pieces) + (seq![a@] + split_on(b@, sep)) =~= views(pieces@)
                        + split_on(b@, sep));
                }
                rest = b;
            },
        }
    }
}

/// A line without the carriage return that ends it, if any.
pub open spec fn strip_cr(l: Seq<char>) -> Seq<char> {
    if l.len() > 0 && l.last() == '\r' {
        l.drop_last()
    } else {
        l
    }
}

/// The lines of `s`, as `str::lines` gives them: split at each `\n`, a `\r`
/// just before it dropped, and no empty line after a final `\n`.
pub open spec fn lines_of(s: Seq<char>) -> Seq<Seq<char>>
    decreases s.len(),
{
    if s.len() == 0 {
        seq![]
    } else if s.contains('\n') {
        proof {
            lemma_first_index(s, '\n');
        }
        seq![strip_cr(s.take(first_index(s, '\n')))] + lines_of(s.skip(first_index(s, '\n') + 1))
    } else {
        seq![s]
    }
}

fn without_cr<'a>(l: &'a str) -> (r: &'a str)
    ensures
        r@ == strip_cr(l@),
{
    let n = l.unicode_len();
    if n > 0 && l.get_char(n - 1) == '\r' {
        l.substring_char(0, n - 1)
    } else {
        l
    }
}

/// Splits `s` into lines.
pub fn split_lines<'a>(s: &'a str) -> (r: Vec<&'a str>)
    ensures
        views(r@) == lines_of(s@),
{
    let mut lines: Vec<&'a str> = Vec::new();
    let mut rest = s;
    while !rest.is_empty()
        invariant
            lines_of(s@) == views(lines@) + lines_of(rest@),
        decreases rest@.len(),
    {
        let ghost old_lines = lines@;
        match split_once_ascii(rest, '\n') {
            None => {
                lines.push(rest);
                proof {
                    assert(views(lines@) =~= views(old_lines) + seq![rest@]);
                    assert(lines_of(s@) =~= views(lines@));
                }
                return lines;
            },
            Some((a, b)) => {
                proof {
                    lemma_first_index_at(rest@, '\n', a@, b@);
                }
                lines.push(without_cr(a));
                proof {
                    assert(views(lines@) =~= views(old_lines) + seq![strip_cr(a@)]);
                    assert(views(old_lines) + (seq![strip_cr(a@)] + lines_of(b@)) =~= views(lines@)
                        + lines_of(b@));
                }
                rest = b;
            },
        }
    }
    proof {
        assert(views(lines@) + lines_of(rest@) =~= views(lines@));
    }
    lines
}

/// Copies the characters of `s` into a vector.
pub fn chars_of(s: &str) -> (r: Vec<char>)
    ensures
        r@ == s@,
{
    let mut v: Vec<char> = Vec::new();
    for c in it: s.chars()
        invariant
            it.seq() == s@,
            v@ == it.seq().take(it.index() as int),
    {
        v.push(c);
    }
    v
}

/// Unicode `White_Space`, which `char::is_whitespace` tests.
pub open spec fn is_space(c: char) -> bool {
    ||| ('\u{9}' <= c && c <= '\u{d}')
    ||| c == ' '
    ||| c == '\u{85}'
    ||| c == '\u{a0}'
    ||| c == '\u{1680}'
    ||| ('\u{2000}' <= c && c <= '\u{200a}')
    ||| c == '\u{2028}'
    ||| c == '\u{2029}'
    ||| c == '\u{202f}'
    ||| c == '\u{205f}'
    ||| c == '\u{3000}'
}

fn space(c: char) -> (r: bool)
    ensures
        r == is_space(c),
{
    ('\u{9}' <= c && c <= '\u{d}') || c == ' ' || c == '\u{85}' || c == '\u{a0}' || c == '\u{1680}'
        || ('\u{2000}' <= c && c <= '\u{200a}') || c == '\u{2028}' || c == '\u{2029}' || c
        == '\u{202f}' || c == '\u{205f}' || c == '\u{3000}'
}

/// `s` without its leading white space.
pub open spec fn trim_start(s: Seq<char>) -> Seq<char>
    decreases s.len(),
{
    if s.len() > 0 && is_space(s[0]) {
        trim_start(s.drop_first())
    } else {
        s
    }
}

/// `s` without its trailing white space.
pub open spec fn trim_end(s: Seq<char>) -> Seq<char>
    decreases s.len(),
{
    if s.len() > 0 && is_space(s.last()) {
        trim_end(s.drop_last())
    } else {
        s
    }
}

/// `s` without white space at either end, as `str::trim` gives it.
pub open spec fn trimmed(s: Seq<char>) -> Seq<char> {
    trim_end(trim_start(s))
}

/// Removes white space at both ends of `s`.
pub fn trim<'a>(s: &'a str) -> (r: &'a str)
    ensures
        r@ == trimmed(s@),
{
    let cs = chars_of(s);
    let n = cs.len();
    let mut i: usize = 0;
    proof {
        assert(s@.skip(0) =~= s@);
    }
    while i < n && space(cs[i])
        invariant
            cs@ == s@,
            n == cs@.len(),
            i <= n,
            trim_start(s@) == trim_start(s@.skip(i as int)),
        decreases n - i,
    {
        proof {
            assert(s@.skip(i as int).drop_first() =~= s@.skip(i + 1));
        }
        i = i + 1;
    }
    proof {
        assert(trim_start(s@) == s@.skip(i as int));
    }
    let mut j: usize = n;
    while j > i && space(cs[j - 1])
        invariant
            cs@ == s@,
            n == cs@.len(),
            i <= j <= n,
            trim_start(s@) == s@.skip(i as int),
            trimmed(s@) == trim_end(s@.subrange(i as int, j as int)),
        decreases j,
    {
        proof {
            assert(s@.subrange(i as int, j as int).drop_last() =~= s@.subrange(i as int, j - 1));
        }
        j = j - 1;
    }
    s.substring_char(i, j)
}

/// Whether `l` starts with three copies of `c`.
pub open spec fn starts_with3(l: Seq<char>, c: char) -> bool {
    l.len() >= 3 && l[0] == c && l[1] == c && l[2] == c
}

/// Tests whether `l` starts with three copies of the ASCII character `c`.
pub fn has_prefix3(l: &str, c: char) -> (r: bool)
    requires
        (c as u32) < 0x80,
    ensures
        r == starts_with3(l@, c),
{
    let bytes = l.as_bytes();
    let b = c as u32 as u8;
    proof {
        let s0 = l@;
        lemma_encode_first_ascii(s0, c);
        if s0.len() > 0 && s0[0] == c {
            let s1 = s0.drop_first();
            lemma_encode_first_ascii(s1, c);
            if s1.len() > 0 && s1[0] == c {
                let s2 = s1.drop_first();
                lemma_encode_first_ascii(s2, c);
                assert(s0[1] == s1[0]);
                if s2.len() > 0 {
                    assert(s0[2] == s2[0]);
                }
            } else if s1.len() > 0 {
                assert(s0[1] == s1[0]);
            }
        }
    }
    bytes.len() >= 3 && bytes[0] == b && bytes[1] == b && bytes[2] == b
}

/// Tests two strings for equality of their characters.
pub fn same_text(a: &str, b: &str) -> (r: bool)
    ensures
        r == (a@ == b@),
{
    let x = a.as_bytes();
    let y = b.as_bytes();
    if x.len() != y.len() {
        return false;
    }
    let mut k: usize = 0;
    while k < x.len()
        invariant
            x@ == encode_utf8(a@),
            y@ == encode_utf8(b@),
            x@.len() == y@.len(),
            k <= x@.len(),
            x@.take(k as int) == y@.take(k as int),
        decreases x@.len() - k,
    {
        if x[k] != y[k] {
            return false;
        }
        proof {
            assert(x@.take(k + 1) =~= x@.take(k as int).push(x@[k as int]));
            assert(y@.take(k + 1) =~= y@.take(k as int).push(y@[k as int]));
        }
        k = k + 1;
    }
    proof {
        assert(x@ =~= x@.take(k as int));
        assert(y@ =~= y@.take(k as int));
        lemma_encode_injective(a@, b@);
    }
    true
}

pub open spec fn is_digit(c: char) -> bool {
    '0' <= c && c <= '9'
}

pub open spec fn all_digits(s: Seq<char>) -> bool {
    forall|i: int| 0 <= i < s.len() ==> is_digit(#[trigger] s[i])
}

/// The number that a sequence of decimal digits denotes.
pub open spec fn digits_value(s: Seq<char>) -> nat
    decreases s.len(),
{
    if s.len() == 0 {
        0
    } else {
        digits_value(s.drop_last()) * 10 + ((s.last() as u32) - ('0' as u32)) as nat
    }
}

/// The value of a numeral in an unsigned type whose largest value is `max`,
/// as `str::parse` reads it: an optional `+`, then at least one digit.
pub open spec fn unsigned_of(s: Seq<char>, max: nat) -> Option<nat> {
    let d = if s.len() > 0 && s[0] == '+' {
        s.drop_first()
    } else {
        s
    };
    if d.len() > 0 && all_digits(d) && digits_value(d) <= max {
        Some(digits_value(d))
    } else {
        None
    }
}

/// The value of a numeral as an `i64`, as `str::parse` reads it: an optional
/// sign, then at least one digit, within range.
pub open spec fn i64_of(s: Seq<char>) -> Option<i64> {
    if s.len() > 0 && s[0] == '-' {
        let d = s.drop_first();
        if d.len() > 0 && all_digits(d) && digits_value(d) <= 0x8000_0000_0000_0000 {
            Some((-digits_value(d)) as i64)
        } else {
            None
        }
    } else {
        match unsigned_of(s, i64::MAX as nat) {
            Some(v) => Some(v as i64),
            None => None,
        }
    }
}

proof fn lemma_digits_value_prefix(s: Seq<char>, k: int)
    requires
        0 <= k <= s.len(),
    ensures
        digits_value(s) >= digits_value(s.take(k)),
    decreases s.len(),
{
    if k < s.len() {
        assert(s.drop_last().take(k) =~= s.take(k));
        lemma_digits_value_prefix(s.drop_last(), k);
    } else {
        assert(s.take(k) =~= s);
    }
}

/// Reads the digits of `cs` from position `from` on, if they are all digits,
/// at least one, and denote at most `max`.
fn digits_upto(cs: &Vec<char>, from: usize, max: u64) -> (r: Option<u64>)
    requires
        max >= 9,
    ensures
        r == (if from < cs@.len() && all_digits(cs@.skip(from as int)) && digits_value(
            cs@.skip(from as int),
        ) <= max {
            Some(digits_value(cs@.skip(from as int)) as u64)
        } else {
            None::<u64>
        }),
{
    if from >= cs.len() {
        return None;
    }
    let ghost d = cs@.skip(from as int);
    let mut v: u64 = 0;
    let mut i: usize = from;
    proof {
        assert(d.take(0) =~= Seq::<char>::empty());
    }
    while i < cs.len()
        invariant
            d == cs@.skip(from as int),
            from <= i <= cs@.len(),
            all_digits(d.take(i - from)),
            v == digits_value(d.take(i - from)),
            v <= max,
            max >= 9,
        decreases cs@.len() - i,
    {
        let c = cs[i];
        if !('0' <= c && c <= '9') {
            proof {
                assert(d[i - from] == c);
            }
            return None;
        }
        let digit = (c as u32 - '0' as u32) as u64;
        let ghost t = d.take(i - from + 1);
        proof {
            assert(t.drop_last() =~= d.take(i - from));
            assert(t.last() == c);
        }
        if v > (max - digit) / 10 {
            proof {
                assert(v * 10 + digit > max) by (nonlinear_arith)
                    requires
                        v > (max - digit) / 10,
                        digit <= 9,
                        max >= 9,
                ;
                lemma_digits_value_prefix(d, i - from + 1);
                assert(d.take(i - from + 1) == t);
            }
            return None;
        }
        proof {
            assert(v * 10 + digit <= max) by (nonlinear_arith)
                requires
                    v <= (max - digit) / 10,
                    digit <= 9,
                    max >= 9,
            ;
            assert forall|j: int| 0 <= j < t.len() implies is_digit(#[trigger] t[j]) by {
                if j < t.len() - 1 {
                    assert(t[j] == d.take(i - from)[j]);
                }
            }
        }
        v = v * 10 + digit;
        i = i + 1;
    }
    proof {
        assert(d.take(i - from) =~= d);
    }
    Some(v)
}

/// Reads a numeral of an unsigned type whose largest value is `max`.
pub fn parse_unsigned(s: &str, max: u64) -> (r: Option<u64>)
    requires
        max >= 9,
    ensures
        r matches Some(v) ==> unsigned_of(s@, max as nat) == Some(v as nat),
        r is None ==> unsigned_of(s@, max as nat) is None,
{
    let cs = chars_of(s);
    let from: usize = if cs.len() > 0 && cs[0] == '+' {
        1
    } else {
        0
    };
    proof {
        if from == 1 {
            assert(cs@.skip(1) =~= s@.drop_first());
        } else {
            assert(cs@.skip(0) =~= s@);
        }
    }
    digits_upto(&cs, from, max)
}

/// Reads a numeral of type `i64`.
pub fn parse_i64(s: &str) -> (r: Option<i64>)
    ensures
        r == i64_of(s@),
{
    let cs = chars_of(s);
    if cs.len() > 0 && cs[0] == '-' {
        proof {
            assert(cs@.skip(1) =~= s@.drop_first());
        }
        match digits_upto(&cs, 1, 0x8000_0000_0000_0000) {
            Some(m) => {
                if m == 0x8000_0000_0000_0000 {
                    Some(i64::MIN)
                } else {
                    Some(-(m as i64))
                }
            },
            None => None,
        }
    } else {
        match parse_unsigned(s, i64::MAX as u64) {
            Some(v) => Some(v as i64),
            None => None,
        }
    }
}

} // verus!
