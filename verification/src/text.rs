use vstd::prelude::*;

verus! {

/// Characters of `s` in order, as a vector.
pub fn string_to_chars(s: &str) -> (r: Vec<char>)
    ensures
        r@ == s@,
{
    let n = s.unicode_len();
    let mut r: Vec<char> = Vec::new();
    let mut i: usize = 0;
    while i < n
        invariant
            n == s@.len(),
            i <= n,
            r@ == s@.subrange(0, i as int),
        decreases n - i,
    {
        r.push(s.get_char(i));
        i = i + 1;
        proof {
            assert(r@ =~= s@.subrange(0, i as int));
        }
    }
    proof {
        assert(r@ =~= s@);
    }
    r
}

/// Character-wise string comparison.
pub fn str_eq(a: &str, b: &str) -> (r: bool)
    ensures
        r == (a@ == b@),
{
    let na = a.unicode_len();
    let nb = b.unicode_len();
    if na != nb {
        proof {
            assert(a@ != b@);
        }
        return false;
    }
    let mut i: usize = 0;
    while i < na
        invariant
            na == a@.len(),
            na == b@.len(),
            i <= na,
            forall|j: int| 0 <= j < i ==> a@[j] == b@[j],
        decreases na - i,
    {
        if a.get_char(i) != b.get_char(i) {
            return false;
        }
        i = i + 1;
    }
    proof {
        assert(a@ =~= b@);
    }
    true
}

/// Relies on `String`'s `FromIterator<char>`: collecting characters yields
/// the string of exactly those characters in order.
#[verifier::external_body]
pub fn chars_to_string(v: Vec<char>) -> (r: String)
    ensures
        r@ == v@,
{
    String::from_iter(v)
}

/// Relies on `char::from_u32`: `Some` exactly for Unicode scalar values
/// (not a surrogate, at most `0x10FFFF`), and the character returned has
/// the given code.
#[verifier::external_body]
pub fn char_from_u32(c: u32) -> (r: Option<char>)
    ensures
        r matches Some(ch) ==> ch as u32 == c && ch as int == c as int,
        (r is Some) <==> (c < 0xD800 || (0xE000 <= c && c <= 0x10FFFF)),
{
    char::from_u32(c)
}

pub open spec fn digit_char(d: int) -> char {
    (48 + d) as char
}

/// Decimal rendering of `v`, most significant digit first.
pub open spec fn dec_digits(v: nat) -> Seq<char>
    decreases v,
{
    if v < 10 {
        seq![digit_char(v as int)]
    } else {
        dec_digits(v / 10).push(digit_char((v % 10) as int))
    }
}

/// Decimal rendering of an unsigned number.
pub fn u64_to_string(v: u64) -> (r: String)
    ensures
        r@ == dec_digits(v as nat),
{
    if v == 0 {
        proof {
            reveal_strlit("0");
            assert(dec_digits(0) =~= "0"@);
        }
        return "0".to_owned();
    }
    let mut digits_rev: Vec<char> = Vec::new();
    let ghost mut tail: Seq<char> = Seq::empty();
    let mut x = v;
    while x > 0
        invariant
            x >= 0,
            digits_rev@.len() == tail.len(),
            forall|i: int|
                0 <= i < tail.len() ==> #[trigger] digits_rev@[i] == tail[tail.len() - 1 - i],
            dec_digits(v as nat) == if x > 0 {
                dec_digits(x as nat) + tail
            } else {
                tail
            },
        decreases x,
    {
        let d = (x % 10) as u8;
        let c = (48 + d) as char;
        proof {
            assert(c == digit_char((x % 10) as int));
            if x >= 10 {
                assert(dec_digits(x as nat) == dec_digits((x / 10) as nat).push(
                    digit_char((x % 10) as int),
                ));
                assert(dec_digits((x / 10) as nat) + (seq![c] + tail) =~= dec_digits(x as nat)
                    + tail);
            } else {
                assert(dec_digits(x as nat) =~= seq![c]);
                assert(seq![c] + tail =~= dec_digits(x as nat) + tail);
            }
        }
        digits_rev.push(c);
        proof {
            tail = seq![c] + tail;
        }
        x = x / 10;
    }
    let n = digits_rev.len();
    let mut out: Vec<char> = Vec::new();
    let mut i: usize = 0;
    while i < n
        invariant
            n == digits_rev@.len(),
            n == tail.len(),
            i <= n,
            forall|j: int|
                0 <= j < tail.len() ==> #[trigger] digits_rev@[j] == tail[tail.len() - 1 - j],
            out@ =~= tail.subrange(0, i as int),
        decreases n - i,
    {
        out.push(digits_rev[n - 1 - i]);
        i = i + 1;
        proof {
            assert(out@ =~= tail.subrange(0, i as int));
        }
    }
    proof {
        assert(out@ =~= tail);
    }
    chars_to_string(out)
}

/// Formatting then parsing a number hands it back: the law behind the
/// `set`-then-`print` round trip at the text level.
pub proof fn lemma_dec_roundtrip(v: nat)
    ensures
        all_dec_digits(dec_digits(v)),
        dec_value(dec_digits(v)) == v,
    decreases v,
{
    if v < 10 {
        let s = dec_digits(v);
        assert(s == seq![digit_char(v as int)]);
        assert(s.drop_last() =~= Seq::<char>::empty());
        lemma_digit_char_code(v as int);
        assert(s.last() == digit_char(v as int));
        assert(dec_value(s) == dec_value(s.drop_last()) * 10 + (s.last() as u32 - 48));
        assert(dec_value(s.drop_last()) == 0);
    } else {
        lemma_dec_roundtrip(v / 10);
        let s = dec_digits(v);
        let p = dec_digits(v / 10);
        assert(s == p.push(digit_char((v % 10) as int)));
        assert(s.drop_last() =~= p);
        assert(s.last() == digit_char((v % 10) as int));
        assert(digit_char((v % 10) as int) as u32 == 48 + (v % 10)) by {
            lemma_digit_char_code((v % 10) as int);
        }
        assert forall|i: int| 0 <= i < s.len() implies is_dec_digit(#[trigger] s[i]) by {
            if i < p.len() {
                assert(s[i] == p[i]);
            }
        }
        assert(dec_value(s) == dec_value(p) * 10 + (s.last() as u32 - 48));
    }
}

pub proof fn lemma_digit_char_code(d: int)
    requires
        0 <= d <= 9,
    ensures
        digit_char(d) as u32 == 48 + d,
        is_dec_digit(digit_char(d)),
{
    if d == 0 {
        assert((48int as char) as u32 == 48);
    } else if d == 1 {
        assert((49int as char) as u32 == 49);
    } else if d == 2 {
        assert((50int as char) as u32 == 50);
    } else if d == 3 {
        assert((51int as char) as u32 == 51);
    } else if d == 4 {
        assert((52int as char) as u32 == 52);
    } else if d == 5 {
        assert((53int as char) as u32 == 53);
    } else if d == 6 {
        assert((54int as char) as u32 == 54);
    } else if d == 7 {
        assert((55int as char) as u32 == 55);
    } else {
        assert(d == 8 || d == 9);
        assert((56int as char) as u32 == 56);
        assert((57int as char) as u32 == 57);
    }
}

/// Signed decimal rendering: a minus sign, then the digits of the
/// magnitude.
pub open spec fn dec_signed(v: int) -> Seq<char> {
    if v < 0 {
        seq!['-'] + dec_digits((-v) as nat)
    } else {
        dec_digits(v as nat)
    }
}

pub fn i64_to_string(v: i64) -> (r: String)
    ensures
        r@ == dec_signed(v as int),
{
    if v >= 0 {
        u64_to_string(v as u64)
    } else {
        let m: u64 = ((-(v + 1)) as u64) + 1;
        proof {
            assert(m as int == -(v as int));
            reveal_strlit("-");
            assert("-"@ =~= seq!['-']);
        }
        let digits = u64_to_string(m);
        "-".to_owned().concat(digits.as_str())
    }
}

pub open spec fn hex_digit_char(d: int) -> char {
    if d < 10 {
        (48 + d) as char
    } else {
        (97 + d - 10) as char
    }
}

/// Hexadecimal rendering of `v`, most significant digit first, no prefix.
pub open spec fn hex_digits(v: nat) -> Seq<char>
    decreases v,
{
    if v < 16 {
        seq![hex_digit_char(v as int)]
    } else {
        hex_digits(v / 16).push(hex_digit_char((v % 16) as int))
    }
}

/// `0x`-prefixed hexadecimal rendering, as pointers are printed.
pub fn u64_to_hex_string(v: u64) -> (r: String)
    ensures
        r@ == seq!['0', 'x'] + hex_digits(v as nat),
{
    proof {
        reveal_strlit("0x");
        assert("0x"@ =~= seq!['0', 'x']);
    }
    if v == 0 {
        proof {
            reveal_strlit("0x0");
            assert("0x0"@ =~= seq!['0', 'x'] + hex_digits(0));
        }
        return "0x0".to_owned();
    }
    let mut digits_rev: Vec<char> = Vec::new();
    let ghost mut tail: Seq<char> = Seq::empty();
    let mut x = v;
    while x > 0
        invariant
            x >= 0,
            digits_rev@.len() == tail.len(),
            forall|i: int|
                0 <= i < tail.len() ==> #[trigger] digits_rev@[i] == tail[tail.len() - 1 - i],
            hex_digits(v as nat) == if x > 0 {
                hex_digits(x as nat) + tail
            } else {
                tail
            },
        decreases x,
    {
        let d = (x % 16) as u8;
        let c = if d < 10 {
            (48 + d) as char
        } else {
            (97 + d - 10) as char
        };
        proof {
            assert(c == hex_digit_char((x % 16) as int));
            if x >= 16 {
                assert(hex_digits(x as nat) == hex_digits((x / 16) as nat).push(
                    hex_digit_char((x % 16) as int),
                ));
                assert(hex_digits((x / 16) as nat) + (seq![c] + tail) =~= hex_digits(x as nat)
                    + tail);
            } else {
                assert(hex_digits(x as nat) =~= seq![c]);
                assert(seq![c] + tail =~= hex_digits(x as nat) + tail);
            }
        }
        digits_rev.push(c);
        proof {
            tail = seq![c] + tail;
        }
        x = x / 16;
    }
    let n = digits_rev.len();
    let mut out: Vec<char> = Vec::new();
    out.push('0');
    out.push('x');
    let mut i: usize = 0;
    while i < n
        invariant
            n == digits_rev@.len(),
            n == tail.len(),
            i <= n,
            forall|j: int|
                0 <= j < tail.len() ==> #[trigger] digits_rev@[j] == tail[tail.len() - 1 - j],
            out@ =~= seq!['0', 'x'] + tail.subrange(0, i as int),
        decreases n - i,
    {
        out.push(digits_rev[n - 1 - i]);
        i = i + 1;
        proof {
            assert(out@ =~= seq!['0', 'x'] + tail.subrange(0, i as int));
        }
    }
    proof {
        assert(out@ =~= seq!['0', 'x'] + tail);
    }
    chars_to_string(out)
}

pub proof fn lemma_hex_digit_char_code(d: int)
    requires
        0 <= d <= 15,
    ensures
        is_hex_digit(hex_digit_char(d)),
        hex_value(hex_digit_char(d)) == d,
{
    if d == 0 {
        assert((48int as char) as u32 == 48);
    } else if d == 1 {
        assert((49int as char) as u32 == 49);
    } else if d == 2 {
        assert((50int as char) as u32 == 50);
    } else if d == 3 {
        assert((51int as char) as u32 == 51);
    } else if d == 4 {
        assert((52int as char) as u32 == 52);
    } else if d == 5 {
        assert((53int as char) as u32 == 53);
    } else if d == 6 {
        assert((54int as char) as u32 == 54);
    } else if d == 7 {
        assert((55int as char) as u32 == 55);
    } else if d == 8 {
        assert((56int as char) as u32 == 56);
    } else if d == 9 {
        assert((57int as char) as u32 == 57);
    } else if d == 10 {
        assert((97int as char) as u32 == 97);
    } else if d == 11 {
        assert((98int as char) as u32 == 98);
    } else if d == 12 {
        assert((99int as char) as u32 == 99);
    } else if d == 13 {
        assert((100int as char) as u32 == 100);
    } else if d == 14 {
        assert((101int as char) as u32 == 101);
    } else {
        assert((102int as char) as u32 == 102);
    }
}

/// Numeric value of a hex digit string, most significant digit first.
pub open spec fn hex_seq_value_of(s: Seq<char>) -> int
    decreases s.len(),
{
    if s.len() == 0 {
        0
    } else {
        hex_seq_value_of(s.drop_last()) * 16 + hex_value(s.last())
    }
}

/// Formatting a pointer in hex and parsing it back hands the address
/// back: the law behind the `set`-then-`print` round trip for pointers.
pub proof fn lemma_hex_roundtrip(v: nat)
    ensures
        forall|i: int| 0 <= i < hex_digits(v).len() ==> is_hex_digit(#[trigger] hex_digits(v)[i]),
        hex_seq_value_of(hex_digits(v)) == v,
    decreases v,
{
    if v < 16 {
        let s = hex_digits(v);
        assert(s == seq![hex_digit_char(v as int)]);
        assert(s.drop_last() =~= Seq::<char>::empty());
        lemma_hex_digit_char_code(v as int);
        assert(s.last() == hex_digit_char(v as int));
        assert(hex_seq_value_of(s) == hex_seq_value_of(s.drop_last()) * 16 + hex_value(s.last()));
        assert(hex_seq_value_of(s.drop_last()) == 0);
    } else {
        lemma_hex_roundtrip(v / 16);
        let s = hex_digits(v);
        let p = hex_digits(v / 16);
        assert(s == p.push(hex_digit_char((v % 16) as int)));
        assert(s.drop_last() =~= p);
        assert(s.last() == hex_digit_char((v % 16) as int));
        lemma_hex_digit_char_code((v % 16) as int);
        assert forall|i: int| 0 <= i < s.len() implies is_hex_digit(#[trigger] s[i]) by {
            if i < p.len() {
                assert(s[i] == p[i]);
            }
        }
        assert(hex_seq_value_of(s) == hex_seq_value_of(p) * 16 + hex_value(s.last()));
    }
}

pub proof fn lemma_hex_seq_value_nonneg(s: Seq<char>)
    ensures
        hex_seq_value_of(s) >= 0,
    decreases s.len(),
{
    if s.len() > 0 {
        lemma_hex_seq_value_nonneg(s.drop_last());
    }
}

/// A longer prefix of a hex digit string never holds a smaller value, so
/// an overflow met while scanning left to right is final.
pub proof fn lemma_hex_seq_value_grows(s: Seq<char>, i: int, j: int)
    requires
        0 <= i <= j <= s.len(),
    ensures
        hex_seq_value_of(s.subrange(0, i)) <= hex_seq_value_of(s.subrange(0, j)),
    decreases j - i,
{
    if i < j {
        lemma_hex_seq_value_grows(s, i, j - 1);
        let p = s.subrange(0, j);
        assert(p.drop_last() =~= s.subrange(0, j - 1));
        lemma_hex_seq_value_nonneg(s.subrange(0, j - 1));
        assert(hex_value(p.last()) >= 0);
    }
}

/// The whitespace the command layer may leave around a location string.
pub open spec fn is_space(c: char) -> bool {
    c == ' ' || c == '\t' || c == '\n' || c == '\r'
}

pub open spec fn trim_start_spec(s: Seq<char>) -> Seq<char>
    decreases s.len(),
{
    if s.len() > 0 && is_space(s[0]) {
        trim_start_spec(s.skip(1))
    } else {
        s
    }
}

pub open spec fn trim_end_spec(s: Seq<char>) -> Seq<char>
    decreases s.len(),
{
    if s.len() > 0 && is_space(s.last()) {
        trim_end_spec(s.drop_last())
    } else {
        s
    }
}

/// `s` without leading and trailing whitespace.
pub open spec fn trim_spec(s: Seq<char>) -> Seq<char> {
    trim_end_spec(trim_start_spec(s))
}

/// Strip leading and trailing whitespace, as location strings are
/// normalized before resolution.
fn space_char(c: char) -> (r: bool)
    ensures
        r == is_space(c),
{
    c == ' ' || c == '\t' || c == '\n' || c == '\r'
}

pub fn trim_str(s: &str) -> (r: String)
    ensures
        r@ == trim_spec(s@),
{
    let chars = string_to_chars(s);
    let n = chars.len();
    let mut start: usize = 0;
    proof {
        assert(s@.skip(0) =~= s@);
    }
    while start < n && space_char(chars[start])
        invariant
            start <= n,
            n == s@.len(),
            chars@ == s@,
            trim_start_spec(s@) == trim_start_spec(s@.skip(start as int)),
        decreases n - start,
    {
        proof {
            assert(is_space(s@.skip(start as int)[0]));
            assert(s@.skip(start as int).skip(1) =~= s@.skip(start + 1));
        }
        start = start + 1;
    }
    let ghost t = s@.skip(start as int);
    proof {
        if start < n {
            assert(!is_space(t[0]));
        } else {
            assert(t =~= Seq::<char>::empty());
        }
        assert(trim_start_spec(s@) == t);
    }
    let mut end: usize = n;
    proof {
        assert(t.subrange(0, n - start) =~= t);
    }
    while end > start && space_char(chars[end - 1])
        invariant
            start <= end <= n,
            n == s@.len(),
            chars@ == s@,
            t == s@.skip(start as int),
            trim_end_spec(t) == trim_end_spec(t.subrange(0, end - start)),
        decreases end,
    {
        proof {
            let sub = t.subrange(0, end - start);
            assert(sub.last() == s@[end - 1]);
            assert(is_space(sub.last()));
            assert(sub.drop_last() =~= t.subrange(0, end - 1 - start));
        }
        end = end - 1;
    }
    proof {
        let sub = t.subrange(0, end - start);
        if end > start {
            assert(sub.last() == s@[end - 1]);
            assert(!is_space(sub.last()));
        } else {
            assert(sub =~= Seq::<char>::empty());
        }
        assert(trim_end_spec(t) == sub);
    }
    let mut out: Vec<char> = Vec::new();
    let mut i: usize = start;
    while i < end
        invariant
            start <= i <= end <= n,
            n == s@.len(),
            chars@ == s@,
            out@ =~= s@.subrange(start as int, i as int),
        decreases end - i,
    {
        out.push(chars[i]);
        i = i + 1;
        proof {
            assert(out@ =~= s@.subrange(start as int, i as int));
        }
    }
    proof {
        assert(s@.subrange(start as int, end as int) =~= t.subrange(0, end - start));
    }
    chars_to_string(out)
}

pub open spec fn is_dec_digit(c: char) -> bool {
    48 <= c as u32 && c as u32 <= 57
}

pub open spec fn all_dec_digits(s: Seq<char>) -> bool {
    forall|i: int| 0 <= i < s.len() ==> is_dec_digit(#[trigger] s[i])
}

/// Numeric value of a digit string, most significant digit first.
pub open spec fn dec_value(s: Seq<char>) -> int
    decreases s.len(),
{
    if s.len() == 0 {
        0
    } else {
        dec_value(s.drop_last()) * 10 + (s.last() as u32 - 48)
    }
}

pub proof fn lemma_dec_value_grows(s: Seq<char>, i: int, j: int)
    requires
        0 <= i <= j <= s.len(),
        all_dec_digits(s),
    ensures
        dec_value(s.subrange(0, i)) <= dec_value(s.subrange(0, j)),
        dec_value(s.subrange(0, j)) >= 0,
    decreases j - i,
{
    if i == j {
        lemma_dec_value_pos(s.subrange(0, i));
    } else {
        lemma_dec_value_grows(s, i, j - 1);
        let p = s.subrange(0, j);
        assert(p.drop_last() =~= s.subrange(0, j - 1));
        assert(is_dec_digit(s[j - 1]));
        assert(dec_value(p) == dec_value(s.subrange(0, j - 1)) * 10 + (s[j - 1] as u32 - 48));
    }
}

pub proof fn lemma_dec_value_pos(s: Seq<char>)
    ensures
        all_dec_digits(s) ==> dec_value(s) >= 0,
    decreases s.len(),
{
    if s.len() > 0 {
        lemma_dec_value_pos(s.drop_last());
        if all_dec_digits(s) {
            assert(all_dec_digits(s.drop_last())) by {
                assert forall|i: int|
                    0 <= i < s.drop_last().len() implies is_dec_digit(
                    #[trigger] s.drop_last()[i]) by {
                    assert(s.drop_last()[i] == s[i]);
                }
            }
        }
    }
}

/// Parse an unsigned decimal number; `None` when the text is empty, holds
/// a non-digit, or overflows.
pub fn parse_u64(s: &str) -> (r: Option<u64>)
    ensures
        r matches Some(v) ==> s@.len() > 0 && all_dec_digits(s@) && v == dec_value(s@),
        r is None ==> s@.len() == 0 || !all_dec_digits(s@) || dec_value(s@) > u64::MAX,
{
    let chars = string_to_chars(s);
    let n = chars.len();
    if n == 0 {
        return None;
    }
    let mut v: u64 = 0;
    let mut i: usize = 0;
    while i < n
        invariant
            n == s@.len(),
            chars@ == s@,
            i <= n,
            forall|j: int| 0 <= j < i ==> is_dec_digit(#[trigger] s@[j]),
            v == dec_value(s@.subrange(0, i as int)),
        decreases n - i,
    {
        let c = chars[i];
        let u = c as u32;
        if u < 48 || u > 57 {
            return None;
        }
        let d = (u - 48) as u64;
        proof {
            assert(s@.subrange(0, i + 1).drop_last() =~= s@.subrange(0, i as int));
            assert(c == s@[i as int]);
            assert(is_dec_digit(c));
            assert(d as int == c as u32 - 48);
            assert(s@.subrange(0, i + 1).last() == c);
            assert(dec_value(s@.subrange(0, i + 1)) == v * 10 + d);
        }
        if v > (u64::MAX - d) / 10 {
            proof {
                assert(v * 10 + d > u64::MAX) by (nonlinear_arith)
                    requires
                        v > (u64::MAX - d) / 10,
                        d <= 9,
                        v >= 0,
                {}
                assert forall|j: int| 0 <= j < i + 1 implies is_dec_digit(#[trigger] s@[j]) by {
                    if j == i {
                        assert(s@[j] == c);
                    }
                }
                if all_dec_digits(s@) {
                    lemma_dec_value_grows(s@, i + 1, n as int);
                    assert(s@.subrange(0, n as int) =~= s@);
                }
            }
            return None;
        }
        v = v * 10 + d;
        i = i + 1;
    }
    proof {
        assert(s@.subrange(0, n as int) =~= s@);
    }
    Some(v)
}

pub open spec fn is_hex_digit(c: char) -> bool {
    ('0' <= c && c <= '9') || ('a' <= c && c <= 'f') || ('A' <= c && c <= 'F')
}

/// Numeric value of a hex digit; meaningless for other characters.
pub open spec fn hex_value(c: char) -> int {
    if '0' <= c && c <= '9' {
        c as u32 - 48
    } else if 'a' <= c && c <= 'f' {
        c as u32 - 97 + 10
    } else if 'A' <= c && c <= 'F' {
        c as u32 - 65 + 10
    } else {
        0
    }
}

pub fn hex_digit(c: char) -> (r: bool)
    ensures
        r == is_hex_digit(c),
{
    let u = c as u32;
    (48 <= u && u <= 57) || (97 <= u && u <= 102) || (65 <= u && u <= 70)
}

pub fn hex_digit_value(c: char) -> (r: u32)
    requires
        is_hex_digit(c),
    ensures
        r == hex_value(c),
        r < 16,
{
    let u = c as u32;
    if u <= 57 {
        u - 48
    } else if u <= 70 {
        u - 65 + 10
    } else {
        u - 97 + 10
    }
}

} // verus!
