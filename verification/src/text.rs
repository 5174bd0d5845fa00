//! Text building blocks: decimal rendering, byte-wise ordering of strings,
//! whitespace trimming and character searches.
use vstd::prelude::*;

verus! {

/// `std::string::String::push`: appends one character at the end of the string.
#[verifier::external_body]
pub(crate) fn push_char(s: &mut String, c: char)
    ensures
        final(s)@ == old(s)@.push(c),
{
    s.push(c);
}

/// Appends `t` at the end of `s`.
pub fn push_text(s: &mut String, t: &str)
    ensures
        final(s)@ == old(s)@ + t@,
{
    s.append(t);
}

/// A copy of an optional string, equal to it.
pub fn clone_opt_string(o: &Option<String>) -> (res: Option<String>)
    ensures
        res == *o,
{
    match o {
        Some(s) => Some(s.clone()),
        None => None,
    }
}

/// The character of a decimal digit `d < 10`.
pub open spec fn digit_char(d: nat) -> char {
    (d + 48) as char
}

/// The shortest decimal rendering of `n` (no sign, no leading zeros).
pub open spec fn decimal(n: nat) -> Seq<char>
    decreases n,
{
    if n < 10 {
        seq![digit_char(n)]
    } else {
        decimal(n / 10).push(digit_char(n % 10))
    }
}

/// The decimal rendering of a signed integer: a `-` before the magnitude when negative.
pub open spec fn signed_decimal(v: int) -> Seq<char> {
    if v < 0 {
        seq!['-'] + decimal((-v) as nat)
    } else {
        decimal(v as nat)
    }
}

fn digit(d: u64) -> (c: char)
    requires
        d < 10,
    ensures
        c == digit_char(d as nat),
{
    let b: u8 = (d as u8) + 48u8;
    let c = b as char;
    assert(c == digit_char(d as nat));
    c
}

/// Appends the decimal rendering of `n`.
pub fn push_decimal(s: &mut String, n: u64)
    ensures
        final(s)@ == old(s)@ + decimal(n as nat),
    decreases n,
{
    if n >= 10 {
        push_decimal(s, n / 10);
    }
    let c = digit(n % 10);
    push_char(s, c);
    proof {
        if n < 10 {
            assert(decimal(n as nat) =~= seq![digit_char(n as nat)]);
        }
    }
}

/// Appends the signed decimal rendering of `v`.
pub fn push_signed_decimal(s: &mut String, v: i64)
    ensures
        final(s)@ == old(s)@ + signed_decimal(v as int),
{
    if v < 0 {
        push_char(s, '-');
        let magnitude: u64 = ((-(v + 1)) as u64) + 1;
        push_decimal(s, magnitude);
    } else {
        push_decimal(s, v as u64);
    }
}

/// The decimal rendering of `n` as a new string.
pub fn decimal_string(n: u64) -> (res: String)
    ensures
        res@ == decimal(n as nat),
{
    let mut s = String::new();
    push_decimal(&mut s, n);
    s
}

/// Byte-wise lexicographic "strictly less than" (the order of `str`).
pub open spec fn bytes_lt(a: Seq<u8>, b: Seq<u8>) -> bool
    decreases a.len(),
{
    if a.len() == 0 {
        b.len() > 0
    } else if b.len() == 0 {
        false
    } else if a[0] < b[0] {
        true
    } else if a[0] > b[0] {
        false
    } else {
        bytes_lt(a.drop_first(), b.drop_first())
    }
}

/// `a` sorts strictly before `b` in the byte-wise order of their UTF-8 encodings.
pub open spec fn text_lt(a: Seq<char>, b: Seq<char>) -> bool {
    bytes_lt(vstd::utf8::encode_utf8(a), vstd::utf8::encode_utf8(b))
}

proof fn lemma_bytes_lt_skip(a: Seq<u8>, b: Seq<u8>, i: int)
    requires
        0 <= i <= a.len(),
        i <= b.len(),
        a.subrange(0, i) == b.subrange(0, i),
    ensures
        bytes_lt(a, b) == bytes_lt(a.skip(i), b.skip(i)),
    decreases i,
{
    if i > 0 {
        assert(a[0] == a.subrange(0, i)[0]);
        assert(b[0] == b.subrange(0, i)[0]);
        assert(a.drop_first().subrange(0, i - 1) =~= a.subrange(0, i).drop_first());
        assert(b.drop_first().subrange(0, i - 1) =~= b.subrange(0, i).drop_first());
        lemma_bytes_lt_skip(a.drop_first(), b.drop_first(), i - 1);
        assert(a.drop_first().skip(i - 1) =~= a.skip(i));
        assert(b.drop_first().skip(i - 1) =~= b.skip(i));
    } else {
        assert(a.skip(0) =~= a);
        assert(b.skip(0) =~= b);
    }
}

/// Compares two strings in the byte-wise order of `str`:
/// returns `(a < b, a == b)`.
pub fn compare_text(a: &str, b: &str) -> (res: (bool, bool))
    ensures
        res.0 == text_lt(a@, b@),
        res.1 == (a@ == b@),
{
    let x = a.as_bytes();
    let y = b.as_bytes();
    let n = x.len();
    let m = y.len();
    let mut i: usize = 0;
    proof {
        vstd::utf8::encode_utf8_decode_utf8(a@);
        vstd::utf8::encode_utf8_decode_utf8(b@);
    }
    while i < n && i < m
        invariant
            x@ == vstd::utf8::encode_utf8(a@),
            y@ == vstd::utf8::encode_utf8(b@),
            n == x@.len(),
            m == y@.len(),
            i <= n,
            i <= m,
            x@.subrange(0, i as int) == y@.subrange(0, i as int),
        decreases n - i,
    {
        if x[i] != y[i] {
            proof {
                lemma_bytes_lt_skip(x@, y@, i as int);
                assert(x@.skip(i as int)[0] == x@[i as int]);
                assert(y@.skip(i as int)[0] == y@[i as int]);
                assert(x@ != y@);
            }
            return (x[i] < y[i], false);
        }
        assert(x@.subrange(0, i + 1) =~= x@.subrange(0, i as int).push(x@[i as int]));
        assert(y@.subrange(0, i + 1) =~= y@.subrange(0, i as int).push(y@[i as int]));
        i = i + 1;
    }
    proof {
        lemma_bytes_lt_skip(x@, y@, i as int);
        if n == m {
            assert(x@ =~= x@.subrange(0, n as int));
            assert(y@ =~= y@.subrange(0, m as int));
        } else {
            assert(x@.len() != y@.len());
        }
    }
    (n < m, n == m)
}

/// Whether `c` has the Unicode `White_Space` property (`char::is_whitespace`).
pub open spec fn is_white_space(c: char) -> bool {
    let v = c as u32;
    ||| 0x09 <= v <= 0x0d
    ||| v == 0x20
    ||| v == 0x85
    ||| v == 0xa0
    ||| v == 0x1680
    ||| 0x2000 <= v <= 0x200a
    ||| v == 0x2028
    ||| v == 0x2029
    ||| v == 0x202f
    ||| v == 0x205f
    ||| v == 0x3000
}

fn white_space(c: char) -> (res: bool)
    ensures
        res == is_white_space(c),
{
    let v = c as u32;
    (0x09 <= v && v <= 0x0d) || v == 0x20 || v == 0x85 || v == 0xa0 || v == 0x1680 || (0x2000
        <= v && v <= 0x200a) || v == 0x2028 || v == 0x2029 || v == 0x202f || v == 0x205f || v
        == 0x3000
}

/// `s` with the longest leading and trailing runs of characters satisfying `pred` removed.
/// `start` is the first kept index and `end` one past the last kept index.
pub open spec fn trimmed_bounds_ok(s: Seq<char>, start: int, end: int, pred: spec_fn(char) -> bool) -> bool {
    &&& 0 <= start <= end <= s.len()
    &&& forall|i: int| 0 <= i < start ==> #[trigger] pred(s[i])
    &&& forall|i: int| end <= i < s.len() ==> #[trigger] pred(s[i])
    &&& start < end ==> !pred(s[start]) && !pred(s[end - 1])
}

/// `s` without leading and trailing white space (`str::trim`).
pub open spec fn trim_white_space(s: Seq<char>) -> Seq<char> {
    let bounds = choose|b: (int, int)| trimmed_bounds_ok(s, b.0, b.1, |c: char| is_white_space(c));
    s.subrange(bounds.0, bounds.1)
}

/// The bounds that trim a sequence are unique.
pub proof fn lemma_trimmed_bounds_unique(
    s: Seq<char>,
    b1: (int, int),
    b2: (int, int),
    pred: spec_fn(char) -> bool,
)
    requires
        trimmed_bounds_ok(s, b1.0, b1.1, pred),
        trimmed_bounds_ok(s, b2.0, b2.1, pred),
    ensures
        s.subrange(b1.0, b1.1) == s.subrange(b2.0, b2.1),
{
    if b1.0 < b1.1 && b2.0 < b2.1 {
        if b1.0 < b2.0 {
            assert(pred(s[b1.0]));
        }
        if b2.0 < b1.0 {
            assert(pred(s[b2.0]));
        }
        if b1.1 < b2.1 {
            assert(pred(s[b2.1 - 1]));
        }
        if b2.1 < b1.1 {
            assert(pred(s[b1.1 - 1]));
        }
    } else if b1.0 < b1.1 {
        // b2 is empty: every char is either before b2.0 or from b2.1 on
        let k = b1.0;
        if k < b2.0 {
            assert(pred(s[k]));
        } else {
            assert(pred(s[k]));
        }
    } else if b2.0 < b2.1 {
        let k = b2.0;
        if k < b1.0 {
            assert(pred(s[k]));
        } else {
            assert(pred(s[k]));
        }
    }
    assert(s.subrange(b1.0, b1.1) =~= s.subrange(b2.0, b2.1));
}

/// Finds the bounds that trim the characters satisfying the exec predicate `is_ws`.
fn trim_bounds_white(s: &str) -> (res: (usize, usize))
    ensures
        trimmed_bounds_ok(s@, res.0 as int, res.1 as int, |c: char| is_white_space(c)),
{
    let n = s.unicode_len();
    let mut start: usize = 0;
    while start < n && white_space(s.get_char(start))
        invariant
            n == s@.len(),
            start <= n,
            forall|i: int| 0 <= i < start ==> is_white_space(#[trigger] s@[i]),
        decreases n - start,
    {
        start = start + 1;
    }
    let mut end: usize = n;
    while end > start && white_space(s.get_char(end - 1))
        invariant
            n == s@.len(),
            start <= end <= n,
            forall|i: int| end <= i < n ==> is_white_space(#[trigger] s@[i]),
            start < n ==> !is_white_space(s@[start as int]),
        decreases end,
    {
        end = end - 1;
    }
    (start, end)
}

/// `str::trim`: the string without leading and trailing white space.
pub fn trim(s: &str) -> (res: String)
    ensures
        res@ == trim_white_space(s@),
{
    let (start, end) = trim_bounds_white(s);
    proof {
        let b = choose|b: (int, int)|
            trimmed_bounds_ok(s@, b.0, b.1, |c: char| is_white_space(c));
        assert(trimmed_bounds_ok(s@, start as int, end as int, |c: char| is_white_space(c)));
        lemma_trimmed_bounds_unique(s@, b, (start as int, end as int), |c: char| is_white_space(c));
    }
    String::from_str(s.substring_char(start, end))
}

/// The texts of a list of strings, as a set.
pub open spec fn text_set(v: Seq<String>) -> Set<Seq<char>> {
    v.map_values(|s: String| s@).to_set()
}

/// Whether one of the strings of `v` reads `t`.
pub fn texts_contain(v: &Vec<String>, t: &str) -> (res: bool)
    ensures
        res == text_set(v@).contains(t@),
{
    let n = v.len();
    let mut i: usize = 0;
    let ghost texts = v@.map_values(|s: String| s@);
    while i < n
        invariant
            n == v@.len(),
            i <= n,
            texts == v@.map_values(|s: String| s@),
            forall|j: int| 0 <= j < i ==> texts[j] != t@,
        decreases n - i,
    {
        let (_, eq) = compare_text(v[i].as_str(), t);
        if eq {
            proof {
                assert(texts[i as int] == t@);
                assert(texts.contains(t@));
            }
            return true;
        }
        i = i + 1;
    }
    proof {
        if texts.to_set().contains(t@) {
            assert(texts.contains(t@));
            let j = choose|j: int| 0 <= j < texts.len() && texts[j] == t@;
            assert(texts[j] != t@);
        }
    }
    false
}

/// Whether `c` occurs in `s`.
pub fn contains_char(s: &str, c: char) -> (res: bool)
    ensures
        res == s@.contains(c),
{
    let n = s.unicode_len();
    let mut i: usize = 0;
    while i < n
        invariant
            n == s@.len(),
            i <= n,
            forall|j: int| 0 <= j < i ==> s@[j] != c,
        decreases n - i,
    {
        if s.get_char(i) == c {
            return true;
        }
        i = i + 1;
    }
    false
}

} // verus!
