//! Proofs that the text of an address reads back as the same address: what the packet
//! parser writes into an event is what enrichment and the heuristics parse again.
use vstd::prelude::*;

use crate::ip::{
    compressed_groups, dec_octet, digit_value, digits_value, double_colon_at, first_double_colon,
    full_groups, group_list, groups_to_bytes, hex_digit_char, hex_group, hex_groups, hex_text,
    ip_parse, ip_text, ipv4_octets, ipv4_text, ipv6_bytes, ipv6_groups, ipv6_text, is_dec_digit,
    is_hex_digit, is_zero_run, join_groups, lemma_split_on_nonempty, longest_zero_run, segment,
    segments, split_on, v4_as_groups, v4_mapped, IpView,
};
use crate::text::{decimal, digit_char};

verus! {

/// The decimal rendering of a number is a digit string of that value, with no leading
/// zero (but a lone `0`).
proof fn lemma_decimal_digits(n: nat)
    ensures
        decimal(n).len() >= 1,
        forall|i: int| 0 <= i < decimal(n).len() ==> is_dec_digit(#[trigger] decimal(n)[i]),
        digits_value(decimal(n), 10) == n,
        decimal(n).len() > 1 ==> decimal(n)[0] != '0',
        n < 10 ==> decimal(n).len() == 1,
        n < 100 ==> decimal(n).len() <= 2,
        n < 1000 ==> decimal(n).len() <= 3,
        n >= 10 ==> decimal(n).len() >= 2,
        !decimal(n).contains('.'),
    decreases n,
{
    if n >= 10 {
        lemma_decimal_digits(n / 10);
        let d = decimal(n);
        let p = decimal(n / 10);
        assert(d.drop_last() =~= p);
        assert(d.last() == digit_char(n % 10));
        assert(digit_char(n % 10) as int == (n % 10) + 48);
        assert(digit_value(d.last()) == n % 10);
        assert((n / 10) * 10 + n % 10 == n);
        assert(digits_value(d, 10) == digits_value(p, 10) * 10 + digit_value(d.last()));
        if p.len() == 1 {
            assert(n / 10 < 10);
            assert(p[0] == digit_char(n / 10));
            assert(digit_char(n / 10) as int == (n / 10) + 48);
        }
        assert forall|i: int| 0 <= i < d.len() implies is_dec_digit(#[trigger] d[i]) by {
            if i < p.len() {
                assert(d[i] == p[i]);
            }
        }
        assert(d[0] == p[0]);
        if p.len() == 1 {
            assert(n / 10 >= 1);
        }
        if d.contains('.') {
            let i = choose|i: int| 0 <= i < d.len() && d[i] == '.';
            if i < p.len() {
                assert(d[i] == p[i]);
                assert(p.contains('.'));
            }
        }
    } else {
        let d = decimal(n);
        assert(d[0] == digit_char(n));
        assert(digit_char(n) as int == n + 48);
        assert(d.drop_last() =~= Seq::<char>::empty());
        assert(digits_value(d, 10) == digits_value(d.drop_last(), 10) * 10 + digit_value(d.last()));
        if d.contains('.') {
            let i = choose|i: int| 0 <= i < d.len() && d[i] == '.';
            assert(i == 0);
        }
    }
}

/// Appending text without the separator extends the last piece of a split.
proof fn lemma_split_on_extend(s: Seq<char>, t: Seq<char>, sep: char)
    requires
        !t.contains(sep),
    ensures
        split_on(s + t, sep) == split_on(s, sep).update(
            split_on(s, sep).len() - 1,
            split_on(s, sep).last() + t,
        ),
    decreases t.len(),
{
    lemma_split_on_nonempty(s, sep);
    if t.len() == 0 {
        assert(s + t =~= s);
        assert(split_on(s, sep).last() + t =~= split_on(s, sep).last());
        assert(split_on(s, sep).update(split_on(s, sep).len() - 1, split_on(s, sep).last())
            =~= split_on(s, sep));
    } else {
        let t0 = t.drop_last();
        assert(!t0.contains(sep)) by {
            if t0.contains(sep) {
                let i = choose|i: int| 0 <= i < t0.len() && t0[i] == sep;
                assert(t[i] == sep);
            }
        }
        lemma_split_on_extend(s, t0, sep);
        assert((s + t).drop_last() =~= s + t0);
        assert((s + t).last() == t.last());
        assert(t[t.len() - 1] != sep);
        let prev = split_on(s + t0, sep);
        lemma_split_on_nonempty(s + t0, sep);
        assert(prev.last().push(t.last()) =~= split_on(s, sep).last() + t);
        assert(split_on(s + t, sep) =~= split_on(s, sep).update(
            split_on(s, sep).len() - 1,
            split_on(s, sep).last() + t,
        ));
    }
}

/// A dotted quad rendering splits back into its four numbers.
proof fn lemma_split_quad(a: Seq<char>, b: Seq<char>, c: Seq<char>, d: Seq<char>)
    requires
        !a.contains('.'),
        !b.contains('.'),
        !c.contains('.'),
        !d.contains('.'),
    ensures
        split_on(a + seq!['.'] + b + seq!['.'] + c + seq!['.'] + d, '.') == seq![a, b, c, d],
{
    let e = Seq::<char>::empty();
    lemma_split_on_extend(e, a, '.');
    assert(e + a =~= a);
    assert(split_on(e, '.') =~= seq![e]);
    assert(split_on(a, '.') =~= seq![a]);
    let s1 = a + seq!['.'];
    assert(s1.drop_last() =~= a);
    assert(split_on(s1, '.') =~= seq![a, e]);
    lemma_split_on_extend(s1, b, '.');
    assert(split_on(s1 + b, '.') =~= seq![a, b]);
    let s2 = s1 + b + seq!['.'];
    assert(s2.drop_last() =~= s1 + b);
    assert(split_on(s2, '.') =~= seq![a, b, e]);
    lemma_split_on_extend(s2, c, '.');
    assert(split_on(s2 + c, '.') =~= seq![a, b, c]);
    let s3 = s2 + c + seq!['.'];
    assert(s3.drop_last() =~= s2 + c);
    assert(split_on(s3, '.') =~= seq![a, b, c, e]);
    lemma_split_on_extend(s3, d, '.');
    assert(split_on(s3 + d, '.') =~= seq![a, b, c, d]);
}

/// Rendering an IPv4 address as text and parsing the text gives the address back.
proof fn lemma_ipv4_text_round_trip(o: Seq<u8>)
    requires
        o.len() == 4,
    ensures
        ip_parse(ip_text(IpView::V4(o))) == Some(IpView::V4(o)),
{
    lemma_decimal_digits(o[0] as nat);
    lemma_decimal_digits(o[1] as nat);
    lemma_decimal_digits(o[2] as nat);
    lemma_decimal_digits(o[3] as nat);
    lemma_split_quad(decimal(o[0] as nat), decimal(o[1] as nat), decimal(o[2] as nat), decimal(o[3] as nat));
    let items = split_on(ipv4_text(o), '.');
    assert(items[0] == decimal(o[0] as nat));
    assert(items[1] == decimal(o[1] as nat));
    assert(items[2] == decimal(o[2] as nat));
    assert(items[3] == decimal(o[3] as nat));
    assert(dec_octet(items[0]) == Some(o[0]));
    assert(dec_octet(items[1]) == Some(o[1]));
    assert(dec_octet(items[2]) == Some(o[2]));
    assert(dec_octet(items[3]) == Some(o[3]));
    assert(ipv4_octets(ipv4_text(o)) =~= Some(o));
}

/// The hexadecimal rendering of a number is a string of one or more hexadecimal digits
/// of that value; four digits at most for a 16-bit value.
proof fn lemma_hex_text_digits(n: nat)
    ensures
        hex_text(n).len() >= 1,
        forall|i: int| 0 <= i < hex_text(n).len() ==> is_hex_digit(#[trigger] hex_text(n)[i]),
        digits_value(hex_text(n), 16) == n,
        n < 16 ==> hex_text(n).len() == 1,
        n < 256 ==> hex_text(n).len() <= 2,
        n < 4096 ==> hex_text(n).len() <= 3,
        n < 65536 ==> hex_text(n).len() <= 4,
        !hex_text(n).contains(':'),
        !hex_text(n).contains('.'),
    decreases n,
{
    let t = hex_text(n);
    if n >= 16 {
        lemma_hex_text_digits(n / 16);
        let p = hex_text(n / 16);
        assert(t.drop_last() =~= p);
        let d = (n % 16) as nat;
        let c = hex_digit_char(d);
        assert(t.last() == c);
        assert(d < 10 ==> c as int == d + 48);
        assert(d >= 10 ==> c as int == d + 87);
        assert(is_hex_digit(c));
        assert(digit_value(c) == d);
        assert((n / 16) * 16 + n % 16 == n);
        assert(digits_value(t, 16) == digits_value(p, 16) * 16 + digit_value(t.last()));
        assert forall|i: int| 0 <= i < t.len() implies is_hex_digit(#[trigger] t[i]) by {
            if i < p.len() {
                assert(t[i] == p[i]);
            }
        }
        assert(!t.contains(':') && !t.contains('.')) by {
            if t.contains(':') || t.contains('.') {
                let i = choose|i: int| 0 <= i < t.len() && (t[i] == ':' || t[i] == '.');
                if i < p.len() {
                    assert(t[i] == p[i]);
                    assert(p.contains(t[i]));
                }
            }
        }
    } else {
        let c = hex_digit_char(n);
        assert(t[0] == c);
        assert(n < 10 ==> c as int == n + 48);
        assert(n >= 10 ==> c as int == n + 87);
        assert(t.drop_last() =~= Seq::<char>::empty());
        assert(digits_value(t, 16) == digits_value(t.drop_last(), 16) * 16 + digit_value(t.last()));
        assert(!t.contains(':') && !t.contains('.')) by {
            if t.contains(':') || t.contains('.') {
                let i = choose|i: int| 0 <= i < t.len() && (t[i] == ':' || t[i] == '.');
                assert(i == 0);
            }
        }
    }
}

/// The texts of the groups of a list.
spec fn group_texts(gs: Seq<u32>) -> Seq<Seq<char>> {
    gs.map_values(|g: u32| hex_text(g as nat))
}

/// A list of 16-bit values as parsed groups.
spec fn as_groups(gs: Seq<u32>) -> Seq<u16> {
    gs.map_values(|g: u32| g as u16)
}

/// The values of a list fit in 16 bits.
spec fn fits_16(gs: Seq<u32>) -> bool {
    forall|i: int| 0 <= i < gs.len() ==> #[trigger] gs[i] < 65536
}

/// Joined groups split back into the texts of the groups.
proof fn lemma_split_join(gs: Seq<u32>)
    requires
        gs.len() >= 1,
    ensures
        split_on(join_groups(gs), ':') == group_texts(gs),
    decreases gs.len(),
{
    let e = Seq::<char>::empty();
    if gs.len() == 1 {
        let t = hex_text(gs[0] as nat);
        lemma_hex_text_digits(gs[0] as nat);
        lemma_split_on_extend(e, t, ':');
        assert(e + t =~= t);
        assert(split_on(e, ':') =~= seq![e]);
        assert(e + t =~= t);
        assert(split_on(t, ':') =~= group_texts(gs));
    } else {
        let r = gs.drop_last();
        lemma_split_join(r);
        let a = join_groups(r);
        let b = hex_text(gs.last() as nat);
        lemma_hex_text_digits(gs.last() as nat);
        let a1 = a + seq![':'];
        assert(a1.drop_last() =~= a);
        assert(a1.last() == ':');
        lemma_split_on_nonempty(a, ':');
        assert(split_on(a1, ':') == split_on(a, ':').push(e));
        lemma_split_on_extend(a1, b, ':');
        assert(e + b =~= b);
        assert(join_groups(gs) == a1 + b);
        assert(split_on(a1 + b, ':') =~= group_texts(r).push(b));
        assert(group_texts(r).push(b) =~= group_texts(gs));
    }
}

/// The texts of 16-bit groups parse back into the groups.
proof fn lemma_hex_groups_of(gs: Seq<u32>)
    requires
        fits_16(gs),
    ensures
        hex_groups(group_texts(gs)) == Some(as_groups(gs)),
    decreases gs.len(),
{
    if gs.len() == 0 {
        assert(group_texts(gs) =~= Seq::<Seq<char>>::empty());
        assert(as_groups(gs) =~= Seq::<u16>::empty());
    } else {
        let r = gs.drop_last();
        assert(fits_16(r)) by {
            assert forall|i: int| 0 <= i < r.len() implies #[trigger] r[i] < 65536 by {
                assert(r[i] == gs[i]);
            }
        }
        lemma_hex_groups_of(r);
        assert(group_texts(gs).drop_last() =~= group_texts(r));
        let g = gs.last();
        assert(g == gs[gs.len() - 1]);
        lemma_hex_text_digits(g as nat);
        assert(group_texts(gs).last() == hex_text(g as nat));
        assert(hex_group(hex_text(g as nat)) == Some(g as u16));
        assert(as_groups(r).push(g as u16) =~= as_groups(gs));
    }
}

/// Joined 16-bit groups read back as the same groups (with or without an embedded
/// dotted quad allowed).
proof fn lemma_group_list_join(gs: Seq<u32>, allow_v4: bool)
    requires
        fits_16(gs),
    ensures
        group_list(join_groups(gs), allow_v4) == Some(as_groups(gs)),
{
    reveal(group_list);
    if gs.len() == 0 {
        assert(as_groups(gs) =~= Seq::<u16>::empty());
    } else {
        lemma_join_shape(gs);
        lemma_split_join(gs);
        let items = split_on(join_groups(gs), ':');
        let r = gs.drop_last();
        assert(fits_16(r)) by {
            assert forall|i: int| 0 <= i < r.len() implies #[trigger] r[i] < 65536 by {
                assert(r[i] == gs[i]);
            }
        }
        lemma_hex_groups_of(r);
        assert(items.drop_last() =~= group_texts(r));
        let g = gs.last();
        assert(g == gs[gs.len() - 1]);
        lemma_hex_text_digits(g as nat);
        assert(items.last() == hex_text(g as nat));
        assert(as_groups(r).push(g as u16) =~= as_groups(gs));
    }
}

/// Joined groups start and end with a digit and hold no `::`.
proof fn lemma_join_shape(gs: Seq<u32>)
    ensures
        gs.len() >= 1 ==> join_groups(gs).len() >= 1,
        gs.len() >= 1 ==> join_groups(gs)[0] != ':',
        gs.len() >= 1 ==> join_groups(gs).last() != ':',
        forall|p: int| !double_colon_at(join_groups(gs), p),
        !join_groups(gs).contains('.'),
    decreases gs.len(),
{
    let t = join_groups(gs);
    if gs.len() == 0 {
    } else if gs.len() == 1 {
        lemma_hex_text_digits(gs[0] as nat);
        assert forall|p: int| !double_colon_at(t, p) by {
            if double_colon_at(t, p) {
                assert(t.contains(t[p]));
            }
        }
    } else {
        let r = gs.drop_last();
        lemma_join_shape(r);
        let a = join_groups(r);
        let b = hex_text(gs.last() as nat);
        lemma_hex_text_digits(gs.last() as nat);
        assert(t == a + seq![':'] + b);
        assert(t[0] == a[0]);
        assert(t.last() == b.last());
        assert(b.contains(b.last()));
        assert forall|p: int| !double_colon_at(t, p) by {
            if double_colon_at(t, p) {
                if p + 1 < a.len() {
                    assert(t[p] == a[p] && t[p + 1] == a[p + 1]);
                    assert(double_colon_at(a, p));
                } else if p + 1 == a.len() {
                    assert(t[p] == a.last());
                } else if p == a.len() {
                    assert(t[p + 1] == b[0]);
                    assert(b.contains(b[0]));
                } else {
                    assert(t[p] == b[p - a.len() - 1]);
                    assert(b.contains(t[p]));
                }
            }
        }
        assert(!t.contains('.')) by {
            if t.contains('.') {
                let i = choose|i: int| 0 <= i < t.len() && t[i] == '.';
                if i < a.len() {
                    assert(t[i] == a[i]);
                    assert(a.contains('.'));
                } else if i > a.len() {
                    assert(t[i] == b[i - a.len() - 1]);
                    assert(b.contains('.'));
                }
            }
        }
    }
}

/// A text without `::` has no first `::`.
proof fn lemma_first_double_colon_none(t: Seq<char>)
    requires
        forall|p: int| !double_colon_at(t, p),
    ensures
        first_double_colon(t) is None,
{
}

/// The first `::` of `a + "::" + b` is the one after `a`, when `a` holds none and does not
/// end with `:`.
proof fn lemma_first_double_colon_at(a: Seq<char>, b: Seq<char>)
    requires
        forall|p: int| !double_colon_at(a, p),
        a.len() == 0 || a.last() != ':',
    ensures
        first_double_colon(a + seq![':', ':'] + b) == Some(a.len() as int),
{
    let s = a + seq![':', ':'] + b;
    let n = a.len() as int;
    assert(s[n] == ':' && s[n + 1] == ':');
    assert(double_colon_at(s, n));
    assert forall|q: int| 0 <= q < n implies !double_colon_at(s, q) by {
        if q + 1 < n {
            assert(s[q] == a[q] && s[q + 1] == a[q + 1]);
            assert(!double_colon_at(a, q));
        } else {
            assert(s[q] == a.last());
        }
    }
    let c = choose|p: int| double_colon_at(s, p) && forall|q: int| 0 <= q < p ==> !double_colon_at(s, q);
    assert(double_colon_at(s, c) && forall|q: int| 0 <= q < c ==> !double_colon_at(s, q));
    if c < n {
        assert(!double_colon_at(s, c));
    }
    if c > n {
        assert(!double_colon_at(s, n));
    }
}

/// A text without the separator is one piece.
proof fn lemma_split_on_single(s: Seq<char>, sep: char)
    requires
        !s.contains(sep),
    ensures
        split_on(s, sep) == seq![s],
{
    let e = Seq::<char>::empty();
    lemma_split_on_extend(e, s, sep);
    assert(e + s =~= s);
    assert(split_on(e, sep) =~= seq![e]);
}

/// The first piece of a split starts with the first character, when that is not the
/// separator.
proof fn lemma_split_on_first(s: Seq<char>, sep: char)
    requires
        s.len() >= 1,
        s[0] != sep,
    ensures
        split_on(s, sep)[0].len() >= 1,
        split_on(s, sep)[0][0] == s[0],
    decreases s.len(),
{
    lemma_split_on_nonempty(s, sep);
    if s.len() == 1 {
        let e = Seq::<char>::empty();
        assert(s.drop_last() =~= e);
        assert(split_on(e, sep) =~= seq![e]);
    } else {
        let r = s.drop_last();
        assert(r[0] == s[0]);
        lemma_split_on_first(r, sep);
        lemma_split_on_nonempty(r, sep);
        let prev = split_on(r, sep);
        if s.last() != sep && prev.len() == 1 {
            assert(split_on(s, sep)[0] == prev[0].push(s.last()));
        }
    }
}

/// A text that starts with `:` is no dotted quad.
proof fn lemma_not_quad_first(s: Seq<char>)
    requires
        s.len() >= 1,
        s[0] == ':',
    ensures
        ipv4_octets(s) is None,
{
    lemma_split_on_first(s, '.');
    let x = split_on(s, '.')[0];
    assert(!is_dec_digit(x[0]));
}

/// A text without `.` is no dotted quad.
proof fn lemma_not_quad_no_dot(s: Seq<char>)
    requires
        !s.contains('.'),
    ensures
        ipv4_octets(s) is None,
{
    lemma_split_on_single(s, '.');
}

/// The longest zero run found so far, scanning lengths from `l` down.
spec fn max_run_len(g: Seq<u32>, l: int) -> int
    decreases l,
{
    if l <= 0 {
        0
    } else if exists|a: int| is_zero_run(g, a, l) {
        l
    } else {
        max_run_len(g, l - 1)
    }
}

proof fn lemma_max_run_len(g: Seq<u32>, l: int)
    requires
        0 <= l,
    ensures
        0 <= max_run_len(g, l) <= l,
        exists|a: int| is_zero_run(g, a, max_run_len(g, l)),
        forall|a2: int, l2: int| is_zero_run(g, a2, l2) && l2 <= l ==> l2 <= max_run_len(g, l),
    decreases l,
{
    if l == 0 {
        assert(is_zero_run(g, 0, 0));
    } else if exists|a: int| is_zero_run(g, a, l) {
    } else {
        lemma_max_run_len(g, l - 1);
    }
}

/// The first start of a zero run of length `l`, scanning starts from `a` up.
spec fn first_run_start(g: Seq<u32>, l: int, a: int) -> int
    decreases g.len() + 1 - a,
{
    if a > g.len() || is_zero_run(g, a, l) {
        a
    } else {
        first_run_start(g, l, a + 1)
    }
}

proof fn lemma_first_run_start(g: Seq<u32>, l: int, a: int, w: int)
    requires
        0 <= a <= w,
        is_zero_run(g, w, l),
        forall|a2: int| 0 <= a2 < a ==> !is_zero_run(g, a2, l),
    ensures
        is_zero_run(g, first_run_start(g, l, a), l),
        forall|a2: int| 0 <= a2 < first_run_start(g, l, a) ==> !is_zero_run(g, a2, l),
    decreases g.len() + 1 - a,
{
    if !is_zero_run(g, a, l) {
        lemma_first_run_start(g, l, a + 1, w);
    }
}

/// Every list of segments has a first longest run of zeros.
proof fn lemma_longest_zero_run_exists(g: Seq<u32>)
    ensures
        exists|r: (int, int)| longest_zero_run(g, r.0, r.1),
{
    let n = g.len() as int;
    lemma_max_run_len(g, n);
    let l = max_run_len(g, n);
    let w = choose|a: int| is_zero_run(g, a, l);
    lemma_first_run_start(g, l, 0, w);
    let a = first_run_start(g, l, 0);
    assert forall|a2: int, l2: int| is_zero_run(g, a2, l2) implies l2 <= l by {
        assert(l2 <= n);
    }
    assert(longest_zero_run(g, a, l));
    let r = (a, l);
    assert(longest_zero_run(g, r.0, r.1));
}

/// Byte pairs put together as segments come apart again.
proof fn lemma_segment_bytes(hi: u8, lo: u8)
    ensures
        ((hi as int * 256 + lo as int) as u32 as u16) / 256 == hi,
        ((hi as int * 256 + lo as int) as u32 as u16) % 256 == lo,
        ((hi as int * 256 + lo as int) as u16) / 256 == hi,
        ((hi as int * 256 + lo as int) as u16) % 256 == lo,
{
    let x = hi as int * 256 + lo as int;
    assert(0 <= x < 65536);
    vstd::arithmetic::div_mod::lemma_fundamental_div_mod_converse(x, 256, hi as int, lo as int);
    assert(x as u32 as u16 == x);
    assert(x as u16 == x);
}

/// The bytes of the segments of an address are its bytes.
proof fn lemma_segments_bytes(b: Seq<u8>)
    requires
        b.len() == 16,
    ensures
        fits_16(segments(b)),
        groups_to_bytes(as_groups(segments(b))) == b,
{
    let g = as_groups(segments(b));
    assert forall|i: int| 0 <= i < segments(b).len() implies #[trigger] segments(b)[i] < 65536 by {
        assert(segments(b)[i] == segment(b, i) as u32);
    }
    assert forall|i: int| 0 <= i < 16 implies #[trigger] groups_to_bytes(g)[i] == b[i] by {
        let k = i / 2;
        assert(0 <= k < 8);
        lemma_segment_bytes(b[2 * k], b[2 * k + 1]);
        assert(g[k] == segment(b, k) as u32 as u16);
        if i % 2 == 0 {
            assert(i == 2 * k);
        } else {
            assert(i == 2 * k + 1);
        }
    }
    assert(groups_to_bytes(g) =~= b);
}

/// A text `a + "::" + c` without `.` in `a` and `c` has none.
proof fn lemma_no_dot_around(a: Seq<char>, c: Seq<char>)
    requires
        !a.contains('.'),
        !c.contains('.'),
    ensures
        !(a + seq![':', ':'] + c).contains('.'),
{
    let text = a + seq![':', ':'] + c;
    let n = a.len() as int;
    if text.contains('.') {
        let i = choose|i: int| 0 <= i < text.len() && text[i] == '.';
        if i < n {
            assert(text[i] == a[i]);
            assert(a.contains('.'));
        } else if i >= n + 2 {
            assert(text[i] == c[i - n - 2]);
            assert(c.contains('.'));
        }
    }
}

/// The groups of `a + "::" + c` are read around its first `::`, the one after `a`.
proof fn lemma_groups_at(a: Seq<char>, c: Seq<char>)
    requires
        forall|p: int| !double_colon_at(a, p),
        a.len() == 0 || a.last() != ':',
    ensures
        ipv6_groups(a + seq![':', ':'] + c) == compressed_groups(
            a + seq![':', ':'] + c,
            a.len() as int,
        ),
{
    lemma_first_double_colon_at(a, c);
}

/// The parts of `a + "::" + c` around the `::`.
proof fn lemma_parts_at(a: Seq<char>, c: Seq<char>)
    ensures
        (a + seq![':', ':'] + c).subrange(0, a.len() as int) == a,
        (a + seq![':', ':'] + c).subrange(a.len() as int + 2, (a.len() + 2 + c.len()) as int) == c,
{
    let text = a + seq![':', ':'] + c;
    assert(text.subrange(0, a.len() as int) =~= a);
    assert(text.subrange(a.len() as int + 2, (a.len() + 2 + c.len()) as int) =~= c);
}

/// A text with one `::` in place of a run of zero segments reads back as the segments.
#[verifier::rlimit(40)]
proof fn lemma_compressed_join(g: Seq<u32>, z: int, l: int)
    requires
        g.len() == 8,
        fits_16(g),
        is_zero_run(g, z, l),
        l > 1,
    ensures
        ipv6_bytes(
            join_groups(g.subrange(0, z)) + seq![':', ':'] + join_groups(g.subrange(z + l, 8)),
        ) == Some(groups_to_bytes(as_groups(g))),
        ipv4_octets(
            join_groups(g.subrange(0, z)) + seq![':', ':'] + join_groups(g.subrange(z + l, 8)),
        ) is None,
{
    let pre = g.subrange(0, z);
    let suf = g.subrange(z + l, 8);
    lemma_fits_16_subrange(g, 0, z);
    lemma_fits_16_subrange(g, z + l, 8);
    lemma_join_shape(pre);
    lemma_join_shape(suf);
    let a = join_groups(pre);
    let c = join_groups(suf);
    lemma_groups_at(a, c);
    lemma_parts_at(a, c);
    lemma_no_dot_around(a, c);
    let text = a + seq![':', ':'] + c;
    let n = a.len() as int;
    assert(text.len() == a.len() + 2 + c.len());
    lemma_group_list_join(pre, false);
    lemma_group_list_join(suf, true);
    let h = as_groups(pre);
    let t = as_groups(suf);
    assert(group_list(text.subrange(0, n), false) == Some(h));
    assert(group_list(text.subrange(n + 2, text.len() as int), true) == Some(t));
    assert(h.len() + t.len() <= 7);
    let gs = compressed_groups(text, n)->0;
    assert(compressed_groups(text, n) is Some);
    assert(gs.len() == 8);
    assert forall|k: int| 0 <= k < 8 implies #[trigger] gs[k] == as_groups(g)[k] by {
        if k < z {
            assert(gs[k] == h[k]);
            assert(pre[k] == g[k]);
        } else if k < z + l {
            assert(g[k] == 0);
        } else {
            assert(gs[k] == t[k - z - l]);
            assert(suf[k - z - l] == g[k]);
        }
    }
    assert(gs =~= as_groups(g));
    assert(ipv6_groups(text) == Some(as_groups(g)));
    lemma_not_quad_no_dot(text);
}

/// The values of a slice of a list of 16-bit values fit in 16 bits.
proof fn lemma_fits_16_subrange(g: Seq<u32>, i: int, j: int)
    requires
        fits_16(g),
        0 <= i <= j <= g.len(),
    ensures
        fits_16(g.subrange(i, j)),
{
    assert forall|k: int| 0 <= k < j - i implies #[trigger] g.subrange(i, j)[k] < 65536 by {
        assert(g.subrange(i, j)[k] == g[i + k]);
    }
}

/// The compressed text of an address, around a run of zero segments, reads back.
#[verifier::rlimit(30)]
proof fn lemma_plain_compressed(b: Seq<u8>, z: int, l: int)
    requires
        b.len() == 16,
        is_zero_run(segments(b), z, l),
        l > 1,
    ensures
        ipv6_bytes(
            join_groups(segments(b).subrange(0, z)) + seq![':', ':'] + join_groups(
                segments(b).subrange(z + l, 8),
            ),
        ) == Some(b),
        ipv4_octets(
            join_groups(segments(b).subrange(0, z)) + seq![':', ':'] + join_groups(
                segments(b).subrange(z + l, 8),
            ),
        ) is None,
{
    let g = segments(b);
    lemma_segments_bytes(b);
    lemma_compressed_join(g, z, l);
}

/// The uncompressed text of an address reads back.
proof fn lemma_plain_full(b: Seq<u8>)
    requires
        b.len() == 16,
    ensures
        ipv6_bytes(join_groups(segments(b))) == Some(b),
        ipv4_octets(join_groups(segments(b))) is None,
{
    let g = segments(b);
    lemma_segments_bytes(b);
    lemma_join_shape(g);
    lemma_first_double_colon_none(join_groups(g));
    lemma_group_list_join(g, true);
    lemma_not_quad_no_dot(join_groups(g));
}

/// An IPv6 address that is not IPv4-mapped reads back from its text.
proof fn lemma_ipv6_plain_round_trip(b: Seq<u8>)
    requires
        b.len() == 16,
        !v4_mapped(b),
    ensures
        ipv6_bytes(ipv6_text(b)) == Some(b),
        ipv4_octets(ipv6_text(b)) is None,
{
    let g = segments(b);
    lemma_longest_zero_run_exists(g);
    let r = choose|r: (int, int)| longest_zero_run(g, r.0, r.1);
    assert(is_zero_run(g, r.0, r.1));
    if r.1 > 1 {
        lemma_plain_compressed(b, r.0, r.1);
    } else {
        lemma_plain_full(b);
    }
}

/// `ffff` reads as the group `0xffff`.
proof fn lemma_hex_ffff()
    ensures
        hex_groups(seq![seq!['f', 'f', 'f', 'f']]) == Some(seq![0xffffu16]),
{
    let e = Seq::<char>::empty();
    let f1 = seq!['f'];
    let f2 = seq!['f', 'f'];
    let f3 = seq!['f', 'f', 'f'];
    let f4 = seq!['f', 'f', 'f', 'f'];
    assert('f' as int == 102);
    assert(digit_value('f') == 15);
    assert(f1.drop_last() =~= e);
    assert(f2.drop_last() =~= f1);
    assert(f3.drop_last() =~= f2);
    assert(f4.drop_last() =~= f3);
    assert(digits_value(e, 16) == 0);
    assert(digits_value(f1, 16) == digits_value(e, 16) * 16 + digit_value(f1.last()));
    assert(digits_value(f1, 16) == 15);
    assert(digits_value(f2, 16) == digits_value(f1, 16) * 16 + digit_value(f2.last()));
    assert(digits_value(f2, 16) == 255);
    assert(digits_value(f3, 16) == digits_value(f2, 16) * 16 + digit_value(f3.last()));
    assert(digits_value(f3, 16) == 4095);
    assert(digits_value(f4, 16) == digits_value(f3, 16) * 16 + digit_value(f4.last()));
    assert(digits_value(f4, 16) == 65535);
    assert forall|i: int| 0 <= i < f4.len() implies is_hex_digit(#[trigger] f4[i]) by {}
    assert(hex_group(f4) == Some(0xffffu16));
    let items = seq![f4];
    assert(items.drop_last() =~= Seq::<Seq<char>>::empty());
    assert(items.last() == f4);
    assert(hex_groups(items.drop_last()) == Some(Seq::<u16>::empty()));
    assert(seq![0xffffu16] =~= Seq::<u16>::empty().push(0xffffu16));
}

/// The facts of a dotted quad that the `::ffff:` form needs: it parses as its octets,
/// holds no `:`, and is no hexadecimal group.
proof fn lemma_quad_in_mapped(o: Seq<u8>)
    requires
        o.len() == 4,
    ensures
        ipv4_octets(ipv4_text(o)) == Some(o),
        !ipv4_text(o).contains(':'),
        hex_group(ipv4_text(o)) is None,
{
    let q = ipv4_text(o);
    lemma_ipv4_text_round_trip(o);
    lemma_decimal_digits(o[0] as nat);
    lemma_decimal_digits(o[1] as nat);
    lemma_decimal_digits(o[2] as nat);
    lemma_decimal_digits(o[3] as nat);
    let d0 = decimal(o[0] as nat);
    let d1 = decimal(o[1] as nat);
    let d2 = decimal(o[2] as nat);
    let d3 = decimal(o[3] as nat);
    assert(q == d0 + seq!['.'] + d1 + seq!['.'] + d2 + seq!['.'] + d3);
    assert(q[d0.len() as int] == '.');
    assert(!is_hex_digit(q[d0.len() as int]));
    assert(!q.contains(':')) by {
        if q.contains(':') {
            let i = choose|i: int| 0 <= i < q.len() && q[i] == ':';
            let n0 = d0.len() as int;
            let n1 = d1.len() as int;
            let n2 = d2.len() as int;
            if i < n0 {
                assert(q[i] == d0[i]);
            } else if n0 < i < n0 + 1 + n1 {
                assert(q[i] == d1[i - n0 - 1]);
            } else if n0 + 1 + n1 < i < n0 + n1 + 2 + n2 {
                assert(q[i] == d2[i - n0 - n1 - 2]);
            } else if n0 + n1 + 2 + n2 < i {
                assert(q[i] == d3[i - n0 - n1 - n2 - 3]);
            }
        }
    }
}

/// The part after `::` of the `::ffff:` form reads as `0xffff` and the two groups of the
/// dotted quad.
proof fn lemma_mapped_tail(o: Seq<u8>)
    requires
        o.len() == 4,
    ensures
        group_list(seq!['f', 'f', 'f', 'f'] + seq![':'] + ipv4_text(o), true) == Some(
            seq![0xffffu16] + v4_as_groups(o),
        ),
{
    let q = ipv4_text(o);
    lemma_quad_in_mapped(o);
    let ffff = seq!['f', 'f', 'f', 'f'];
    let e = Seq::<char>::empty();
    let tail = ffff + seq![':'] + q;
    assert(!ffff.contains(':')) by {
        if ffff.contains(':') {
            let i = choose|i: int| 0 <= i < ffff.len() && ffff[i] == ':';
        }
    }
    lemma_split_on_single(ffff, ':');
    let t1 = ffff + seq![':'];
    assert(t1.drop_last() =~= ffff);
    assert(split_on(t1, ':') == seq![ffff].push(e));
    lemma_split_on_extend(t1, q, ':');
    assert(e + q =~= q);
    assert(split_on(tail, ':') =~= seq![ffff, q]);
    lemma_hex_ffff();
    reveal(group_list);
    let items = split_on(tail, ':');
    assert(items.drop_last() =~= seq![ffff]);
    assert(items.last() == q);
}

/// An IPv4-mapped IPv6 address reads back from its text `::ffff:a.b.c.d`.
#[verifier::rlimit(40)]
proof fn lemma_ipv6_mapped_round_trip(b: Seq<u8>)
    requires
        b.len() == 16,
        v4_mapped(b),
    ensures
        ipv6_bytes(ipv6_text(b)) == Some(b),
        ipv4_octets(ipv6_text(b)) is None,
{
    reveal_strlit("::ffff:");
    let o = b.subrange(12, 16);
    let q = ipv4_text(o);
    let text = ipv6_text(b);
    assert(text == "::ffff:"@ + q);
    lemma_not_quad_first(text);
    let tail = seq!['f', 'f', 'f', 'f'] + seq![':'] + q;
    let e = Seq::<char>::empty();
    assert(text =~= e + seq![':', ':'] + tail);
    assert(forall|p: int| !double_colon_at(e, p));
    lemma_groups_at(e, tail);
    lemma_parts_at(e, tail);
    lemma_mapped_tail(o);
    reveal(group_list);
    assert(group_list(e, false) == Some(Seq::<u16>::empty()));
    let t = seq![0xffffu16] + v4_as_groups(o);
    let groups = Seq::<u16>::empty() + Seq::new(5, |i: int| 0u16) + t;
    assert(compressed_groups(text, 0) == Some(groups));
    lemma_segment_bytes(o[0], o[1]);
    lemma_segment_bytes(o[2], o[3]);
    assert forall|i: int| 0 <= i < 16 implies #[trigger] groups_to_bytes(groups)[i] == b[i] by {
        let k = i / 2;
        if i < 10 {
            assert(groups[k] == 0);
        } else if i < 12 {
            assert(groups[k] == 0xffffu16);
        } else if i < 14 {
            assert(groups[k] == v4_as_groups(o)[0]);
            assert(o[0] == b[12] && o[1] == b[13]);
        } else {
            assert(groups[k] == v4_as_groups(o)[1]);
            assert(o[2] == b[14] && o[3] == b[15]);
        }
    }
    assert(groups_to_bytes(groups) =~= b);
}

/// Rendering an address as text and parsing the text gives the address back: the
/// addresses written into packet events read back as the same addresses.
pub proof fn lemma_ip_text_round_trip(ip: IpView)
    requires
        match ip {
            IpView::V4(o) => o.len() == 4,
            IpView::V6(b) => b.len() == 16,
        },
    ensures
        ip_parse(ip_text(ip)) == Some(ip),
{
    match ip {
        IpView::V4(o) => lemma_ipv4_text_round_trip(o),
        IpView::V6(b) => {
            if v4_mapped(b) {
                lemma_ipv6_mapped_round_trip(b);
            } else {
                lemma_ipv6_plain_round_trip(b);
            }
        },
    }
}

} // verus!
