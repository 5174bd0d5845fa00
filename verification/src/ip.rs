//! IP addresses: textual forms (parsing and rendering, as `std::net` defines them) and
//! the address-range tests the heuristics use.
use vstd::prelude::*;

use crate::text::{decimal, push_char, push_decimal, trimmed_bounds_ok};

verus! {

/// An IPv4 or IPv6 address, as its bytes in network order.
#[derive(Debug, Clone, Copy)]
pub enum IpAddress {
    V4([u8; 4]),
    V6([u8; 16]),
}

/// The mathematical value of an [`IpAddress`].
pub enum IpView {
    V4(Seq<u8>),
    V6(Seq<u8>),
}

impl View for IpAddress {
    type V = IpView;

    open spec fn view(&self) -> IpView {
        match self {
            IpAddress::V4(a) => IpView::V4(a@),
            IpAddress::V6(a) => IpView::V6(a@),
        }
    }
}

// ---------------------------------------------------------------------------------------
// Character classes and digit strings

/// An ASCII decimal digit.
pub open spec fn is_dec_digit(c: char) -> bool {
    '0' <= c && c <= '9'
}

/// An ASCII hexadecimal digit (either case).
pub open spec fn is_hex_digit(c: char) -> bool {
    is_dec_digit(c) || ('a' <= c && c <= 'f') || ('A' <= c && c <= 'F')
}

/// The value of a hexadecimal (or decimal) digit.
pub open spec fn digit_value(c: char) -> int {
    if is_dec_digit(c) {
        c as int - 48
    } else if 'a' <= c && c <= 'f' {
        c as int - 87
    } else {
        c as int - 55
    }
}

/// The value of a digit string in base `base`.
pub open spec fn digits_value(x: Seq<char>, base: int) -> int
    decreases x.len(),
{
    if x.len() == 0 {
        0
    } else {
        digits_value(x.drop_last(), base) * base + digit_value(x.last())
    }
}

/// A decimal octet of a dotted quad: one to three digits, no leading zero
/// (but a lone `0`), at most 255.
pub open spec fn dec_octet(x: Seq<char>) -> Option<u8> {
    if 1 <= x.len() <= 3 && (forall|i: int| 0 <= i < x.len() ==> is_dec_digit(#[trigger] x[i]))
        && !(x.len() > 1 && x[0] == '0') && digits_value(x, 10) <= 255 {
        Some(digits_value(x, 10) as u8)
    } else {
        None
    }
}

/// A group of an IPv6 text: one to four hexadecimal digits.
pub open spec fn hex_group(x: Seq<char>) -> Option<u16> {
    if 1 <= x.len() <= 4 && (forall|i: int| 0 <= i < x.len() ==> is_hex_digit(#[trigger] x[i])) {
        Some(digits_value(x, 16) as u16)
    } else {
        None
    }
}

/// `s` cut at every `sep` (an empty text gives one empty piece).
pub open spec fn split_on(s: Seq<char>, sep: char) -> Seq<Seq<char>>
    decreases s.len(),
{
    if s.len() == 0 {
        seq![Seq::<char>::empty()]
    } else {
        let prev = split_on(s.drop_last(), sep);
        if s.last() == sep {
            prev.push(Seq::<char>::empty())
        } else {
            prev.update(prev.len() - 1, prev.last().push(s.last()))
        }
    }
}

pub proof fn lemma_split_on_nonempty(s: Seq<char>, sep: char)
    ensures
        split_on(s, sep).len() >= 1,
    decreases s.len(),
{
    if s.len() > 0 {
        lemma_split_on_nonempty(s.drop_last(), sep);
    }
}

/// The four octets of a dotted-quad text (`Ipv4Addr::from_str`).
pub open spec fn ipv4_octets(s: Seq<char>) -> Option<Seq<u8>> {
    let items = split_on(s, '.');
    if items.len() == 4 && dec_octet(items[0]) is Some && dec_octet(items[1]) is Some && dec_octet(
        items[2],
    ) is Some && dec_octet(items[3]) is Some {
        Some(
            seq![
                dec_octet(items[0])->0,
                dec_octet(items[1])->0,
                dec_octet(items[2])->0,
                dec_octet(items[3])->0,
            ],
        )
    } else {
        None
    }
}

// ---------------------------------------------------------------------------------------
// Executable character handling

/// The characters of a text.
pub fn chars_of(s: &str) -> (res: Vec<char>)
    ensures
        res@ == s@,
{
    let n = s.unicode_len();
    let mut v: Vec<char> = Vec::new();
    let mut i: usize = 0;
    while i < n
        invariant
            n == s@.len(),
            i <= n,
            v@ == s@.take(i as int),
        decreases n - i,
    {
        let c = s.get_char(i);
        v.push(c);
        assert(s@.take(i + 1) =~= s@.take(i as int).push(c));
        i = i + 1;
    }
    assert(s@.take(n as int) =~= s@);
    v
}

fn dec_digit(c: char) -> (res: bool)
    ensures
        res == is_dec_digit(c),
{
    '0' <= c && c <= '9'
}

fn hex_digit(c: char) -> (res: bool)
    ensures
        res == is_hex_digit(c),
{
    ('0' <= c && c <= '9') || ('a' <= c && c <= 'f') || ('A' <= c && c <= 'F')
}

fn hex_digit_value(c: char) -> (res: u32)
    requires
        is_hex_digit(c),
    ensures
        res == digit_value(c),
        res < 16,
{
    let v = c as u32;
    if '0' <= c && c <= '9' {
        v - 48
    } else if 'a' <= c && c <= 'f' {
        v - 87
    } else {
        v - 55
    }
}

proof fn lemma_digits_value_bound(x: Seq<char>, base: int)
    requires
        base == 10 || base == 16,
        forall|i: int| 0 <= i < x.len() ==> (if base == 10 { is_dec_digit(#[trigger] x[i]) } else { is_hex_digit(x[i]) }),
    ensures
        0 <= digits_value(x, base),
        x.len() <= 4 ==> digits_value(x, base) < if base == 10 { 10000int } else { 65536int },
        x.len() <= 3 ==> digits_value(x, base) < if base == 10 { 1000int } else { 4096int },
        x.len() <= 2 ==> digits_value(x, base) < if base == 10 { 100int } else { 256int },
        x.len() <= 1 ==> digits_value(x, base) < base,
    decreases x.len(),
{
    if x.len() > 0 {
        assert forall|i: int| 0 <= i < x.drop_last().len() implies (if base == 10 { is_dec_digit(#[trigger] x.drop_last()[i]) } else { is_hex_digit(x.drop_last()[i]) }) by {
            assert(x.drop_last()[i] == x[i]);
        }
        lemma_digits_value_bound(x.drop_last(), base);
        let c = x.last();
        assert(if base == 10 { is_dec_digit(c) } else { is_hex_digit(c) });
    }
}

/// The value of a digit string of at most four digits.
fn digits_to_value(x: &Vec<char>, base: u32) -> (res: u32)
    requires
        base == 10 || base == 16,
        x@.len() <= 4,
        forall|i: int| 0 <= i < x@.len() ==> (if base == 10 { is_dec_digit(#[trigger] x@[i]) } else { is_hex_digit(x@[i]) }),
    ensures
        res == digits_value(x@, base as int),
{
    let mut v: u32 = 0;
    let mut i: usize = 0;
    while i < x.len()
        invariant
            base == 10 || base == 16,
            x@.len() <= 4,
            i <= x@.len(),
            forall|k: int| 0 <= k < x@.len() ==> (if base == 10 { is_dec_digit(#[trigger] x@[k]) } else { is_hex_digit(x@[k]) }),
            v == digits_value(x@.take(i as int), base as int),
        decreases x@.len() - i,
    {
        proof {
            assert(x@.take(i + 1).drop_last() =~= x@.take(i as int));
            assert forall|k: int| 0 <= k < x@.take(i + 1).len() implies (if base == 10 { is_dec_digit(#[trigger] x@.take(i + 1)[k]) } else { is_hex_digit(x@.take(i + 1)[k]) }) by {
                assert(x@.take(i + 1)[k] == x@[k]);
            }
            lemma_digits_value_bound(x@.take(i + 1), base as int);
            assert(x@[i as int] == x@.take(i + 1).last());
        }
        let d = hex_digit_value(x[i]);
        v = v * base + d;
        i = i + 1;
    }
    assert(x@.take(x@.len() as int) =~= x@);
    v
}

/// Parses a decimal octet.
fn parse_dec_octet(x: &Vec<char>) -> (res: Option<u8>)
    ensures
        res == dec_octet(x@),
{
    let n = x.len();
    if n < 1 || n > 3 {
        return None;
    }
    let mut i: usize = 0;
    while i < n
        invariant
            n == x@.len(),
            i <= n,
            forall|k: int| 0 <= k < i ==> is_dec_digit(#[trigger] x@[k]),
        decreases n - i,
    {
        if !dec_digit(x[i]) {
            return None;
        }
        i = i + 1;
    }
    if n > 1 && x[0] == '0' {
        return None;
    }
    let v = digits_to_value(x, 10);
    if v > 255 {
        None
    } else {
        Some(v as u8)
    }
}

/// Parses a group of an IPv6 text.
fn parse_hex_group(x: &Vec<char>) -> (res: Option<u16>)
    ensures
        res == hex_group(x@),
{
    let n = x.len();
    if n < 1 || n > 4 {
        return None;
    }
    let mut i: usize = 0;
    while i < n
        invariant
            n == x@.len(),
            i <= n,
            forall|k: int| 0 <= k < i ==> is_hex_digit(#[trigger] x@[k]),
        decreases n - i,
    {
        if !hex_digit(x[i]) {
            return None;
        }
        i = i + 1;
    }
    proof {
        lemma_digits_value_bound(x@, 16);
    }
    let v = digits_to_value(x, 16);
    Some(v as u16)
}

/// The pieces of `s` between the occurrences of `sep`.
pub open spec fn views_of(v: Seq<Vec<char>>) -> Seq<Seq<char>> {
    v.map_values(|p: Vec<char>| p@)
}

/// Cuts `s` at every `sep`.
fn split_chars(s: &Vec<char>, sep: char) -> (res: Vec<Vec<char>>)
    ensures
        views_of(res@) == split_on(s@, sep),
{
    let mut items: Vec<Vec<char>> = Vec::new();
    items.push(Vec::new());
    let n = s.len();
    let mut i: usize = 0;
    proof {
        assert(views_of(items@) =~= split_on(s@.take(0), sep));
    }
    while i < n
        invariant
            n == s@.len(),
            i <= n,
            items@.len() >= 1,
            views_of(items@) == split_on(s@.take(i as int), sep),
        decreases n - i,
    {
        let c = s[i];
        let ghost before = items@;
        proof {
            assert(s@.take(i + 1).drop_last() =~= s@.take(i as int));
            assert(s@.take(i + 1).last() == c);
        }
        if c == sep {
            items.push(Vec::new());
            proof {
                assert(views_of(items@) =~= views_of(before).push(Seq::<char>::empty()));
            }
        } else {
            let mut last = items.pop().unwrap();
            last.push(c);
            items.push(last);
            proof {
                assert(views_of(items@) =~= views_of(before).update(
                    before.len() - 1,
                    views_of(before).last().push(c),
                ));
            }
        }
        i = i + 1;
    }
    assert(s@.take(n as int) =~= s@);
    items
}

/// The four octets of a dotted-quad text, as `Ipv4Addr::from_str` reads them.
fn parse_ipv4_chars(s: &Vec<char>) -> (res: Option<[u8; 4]>)
    ensures
        match res {
            Some(a) => ipv4_octets(s@) == Some(a@),
            None => ipv4_octets(s@) is None,
        },
{
    let items = split_chars(s, '.');
    if items.len() != 4 {
        return None;
    }
    proof {
        assert(views_of(items@)[0] == items@[0]@);
        assert(views_of(items@)[1] == items@[1]@);
        assert(views_of(items@)[2] == items@[2]@);
        assert(views_of(items@)[3] == items@[3]@);
    }
    let o0 = match parse_dec_octet(&items[0]) {
        Some(v) => v,
        None => return None,
    };
    let o1 = match parse_dec_octet(&items[1]) {
        Some(v) => v,
        None => return None,
    };
    let o2 = match parse_dec_octet(&items[2]) {
        Some(v) => v,
        None => return None,
    };
    let o3 = match parse_dec_octet(&items[3]) {
        Some(v) => v,
        None => return None,
    };
    let a = [o0, o1, o2, o3];
    assert(a@ =~= seq![o0, o1, o2, o3]);
    Some(a)
}

/// The dotted-decimal text of four octets.
pub open spec fn ipv4_text(o: Seq<u8>) -> Seq<char> {
    decimal(o[0] as nat) + seq!['.'] + decimal(o[1] as nat) + seq!['.'] + decimal(o[2] as nat)
        + seq!['.'] + decimal(o[3] as nat)
}

fn push_ipv4_text(s: &mut String, o: &[u8; 4])
    ensures
        final(s)@ == old(s)@ + ipv4_text(o@),
{
    push_decimal(s, o[0] as u64);
    push_char(s, '.');
    push_decimal(s, o[1] as u64);
    push_char(s, '.');
    push_decimal(s, o[2] as u64);
    push_char(s, '.');
    push_decimal(s, o[3] as u64);
    assert(s@ =~= old(s)@ + ipv4_text(o@));
}

// ---------------------------------------------------------------------------------------
// Address ranges

/// 127.0.0.0/8 (`Ipv4Addr::is_loopback`).
pub open spec fn v4_is_loopback(o: Seq<u8>) -> bool {
    o[0] == 127
}

/// 10.0.0.0/8, 172.16.0.0/12, 192.168.0.0/16 (`Ipv4Addr::is_private`).
pub open spec fn v4_is_private(o: Seq<u8>) -> bool {
    o[0] == 10 || (o[0] == 172 && 16 <= o[1] <= 31) || (o[0] == 192 && o[1] == 168)
}

/// 169.254.0.0/16 (`Ipv4Addr::is_link_local`).
pub open spec fn v4_is_link_local(o: Seq<u8>) -> bool {
    o[0] == 169 && o[1] == 254
}

/// 255.255.255.255 (`Ipv4Addr::is_broadcast`).
pub open spec fn v4_is_broadcast(o: Seq<u8>) -> bool {
    o[0] == 255 && o[1] == 255 && o[2] == 255 && o[3] == 255
}

/// 224.0.0.0/4 (`Ipv4Addr::is_multicast`).
pub open spec fn v4_is_multicast(o: Seq<u8>) -> bool {
    224 <= o[0] <= 239
}

/// 0.0.0.0 (`Ipv4Addr::is_unspecified`).
pub open spec fn v4_is_unspecified(o: Seq<u8>) -> bool {
    o[0] == 0 && o[1] == 0 && o[2] == 0 && o[3] == 0
}

/// Segment `k` (0 = most significant) of an IPv6 address.
pub open spec fn segment(b: Seq<u8>, k: int) -> int {
    b[2 * k] as int * 256 + b[2 * k + 1] as int
}

/// ::1 (`Ipv6Addr::is_loopback`).
pub open spec fn v6_is_loopback(b: Seq<u8>) -> bool {
    (forall|i: int| 0 <= i < 15 ==> b[i] == 0) && b[15] == 1
}

/// :: (`Ipv6Addr::is_unspecified`).
pub open spec fn v6_is_unspecified(b: Seq<u8>) -> bool {
    forall|i: int| 0 <= i < 16 ==> b[i] == 0
}

/// ff00::/8 (`Ipv6Addr::is_multicast`).
pub open spec fn v6_is_multicast(b: Seq<u8>) -> bool {
    b[0] == 0xff
}

/// fc00::/7 (`Ipv6Addr::is_unique_local`).
pub open spec fn v6_is_unique_local(b: Seq<u8>) -> bool {
    b[0] == 0xfc || b[0] == 0xfd
}

/// fe80::/10 (`Ipv6Addr::is_unicast_link_local`).
pub open spec fn v6_is_unicast_link_local(b: Seq<u8>) -> bool {
    b[0] == 0xfe && 0x80 <= b[1] <= 0xbf
}

fn v6_all_zero_before(b: &[u8; 16], n: usize) -> (res: bool)
    requires
        n <= 16,
    ensures
        res == (forall|i: int| 0 <= i < n ==> b@[i] == 0),
{
    let mut i: usize = 0;
    while i < n
        invariant
            n <= 16,
            i <= n,
            forall|k: int| 0 <= k < i ==> b@[k] == 0,
        decreases n - i,
    {
        if b[i] != 0 {
            return false;
        }
        i = i + 1;
    }
    true
}

/// Addresses that enrichment never looks up: IPv4 loopback, private, link-local,
/// broadcast, multicast or unspecified; IPv6 loopback, unspecified, multicast,
/// link-local (fe80::/10) or unique-local (fc00::/7).
pub open spec fn private_or_loopback(ip: IpView) -> bool {
    match ip {
        IpView::V4(o) => v4_is_loopback(o) || v4_is_private(o) || v4_is_link_local(o)
            || v4_is_broadcast(o) || v4_is_multicast(o) || v4_is_unspecified(o),
        IpView::V6(b) => v6_is_loopback(b) || v6_is_unspecified(b) || v6_is_multicast(b)
            || v6_is_unicast_link_local(b) || v6_is_unique_local(b),
    }
}

/// Whether an address is in one of the local or special ranges enrichment skips.
pub fn is_private_or_loopback(ip: &IpAddress) -> (res: bool)
    ensures
        res == private_or_loopback(ip@),
{
    match ip {
        IpAddress::V4(o) => {
            let (a, b, c, d) = (o[0], o[1], o[2], o[3]);
            a == 127 || a == 10 || (a == 172 && 16 <= b && b <= 31) || (a == 192 && b == 168) || (a
                == 169 && b == 254) || (a == 255 && b == 255 && c == 255 && d == 255) || (224 <= a
                && a <= 239) || (a == 0 && b == 0 && c == 0 && d == 0)
        },
        IpAddress::V6(b) => {
            let zeros15 = v6_all_zero_before(b, 15);
            (zeros15 && b[15] == 1) || (zeros15 && b[15] == 0) || b[0] == 0xff || (b[0] == 0xfe
                && 0x80 <= b[1] && b[1] <= 0xbf) || b[0] == 0xfc || b[0] == 0xfd
        },
    }
}

fn same_bytes16(a: &[u8; 16], b: &[u8; 16]) -> (res: bool)
    ensures
        res == (a@ == b@),
{
    let mut i: usize = 0;
    while i < 16
        invariant
            i <= 16,
            forall|k: int| 0 <= k < i ==> a@[k] == b@[k],
        decreases 16 - i,
    {
        if a[i] != b[i] {
            assert(a@[i as int] != b@[i as int]);
            return false;
        }
        i = i + 1;
    }
    assert(a@ =~= b@);
    true
}

/// Two addresses are the same.
pub fn same_ip(x: &IpAddress, y: &IpAddress) -> (res: bool)
    ensures
        res == (x@ == y@),
{
    match (x, y) {
        (IpAddress::V4(a), IpAddress::V4(b)) => {
            let r = a[0] == b[0] && a[1] == b[1] && a[2] == b[2] && a[3] == b[3];
            proof {
                if r {
                    assert(a@ =~= b@);
                }
            }
            r
        },
        (IpAddress::V6(a), IpAddress::V6(b)) => same_bytes16(a, b),
        _ => false,
    }
}

// ---------------------------------------------------------------------------------------
// IPv6 text

/// The values of a list of hexadecimal groups, if every piece is one.
pub open spec fn hex_groups(items: Seq<Seq<char>>) -> Option<Seq<u16>>
    decreases items.len(),
{
    if items.len() == 0 {
        Some(Seq::<u16>::empty())
    } else {
        match hex_groups(items.drop_last()) {
            Some(gs) => match hex_group(items.last()) {
                Some(g) => Some(gs.push(g)),
                None => None,
            },
            None => None,
        }
    }
}

/// The two groups that an embedded dotted quad stands for.
pub open spec fn v4_as_groups(o: Seq<u8>) -> Seq<u16> {
    seq![(o[0] as int * 256 + o[1] as int) as u16, (o[2] as int * 256 + o[3] as int) as u16]
}

/// A `:`-separated list of hexadecimal groups (an empty text is an empty list); where
/// `allow_v4`, the last piece may instead be a dotted quad, standing for two groups.
#[verifier::opaque]
pub open spec fn group_list(x: Seq<char>, allow_v4: bool) -> Option<Seq<u16>> {
    if x.len() == 0 {
        Some(Seq::<u16>::empty())
    } else {
        let items = split_on(x, ':');
        match hex_groups(items.drop_last()) {
            None => None,
            Some(gs) => match hex_group(items.last()) {
                Some(g) => Some(gs.push(g)),
                None => if allow_v4 {
                    match ipv4_octets(items.last()) {
                        Some(o) => Some(gs + v4_as_groups(o)),
                        None => None,
                    }
                } else {
                    None
                },
            },
        }
    }
}

/// `::` starts at index `p` of `s`.
pub open spec fn double_colon_at(s: Seq<char>, p: int) -> bool {
    0 <= p && p + 1 < s.len() && s[p] == ':' && s[p + 1] == ':'
}

/// The index of the first `::` in `s`.
pub open spec fn first_double_colon(s: Seq<char>) -> Option<int> {
    if exists|p: int| double_colon_at(s, p) {
        Some(
            choose|p: int|
                double_colon_at(s, p) && forall|q: int| 0 <= q < p ==> !double_colon_at(s, q),
        )
    } else {
        None
    }
}

/// The eight groups of an IPv6 text, as `Ipv6Addr::from_str` reads them: either eight
/// groups (the last two may be a dotted quad), or groups before and after a `::` (a dotted
/// quad only at the very end) that together number at most seven, the `::` standing for
/// the missing zero groups.
pub open spec fn ipv6_groups(s: Seq<char>) -> Option<Seq<u16>> {
    match first_double_colon(s) {
        Some(p) => compressed_groups(s, p),
        None => full_groups(s),
    }
}

/// The groups of an IPv6 text whose first `::` is at `p`.
pub open spec fn compressed_groups(s: Seq<char>, p: int) -> Option<Seq<u16>> {
    match (
        group_list(s.subrange(0, p), false),
        group_list(s.subrange(p + 2, s.len() as int), true),
    ) {
        (Some(h), Some(t)) => if h.len() + t.len() <= 7 {
            Some(h + Seq::new((8 - h.len() - t.len()) as nat, |i: int| 0u16) + t)
        } else {
            None
        },
        _ => None,
    }
}

/// The groups of an IPv6 text without `::`.
pub open spec fn full_groups(s: Seq<char>) -> Option<Seq<u16>> {
    match group_list(s, true) {
        Some(g) => if g.len() == 8 {
            Some(g)
        } else {
            None
        },
        None => None,
    }
}

/// The sixteen bytes of eight groups.
pub open spec fn groups_to_bytes(g: Seq<u16>) -> Seq<u8> {
    Seq::new(16, |i: int| if i % 2 == 0 { (g[i / 2] / 256) as u8 } else { (g[i / 2] % 256) as u8 })
}

/// The bytes of an IPv6 text (`Ipv6Addr::from_str`).
pub open spec fn ipv6_bytes(s: Seq<char>) -> Option<Seq<u8>> {
    match ipv6_groups(s) {
        Some(g) => Some(groups_to_bytes(g)),
        None => None,
    }
}

/// An address text, read as `IpAddr::from_str` reads it: a dotted quad, else IPv6.
pub open spec fn ip_parse(s: Seq<char>) -> Option<IpView> {
    match ipv4_octets(s) {
        Some(o) => Some(IpView::V4(o)),
        None => match ipv6_bytes(s) {
            Some(b) => Some(IpView::V6(b)),
            None => None,
        },
    }
}

fn sub_chars(s: &Vec<char>, a: usize, b: usize) -> (res: Vec<char>)
    requires
        a <= b <= s@.len(),
    ensures
        res@ == s@.subrange(a as int, b as int),
{
    let mut v: Vec<char> = Vec::new();
    let mut i = a;
    while i < b
        invariant
            a <= i <= b <= s@.len(),
            v@ == s@.subrange(a as int, i as int),
        decreases b - i,
    {
        v.push(s[i]);
        assert(s@.subrange(a as int, i + 1) =~= s@.subrange(a as int, i as int).push(s@[i as int]));
        i = i + 1;
    }
    v
}

fn parse_group_list(x: &Vec<char>, allow_v4: bool) -> (res: Option<Vec<u16>>)
    ensures
        match res {
            Some(g) => group_list(x@, allow_v4) == Some(g@),
            None => group_list(x@, allow_v4) is None,
        },
{
    reveal(group_list);
    if x.len() == 0 {
        return Some(Vec::new());
    }
    let items = split_chars(x, ':');
    proof {
        lemma_split_on_nonempty(x@, ':');
    }
    let ghost iv = views_of(items@);
    let n = items.len() - 1;
    let mut gs: Vec<u16> = Vec::new();
    let mut i: usize = 0;
    while i < n
        invariant
            n + 1 == items@.len(),
            iv == views_of(items@),
            iv == split_on(x@, ':'),
            x@.len() > 0,
            i <= n,
            hex_groups(iv.take(i as int)) == Some(gs@),
        decreases n - i,
    {
        proof {
            assert(iv.take(i + 1).drop_last() =~= iv.take(i as int));
            assert(iv.take(i + 1).last() == items@[i as int]@);
        }
        match parse_hex_group(&items[i]) {
            Some(g) => gs.push(g),
            None => {
                proof {
                    reveal(group_list);
                    lemma_hex_groups_prefix_none(iv.drop_last(), i as int + 1);
                    assert(iv.drop_last().take(i + 1) =~= iv.take(i + 1));
                }
                return None;
            },
        }
        i = i + 1;
    }
    proof {
        assert(iv.take(n as int) =~= iv.drop_last());
        assert(iv.last() == items@[n as int]@);
    }
    match parse_hex_group(&items[n]) {
        Some(g) => {
            gs.push(g);
            Some(gs)
        },
        None => {
            if allow_v4 {
                match parse_ipv4_chars(&items[n]) {
                    Some(o) => {
                        let hi: u16 = (o[0] as u16) * 256 + (o[1] as u16);
                        let lo: u16 = (o[2] as u16) * 256 + (o[3] as u16);
                        let ghost before = gs@;
                        gs.push(hi);
                        gs.push(lo);
                        assert(gs@ =~= before + v4_as_groups(o@));
                        Some(gs)
                    },
                    None => None,
                }
            } else {
                None
            }
        },
    }
}

proof fn lemma_hex_groups_prefix_none(items: Seq<Seq<char>>, k: int)
    requires
        0 <= k <= items.len(),
        hex_groups(items.take(k)) is None,
    ensures
        hex_groups(items) is None,
    decreases items.len() - k,
{
    if k < items.len() {
        assert(items.take(k + 1).drop_last() =~= items.take(k));
        lemma_hex_groups_prefix_none(items, k + 1);
    } else {
        assert(items.take(k) =~= items);
    }
}

fn find_double_colon(s: &Vec<char>) -> (res: Option<usize>)
    ensures
        match res {
            Some(p) => first_double_colon(s@) == Some(p as int) && p + 1 < s@.len(),
            None => first_double_colon(s@) is None,
        },
{
    let n = s.len();
    let mut i: usize = 0;
    while n > 0 && i < n - 1
        invariant
            n == s@.len(),
            forall|q: int| 0 <= q < i ==> !double_colon_at(s@, q),
        decreases n - i,
    {
        if s[i] == ':' && s[i + 1] == ':' {
            proof {
                assert(double_colon_at(s@, i as int));
                let c = choose|p: int|
                    double_colon_at(s@, p) && forall|q: int| 0 <= q < p ==> !double_colon_at(s@, q);
                if c < i {
                } else if c > i {
                    assert(!double_colon_at(s@, i as int));
                }
            }
            return Some(i);
        }
        i = i + 1;
    }
    proof {
        if exists|p: int| double_colon_at(s@, p) {
            let p = choose|p: int| double_colon_at(s@, p);
            assert(p < i);
        }
    }
    None
}

fn groups_to_array(g: &Vec<u16>) -> (res: [u8; 16])
    requires
        g@.len() == 8,
    ensures
        res@ == groups_to_bytes(g@),
{
    let res = [
        (g[0] / 256) as u8,
        (g[0] % 256) as u8,
        (g[1] / 256) as u8,
        (g[1] % 256) as u8,
        (g[2] / 256) as u8,
        (g[2] % 256) as u8,
        (g[3] / 256) as u8,
        (g[3] % 256) as u8,
        (g[4] / 256) as u8,
        (g[4] % 256) as u8,
        (g[5] / 256) as u8,
        (g[5] % 256) as u8,
        (g[6] / 256) as u8,
        (g[6] % 256) as u8,
        (g[7] / 256) as u8,
        (g[7] % 256) as u8,
    ];
    assert(res@ =~= groups_to_bytes(g@));
    res
}

fn fill_groups(h: &Vec<u16>, t: &Vec<u16>) -> (g: Vec<u16>)
    requires
        h@.len() + t@.len() <= 7,
    ensures
        g@ == h@ + Seq::new((8 - h@.len() - t@.len()) as nat, |i: int| 0u16) + t@,
        g@.len() == 8,
{
    let zeros = 8 - h.len() - t.len();
    let mut g: Vec<u16> = Vec::new();
    let mut i: usize = 0;
    while i < h.len()
        invariant
            i <= h@.len(),
            g@ == h@.take(i as int),
        decreases h@.len() - i,
    {
        g.push(h[i]);
        assert(h@.take(i + 1) =~= h@.take(i as int).push(h@[i as int]));
        i = i + 1;
    }
    assert(h@.take(h@.len() as int) =~= h@);
    let mut z: usize = 0;
    while z < zeros
        invariant
            z <= zeros,
            g@ == h@ + Seq::new(z as nat, |i: int| 0u16),
        decreases zeros - z,
    {
        g.push(0);
        assert(h@ + Seq::new((z + 1) as nat, |i: int| 0u16) =~= (h@ + Seq::new(z as nat, |i: int| 0u16)).push(0u16));
        z = z + 1;
    }
    let ghost mid = h@ + Seq::new(zeros as nat, |i: int| 0u16);
    let mut j: usize = 0;
    while j < t.len()
        invariant
            j <= t@.len(),
            g@ == mid + t@.take(j as int),
        decreases t@.len() - j,
    {
        g.push(t[j]);
        assert(mid + t@.take(j + 1) =~= (mid + t@.take(j as int)).push(t@[j as int]));
        j = j + 1;
    }
    assert(t@.take(t@.len() as int) =~= t@);
    g
}

fn parse_compressed(s: &Vec<char>, p: usize) -> (res: Option<[u8; 16]>)
    requires
        p + 1 < s@.len(),
    ensures
        match res {
            Some(b) => compressed_groups(s@, p as int) matches Some(g) && b@ == groups_to_bytes(g),
            None => compressed_groups(s@, p as int) is None,
        },
{
    let n = s.len();
    let head = sub_chars(s, 0, p);
    let tail = sub_chars(s, p + 2, n);
    let h = match parse_group_list(&head, false) {
        Some(h) => h,
        None => return None,
    };
    let t = match parse_group_list(&tail, true) {
        Some(t) => t,
        None => return None,
    };
    if h.len() > 7 || t.len() > 7 - h.len() {
        return None;
    }
    let g = fill_groups(&h, &t);
    Some(groups_to_array(&g))
}

/// Reads an IPv6 text as `Ipv6Addr::from_str` does.
fn parse_ipv6_chars(s: &Vec<char>) -> (res: Option<[u8; 16]>)
    ensures
        match res {
            Some(b) => ipv6_bytes(s@) == Some(b@),
            None => ipv6_bytes(s@) is None,
        },
{
    match find_double_colon(s) {
        Some(p) => parse_compressed(s, p),
        None => {
            let g = match parse_group_list(s, true) {
                Some(g) => g,
                None => return None,
            };
            if g.len() != 8 {
                return None;
            }
            Some(groups_to_array(&g))
        },
    }
}

/// `str::parse::<IpAddr>`: a dotted quad, else an IPv6 text, else `None`.
pub fn parse_ip(s: &str) -> (res: Option<IpAddress>)
    ensures
        match res {
            Some(ip) => ip_parse(s@) == Some(ip@),
            None => ip_parse(s@) is None,
        },
{
    let cs = chars_of(s);
    match parse_ipv4_chars(&cs) {
        Some(o) => Some(IpAddress::V4(o)),
        None => match parse_ipv6_chars(&cs) {
            Some(b) => Some(IpAddress::V6(b)),
            None => None,
        },
    }
}

/// The lower-case hexadecimal digit for `d < 16`.
pub open spec fn hex_digit_char(d: nat) -> char {
    if d < 10 {
        (d + 48) as char
    } else {
        (d + 87) as char
    }
}

/// The lower-case hexadecimal rendering of `n`, without leading zeros.
pub open spec fn hex_text(n: nat) -> Seq<char>
    decreases n,
{
    if n < 16 {
        seq![hex_digit_char(n)]
    } else {
        hex_text(n / 16).push(hex_digit_char(n % 16))
    }
}

/// Groups in hexadecimal, separated by `:`.
pub open spec fn join_groups(g: Seq<u32>) -> Seq<char>
    decreases g.len(),
{
    if g.len() == 0 {
        Seq::<char>::empty()
    } else if g.len() == 1 {
        hex_text(g[0] as nat)
    } else {
        join_groups(g.drop_last()) + seq![':'] + hex_text(g.last() as nat)
    }
}

/// The eight 16-bit segments of an IPv6 address.
pub open spec fn segments(b: Seq<u8>) -> Seq<u32> {
    Seq::new(8, |k: int| segment(b, k) as u32)
}

/// `g[a..a+l]` are all zero.
pub open spec fn is_zero_run(g: Seq<u32>, a: int, l: int) -> bool {
    0 <= a && 0 <= l && a + l <= g.len() && forall|k: int| a <= k < a + l ==> g[k] == 0
}

/// `g[a..a+l]` is the first of the longest runs of zero segments (`a == 0` when there is none).
pub open spec fn longest_zero_run(g: Seq<u32>, a: int, l: int) -> bool {
    &&& is_zero_run(g, a, l)
    &&& forall|a2: int, l2: int| is_zero_run(g, a2, l2) ==> l2 <= l
    &&& forall|a2: int| 0 <= a2 < a ==> !is_zero_run(g, a2, l)
}

/// An IPv4-mapped address `::ffff:a.b.c.d`.
pub open spec fn v4_mapped(b: Seq<u8>) -> bool {
    (forall|i: int| 0 <= i < 10 ==> b[i] == 0) && b[10] == 0xff && b[11] == 0xff
}

/// The text of an IPv6 address as `Display for Ipv6Addr` writes it (RFC 5952): an
/// IPv4-mapped address as `::ffff:` and a dotted quad; otherwise lower-case hexadecimal
/// groups, the first longest run of two or more zero groups written as `::`.
pub open spec fn ipv6_text(b: Seq<u8>) -> Seq<char> {
    if v4_mapped(b) {
        "::ffff:"@ + ipv4_text(b.subrange(12, 16))
    } else {
        let g = segments(b);
        let r = choose|r: (int, int)| longest_zero_run(g, r.0, r.1);
        if r.1 > 1 {
            join_groups(g.subrange(0, r.0)) + seq![':', ':'] + join_groups(g.subrange(r.0 + r.1, 8))
        } else {
            join_groups(g)
        }
    }
}

/// The text of an address, as `Display for IpAddr` writes it.
pub open spec fn ip_text(ip: IpView) -> Seq<char> {
    match ip {
        IpView::V4(o) => ipv4_text(o),
        IpView::V6(b) => ipv6_text(b),
    }
}

fn hex_char(d: u32) -> (c: char)
    requires
        d < 16,
    ensures
        c == hex_digit_char(d as nat),
{
    if d < 10 {
        let b: u8 = (d as u8) + 48u8;
        b as char
    } else {
        let b: u8 = (d as u8) + 87u8;
        b as char
    }
}

fn push_hex(s: &mut String, n: u32)
    ensures
        final(s)@ == old(s)@ + hex_text(n as nat),
    decreases n,
{
    if n >= 16 {
        push_hex(s, n / 16);
    }
    let c = hex_char(n % 16);
    push_char(s, c);
    proof {
        if n < 16 {
            assert(hex_text(n as nat) =~= seq![hex_digit_char(n as nat)]);
        }
    }
}

fn push_groups(s: &mut String, g: &Vec<u32>, lo: usize, hi: usize)
    requires
        lo <= hi <= g@.len(),
    ensures
        final(s)@ == old(s)@ + join_groups(g@.subrange(lo as int, hi as int)),
{
    let ghost start = s@;
    let mut k = lo;
    assert(g@.subrange(lo as int, lo as int) =~= Seq::<u32>::empty());
    while k < hi
        invariant
            lo <= k <= hi <= g@.len(),
            s@ == start + join_groups(g@.subrange(lo as int, k as int)),
        decreases hi - k,
    {
        let ghost prev = g@.subrange(lo as int, k as int);
        let ghost next = g@.subrange(lo as int, k + 1);
        assert(next.drop_last() =~= prev);
        assert(next.last() == g@[k as int]);
        if k > lo {
            push_char(s, ':');
        }
        push_hex(s, g[k]);
        proof {
            if k == lo {
                assert(next.len() == 1);
                assert(prev =~= Seq::<u32>::empty());
            }
            assert(s@ =~= start + join_groups(next));
        }
        k = k + 1;
    }
}

fn segments_of(b: &[u8; 16]) -> (res: Vec<u32>)
    ensures
        res@ == segments(b@),
{
    let mut v: Vec<u32> = Vec::new();
    let mut k: usize = 0;
    while k < 8
        invariant
            k <= 8,
            v@.len() == k,
            forall|j: int| 0 <= j < k ==> v@[j] == segment(b@, j) as u32,
        decreases 8 - k,
    {
        let x: u32 = (b[2 * k] as u32) * 256 + (b[2 * k + 1] as u32);
        v.push(x);
        k = k + 1;
    }
    assert(v@ =~= segments(b@));
    v
}

/// Finds the first longest run of zero segments (as `Display for Ipv6Addr` does).
fn longest_zero_run_of(g: &Vec<u32>) -> (res: (usize, usize))
    ensures
        longest_zero_run(g@, res.0 as int, res.1 as int),
{
    let n = g.len();
    let mut best_start: usize = 0;
    let mut best_len: usize = 0;
    let mut cur_start: usize = 0;
    let mut cur_len: usize = 0;
    let mut i: usize = 0;
    while i < n
        invariant
            n == g@.len(),
            i <= n,
            cur_start + cur_len == i,
            is_zero_run(g@, cur_start as int, cur_len as int),
            cur_start > 0 ==> g@[cur_start - 1] != 0,
            is_zero_run(g@, best_start as int, best_len as int),
            best_start + best_len <= i,
            forall|a2: int, l2: int| is_zero_run(g@, a2, l2) && a2 + l2 <= i ==> l2 <= best_len,
            forall|a2: int| 0 <= a2 < best_start ==> !is_zero_run(g@, a2, best_len as int),
        decreases n - i,
    {
        if g[i] == 0 {
            cur_len = cur_len + 1;
            proof {
                assert forall|a2: int, l2: int| is_zero_run(g@, a2, l2) && a2 + l2 == i + 1 implies l2 <= cur_len by {
                    if a2 < cur_start {
                        assert(g@[cur_start - 1] == 0);
                    }
                }
            }
            if cur_len > best_len {
                best_start = cur_start;
                best_len = cur_len;
                proof {
                    assert forall|a2: int| 0 <= a2 < best_start implies !is_zero_run(g@, a2, best_len as int) by {
                        if is_zero_run(g@, a2, best_len as int) {
                            if a2 + best_len <= i {
                            } else {
                                assert(g@[cur_start - 1] == 0);
                            }
                        }
                    }
                }
            }
        } else {
            proof {
                assert forall|a2: int, l2: int| is_zero_run(g@, a2, l2) && a2 + l2 == i + 1 implies l2 <= best_len by {
                    if l2 > 0 {
                        assert(g@[i as int] == 0);
                    }
                }
            }
            cur_start = i + 1;
            cur_len = 0;
        }
        i = i + 1;
    }
    (best_start, best_len)
}

proof fn lemma_longest_zero_run_unique(g: Seq<u32>, r1: (int, int), r2: (int, int))
    requires
        longest_zero_run(g, r1.0, r1.1),
        longest_zero_run(g, r2.0, r2.1),
    ensures
        r1 == r2,
{
    assert(r1.1 <= r2.1);
    assert(r2.1 <= r1.1);
    if r1.0 < r2.0 {
        assert(!is_zero_run(g, r1.0, r2.1));
    }
    if r2.0 < r1.0 {
        assert(!is_zero_run(g, r2.0, r1.1));
    }
}

fn ipv6_to_string(b: &[u8; 16]) -> (res: String)
    ensures
        res@ == ipv6_text(b@),
{
    let mut s = String::new();
    let mapped = v6_all_zero_before(b, 10) && b[10] == 0xff && b[11] == 0xff;
    if mapped {
        crate::text::push_text(&mut s, "::ffff:");
        let o = [b[12], b[13], b[14], b[15]];
        push_ipv4_text(&mut s, &o);
        assert(o@ =~= b@.subrange(12, 16));
        return s;
    }
    let g = segments_of(b);
    let (st, ln) = longest_zero_run_of(&g);
    proof {
        let r = choose|r: (int, int)| longest_zero_run(g@, r.0, r.1);
        assert(longest_zero_run(g@, st as int, ln as int));
        lemma_longest_zero_run_unique(g@, r, (st as int, ln as int));
    }
    if ln > 1 {
        push_groups(&mut s, &g, 0, st);
        push_char(&mut s, ':');
        push_char(&mut s, ':');
        push_groups(&mut s, &g, st + ln, 8);
        assert(s@ =~= join_groups(g@.subrange(0, st as int)) + seq![':', ':'] + join_groups(g@.subrange(st + ln, 8)));
    } else {
        push_groups(&mut s, &g, 0, 8);
        assert(g@.subrange(0, 8) =~= g@);
    }
    s
}

/// The text of an address (`IpAddr::to_string`).
pub fn ip_to_string(ip: &IpAddress) -> (res: String)
    ensures
        res@ == ip_text(ip@),
{
    match ip {
        IpAddress::V4(o) => {
            let mut s = String::new();
            push_ipv4_text(&mut s, o);
            s
        },
        IpAddress::V6(b) => ipv6_to_string(b),
    }
}

/// An IPv4 destination worth a heuristic cue: not loopback, broadcast, multicast,
/// private, nor in 0.0.0.0/8.
pub open spec fn v4_reasonable(o: Seq<u8>) -> bool {
    !(v4_is_loopback(o) || v4_is_broadcast(o) || v4_is_multicast(o) || v4_is_private(o) || o[0]
        == 0)
}

/// An IPv6 destination worth a heuristic cue: not loopback, unique-local, link-local nor
/// multicast.
pub open spec fn v6_reasonable(b: Seq<u8>) -> bool {
    !(v6_is_loopback(b) || v6_is_unique_local(b) || v6_is_unicast_link_local(b) || v6_is_multicast(
        b,
    ))
}

/// Whether `c` is a square bracket.
pub open spec fn is_bracket(c: char) -> bool {
    c == '[' || c == ']'
}

/// The predicate of square brackets.
pub open spec fn bracket_pred() -> spec_fn(char) -> bool {
    |c: char| is_bracket(c)
}

/// `s` without its leading and trailing square brackets.
pub open spec fn strip_brackets(s: Seq<char>) -> Seq<char> {
    let b = choose|b: (int, int)| trimmed_bounds_ok(s, b.0, b.1, bracket_pred());
    s.subrange(b.0, b.1)
}

/// Whether an address text names a remote internet host worth a heuristic cue:
/// a text with `:` must read as IPv6 (surrounding square brackets ignored), any other as
/// a dotted quad, and the address must lie outside the local and special ranges.
pub open spec fn reasonable_inet_target(ip: Seq<char>) -> bool {
    if ip.contains(':') {
        match ipv6_bytes(strip_brackets(ip)) {
            Some(b) => v6_reasonable(b),
            None => false,
        }
    } else {
        match ipv4_octets(ip) {
            Some(o) => v4_reasonable(o),
            None => false,
        }
    }
}

fn trim_brackets(s: &Vec<char>) -> (res: Vec<char>)
    ensures
        res@ == strip_brackets(s@),
{
    let n = s.len();
    let mut start: usize = 0;
    while start < n && (s[start] == '[' || s[start] == ']')
        invariant
            n == s@.len(),
            start <= n,
            forall|i: int| 0 <= i < start ==> is_bracket(#[trigger] s@[i]),
        decreases n - start,
    {
        start = start + 1;
    }
    let mut end: usize = n;
    while end > start && (s[end - 1] == '[' || s[end - 1] == ']')
        invariant
            n == s@.len(),
            start <= end <= n,
            forall|i: int| end <= i < n ==> is_bracket(#[trigger] s@[i]),
            start < n ==> !is_bracket(s@[start as int]),
        decreases end,
    {
        end = end - 1;
    }
    proof {
        let w = (start as int, end as int);
        assert(trimmed_bounds_ok(s@, w.0, w.1, bracket_pred()));
        let b = choose|b: (int, int)| trimmed_bounds_ok(s@, b.0, b.1, bracket_pred());
        crate::text::lemma_trimmed_bounds_unique(s@, b, (start as int, end as int), bracket_pred());
    }
    sub_chars(s, start, end)
}

fn chars_contain(s: &Vec<char>, c: char) -> (res: bool)
    ensures
        res == s@.contains(c),
{
    let mut i: usize = 0;
    while i < s.len()
        invariant
            i <= s@.len(),
            forall|j: int| 0 <= j < i ==> s@[j] != c,
        decreases s@.len() - i,
    {
        if s[i] == c {
            return true;
        }
        i = i + 1;
    }
    false
}

/// Whether an address text names a remote internet host worth a heuristic cue.
pub fn is_reasonable_inet_target(ip: &str) -> (res: bool)
    ensures
        res == reasonable_inet_target(ip@),
{
    let cs = chars_of(ip);
    if chars_contain(&cs, ':') {
        let inner = trim_brackets(&cs);
        match parse_ipv6_chars(&inner) {
            Some(b) => {
                let zeros15 = v6_all_zero_before(&b, 15);
                !((zeros15 && b[15] == 1) || b[0] == 0xfc || b[0] == 0xfd || (b[0] == 0xfe && 0x80
                    <= b[1] && b[1] <= 0xbf) || b[0] == 0xff)
            },
            None => false,
        }
    } else {
        match parse_ipv4_chars(&cs) {
            Some(o) => {
                let (a, b, c, d) = (o[0], o[1], o[2], o[3]);
                !(a == 127 || (a == 255 && b == 255 && c == 255 && d == 255) || (224 <= a && a
                    <= 239) || a == 10 || (a == 172 && 16 <= b && b <= 31) || (a == 192 && b == 168)
                    || a == 0)
            },
            None => false,
        }
    }
}

/// A dotted quad names a remote internet host exactly when it lies outside 0.0.0.0/8,
/// 10.0.0.0/8, 127.0.0.0/8, 172.16.0.0/12, 192.168.0.0/16 and 224.0.0.0/4 and is not
/// 255.255.255.255.
pub proof fn lemma_reasonable_v4(ip: Seq<char>, a: u8, b: u8, c: u8, d: u8)
    requires
        !ip.contains(':'),
        ipv4_octets(ip) == Some(seq![a, b, c, d]),
    ensures
        reasonable_inet_target(ip) <==> !(a == 0 || a == 10 || a == 127 || (a == 172 && 16 <= b
            <= 31) || (a == 192 && b == 168) || (224 <= a <= 239) || (a == 255 && b == 255 && c
            == 255 && d == 255)),
{
}

/// An IPv6 address names a remote internet host exactly when it is not ::1 and lies
/// outside fc00::/7, fe80::/10 and ff00::/8.
pub proof fn lemma_reasonable_v6(ip: Seq<char>, b: Seq<u8>)
    requires
        ip.contains(':'),
        ipv6_bytes(strip_brackets(ip)) == Some(b),
    ensures
        b.len() == 16,
        reasonable_inet_target(ip) <==> !(b == seq![0u8, 0, 0, 0, 0, 0, 0, 0, 0, 0, 0, 0, 0, 0, 0, 1]
            || b[0] == 0xfc || b[0] == 0xfd || (b[0] == 0xfe && 0x80 <= b[1] <= 0xbf) || b[0]
            == 0xff),
{
    let lo = seq![0u8, 0, 0, 0, 0, 0, 0, 0, 0, 0, 0, 0, 0, 0, 0, 1];
    if v6_is_loopback(b) {
        assert(b =~= lo);
    }
    if b == lo {
        assert forall|i: int| 0 <= i < 15 implies b[i] == 0 by {}
        assert(v6_is_loopback(b));
    }
}

/// Enrichment skips exactly these IPv4 addresses: 127.0.0.0/8, 10.0.0.0/8, 172.16.0.0/12,
/// 192.168.0.0/16, 169.254.0.0/16, 224.0.0.0/4, 255.255.255.255 and 0.0.0.0.
pub proof fn lemma_skipped_v4(a: u8, b: u8, c: u8, d: u8)
    ensures
        private_or_loopback(IpView::V4(seq![a, b, c, d])) <==> (a == 127 || a == 10 || (a == 172
            && 16 <= b <= 31) || (a == 192 && b == 168) || (a == 169 && b == 254) || (224 <= a
            <= 239) || (a == 255 && b == 255 && c == 255 && d == 255) || (a == 0 && b == 0 && c
            == 0 && d == 0)),
{
}

/// Enrichment skips exactly these IPv6 addresses: ::1, ::, ff00::/8, fe80::/10 and
/// fc00::/7.
pub proof fn lemma_skipped_v6(b: Seq<u8>)
    requires
        b.len() == 16,
    ensures
        private_or_loopback(IpView::V6(b)) <==> (b == seq![0u8, 0, 0, 0, 0, 0, 0, 0, 0, 0, 0, 0, 0, 0, 0, 1]
            || b == seq![0u8, 0, 0, 0, 0, 0, 0, 0, 0, 0, 0, 0, 0, 0, 0, 0] || b[0] == 0xff || (b[0]
            == 0xfe && 0x80 <= b[1] <= 0xbf) || b[0] == 0xfc || b[0] == 0xfd),
{
    let lo = seq![0u8, 0, 0, 0, 0, 0, 0, 0, 0, 0, 0, 0, 0, 0, 0, 1];
    let zero = seq![0u8, 0, 0, 0, 0, 0, 0, 0, 0, 0, 0, 0, 0, 0, 0, 0];
    if v6_is_loopback(b) {
        assert(b =~= lo);
    }
    if v6_is_unspecified(b) {
        assert(b =~= zero);
    }
    if b == lo {
        assert forall|i: int| 0 <= i < 15 implies b[i] == 0 by {}
        assert(v6_is_loopback(b));
    }
    if b == zero {
        assert forall|i: int| 0 <= i < 16 implies b[i] == 0 by {}
        assert(v6_is_unspecified(b));
    }
}

} // verus!
