use crate::text::{chars_of, digit_char, digits, split, split_str, views};
use vstd::prelude::*;

verus! {

/// The IP address of a peer.
#[derive(Debug, Clone, Copy, PartialEq, Eq)]
pub enum IpAddress {
    /// An IPv4 address, by its four octets.
    V4([u8; 4]),
    /// An IPv6 address, by its eight groups of 16 bits.
    V6([u16; 8]),
}

/// A decimal digit.
pub open spec fn is_digit(c: char) -> bool {
    '0' <= c && c <= '9'
}

/// The value of a decimal digit.
pub open spec fn digit_value(c: char) -> nat {
    (c as u32 - '0' as u32) as nat
}

/// A text of decimal digits alone.
pub open spec fn all_digits(s: Seq<char>) -> bool {
    forall|i: int| 0 <= i < s.len() ==> is_digit(#[trigger] s[i])
}

/// The number that a text of decimal digits denotes.
pub open spec fn decimal(s: Seq<char>) -> nat
    decreases s.len(),
{
    if s.len() == 0 {
        0
    } else {
        decimal(s.drop_last()) * 10 + digit_value(s.last())
    }
}

/// A number of one or more decimal digits that is at most `max`. Zeros in
/// front are allowed.
pub open spec fn is_number(s: Seq<char>, max: nat) -> bool {
    s.len() >= 1 && all_digits(s) && decimal(s) <= max
}

/// An octet of an IPv4 address: one to three digits, no zero in front of
/// another digit, at most 255.
pub open spec fn is_octet(s: Seq<char>) -> bool {
    s.len() <= 3 && is_number(s, 255) && (s.len() > 1 ==> s[0] != '0')
}

/// A port: a number of at most 65535.
pub open spec fn is_port(s: Seq<char>) -> bool {
    is_number(s, 65535)
}

/// The four octets that `s` denotes in dotted decimal form: four octets
/// with a dot between them.
pub open spec fn quad(s: Seq<char>) -> Option<[u8; 4]> {
    let part = split(s, seq!['.']);
    if part.len() == 4 && is_octet(part[0]) && is_octet(part[1]) && is_octet(part[2]) && is_octet(
        part[3],
    ) {
        Some(
            [
                decimal(part[0]) as u8,
                decimal(part[1]) as u8,
                decimal(part[2]) as u8,
                decimal(part[3]) as u8,
            ],
        )
    } else {
        None
    }
}

/// The IPv4 address that `s` denotes in dotted decimal form.
pub open spec fn ipv4(s: Seq<char>) -> Option<IpAddress> {
    match quad(s) {
        Some(octets) => Some(IpAddress::V4(octets)),
        None => None,
    }
}

/// A hexadecimal digit, in either case.
pub open spec fn is_hex_digit(c: char) -> bool {
    is_digit(c) || ('a' <= c && c <= 'f') || ('A' <= c && c <= 'F')
}

/// The value of a hexadecimal digit.
pub open spec fn hex_digit_value(c: char) -> nat {
    if is_digit(c) {
        (c as u32 - '0' as u32) as nat
    } else if 'a' <= c && c <= 'f' {
        (c as u32 - 'a' as u32 + 10) as nat
    } else {
        (c as u32 - 'A' as u32 + 10) as nat
    }
}

/// The number that a text of hexadecimal digits denotes.
pub open spec fn hex_value(s: Seq<char>) -> nat
    decreases s.len(),
{
    if s.len() == 0 {
        0
    } else {
        hex_value(s.drop_last()) * 16 + hex_digit_value(s.last())
    }
}

/// A group of an IPv6 address: one to four hexadecimal digits.
pub open spec fn is_hex_group(s: Seq<char>) -> bool {
    1 <= s.len() <= 4 && forall|i: int| 0 <= i < s.len() ==> is_hex_digit(#[trigger] s[i])
}

/// The values of the first `n` colon-separated parts of `s` as groups.
pub open spec fn group_values(s: Seq<char>, n: int) -> Seq<u16> {
    Seq::new(n as nat, |i: int| hex_value(split(s, seq![':'])[i]) as u16)
}

/// The first `n` colon-separated parts of `s` are groups.
pub open spec fn are_groups(s: Seq<char>, n: int) -> bool {
    forall|i: int| 0 <= i < n ==> is_hex_group(#[trigger] split(s, seq![':'])[i])
}

/// The groups that `s` denotes: groups with a colon between them, or
/// nothing at all.
pub open spec fn hex_groups(s: Seq<char>) -> Option<Seq<u16>> {
    let n = split(s, seq![':']).len() as int;
    if s.len() == 0 {
        Some(Seq::empty())
    } else if are_groups(s, n) {
        Some(group_values(s, n))
    } else {
        None
    }
}

/// The group that two octets make.
pub open spec fn group_of(high: u8, low: u8) -> u16 {
    (high as int * 256 + low as int) as u16
}

/// The groups that `s` denotes, where an IPv4 address in dotted decimal
/// form may stand for the last two.
pub open spec fn groups_then_quad(s: Seq<char>) -> Option<Seq<u16>> {
    let part = split(s, seq![':']);
    let n = part.len() as int;
    if hex_groups(s) is Some {
        hex_groups(s)
    } else if n >= 1 && quad(part[n - 1]) is Some && are_groups(s, n - 1) {
        let octets = quad(part[n - 1])->0;
        Some(
            group_values(s, n - 1).push(group_of(octets[0], octets[1])).push(
                group_of(octets[2], octets[3]),
            ),
        )
    } else {
        None
    }
}

/// `n` groups of zero.
pub open spec fn zero_groups(n: int) -> Seq<u16> {
    Seq::new(n as nat, |i: int| 0u16)
}

/// The eight groups that `s` denotes. Either all eight are written, or a
/// double colon stands once for the one or more groups of zero that are
/// left out. An IPv4 address may stand for the last two groups, but not
/// before a double colon.
pub open spec fn ipv6_groups(s: Seq<char>) -> Option<Seq<u16>> {
    let half = split(s, seq![':', ':']);
    if half.len() == 1 {
        match groups_then_quad(s) {
            Some(groups) => if groups.len() == 8 {
                Some(groups)
            } else {
                None
            },
            None => None,
        }
    } else if half.len() == 2 {
        match (hex_groups(half[0]), groups_then_quad(half[1])) {
            (Some(head), Some(tail)) => if head.len() + tail.len() <= 7 {
                Some(head + zero_groups(8 - head.len() - tail.len()) + tail)
            } else {
                None
            },
            _ => None,
        }
    } else {
        None
    }
}

/// The IPv6 address that `s` denotes.
pub open spec fn ipv6(s: Seq<char>) -> Option<IpAddress> {
    match ipv6_groups(s) {
        Some(g) => Some(IpAddress::V6([g[0], g[1], g[2], g[3], g[4], g[5], g[6], g[7]])),
        None => None,
    }
}

/// The IPv6 address that `s` denotes, where a percent sign and the number
/// of a zone may follow the address. The zone is not kept.
pub open spec fn zoned_ipv6(s: Seq<char>) -> Option<IpAddress> {
    let part = split(s, seq!['%']);
    if part.len() == 1 {
        ipv6(s)
    } else if part.len() == 2 && is_number(part[1], 0xFFFF_FFFF) {
        ipv6(part[0])
    } else {
        None
    }
}

/// The address and port that `s` denotes in the form of IPv4: an IPv4
/// address, a colon and a port.
pub open spec fn socket_addr_v4(s: Seq<char>) -> Option<(IpAddress, u16)> {
    let part = split(s, seq![':']);
    if part.len() == 2 && ipv4(part[0]) is Some && is_port(part[1]) {
        Some((ipv4(part[0])->0, decimal(part[1]) as u16))
    } else {
        None
    }
}

/// The address and port that `s` denotes in the form of IPv6: an IPv6
/// address in square brackets, a colon and a port.
pub open spec fn socket_addr_v6(s: Seq<char>) -> Option<(IpAddress, u16)> {
    let part = split(s.skip(1), seq![']']);
    if s.len() >= 1 && s[0] == '[' && part.len() == 2 && part[1].len() >= 1 && part[1][0] == ':'
        && is_port(part[1].skip(1)) && zoned_ipv6(part[0]) is Some {
        Some((zoned_ipv6(part[0])->0, decimal(part[1].skip(1)) as u16))
    } else {
        None
    }
}

/// The address and port of a peer that `s` denotes.
pub open spec fn socket_addr(s: Seq<char>) -> Option<(IpAddress, u16)> {
    if s.len() >= 1 && s[0] == '[' {
        socket_addr_v6(s)
    } else {
        socket_addr_v4(s)
    }
}

/// The number that the first digits of a text denote is at most the number
/// that the whole text denotes.
pub proof fn lemma_decimal_grows(s: Seq<char>, k: int)
    requires
        0 <= k <= s.len(),
    ensures
        decimal(s.take(k)) <= decimal(s),
    decreases s.len() - k,
{
    if k == s.len() {
        assert(s.take(k) =~= s);
    } else {
        assert(s.take(k + 1).drop_last() =~= s.take(k));
        lemma_decimal_grows(s, k + 1);
    }
}

/// The number that `s` denotes, where it is a number of at most `max`.
fn number(s: &[char], max: u64) -> (n: Option<u64>)
    requires
        max <= 0xFFFF_FFFF,
    ensures
        n is Some <==> is_number(s@, max as nat),
        n matches Some(v) ==> v == decimal(s@),
{
    if s.len() == 0 {
        return None;
    }
    let mut acc: u64 = 0;
    let mut i: usize = 0;
    while i < s.len()
        invariant
            i <= s@.len(),
            max <= 0xFFFF_FFFF,
            acc == decimal(s@.take(i as int)),
            acc <= max,
            forall|j: int| 0 <= j < i ==> is_digit(#[trigger] s@[j]),
        decreases s@.len() - i,
    {
        let c = s[i];
        if !('0' <= c && c <= '9') {
            return None;
        }
        assert(s@.take(i + 1).drop_last() =~= s@.take(i as int));
        let next: u64 = acc * 10 + (c as u64 - '0' as u64);
        if next > max {
            proof {
                lemma_decimal_grows(s@, i + 1);
            }
            return None;
        }
        acc = next;
        i += 1;
    }
    assert(s@.take(i as int) =~= s@);
    Some(acc)
}

/// The octet that `s` denotes, where it is one.
fn octet(s: &str) -> (n: Option<u8>)
    ensures
        n is Some <==> is_octet(s@),
        n matches Some(v) ==> v == decimal(s@),
{
    let chars = chars_of(s);
    if chars.len() > 3 || (chars.len() > 1 && chars[0] == '0') {
        return None;
    }
    match number(chars.as_slice(), 255) {
        Some(v) => Some(v as u8),
        None => None,
    }
}

/// Reads four octets in dotted decimal form.
fn parse_quad(s: &str) -> (octets: Option<[u8; 4]>)
    ensures
        octets == quad(s@),
{
    let dot: [char; 1] = ['.'];
    assert(dot@ =~= seq!['.']);
    let part = split_str(s, dot.as_slice());
    if part.len() != 4 {
        return None;
    }
    proof {
        assert(views(part@)[0] == part@[0]@);
        assert(views(part@)[1] == part@[1]@);
        assert(views(part@)[2] == part@[2]@);
        assert(views(part@)[3] == part@[3]@);
    }
    let a = octet(part[0]);
    let b = octet(part[1]);
    let c = octet(part[2]);
    let d = octet(part[3]);
    match (a, b, c, d) {
        (Some(a), Some(b), Some(c), Some(d)) => Some([a, b, c, d]),
        _ => None,
    }
}

/// Reads an IPv4 address in dotted decimal form.
pub fn parse_ipv4(s: &str) -> (ip: Option<IpAddress>)
    ensures
        ip == ipv4(s@),
{
    match parse_quad(s) {
        Some(octets) => Some(IpAddress::V4(octets)),
        None => None,
    }
}

/// The group that `s` denotes, where it is one.
fn hex_group(s: &str) -> (group: Option<u16>)
    ensures
        group is Some <==> is_hex_group(s@),
        group matches Some(v) ==> v == hex_value(s@),
{
    let chars = chars_of(s);
    if chars.len() == 0 || chars.len() > 4 {
        return None;
    }
    let mut acc: u32 = 0;
    let mut i: usize = 0;
    while i < chars.len()
        invariant
            i <= chars@.len() <= 4,
            chars@ == s@,
            acc == hex_value(chars@.take(i as int)),
            i == 0 ==> acc < 1,
            i == 1 ==> acc < 0x10,
            i == 2 ==> acc < 0x100,
            i == 3 ==> acc < 0x1000,
            i == 4 ==> acc < 0x10000,
            forall|j: int| 0 <= j < i ==> is_hex_digit(#[trigger] chars@[j]),
        decreases chars@.len() - i,
    {
        let c = chars[i];
        let digit: u32 = if '0' <= c && c <= '9' {
            c as u32 - '0' as u32
        } else if 'a' <= c && c <= 'f' {
            c as u32 - 'a' as u32 + 10
        } else if 'A' <= c && c <= 'F' {
            c as u32 - 'A' as u32 + 10
        } else {
            return None;
        };
        assert(chars@.take(i + 1).drop_last() =~= chars@.take(i as int));
        acc = acc * 16 + digit;
        i += 1;
    }
    assert(chars@.take(i as int) =~= chars@);
    Some(acc as u16)
}

/// The values of the first `n` of the parts `part`, where they are groups.
fn leading_groups(part: &Vec<&str>, n: usize, Ghost(s): Ghost<Seq<char>>) -> (groups: Option<
    Vec<u16>,
>)
    requires
        n <= part@.len(),
        views(part@) == split(s, seq![':']),
    ensures
        groups is Some <==> are_groups(s, n as int),
        groups matches Some(g) ==> g@ == group_values(s, n as int),
{
    let mut groups: Vec<u16> = Vec::new();
    let mut i: usize = 0;
    while i < n
        invariant
            i <= n <= part@.len(),
            views(part@) == split(s, seq![':']),
            are_groups(s, i as int),
            groups@ == group_values(s, i as int),
        decreases n - i,
    {
        assert(views(part@)[i as int] == part@[i as int]@);
        match hex_group(part[i]) {
            None => {
                return None;
            },
            Some(v) => {
                let ghost before = groups@;
                groups.push(v);
                assert(groups@ =~= group_values(s, i + 1));
            },
        }
        i += 1;
    }
    Some(groups)
}

/// Reads groups with a colon between them, or nothing at all.
fn parse_hex_groups(s: &str) -> (groups: Option<Vec<u16>>)
    ensures
        groups is Some <==> hex_groups(s@) is Some,
        groups matches Some(g) ==> hex_groups(s@) == Some(g@),
{
    let colon: [char; 1] = [':'];
    assert(colon@ =~= seq![':']);
    let part = split_str(s, colon.as_slice());
    if s.unicode_len() == 0 {
        return Some(Vec::new());
    }
    leading_groups(&part, part.len(), Ghost(s@))
}

/// Reads groups where an IPv4 address may stand for the last two.
fn parse_groups_then_quad(s: &str) -> (groups: Option<Vec<u16>>)
    ensures
        groups is Some <==> groups_then_quad(s@) is Some,
        groups matches Some(g) ==> groups_then_quad(s@) == Some(g@),
{
    let colon: [char; 1] = [':'];
    assert(colon@ =~= seq![':']);
    let part = split_str(s, colon.as_slice());
    if s.unicode_len() == 0 {
        return Some(Vec::new());
    }
    match leading_groups(&part, part.len(), Ghost(s@)) {
        Some(groups) => Some(groups),
        None => {
            if part.len() == 0 {
                return None;
            }
            let n: usize = part.len() - 1;
            assert(views(part@)[n as int] == part@[n as int]@);
            match (parse_quad(part[n]), leading_groups(&part, n, Ghost(s@))) {
                (Some(octets), Some(mut groups)) => {
                    groups.push((octets[0] as u16) * 256 + octets[1] as u16);
                    groups.push((octets[2] as u16) * 256 + octets[3] as u16);
                    Some(groups)
                },
                _ => None,
            }
        },
    }
}

/// Reads an IPv6 address.
pub fn parse_ipv6(s: &str) -> (ip: Option<IpAddress>)
    ensures
        ip == ipv6(s@),
{
    let gap: [char; 2] = [':', ':'];
    assert(gap@ =~= seq![':', ':']);
    let half = split_str(s, gap.as_slice());
    if half.len() == 1 {
        match parse_groups_then_quad(s) {
            Some(g) => {
                if g.len() == 8 {
                    Some(IpAddress::V6([g[0], g[1], g[2], g[3], g[4], g[5], g[6], g[7]]))
                } else {
                    None
                }
            },
            None => None,
        }
    } else if half.len() == 2 {
        proof {
            assert(views(half@)[0] == half@[0]@);
            assert(views(half@)[1] == half@[1]@);
        }
        match (parse_hex_groups(half[0]), parse_groups_then_quad(half[1])) {
            (Some(head), Some(tail)) => {
                if head.len() > 7 || tail.len() > 7 - head.len() {
                    return None;
                }
                let mut g: Vec<u16> = Vec::new();
                let mut i: usize = 0;
                while i < head.len()
                    invariant
                        i <= head@.len(),
                        g@ == head@.take(i as int),
                    decreases head@.len() - i,
                {
                    g.push(head[i]);
                    assert(g@ =~= head@.take(i + 1));
                    i += 1;
                }
                assert(head@.take(i as int) =~= head@);
                let gap_len: usize = 8 - head.len() - tail.len();
                let mut j: usize = 0;
                while j < gap_len
                    invariant
                        j <= gap_len,
                        g@ == head@ + zero_groups(j as int),
                    decreases gap_len - j,
                {
                    g.push(0);
                    assert(g@ =~= head@ + zero_groups(j + 1));
                    j += 1;
                }
                let mut k: usize = 0;
                while k < tail.len()
                    invariant
                        k <= tail@.len(),
                        g@ == head@ + zero_groups(gap_len as int) + tail@.take(k as int),
                    decreases tail@.len() - k,
                {
                    g.push(tail[k]);
                    assert(g@ =~= head@ + zero_groups(gap_len as int) + tail@.take(k + 1));
                    k += 1;
                }
                assert(tail@.take(k as int) =~= tail@);
                Some(IpAddress::V6([g[0], g[1], g[2], g[3], g[4], g[5], g[6], g[7]]))
            },
            _ => None,
        }
    } else {
        None
    }
}

/// Reads an IPv6 address that the number of a zone may follow.
fn parse_zoned_ipv6(s: &str) -> (ip: Option<IpAddress>)
    ensures
        ip == zoned_ipv6(s@),
{
    let percent: [char; 1] = ['%'];
    assert(percent@ =~= seq!['%']);
    let part = split_str(s, percent.as_slice());
    if part.len() == 1 {
        parse_ipv6(s)
    } else if part.len() == 2 {
        proof {
            assert(views(part@)[0] == part@[0]@);
            assert(views(part@)[1] == part@[1]@);
        }
        let zone = chars_of(part[1]);
        match number(zone.as_slice(), 0xFFFF_FFFF) {
            Some(_) => parse_ipv6(part[0]),
            None => None,
        }
    } else {
        None
    }
}

/// Reads an IPv4 address, a colon and a port.
fn parse_socket_addr_v4(s: &str) -> (addr: Option<(IpAddress, u16)>)
    ensures
        addr == socket_addr_v4(s@),
{
    let colon: [char; 1] = [':'];
    assert(colon@ =~= seq![':']);
    let part = split_str(s, colon.as_slice());
    if part.len() != 2 {
        return None;
    }
    proof {
        assert(views(part@)[0] == part@[0]@);
        assert(views(part@)[1] == part@[1]@);
    }
    let ip = parse_ipv4(part[0]);
    let digits = chars_of(part[1]);
    let port = number(digits.as_slice(), 65535);
    match (ip, port) {
        (Some(ip), Some(port)) => Some((ip, port as u16)),
        _ => None,
    }
}

/// Reads an IPv6 address in square brackets, a colon and a port.
fn parse_socket_addr_v6(s: &str) -> (addr: Option<(IpAddress, u16)>)
    ensures
        addr == socket_addr_v6(s@),
{
    let len = s.unicode_len();
    if len == 0 || s.get_char(0) != '[' {
        return None;
    }
    let close: [char; 1] = [']'];
    assert(close@ =~= seq![']']);
    let rest = s.substring_char(1, len);
    assert(rest@ =~= s@.skip(1));
    let part = split_str(rest, close.as_slice());
    if part.len() != 2 {
        return None;
    }
    proof {
        assert(views(part@)[0] == part@[0]@);
        assert(views(part@)[1] == part@[1]@);
    }
    let after = chars_of(part[1]);
    if after.len() == 0 || after[0] != ':' {
        return None;
    }
    let digits = vstd::slice::slice_subrange(after.as_slice(), 1, after.len());
    assert(digits@ =~= part@[1]@.skip(1));
    let port = number(digits, 65535);
    let ip = parse_zoned_ipv6(part[0]);
    match (ip, port) {
        (Some(ip), Some(port)) => Some((ip, port as u16)),
        _ => None,
    }
}

/// Reads the address and port of a peer: an IPv4 address, a colon and a
/// port, or an IPv6 address in square brackets, a colon and a port.
pub fn parse_socket_addr(s: &str) -> (addr: Option<(IpAddress, u16)>)
    ensures
        addr == socket_addr(s@),
{
    if s.unicode_len() >= 1 && s.get_char(0) == '[' {
        parse_socket_addr_v6(s)
    } else {
        parse_socket_addr_v4(s)
    }
}

/// The decimal digits of a number are digits, and they denote the number.
pub proof fn law_digits_denote(n: nat)
    ensures
        all_digits(digits(n)),
        decimal(digits(n)) == n,
    decreases n,
{
    if n < 10 {
        assert(digits(n).drop_last() =~= Seq::empty());
        assert(decimal(digits(n).drop_last()) == 0);
        assert(digit_value(digit_char(n)) == n);
    } else {
        law_digits_denote(n / 10);
        assert(digits(n).drop_last() =~= digits(n / 10));
        assert(digit_value(digit_char(n % 10)) == n % 10);
        assert forall|i: int| 0 <= i < digits(n).len() implies is_digit(#[trigger] digits(n)[i]) by {
            if i < digits(n / 10).len() {
                assert(digits(n)[i] == digits(n / 10)[i]);
            }
        }
    }
}

} // verus!
