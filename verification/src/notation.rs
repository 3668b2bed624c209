//! The text forms of IPv4 and IPv6 addresses and of prefix lengths.

use crate::text::{
    all_digits_in, digit_value, is_digit_in, joined, lemma_joined_push, lemma_number_text,
    lemma_pieces_of_joined, number_text, number_value, parse_number, parts_view, pieces,
    push_number, split,
};
use vstd::prelude::*;

verus! {

/// The octet that a text of one to three decimal digits denotes. A zero
/// stands in front only of itself.
pub open spec fn octet_of(text: Seq<char>) -> Option<u8> {
    if 1 <= text.len() <= 3 && all_digits_in(text, 10) && (text.len() > 1 ==> text[0] != '0')
        && number_value(text, 10) <= 255 {
        Some(number_value(text, 10) as u8)
    } else {
        None
    }
}

/// The four octets that a dotted quad denotes.
pub open spec fn ipv4_of(text: Seq<char>) -> Option<Seq<u8>> {
    let parts = pieces(text, '.');
    if parts.len() == 4 && octet_of(parts[0]) is Some && octet_of(parts[1]) is Some && octet_of(
        parts[2],
    ) is Some && octet_of(parts[3]) is Some {
        Some(
            seq![
                octet_of(parts[0])->0,
                octet_of(parts[1])->0,
                octet_of(parts[2])->0,
                octet_of(parts[3])->0,
            ],
        )
    } else {
        None
    }
}

/// The dotted quad of four octets.
pub open spec fn ipv4_text(octets: Seq<u8>) -> Seq<char> {
    joined(
        seq![
            number_text(octets[0] as nat, 10),
            number_text(octets[1] as nat, 10),
            number_text(octets[2] as nat, 10),
            number_text(octets[3] as nat, 10),
        ],
        seq!['.'],
    )
}

/// The prefix length that a text denotes: decimal digits, with or without
/// a plus sign in front, that denote 255 at most.
pub open spec fn prefix_len_of(text: Seq<char>) -> Option<u8> {
    let digits = if text.len() > 0 && text[0] == '+' {
        text.skip(1)
    } else {
        text
    };
    if digits.len() > 0 && all_digits_in(digits, 10) && number_value(digits, 10) <= 255 {
        Some(number_value(digits, 10) as u8)
    } else {
        None
    }
}

/// Reads one octet of a dotted quad.
pub fn parse_octet(text: &Vec<char>) -> (r: Option<u8>)
    ensures
        r == octet_of(text@),
{
    if text.len() == 0 || text.len() > 3 {
        return None;
    }
    if text.len() > 1 && text[0] == '0' {
        return None;
    }
    match parse_number(text, 10, 255) {
        Some(n) => Some(n as u8),
        None => None,
    }
}

/// Reads a dotted quad.
pub fn parse_ipv4(text: &Vec<char>) -> (r: Option<[u8; 4]>)
    ensures
        match r {
            Some(octets) => ipv4_of(text@) == Some(octets@),
            None => ipv4_of(text@) is None,
        },
{
    let parts = split(text, '.');
    if parts.len() != 4 {
        return None;
    }
    assert(parts_view(parts@)[0] == parts@[0]@);
    assert(parts_view(parts@)[1] == parts@[1]@);
    assert(parts_view(parts@)[2] == parts@[2]@);
    assert(parts_view(parts@)[3] == parts@[3]@);
    let a = match parse_octet(&parts[0]) {
        Some(a) => a,
        None => {
            return None;
        },
    };
    let b = match parse_octet(&parts[1]) {
        Some(b) => b,
        None => {
            return None;
        },
    };
    let c = match parse_octet(&parts[2]) {
        Some(c) => c,
        None => {
            return None;
        },
    };
    let d = match parse_octet(&parts[3]) {
        Some(d) => d,
        None => {
            return None;
        },
    };
    let octets: [u8; 4] = [a, b, c, d];
    assert(octets@ =~= seq![a, b, c, d]);
    Some(octets)
}

/// Appends the dotted quad of four octets to `out`.
pub fn push_ipv4(out: &mut Vec<char>, octets: &[u8; 4])
    ensures
        final(out)@ == old(out)@ + ipv4_text(octets@),
{
    let ghost before = out@;
    let ghost a = number_text(octets@[0] as nat, 10);
    let ghost b = number_text(octets@[1] as nat, 10);
    let ghost c = number_text(octets@[2] as nat, 10);
    let ghost d = number_text(octets@[3] as nat, 10);
    push_number(out, octets[0] as u32, 10);
    out.push('.');
    push_number(out, octets[1] as u32, 10);
    out.push('.');
    push_number(out, octets[2] as u32, 10);
    out.push('.');
    push_number(out, octets[3] as u32, 10);
    proof {
        let dot = seq!['.'];
        let parts = seq![a, b, c, d];
        assert(parts.skip(1) =~= seq![b, c, d]);
        assert(parts.skip(1).skip(1) =~= seq![c, d]);
        assert(parts.skip(1).skip(1).skip(1) =~= seq![d]);
        assert(joined(seq![d], dot) == d);
        assert(joined(seq![c, d], dot) == c + dot + d);
        assert(joined(seq![b, c, d], dot) == b + dot + (c + dot + d));
        assert(joined(parts, dot) == a + dot + (b + dot + (c + dot + d)));
        assert(out@ =~= before + joined(parts, dot));
    }
}

/// Reads a prefix length.
pub fn parse_prefix_len(text: &Vec<char>) -> (r: Option<u8>)
    ensures
        r == prefix_len_of(text@),
{
    let mut digits: Vec<char> = Vec::new();
    let start: usize = if text.len() > 0 && text[0] == '+' {
        1
    } else {
        0
    };
    let mut i: usize = start;
    while i < text.len()
        invariant
            start <= i <= text.len(),
            digits@ == text@.subrange(start as int, i as int),
        decreases text.len() - i,
    {
        digits.push(text[i]);
        assert(digits@ =~= text@.subrange(start as int, i + 1));
        i += 1;
    }
    assert(digits@ =~= text@.skip(start as int));
    assert(text@.skip(0) =~= text@);
    match parse_number(&digits, 10, 255) {
        Some(n) => Some(n as u8),
        None => None,
    }
}

/// A dotted quad is read back as the octets it was written from.
pub proof fn lemma_ipv4_round_trip(octets: Seq<u8>)
    requires
        octets.len() == 4,
    ensures
        ipv4_of(ipv4_text(octets)) == Some(octets),
{
    let parts = seq![
        number_text(octets[0] as nat, 10),
        number_text(octets[1] as nat, 10),
        number_text(octets[2] as nat, 10),
        number_text(octets[3] as nat, 10),
    ];
    assert forall|i: int| 0 <= i < 4 implies !(#[trigger] parts[i]).contains('.') && octet_of(
        parts[i],
    ) == Some(octets[i]) by {
        lemma_octet_text(octets[i]);
    }
    lemma_pieces_of_joined(parts, '.');
    assert(ipv4_of(ipv4_text(octets))->0 =~= octets);
}

/// The decimal text of an octet is read back as that octet, and holds
/// decimal digits only.
pub proof fn lemma_octet_text(octet: u8)
    ensures
        octet_of(number_text(octet as nat, 10)) == Some(octet),
        all_digits_in(number_text(octet as nat, 10), 10),
        !number_text(octet as nat, 10).contains('.'),
        1 <= number_text(octet as nat, 10).len() <= 3,
{
    let n = octet as nat;
    let text = number_text(n, 10);
    lemma_number_text(n, 10);
    if n >= 10 {
        lemma_number_text(n / 10, 10);
        if n / 10 >= 10 {
            lemma_number_text(n / 10 / 10, 10);
        }
    }
    if text.contains('.') {
        let i = choose|i: int| 0 <= i < text.len() && text[i] == '.';
        assert(is_digit_in(text[i], 10));
    }
}

/// The group that a text of one to four hexadecimal digits denotes.
pub open spec fn group_of(text: Seq<char>) -> Option<u16> {
    if 1 <= text.len() <= 4 && all_digits_in(text, 16) {
        Some(number_value(text, 16) as u16)
    } else {
        None
    }
}

/// The groups that the parts denote, where each part is a group.
pub open spec fn groups_of(parts: Seq<Seq<char>>) -> Option<Seq<u16>> {
    if forall|i: int| 0 <= i < parts.len() ==> group_of(#[trigger] parts[i]) is Some {
        Some(Seq::new(parts.len(), |i: int| group_of(parts[i])->0))
    } else {
        None
    }
}

/// The two groups that four octets fill.
pub open spec fn groups_of_quad(octets: Seq<u8>) -> Seq<u16> {
    seq![
        (octets[0] as int * 256 + octets[1] as int) as u16,
        (octets[2] as int * 256 + octets[3] as int) as u16,
    ]
}

/// The groups that the parts denote, where each part is a group, but the
/// last may be a dotted quad, which fills two groups.
pub open spec fn tail_groups_of(parts: Seq<Seq<char>>) -> Option<Seq<u16>> {
    if parts.len() >= 1 && ipv4_of(parts.last()) is Some {
        match groups_of(parts.drop_last()) {
            Some(front) => Some(front + groups_of_quad(ipv4_of(parts.last())->0)),
            None => None,
        }
    } else {
        groups_of(parts)
    }
}

/// The position of the first two colons in a row, or -1 where the text
/// holds none.
pub open spec fn double_colon(text: Seq<char>) -> int
    decreases text.len(),
{
    if text.len() < 2 {
        -1
    } else if text[0] == ':' && text[1] == ':' {
        0
    } else {
        let later = double_colon(text.skip(1));
        if later < 0 {
            -1
        } else {
            later + 1
        }
    }
}

/// The sixteen octets of eight groups.
pub open spec fn octets_of_groups(groups: Seq<u16>) -> Seq<u8> {
    Seq::new(
        16,
        |i: int|
            if i % 2 == 0 {
                (groups[i / 2] as int / 256) as u8
            } else {
                (groups[i / 2] as int % 256) as u8
            },
    )
}

/// The eight groups of sixteen octets.
pub open spec fn groups_of_octets(octets: Seq<u8>) -> Seq<u16> {
    Seq::new(8, |i: int| (octets[2 * i] as int * 256 + octets[2 * i + 1] as int) as u16)
}

/// So many groups of zero.
pub open spec fn zero_groups(n: int) -> Seq<u16> {
    Seq::new(n as nat, |i: int| 0u16)
}

/// The groups that a text denotes which may hold nothing: none where it
/// holds nothing, else those of its parts between colons.
pub open spec fn side_groups_of(text: Seq<char>, quad_at_end: bool) -> Option<Seq<u16>> {
    if text.len() == 0 {
        Some(Seq::empty())
    } else if quad_at_end {
        tail_groups_of(pieces(text, ':'))
    } else {
        groups_of(pieces(text, ':'))
    }
}

/// The sixteen octets that the text of an IPv6 address denotes.
///
/// The text is eight groups between colons. Two colons in a row, once,
/// stand for as many groups of zero as are missing, one at least. The last
/// two groups may be written as a dotted quad.
pub open spec fn ipv6_of(text: Seq<char>) -> Option<Seq<u8>> {
    let at = double_colon(text);
    if at < 0 {
        match tail_groups_of(pieces(text, ':')) {
            Some(groups) => if groups.len() == 8 {
                Some(octets_of_groups(groups))
            } else {
                None
            },
            None => None,
        }
    } else {
        match (side_groups_of(text.take(at), false), side_groups_of(text.skip(at + 2), true)) {
            (Some(head), Some(tail)) => if head.len() + tail.len() <= 7 {
                Some(
                    octets_of_groups(head + zero_groups(8 - head.len() - tail.len()) + tail),
                )
            } else {
                None
            },
            _ => None,
        }
    }
}

/// `double_colon` is -1 or a position where two colons stand in a row, and
/// no two colons stand in a row before it.
pub proof fn lemma_double_colon(text: Seq<char>)
    ensures
        -1 <= double_colon(text) < text.len() - 1 || double_colon(text) == -1,
        double_colon(text) >= 0 ==> text[double_colon(text)] == ':' && text[double_colon(text) + 1]
            == ':',
        forall|j: int|
            0 <= j < text.len() - 1 && (double_colon(text) < 0 || j < double_colon(text)) ==> !(
            text[j] == ':' && #[trigger] text[j + 1] == ':'),
    decreases text.len(),
{
    if text.len() >= 2 && !(text[0] == ':' && text[1] == ':') {
        let rest = text.skip(1);
        lemma_double_colon(rest);
        assert forall|j: int|
            0 <= j < text.len() - 1 && (double_colon(text) < 0 || j < double_colon(text)) implies !(
        text[j] == ':' && #[trigger] text[j + 1] == ':') by {
            if j > 0 {
                assert(rest[j - 1] == text[j]);
                assert(rest[j - 1 + 1] == text[j + 1]);
            }
        }
    }
}

/// A position that holds two colons in a row, with no two in a row before
/// it, is the `double_colon`; and where no two stand in a row it is -1.
pub proof fn lemma_double_colon_is(text: Seq<char>, at: int)
    requires
        at == -1 || (0 <= at < text.len() - 1 && text[at] == ':' && text[at + 1] == ':'),
        forall|j: int|
            0 <= j < text.len() - 1 && (at < 0 || j < at) ==> !(text[j] == ':' && #[trigger] text[j
                + 1] == ':'),
    ensures
        double_colon(text) == at,
{
    lemma_double_colon(text);
    let found = double_colon(text);
    if found >= 0 && (at < 0 || found < at) {
        assert(!(text[found] == ':' && text[found + 1] == ':'));
    }
    if at >= 0 && (found < 0 || at < found) {
        assert(!(text[at] == ':' && text[at + 1] == ':'));
    }
}

/// Finds the first two colons in a row.
pub fn find_double_colon(text: &Vec<char>) -> (r: Option<usize>)
    ensures
        match r {
            Some(at) => double_colon(text@) == at && at + 2 <= text@.len(),
            None => double_colon(text@) == -1,
        },
{
    if text.len() < 2 {
        return None;
    }
    let mut i: usize = 0;
    while i < text.len() - 1
        invariant
            i <= text.len() - 1,
            text.len() >= 2,
            forall|j: int| 0 <= j < i && j < text.len() - 1 ==> !(text@[j] == ':' && #[trigger] text@[j
                + 1] == ':'),
        decreases text.len() - i,
    {
        if text[i] == ':' && text[i + 1] == ':' {
            proof {
                lemma_double_colon_is(text@, i as int);
            }
            return Some(i);
        }
        i += 1;
    }
    proof {
        lemma_double_colon_is(text@, -1);
    }
    None
}

/// Reads one group of an IPv6 address.
pub fn parse_group(text: &Vec<char>) -> (r: Option<u16>)
    ensures
        r == group_of(text@),
{
    if text.len() == 0 || text.len() > 4 {
        return None;
    }
    match parse_number(text, 16, 0xffff) {
        Some(n) => Some(n as u16),
        None => {
            proof {
                if all_digits_in(text@, 16) {
                    lemma_group_value_fits(text@);
                }
            }
            None
        },
    }
}

/// The least number that so many hexadecimal digits cannot denote.
pub open spec fn hex_bound(digits: nat) -> nat {
    if digits == 0 {
        1
    } else if digits == 1 {
        0x10
    } else if digits == 2 {
        0x100
    } else if digits == 3 {
        0x1000
    } else {
        0x10000
    }
}

/// Four hexadecimal digits or fewer denote a number below 65536.
pub proof fn lemma_group_value_fits(text: Seq<char>)
    requires
        text.len() <= 4,
        all_digits_in(text, 16),
    ensures
        number_value(text, 16) < hex_bound(text.len()),
        number_value(text, 16) <= 0xffff,
    decreases text.len(),
{
    if text.len() >= 1 {
        let front = text.drop_last();
        assert(is_digit_in(text.last(), 16));
        assert forall|i: int| 0 <= i < front.len() implies is_digit_in(#[trigger] front[i], 16) by {
            assert(front[i] == text[i]);
        }
        lemma_group_value_fits(front);
    }
}

/// Reads the groups of the parts, each part one group.
pub fn parse_groups(parts: &Vec<Vec<char>>, upto: usize) -> (r: Option<Vec<u16>>)
    requires
        upto <= parts.len(),
    ensures
        match r {
            Some(groups) => groups_of(parts_view(parts@).take(upto as int)) == Some(groups@),
            None => groups_of(parts_view(parts@).take(upto as int)) is None,
        },
{
    let ghost all = parts_view(parts@).take(upto as int);
    let mut groups: Vec<u16> = Vec::new();
    let mut i: usize = 0;
    while i < upto
        invariant
            i <= upto <= parts.len(),
            all == parts_view(parts@).take(upto as int),
            groups@.len() == i,
            forall|j: int| 0 <= j < i ==> group_of(#[trigger] all[j]) == Some(groups@[j]),
        decreases upto - i,
    {
        assert(all[i as int] == parts@[i as int]@);
        match parse_group(&parts[i]) {
            Some(g) => {
                groups.push(g);
            },
            None => {
                return None;
            },
        }
        i += 1;
    }
    assert(groups_of(all)->0 =~= groups@);
    Some(groups)
}

/// Reads the groups of the parts, where the last part may be a dotted quad.
pub fn parse_tail_groups(parts: &Vec<Vec<char>>) -> (r: Option<Vec<u16>>)
    ensures
        match r {
            Some(groups) => tail_groups_of(parts_view(parts@)) == Some(groups@),
            None => tail_groups_of(parts_view(parts@)) is None,
        },
{
    let ghost all = parts_view(parts@);
    let n = parts.len();
    assert(all.take(n as int) =~= all);
    if n >= 1 {
        assert(all.last() == parts@[n - 1]@);
        assert(all.take(n - 1) =~= all.drop_last());
        match parse_ipv4(&parts[n - 1]) {
            Some(quad) => {
                match parse_groups(parts, n - 1) {
                    Some(front) => {
                        let mut groups = front;
                        let ghost f = groups@;
                        groups.push(quad[0] as u16 * 256 + quad[1] as u16);
                        groups.push(quad[2] as u16 * 256 + quad[3] as u16);
                        assert(groups@ =~= f + groups_of_quad(quad@));
                        return Some(groups);
                    },
                    None => {
                        return None;
                    },
                }
            },
            None => {},
        }
    }
    parse_groups(parts, n)
}

/// The characters of `text` from `from` up to `to`.
pub fn slice(text: &Vec<char>, from: usize, to: usize) -> (r: Vec<char>)
    requires
        from <= to <= text.len(),
    ensures
        r@ == text@.subrange(from as int, to as int),
{
    let mut r: Vec<char> = Vec::new();
    let mut i: usize = from;
    while i < to
        invariant
            from <= i <= to <= text.len(),
            r@ == text@.subrange(from as int, i as int),
        decreases to - i,
    {
        r.push(text[i]);
        assert(r@ =~= text@.subrange(from as int, i + 1));
        i += 1;
    }
    r
}

/// Reads the groups of one side of two colons.
fn parse_side(text: &Vec<char>, quad_at_end: bool) -> (r: Option<Vec<u16>>)
    ensures
        match r {
            Some(groups) => side_groups_of(text@, quad_at_end) == Some(groups@),
            None => side_groups_of(text@, quad_at_end) is None,
        },
{
    if text.len() == 0 {
        let none: Vec<u16> = Vec::new();
        assert(none@ =~= Seq::<u16>::empty());
        return Some(none);
    }
    let parts = split(text, ':');
    if quad_at_end {
        parse_tail_groups(&parts)
    } else {
        let n = parts.len();
        assert(parts_view(parts@).take(n as int) =~= parts_view(parts@));
        parse_groups(&parts, n)
    }
}

/// The sixteen octets of eight groups.
fn octets_from_groups(g: &Vec<u16>) -> (r: [u8; 16])
    requires
        g.len() == 8,
    ensures
        r@ == octets_of_groups(g@),
{
    let r: [u8; 16] = [
        (g[0] / 256) as u8,
        (g[0] % 256) as u8,
        (g[1] / 256) as u8,
        (g[1] % 256) as u8,
        (g[2] / 256) as u8,
        (g[2] % 256) as u8,
        (g[3] / 256) as u8,
        (g[3] % 256) as u8,
        (g[4] / 256) as u8,
        (g[4] % 256) as u8,
        (g[5] / 256) as u8,
        (g[5] % 256) as u8,
        (g[6] / 256) as u8,
        (g[6] % 256) as u8,
        (g[7] / 256) as u8,
        (g[7] % 256) as u8,
    ];
    assert(r@ =~= octets_of_groups(g@));
    r
}

/// Reads the text of an IPv6 address.
pub fn parse_ipv6(text: &Vec<char>) -> (r: Option<[u8; 16]>)
    ensures
        match r {
            Some(octets) => ipv6_of(text@) == Some(octets@),
            None => ipv6_of(text@) is None,
        },
{
    match find_double_colon(text) {
        None => {
            let parts = split(text, ':');
            match parse_tail_groups(&parts) {
                Some(groups) => {
                    if groups.len() == 8 {
                        Some(octets_from_groups(&groups))
                    } else {
                        None
                    }
                },
                None => None,
            }
        },
        Some(at) => {
            proof {
                lemma_double_colon(text@);
            }
            let n = text.len();
            assert(at + 2 <= n);
            let head_text = slice(text, 0, at);
            let tail_text = slice(text, at + 2, n);
            assert(head_text@ =~= text@.take(at as int));
            assert(tail_text@ =~= text@.skip(at + 2));
            let head = match parse_side(&head_text, false) {
                Some(head) => head,
                None => {
                    return None;
                },
            };
            let tail = match parse_side(&tail_text, true) {
                Some(tail) => tail,
                None => {
                    return None;
                },
            };
            if head.len() > 7 || tail.len() > 7 - head.len() {
                return None;
            }
            let mut groups = head;
            let ghost h = groups@;
            let missing = 8 - groups.len() - tail.len();
            let mut i: usize = 0;
            while i < missing
                invariant
                    i <= missing,
                    groups@ == h + zero_groups(i as int),
                decreases missing - i,
            {
                groups.push(0);
                assert(groups@ =~= h + zero_groups(i + 1));
                i += 1;
            }
            let mut j: usize = 0;
            while j < tail.len()
                invariant
                    j <= tail.len(),
                    groups@ == h + zero_groups(missing as int) + tail@.take(j as int),
                decreases tail.len() - j,
            {
                groups.push(tail[j]);
                assert(groups@ =~= h + zero_groups(missing as int) + tail@.take(j + 1));
                j += 1;
            }
            assert(tail@.take(tail@.len() as int) =~= tail@);
            Some(octets_from_groups(&groups))
        },
    }
}

/// The texts of the groups, each in hexadecimal.
pub open spec fn group_texts(groups: Seq<u16>) -> Seq<Seq<char>> {
    Seq::new(groups.len(), |i: int| number_text(groups[i] as nat, 16))
}

/// The groups in hexadecimal, with a colon between each two.
pub open spec fn groups_text(groups: Seq<u16>) -> Seq<char> {
    joined(group_texts(groups), seq![':'])
}

/// The longest run of zero groups found from group `i` on, as its start
/// and length, given the run that ends before `i` and the longest found
/// before: of two runs of one length, the first.
pub open spec fn scan_zero_run(groups: Seq<u16>, i: int, cur: (int, int), best: (int, int)) -> (
    int,
    int,
)
    decreases groups.len() - i,
{
    if i < 0 || i >= groups.len() {
        best
    } else if groups[i] == 0 {
        let run = (
            if cur.1 == 0 {
                i
            } else {
                cur.0
            },
            cur.1 + 1,
        );
        scan_zero_run(
            groups,
            i + 1,
            run,
            if run.1 > best.1 {
                run
            } else {
                best
            },
        )
    } else {
        scan_zero_run(groups, i + 1, (0, 0), best)
    }
}

/// The first of the longest runs of zero groups, as its start and length.
pub open spec fn longest_zero_run(groups: Seq<u16>) -> (int, int) {
    scan_zero_run(groups, 0, (0, 0), (0, 0))
}

/// Whether the groups from `start`, `len` of them, are all zero.
pub open spec fn is_zero_run(groups: Seq<u16>, start: int, len: int) -> bool {
    &&& 0 <= start
    &&& 0 <= len
    &&& start + len <= groups.len()
    &&& forall|i: int| start <= i < start + len ==> #[trigger] groups[i] == 0
}

/// Whether the address is an IPv4 address mapped into IPv6: five groups of
/// zero, then one of `ffff`.
pub open spec fn is_mapped(groups: Seq<u16>) -> bool {
    groups[0] == 0 && groups[1] == 0 && groups[2] == 0 && groups[3] == 0 && groups[4] == 0
        && groups[5] == 0xffff
}

/// The text of groups in which two colons stand for the groups from
/// `start`, `len` of them.
pub open spec fn shortened_text(groups: Seq<u16>, start: int, len: int) -> Seq<char> {
    groups_text(groups.take(start)) + seq![':', ':'] + groups_text(groups.skip(start + len))
}

/// The text of an IPv4 address mapped into IPv6.
pub open spec fn mapped_text(quad: Seq<u8>) -> Seq<char> {
    seq![':', ':', 'f', 'f', 'f', 'f', ':'] + ipv4_text(quad)
}

/// The text of the groups of an IPv6 address that is no mapped IPv4
/// address.
pub open spec fn plain_text(groups: Seq<u16>) -> Seq<char> {
    let run = longest_zero_run(groups);
    if run.1 > 1 {
        shortened_text(groups, run.0, run.1)
    } else {
        groups_text(groups)
    }
}

/// The text of an IPv6 address of sixteen octets.
///
/// An IPv4 address mapped into IPv6 is written as `::ffff:` and a dotted
/// quad. Otherwise the groups are written in hexadecimal between colons,
/// and the first of the longest runs of two or more zero groups is
/// written as two colons.
pub open spec fn ipv6_text(octets: Seq<u8>) -> Seq<char> {
    if is_mapped(groups_of_octets(octets)) {
        mapped_text(octets.skip(12))
    } else {
        plain_text(groups_of_octets(octets))
    }
}

/// What the scan returns is a run of zero groups.
pub proof fn lemma_scan_zero_run(groups: Seq<u16>, i: int, cur: (int, int), best: (int, int))
    requires
        0 <= i <= groups.len(),
        is_zero_run(groups, best.0, best.1),
        cur.1 == 0 || (is_zero_run(groups, cur.0, cur.1) && cur.0 + cur.1 == i),
        cur.1 >= 0,
    ensures
        is_zero_run(groups, scan_zero_run(groups, i, cur, best).0, scan_zero_run(groups, i, cur, best).1),
    decreases groups.len() - i,
{
    if i < groups.len() {
        if groups[i] == 0 {
            let run = (
                if cur.1 == 0 {
                    i
                } else {
                    cur.0
                },
                cur.1 + 1,
            );
            assert(is_zero_run(groups, run.0, run.1));
            lemma_scan_zero_run(
                groups,
                i + 1,
                run,
                if run.1 > best.1 {
                    run
                } else {
                    best
                },
            );
        } else {
            lemma_scan_zero_run(groups, i + 1, (0, 0), best);
        }
    }
}

/// The hexadecimal text of a group is read back as that group; it holds
/// one to four hexadecimal digits and so neither a colon nor a dot.
pub proof fn lemma_group_text(group: u16)
    ensures
        group_of(number_text(group as nat, 16)) == Some(group),
        !number_text(group as nat, 16).contains(':'),
        !number_text(group as nat, 16).contains('.'),
        number_text(group as nat, 16).len() >= 1,
{
    let n = group as nat;
    let text = number_text(n, 16);
    lemma_number_text(n, 16);
    if n >= 16 {
        lemma_number_text(n / 16, 16);
        if n / 16 >= 16 {
            lemma_number_text(n / 16 / 16, 16);
            if n / 16 / 16 >= 16 {
                lemma_number_text(n / 16 / 16 / 16, 16);
            }
        }
    }
    if text.contains(':') {
        let i = choose|i: int| 0 <= i < text.len() && text[i] == ':';
        assert(is_digit_in(text[i], 16));
    }
    if text.contains('.') {
        let i = choose|i: int| 0 <= i < text.len() && text[i] == '.';
        assert(is_digit_in(text[i], 16));
    }
}

/// In parts joined by colons, where each part holds a character and no
/// colon, no two colons stand in a row, and none stands at either end.
pub proof fn lemma_joined_colons(parts: Seq<Seq<char>>)
    requires
        parts.len() >= 1,
        forall|i: int|
            0 <= i < parts.len() ==> (#[trigger] parts[i]).len() >= 1 && !parts[i].contains(':'),
    ensures
        joined(parts, seq![':']).len() >= 1,
        joined(parts, seq![':'])[0] != ':',
        joined(parts, seq![':']).last() != ':',
        forall|j: int|
            0 <= j < joined(parts, seq![':']).len() - 1 ==> !(joined(parts, seq![':'])[j] == ':'
                && #[trigger] joined(parts, seq![':'])[j + 1] == ':'),
    decreases parts.len(),
{
    let text = joined(parts, seq![':']);
    let first = parts[0];
    assert(first.len() >= 1 && !first.contains(':'));
    assert forall|j: int| 0 <= j < first.len() implies first[j] != ':' by {
        assert(first.contains(first[j]));
    }
    if parts.len() > 1 {
        let rest = parts.skip(1);
        assert forall|i: int| 0 <= i < rest.len() implies (#[trigger] rest[i]).len() >= 1
            && !rest[i].contains(':') by {
            assert(rest[i] == parts[i + 1]);
        }
        lemma_joined_colons(rest);
        let later = joined(rest, seq![':']);
        let n = first.len() as int;
        assert(text =~= first + seq![':'] + later);
        assert forall|j: int| 0 <= j < text.len() - 1 implies !(text[j] == ':' && #[trigger] text[j
            + 1] == ':') by {
            if j < n {
                assert(text[j] == first[j]);
            } else if j == n {
                assert(text[j + 1] == later[0]);
            } else {
                assert(text[j] == later[j - n - 1]);
                assert(text[j + 1] == later[j - n - 1 + 1]);
            }
        }
        assert(text.last() == later.last());
        assert(text[0] == first[0]);
    }
}

/// The text of groups between colons is read back as those groups, on
/// either side of two colons, and holds no two colons in a row.
pub proof fn lemma_groups_text(groups: Seq<u16>, quad_at_end: bool)
    ensures
        side_groups_of(groups_text(groups), quad_at_end) == Some(groups),
        groups.len() >= 1 ==> tail_groups_of(pieces(groups_text(groups), ':')) == Some(groups),
        groups.len() >= 1 ==> groups_text(groups).len() >= 1 && groups_text(groups)[0] != ':'
            && groups_text(groups).last() != ':',
        groups.len() == 0 ==> groups_text(groups).len() == 0,
        forall|j: int|
            0 <= j < groups_text(groups).len() - 1 ==> !(groups_text(groups)[j] == ':'
                && #[trigger] groups_text(groups)[j + 1] == ':'),
{
    let parts = group_texts(groups);
    let text = groups_text(groups);
    if groups.len() == 0 {
        assert(groups =~= Seq::<u16>::empty());
    } else {
        assert forall|i: int| 0 <= i < parts.len() implies (#[trigger] parts[i]).len() >= 1
            && !parts[i].contains(':') && group_of(parts[i]) == Some(groups[i]) by {
            lemma_group_text(groups[i]);
        }
        lemma_joined_colons(parts);
        lemma_pieces_of_joined(parts, ':');
        assert(groups_of(parts) == Some(groups)) by {
            assert(groups_of(parts)->0 =~= groups);
        }
        assert(ipv4_of(parts.last()) is None) by {
            lemma_group_text(groups.last());
            let last = parts.last();
            assert forall|j: int| 0 <= j < last.len() implies last[j] != '.' by {
                assert(last.contains(last[j]));
            }
            crate::text::lemma_first_index_is(last, '.', last.len() as int);
        }
    }
}

/// Sixteen octets are those of their eight groups.
pub proof fn lemma_octets_of_groups(octets: Seq<u8>)
    requires
        octets.len() == 16,
    ensures
        octets_of_groups(groups_of_octets(octets)) == octets,
{
    let groups = groups_of_octets(octets);
    assert forall|i: int| 0 <= i < 16 implies octets_of_groups(groups)[i] == octets[i] by {
        let g = i / 2;
        assert(groups[g] == octets[2 * g] as int * 256 + octets[2 * g + 1] as int);
    }
    assert(octets_of_groups(groups) =~= octets);
}

/// The text of an IPv6 address is read back as the address it was written
/// from.
pub proof fn lemma_ipv6_round_trip(octets: Seq<u8>)
    requires
        octets.len() == 16,
    ensures
        ipv6_of(ipv6_text(octets)) == Some(octets),
{
    let groups = groups_of_octets(octets);
    lemma_octets_of_groups(octets);
    if is_mapped(groups) {
        lemma_mapped_round_trip(octets);
    } else {
        lemma_unmapped_round_trip(groups);
    }
}

/// The text of groups, shortened where they hold a run of zeros, is read
/// back as those groups.
proof fn lemma_unmapped_round_trip(groups: Seq<u16>)
    requires
        groups.len() == 8,
    ensures
        ipv6_of(plain_text(groups)) == Some(octets_of_groups(groups)),
{
    let run = longest_zero_run(groups);
    lemma_scan_zero_run(groups, 0, (0, 0), (0, 0));
    if run.1 > 1 {
        lemma_shortened_round_trip(groups, run.0, run.1);
    } else {
        lemma_plain_round_trip(groups);
    }
}

/// The text of eight groups between colons is read back as those groups.
proof fn lemma_plain_round_trip(groups: Seq<u16>)
    requires
        groups.len() == 8,
    ensures
        ipv6_of(groups_text(groups)) == Some(octets_of_groups(groups)),
{
    lemma_groups_text(groups, true);
    lemma_double_colon_is(groups_text(groups), -1);
}

/// The text of an IPv4 address mapped into IPv6 is read back as that
/// address.
proof fn lemma_mapped_round_trip(octets: Seq<u8>)
    requires
        octets.len() == 16,
        is_mapped(groups_of_octets(octets)),
    ensures
        ipv6_of(mapped_text(octets.skip(12))) == Some(octets_of_groups(groups_of_octets(octets))),
{
    let groups = groups_of_octets(octets);
    let quad = octets.skip(12);
    let quad_text = ipv4_text(quad);
    let text = mapped_text(quad);
    let ffff = seq!['f', 'f', 'f', 'f'];
    let tail = ffff + seq![':'] + quad_text;
    assert(text =~= seq![':', ':'] + tail);
    lemma_double_colon_is(text, 0);
    assert(text.take(0) =~= Seq::<char>::empty());
    assert(text.skip(2) =~= tail);
    let found = seq![0xffffu16] + groups_of_quad(quad);
    lemma_mapped_tail(quad);
    assert(side_groups_of(text.skip(2), true) == Some(found));
    assert(side_groups_of(text.take(0), false) == Some(Seq::<u16>::empty()));
    assert(Seq::<u16>::empty() + zero_groups(8 - 0 - 3) + found =~= groups);
}

/// `ffff`, a colon and a dotted quad denote three groups.
proof fn lemma_mapped_tail(quad: Seq<u8>)
    requires
        quad.len() == 4,
    ensures
        side_groups_of(seq!['f', 'f', 'f', 'f'] + seq![':'] + ipv4_text(quad), true) == Some(
            seq![0xffffu16] + groups_of_quad(quad),
        ),
{
    let quad_text = ipv4_text(quad);
    let ffff = seq!['f', 'f', 'f', 'f'];
    let tail = ffff + seq![':'] + quad_text;
    lemma_ipv4_round_trip(quad);
    lemma_ffff();
    lemma_ipv4_text_chars(quad);
    let parts = seq![ffff, quad_text];
    assert(parts.skip(1) =~= seq![quad_text]);
    assert(joined(parts.skip(1), seq![':']) == quad_text);
    assert(joined(parts, seq![':']) =~= tail);
    assert(!ffff.contains(':')) by {
        if ffff.contains(':') {
            let j = choose|j: int| 0 <= j < ffff.len() && ffff[j] == ':';
            assert(ffff[j] == 'f');
        }
    }
    assert forall|i: int| 0 <= i < parts.len() implies !(#[trigger] parts[i]).contains(':') by {}
    lemma_pieces_of_joined(parts, ':');
    assert(tail.len() > 0);
    assert(parts.last() == quad_text);
    assert(parts.drop_last() =~= seq![ffff]);
    assert(groups_of(seq![ffff]) == Some(seq![0xffffu16])) by {
        assert(groups_of(seq![ffff])->0 =~= seq![0xffffu16]);
    }
}

/// A text with two colons in place of a run of zero groups is read back
/// as the groups it was written from.
proof fn lemma_shortened_round_trip(groups: Seq<u16>, start: int, len: int)
    requires
        groups.len() == 8,
        is_zero_run(groups, start, len),
        len >= 1,
    ensures
        ipv6_of(shortened_text(groups, start, len)) == Some(octets_of_groups(groups)),
{
    let head = groups.take(start);
    let tail = groups.skip(start + len);
    let a = groups_text(head);
    let b = groups_text(tail);
    let text = shortened_text(groups, start, len);
    lemma_groups_text(head, false);
    lemma_groups_text(tail, true);
    let at = a.len() as int;
    assert forall|j: int| 0 <= j < text.len() - 1 && j < at implies !(text[j] == ':'
        && #[trigger] text[j + 1] == ':') by {
        if j < at - 1 {
            assert(text[j] == a[j]);
            assert(text[j + 1] == a[j + 1]);
        } else {
            assert(text[j] == a.last());
        }
    }
    assert(text[at] == ':' && text[at + 1] == ':');
    lemma_double_colon_is(text, at);
    assert(text.take(at) =~= a);
    assert(text.skip(at + 2) =~= b);
    assert(head + zero_groups(8 - head.len() - tail.len()) + tail =~= groups);
}

/// `ffff` denotes the group of sixteen ones.
pub proof fn lemma_ffff()
    ensures
        group_of(seq!['f', 'f', 'f', 'f']) == Some(0xffffu16),
{
    let t4 = seq!['f', 'f', 'f', 'f'];
    let t3 = seq!['f', 'f', 'f'];
    let t2 = seq!['f', 'f'];
    let t1 = seq!['f'];
    assert(t4.drop_last() =~= t3);
    assert(t3.drop_last() =~= t2);
    assert(t2.drop_last() =~= t1);
    assert(t1.drop_last() =~= Seq::<char>::empty());
    assert(digit_value('f') == 15);
    assert(number_value(t1.drop_last(), 16) == 0);
    assert(number_value(t1, 16) == 0 * 16 + 15);
    assert(number_value(t2, 16) == 15 * 16 + 15);
    assert(number_value(t3, 16) == 255 * 16 + 15);
    assert(number_value(t4, 16) == 4095 * 16 + 15);
    assert(is_digit_in('f', 16));
}

/// A dotted quad holds no colon.
pub proof fn lemma_ipv4_text_chars(octets: Seq<u8>)
    requires
        octets.len() == 4,
    ensures
        forall|j: int|
            0 <= j < ipv4_text(octets).len() ==> is_digit_in(#[trigger] ipv4_text(octets)[j], 10)
                || ipv4_text(octets)[j] == '.',
        !ipv4_text(octets).contains(':'),
        ipv4_text(octets).len() >= 7,
{
    let a = number_text(octets[0] as nat, 10);
    let b = number_text(octets[1] as nat, 10);
    let c = number_text(octets[2] as nat, 10);
    let d = number_text(octets[3] as nat, 10);
    lemma_octet_text(octets[0]);
    lemma_octet_text(octets[1]);
    lemma_octet_text(octets[2]);
    lemma_octet_text(octets[3]);
    let dot = seq!['.'];
    let parts = seq![a, b, c, d];
    assert(parts.skip(1) =~= seq![b, c, d]);
    assert(parts.skip(1).skip(1) =~= seq![c, d]);
    assert(parts.skip(1).skip(1).skip(1) =~= seq![d]);
    assert(joined(seq![d], dot) == d);
    assert(joined(seq![c, d], dot) == c + dot + d);
    assert(joined(seq![b, c, d], dot) == b + dot + (c + dot + d));
    let text = ipv4_text(octets);
    assert(text =~= a + dot + b + dot + c + dot + d);
    assert forall|j: int| 0 <= j < text.len() implies is_digit_in(#[trigger] text[j], 10) || text[j]
        == '.' by {
        let la = a.len() as int;
        let lb = b.len() as int;
        let lc = c.len() as int;
        if j < la {
            assert(text[j] == a[j]);
        } else if j == la {
        } else if j < la + 1 + lb {
            assert(text[j] == b[j - la - 1]);
        } else if j == la + 1 + lb {
        } else if j < la + 1 + lb + 1 + lc {
            assert(text[j] == c[j - la - lb - 2]);
        } else if j == la + 1 + lb + 1 + lc {
        } else {
            assert(text[j] == d[j - la - lb - lc - 3]);
        }
    }
    if text.contains(':') {
        let j = choose|j: int| 0 <= j < text.len() && text[j] == ':';
        assert(is_digit_in(text[j], 10) || text[j] == '.');
    }
}

/// The eight groups of sixteen octets.
fn groups_from_octets(octets: &[u8; 16]) -> (r: Vec<u16>)
    ensures
        r@ == groups_of_octets(octets@),
{
    let mut r: Vec<u16> = Vec::new();
    let mut i: usize = 0;
    while i < 8
        invariant
            i <= 8,
            r@.len() == i,
            forall|j: int|
                0 <= j < i ==> #[trigger] r@[j] == (octets@[2 * j] as int * 256 + octets@[2 * j
                    + 1] as int) as u16,
        decreases 8 - i,
    {
        r.push(octets[2 * i] as u16 * 256 + octets[2 * i + 1] as u16);
        i += 1;
    }
    assert(r@ =~= groups_of_octets(octets@));
    r
}

/// Finds the first of the longest runs of zero groups.
fn find_zero_run(groups: &Vec<u16>) -> (r: (usize, usize))
    requires
        groups.len() == 8,
    ensures
        (r.0 as int, r.1 as int) == longest_zero_run(groups@),
        is_zero_run(groups@, r.0 as int, r.1 as int),
{
    let mut best: (usize, usize) = (0, 0);
    let mut cur: (usize, usize) = (0, 0);
    let mut i: usize = 0;
    while i < 8
        invariant
            i <= 8,
            groups.len() == 8,
            cur.0 <= 8 && cur.1 <= i,
            best.0 <= 8 && best.1 <= i,
            is_zero_run(groups@, best.0 as int, best.1 as int),
            cur.1 == 0 || (is_zero_run(groups@, cur.0 as int, cur.1 as int) && cur.0 + cur.1 == i),
            longest_zero_run(groups@) == scan_zero_run(
                groups@,
                i as int,
                (cur.0 as int, cur.1 as int),
                (best.0 as int, best.1 as int),
            ),
        decreases 8 - i,
    {
        if groups[i] == 0 {
            if cur.1 == 0 {
                cur = (i, 1);
            } else {
                cur = (cur.0, cur.1 + 1);
            }
            if cur.1 > best.1 {
                best = cur;
            }
        } else {
            cur = (0, 0);
        }
        i += 1;
    }
    best
}

/// Appends the groups from `from` up to `to`, in hexadecimal between
/// colons, to `out`.
fn push_groups(out: &mut Vec<char>, groups: &Vec<u16>, from: usize, to: usize)
    requires
        from <= to <= groups.len(),
    ensures
        final(out)@ == old(out)@ + groups_text(groups@.subrange(from as int, to as int)),
{
    let ghost before = out@;
    let ghost part = groups@.subrange(from as int, to as int);
    let mut i: usize = from;
    proof {
        assert(group_texts(part.take(0)) =~= Seq::<Seq<char>>::empty());
        assert(out@ =~= before + groups_text(part.take(0)));
    }
    while i < to
        invariant
            from <= i <= to <= groups.len(),
            part == groups@.subrange(from as int, to as int),
            out@ == before + groups_text(part.take(i - from)),
        decreases to - i,
    {
        let ghost done = part.take(i - from);
        let ghost word = number_text(groups@[i as int] as nat, 16);
        proof {
            lemma_joined_push(group_texts(done), seq![':'], word);
            assert(group_texts(part.take(i - from + 1)) =~= group_texts(done).push(word));
        }
        if i > from {
            out.push(':');
        }
        push_number(out, groups[i] as u32, 16);
        proof {
            if i > from {
                assert(out@ =~= before + (groups_text(done) + seq![':'] + word));
            } else {
                assert(groups_text(done).len() == 0);
                assert(out@ =~= before + word);
            }
        }
        i += 1;
    }
    assert(part.take(to - from) =~= part);
}

/// Appends the text of an IPv6 address to `out`.
pub fn push_ipv6(out: &mut Vec<char>, octets: &[u8; 16])
    ensures
        final(out)@ == old(out)@ + ipv6_text(octets@),
{
    let ghost before = out@;
    let groups = groups_from_octets(octets);
    if groups[0] == 0 && groups[1] == 0 && groups[2] == 0 && groups[3] == 0 && groups[4] == 0
        && groups[5] == 0xffff {
        out.push(':');
        out.push(':');
        out.push('f');
        out.push('f');
        out.push('f');
        out.push('f');
        out.push(':');
        let quad: [u8; 4] = [octets[12], octets[13], octets[14], octets[15]];
        assert(quad@ =~= octets@.skip(12));
        let ghost mid = out@;
        assert(mid =~= before + seq![':', ':', 'f', 'f', 'f', 'f', ':']);
        push_ipv4(out, &quad);
        assert(out@ =~= before + (seq![':', ':', 'f', 'f', 'f', 'f', ':'] + ipv4_text(quad@)));
    } else {
        let (start, len) = find_zero_run(&groups);
        if len > 1 {
            push_groups(out, &groups, 0, start);
            out.push(':');
            out.push(':');
            push_groups(out, &groups, start + len, 8);
            proof {
                let a = groups_text(groups@.subrange(0, start as int));
                let b = groups_text(groups@.subrange(start + len, 8));
                assert(groups@.subrange(0, start as int) =~= groups@.take(start as int));
                assert(groups@.subrange(start + len, 8) =~= groups@.skip(start + len));
                assert(out@ =~= before + (a + seq![':', ':'] + b));
            }
        } else {
            push_groups(out, &groups, 0, 8);
            assert(groups@.subrange(0, 8) =~= groups@);
        }
    }
}

/// Whether a character may stand in the text of an address: a
/// hexadecimal digit, a colon or a dot.
pub open spec fn is_address_char(c: char) -> bool {
    crate::text::is_hex_digit(c) || c == ':' || c == '.'
}

/// A text that holds a colon is no dotted quad.
pub proof fn lemma_not_ipv4(text: Seq<char>)
    requires
        text.contains(':'),
    ensures
        ipv4_of(text) is None,
{
    let parts = pieces(text, '.');
    crate::text::lemma_pieces_hold(text, '.', ':');
    let k = choose|k: int| 0 <= k < parts.len() && (#[trigger] parts[k]).contains(':');
    let j = choose|j: int| 0 <= j < parts[k].len() && parts[k][j] == ':';
    assert(!is_digit_in(parts[k][j], 10));
    assert(octet_of(parts[k]) is None);
}

/// The text of groups holds hexadecimal digits and colons only.
pub proof fn lemma_groups_text_chars(groups: Seq<u16>)
    ensures
        forall|j: int|
            0 <= j < groups_text(groups).len() ==> is_address_char(#[trigger] groups_text(groups)[j]),
{
    let parts = group_texts(groups);
    assert forall|i: int, j: int| 0 <= i < parts.len() && 0 <= j < parts[i].len() implies is_address_char(
        #[trigger] parts[i][j],
    ) by {
        lemma_number_text(groups[i] as nat, 16);
        assert(is_digit_in(parts[i][j], 16));
    }
    crate::text::lemma_joined_all(parts, seq![':'], |c: char| is_address_char(c));
}

/// The text of an IPv6 address holds a colon, and besides colons only
/// hexadecimal digits and dots.
pub proof fn lemma_ipv6_text_chars(octets: Seq<u8>)
    requires
        octets.len() == 16,
    ensures
        ipv6_text(octets).contains(':'),
        ipv6_text(octets).len() > 0,
        forall|j: int|
            0 <= j < ipv6_text(octets).len() ==> is_address_char(#[trigger] ipv6_text(octets)[j]),
{
    let groups = groups_of_octets(octets);
    let text = ipv6_text(octets);
    if is_mapped(groups) {
        let quad = octets.skip(12);
        lemma_ipv4_text_chars(quad);
        let head = seq![':', ':', 'f', 'f', 'f', 'f', ':'];
        let tail = ipv4_text(quad);
        assert(text =~= head + tail);
        assert(head.len() == 7);
        assert(text[0] == ':');
        assert forall|j: int| 0 <= j < text.len() implies is_address_char(#[trigger] text[j]) by {
            if j >= 7 {
                assert(text[j] == tail[j - 7]);
                assert(is_digit_in(tail[j - 7], 10) || tail[j - 7] == '.');
            }
        }
    } else {
        let run = longest_zero_run(groups);
        lemma_scan_zero_run(groups, 0, (0, 0), (0, 0));
        if run.1 > 1 {
            let a = groups_text(groups.take(run.0));
            let b = groups_text(groups.skip(run.0 + run.1));
            lemma_groups_text_chars(groups.take(run.0));
            lemma_groups_text_chars(groups.skip(run.0 + run.1));
            assert(text =~= a + seq![':', ':'] + b);
            let at = a.len() as int;
            assert(text[at] == ':');
            assert forall|j: int| 0 <= j < text.len() implies is_address_char(#[trigger] text[j]) by {
                if j < at {
                    assert(text[j] == a[j]);
                } else if j >= at + 2 {
                    assert(text[j] == b[j - at - 2]);
                }
            }
        } else {
            lemma_groups_text_chars(groups);
            let parts = group_texts(groups);
            lemma_group_text(groups[0]);
            assert(parts[0] == number_text(groups[0] as nat, 16));
            let rest = joined(parts.skip(1), seq![':']);
            assert(text =~= parts[0] + seq![':'] + rest);
            assert(text[parts[0].len() as int] == ':');
        }
    }
}

} // verus!
