//! The configuration: networks in text form, the peers and the TLS files.

use crate::addr::IpAddr;
use crate::notation::{
    ipv4_of, ipv4_text, ipv6_of, ipv6_text, lemma_ipv4_round_trip, lemma_ipv4_text_chars,
    lemma_ipv6_round_trip, lemma_ipv6_text_chars, lemma_not_ipv4, parse_ipv4, parse_ipv6,
    parse_prefix_len, prefix_len_of, push_ipv4, push_ipv6, slice,
};
use crate::text::{
    append, chars_of, first_index, is_digit_in, is_space, joined, lemma_first_index_is,
    lemma_joined_all, lemma_number_text, lemma_pieces_of_joined, number_text, parts_view, pieces,
    push_number, split, string_of, trim, trim_end, trim_start, trimmed,
};
use vstd::prelude::*;

verus! {

/// A network in CIDR form: an address and a prefix length.
#[derive(Debug, Clone, Copy, PartialEq, Eq)]
pub struct Cidr(pub IpAddr, pub u8);

/// What is wrong with a text that should be a network in CIDR form.
#[derive(Debug, Clone, Copy, PartialEq, Eq)]
pub enum CidrErrorKind {
    /// The text holds no slash.
    Format,
    /// What stands before the slash is no IP address.
    Address,
    /// What stands after the slash is no number up to 255.
    Prefix,
    /// The prefix length is more than the address has bits: the most that
    /// the address admits is given.
    PrefixRange(u8),
}

/// The failure to read a network in CIDR form: what is wrong, and the text.
#[derive(Debug, Clone, PartialEq, Eq)]
pub struct ParseCidrError {
    kind: CidrErrorKind,
    input: String,
}

/// A network as plain values: whether it is IPv6, the octets of the
/// address, the prefix length.
pub type CidrValue = (bool, Seq<u8>, u8);

/// The most that the prefix length of an address may be.
pub open spec fn max_prefix(v6: bool) -> u8 {
    if v6 {
        128
    } else {
        32
    }
}

/// The address that a text denotes: an IPv4 address as a dotted quad, or an
/// IPv6 address.
pub open spec fn address_of(text: Seq<char>) -> Option<(bool, Seq<u8>)> {
    match ipv4_of(text) {
        Some(octets) => Some((false, octets)),
        None => match ipv6_of(text) {
            Some(octets) => Some((true, octets)),
            None => None,
        },
    }
}

/// The text of an address.
pub open spec fn address_text(v6: bool, octets: Seq<u8>) -> Seq<char> {
    if v6 {
        ipv6_text(octets)
    } else {
        ipv4_text(octets)
    }
}

/// The network that a text denotes: an address, a slash, a prefix length
/// that the address admits; or what is wrong with the text.
pub open spec fn cidr_of(text: Seq<char>) -> Result<CidrValue, CidrErrorKind> {
    let at = first_index(text, '/');
    if at >= text.len() {
        Err(CidrErrorKind::Format)
    } else {
        match address_of(text.take(at)) {
            None => Err(CidrErrorKind::Address),
            Some((v6, octets)) => match prefix_len_of(text.skip(at + 1)) {
                None => Err(CidrErrorKind::Prefix),
                Some(len) => if len > max_prefix(v6) {
                    Err(CidrErrorKind::PrefixRange(max_prefix(v6)))
                } else {
                    Ok((v6, octets, len))
                },
            },
        }
    }
}

/// The text of a network: its address, a slash, its prefix length.
pub open spec fn cidr_text(c: CidrValue) -> Seq<char> {
    address_text(c.0, c.1) + seq!['/'] + number_text(c.2 as nat, 10)
}

/// The octet at `index` of the netmask of a prefix length: the bits of the
/// prefix that fall into the octet are set, from the top.
pub open spec fn mask_octet(prefix: nat, index: nat) -> u8 {
    let bits = prefix as int - 8 * index as int;
    if bits >= 8 {
        255
    } else if bits <= 0 {
        0
    } else {
        (256 - vstd::arithmetic::power2::pow2((8 - bits) as nat)) as u8
    }
}

/// The words that a message begins with.
pub open spec fn message_head(kind: CidrErrorKind) -> Seq<char> {
    match kind {
        CidrErrorKind::Format => "Invalid CIDR format: "@,
        CidrErrorKind::Address => "Invalid IP address: "@,
        CidrErrorKind::Prefix => "Invalid subnet mask: "@,
        CidrErrorKind::PrefixRange(max) => "Subnet mask must be in the range 0-"@ + number_text(
            max as nat,
            10,
        ) + ": "@,
    }
}

impl ParseCidrError {
    /// What is wrong with the text.
    pub closed spec fn spec_kind(&self) -> CidrErrorKind {
        self.kind
    }

    /// The text that could not be read.
    pub closed spec fn spec_input(&self) -> Seq<char> {
        self.input@
    }

    /// What is wrong with the text.
    pub fn kind(&self) -> (r: CidrErrorKind)
        ensures
            r == self.spec_kind(),
    {
        self.kind
    }

    /// The text that could not be read.
    pub fn input(&self) -> (r: &str)
        ensures
            r@ == self.spec_input(),
    {
        self.input.as_str()
    }

    /// The message: what is wrong, then the text.
    pub fn to_string(&self) -> (r: String)
        ensures
            r@ == message_head(self.spec_kind()) + self.spec_input(),
    {
        let mut out: Vec<char> = Vec::new();
        match self.kind {
            CidrErrorKind::Format => {
                crate::text::append_str(&mut out, "Invalid CIDR format: ");
            },
            CidrErrorKind::Address => {
                crate::text::append_str(&mut out, "Invalid IP address: ");
            },
            CidrErrorKind::Prefix => {
                crate::text::append_str(&mut out, "Invalid subnet mask: ");
            },
            CidrErrorKind::PrefixRange(max) => {
                crate::text::append_str(&mut out, "Subnet mask must be in the range 0-");
                push_number(&mut out, max as u32, 10);
                crate::text::append_str(&mut out, ": ");
            },
        }
        assert(out@ =~= message_head(self.kind));
        let input = chars_of(self.input.as_str());
        append(&mut out, &input);
        string_of(&out)
    }
}

impl Cidr {
    /// The network as plain values.
    pub open spec fn value(self) -> CidrValue {
        (self.0.v6(), self.0.octets(), self.1)
    }

    /// The prefix length is one that the address admits.
    pub open spec fn wf(self) -> bool {
        self.1 <= self.0.width()
    }

    /// The address.
    pub fn ip(self) -> (r: IpAddr)
        ensures
            r == self.0,
    {
        self.0
    }

    /// The netmask of the prefix length as a dotted quad: the first bits
    /// are set, as many as the prefix is long, and all 32 where it is
    /// longer.
    pub fn netmask(self) -> (r: (u8, u8, u8, u8))
        ensures
            r.0 == mask_octet(self.1 as nat, 0),
            r.1 == mask_octet(self.1 as nat, 1),
            r.2 == mask_octet(self.1 as nat, 2),
            r.3 == mask_octet(self.1 as nat, 3),
    {
        (
            netmask_octet(self.1, 0),
            netmask_octet(self.1, 1),
            netmask_octet(self.1, 2),
            netmask_octet(self.1, 3),
        )
    }

    /// Reads a network in CIDR form: an address, a slash, a prefix length.
    pub fn from_str(cidr: &str) -> (r: Result<Cidr, ParseCidrError>)
        ensures
            match r {
                Ok(c) => cidr_of(cidr@) == Ok::<CidrValue, CidrErrorKind>(c.value()) && c.wf(),
                Err(e) => cidr_of(cidr@) == Err::<CidrValue, CidrErrorKind>(e.spec_kind())
                    && e.spec_input() == cidr@,
            },
    {
        let text = chars_of(cidr);
        match parse_cidr(&text) {
            Ok(c) => Ok(c),
            Err(kind) => Err(ParseCidrError { kind, input: string_of(&text) }),
        }
    }

    /// The network in CIDR form: its address, a slash, its prefix length.
    pub fn to_string(&self) -> (r: String)
        ensures
            r@ == cidr_text(self.value()),
    {
        let mut out: Vec<char> = Vec::new();
        push_cidr(&mut out, self);
        string_of(&out)
    }
}

/// One octet of a netmask.
fn netmask_octet(prefix: u8, index: u8) -> (r: u8)
    requires
        index < 4,
    ensures
        r == mask_octet(prefix as nat, index as nat),
{
    let start = 8 * index;
    proof {
        vstd::arithmetic::power2::lemma2_to64();
    }
    if prefix >= start + 8 {
        255
    } else if prefix <= start {
        0
    } else {
        let bits = prefix - start;
        if bits == 1 {
            128
        } else if bits == 2 {
            192
        } else if bits == 3 {
            224
        } else if bits == 4 {
            240
        } else if bits == 5 {
            248
        } else if bits == 6 {
            252
        } else {
            254
        }
    }
}

/// Reads a network in CIDR form.
pub fn parse_cidr(text: &Vec<char>) -> (r: Result<Cidr, CidrErrorKind>)
    ensures
        match r {
            Ok(c) => cidr_of(text@) == Ok::<CidrValue, CidrErrorKind>(c.value()) && c.wf(),
            Err(kind) => cidr_of(text@) == Err::<CidrValue, CidrErrorKind>(kind),
        },
{
    let mut at: usize = 0;
    while at < text.len() && text[at] != '/'
        invariant
            at <= text.len(),
            forall|j: int| 0 <= j < at ==> text@[j] != '/',
        decreases text.len() - at,
    {
        at += 1;
    }
    proof {
        lemma_first_index_is(text@, '/', at as int);
    }
    if at >= text.len() {
        return Err(CidrErrorKind::Format);
    }
    let front = slice(text, 0, at);
    let back = slice(text, at + 1, text.len());
    assert(front@ =~= text@.take(at as int));
    assert(back@ =~= text@.skip(at + 1));
    let ip = match parse_ipv4(&front) {
        Some(octets) => IpAddr::V4(octets),
        None => match parse_ipv6(&front) {
            Some(octets) => IpAddr::V6(octets),
            None => {
                return Err(CidrErrorKind::Address);
            },
        },
    };
    let len = match parse_prefix_len(&back) {
        Some(len) => len,
        None => {
            return Err(CidrErrorKind::Prefix);
        },
    };
    let max = ip.max_prefix();
    if len > max {
        return Err(CidrErrorKind::PrefixRange(max));
    }
    Ok(Cidr(ip, len))
}

/// Appends a network in CIDR form to `out`.
pub fn push_cidr(out: &mut Vec<char>, cidr: &Cidr)
    ensures
        final(out)@ == old(out)@ + cidr_text(cidr.value()),
{
    let ghost before = out@;
    match &cidr.0 {
        IpAddr::V4(octets) => {
            push_ipv4(out, octets);
        },
        IpAddr::V6(octets) => {
            push_ipv6(out, octets);
        },
    }
    out.push('/');
    push_number(out, cidr.1 as u32, 10);
    assert(out@ =~= before + cidr_text(cidr.value()));
}

/// The text of an address holds a character, and neither a slash, a comma
/// nor white space.
pub proof fn lemma_address_text_chars(v6: bool, octets: Seq<u8>)
    requires
        octets.len() == if v6 {
            16nat
        } else {
            4nat
        },
    ensures
        address_text(v6, octets).len() > 0,
        forall|j: int|
            0 <= j < address_text(v6, octets).len() ==> crate::notation::is_address_char(
                #[trigger] address_text(v6, octets)[j],
            ),
{
    if v6 {
        lemma_ipv6_text_chars(octets);
    } else {
        lemma_ipv4_text_chars(octets);
        let text = ipv4_text(octets);
        assert forall|j: int| 0 <= j < text.len() implies crate::notation::is_address_char(
            #[trigger] text[j],
        ) by {
            assert(is_digit_in(text[j], 10) || text[j] == '.');
        }
    }
}

/// The text of a network is read back as the network it was written from.
pub proof fn lemma_cidr_round_trip(c: CidrValue)
    requires
        c.1.len() == if c.0 {
            16nat
        } else {
            4nat
        },
        c.2 <= max_prefix(c.0),
    ensures
        cidr_of(cidr_text(c)) == Ok::<CidrValue, CidrErrorKind>(c),
{
    let a = address_text(c.0, c.1);
    let p = number_text(c.2 as nat, 10);
    let text = cidr_text(c);
    lemma_address_text_chars(c.0, c.1);
    lemma_number_text(c.2 as nat, 10);
    let at = a.len() as int;
    assert forall|j: int| 0 <= j < at implies text[j] != '/' by {
        assert(text[j] == a[j]);
        assert(crate::notation::is_address_char(a[j]));
    }
    assert(text[at] == '/');
    lemma_first_index_is(text, '/', at);
    assert(text.take(at) =~= a);
    assert(text.skip(at + 1) =~= p);
    if c.0 {
        lemma_ipv6_round_trip(c.1);
        lemma_ipv6_text_chars(c.1);
        lemma_not_ipv4(a);
    } else {
        lemma_ipv4_round_trip(c.1);
    }
    assert(p[0] != '+') by {
        assert(is_digit_in(p[0], 10));
    }
    assert(prefix_len_of(p) == Some(c.2));
}

/// The networks that a peer may use, as the configuration lists them.
#[derive(Debug, Clone)]
pub struct AllowedIps {
    pub values: Vec<Cidr>,
}

/// The failure to read a list of networks: what is wrong with an item, and
/// the item.
pub type ListError = (CidrErrorKind, Seq<char>);

/// The networks that the parts of a list denote. Each part is read without
/// the white space around it; a part that holds nothing else is passed
/// over; the first part that is no network fails the list.
pub open spec fn items_of(parts: Seq<Seq<char>>) -> Result<Seq<CidrValue>, ListError>
    decreases parts.len(),
{
    if parts.len() == 0 {
        Ok(Seq::empty())
    } else {
        let item = trimmed(parts[0]);
        if item.len() == 0 {
            items_of(parts.skip(1))
        } else {
            match cidr_of(item) {
                Err(kind) => Err((kind, item)),
                Ok(c) => match items_of(parts.skip(1)) {
                    Ok(rest) => Ok(seq![c] + rest),
                    Err(e) => Err(e),
                },
            }
        }
    }
}

/// The networks that a text denotes: networks in CIDR form between commas.
pub open spec fn list_of(text: Seq<char>) -> Result<Seq<CidrValue>, ListError> {
    items_of(pieces(text, ','))
}

/// The texts of the networks.
pub open spec fn cidr_texts(values: Seq<CidrValue>) -> Seq<Seq<char>> {
    Seq::new(values.len(), |i: int| cidr_text(values[i]))
}

/// The text of a list of networks: each in CIDR form, with a comma and a
/// space between each two.
pub open spec fn list_text(values: Seq<CidrValue>) -> Seq<char> {
    joined(cidr_texts(values), seq![',', ' '])
}

/// The networks of a list as plain values.
pub open spec fn values_of(list: Seq<Cidr>) -> Seq<CidrValue> {
    Seq::new(list.len(), |i: int| list[i].value())
}

impl AllowedIps {
    /// The networks, each as its address and its prefix length.
    pub fn iter(&self) -> (r: Vec<(IpAddr, u8)>)
        ensures
            r@.len() == self.values@.len(),
            forall|i: int|
                0 <= i < r@.len() ==> #[trigger] r@[i] == (self.values@[i].0, self.values@[i].1),
    {
        let mut r: Vec<(IpAddr, u8)> = Vec::new();
        let mut i: usize = 0;
        while i < self.values.len()
            invariant
                i <= self.values.len(),
                r@.len() == i,
                forall|j: int|
                    0 <= j < i ==> #[trigger] r@[j] == (self.values@[j].0, self.values@[j].1),
            decreases self.values.len() - i,
        {
            let c = self.values[i];
            r.push((c.0, c.1));
            i += 1;
        }
        r
    }

    /// Reads a list of networks in CIDR form, with commas between them.
    /// White space around a network is passed over, and so is an item that
    /// holds nothing else.
    pub fn from_str(s: &str) -> (r: Result<AllowedIps, ParseCidrError>)
        ensures
            match r {
                Ok(list) => list_of(s@) == Ok::<Seq<CidrValue>, ListError>(values_of(list.values@))
                    && forall|i: int|
                    0 <= i < list.values@.len() ==> (#[trigger] list.values@[i]).wf(),
                Err(e) => list_of(s@) == Err::<Seq<CidrValue>, ListError>(
                    (e.spec_kind(), e.spec_input()),
                ),
            },
    {
        let text = chars_of(s);
        let parts = split(&text, ',');
        let ghost all = parts_view(parts@);
        let mut result: Result<Vec<Cidr>, ParseCidrError> = Ok(Vec::new());
        let mut i: usize = parts.len();
        proof {
            assert(all.skip(all.len() as int) =~= Seq::<Seq<char>>::empty());
            assert(values_of(Seq::<Cidr>::empty()) =~= Seq::<CidrValue>::empty());
        }
        while i > 0
            invariant
                i <= parts.len(),
                all == parts_view(parts@),
                match result {
                    Ok(list) => items_of(all.skip(i as int)) == Ok::<Seq<CidrValue>, ListError>(
                        values_of(list@),
                    ) && forall|j: int| 0 <= j < list@.len() ==> (#[trigger] list@[j]).wf(),
                    Err(e) => items_of(all.skip(i as int)) == Err::<Seq<CidrValue>, ListError>(
                        (e.spec_kind(), e.spec_input()),
                    ),
                },
            decreases i,
        {
            i -= 1;
            proof {
                assert(all.skip(i as int)[0] == parts@[i as int]@);
                assert(all.skip(i as int).skip(1) =~= all.skip(i + 1));
            }
            let item = trim(&parts[i]);
            if item.len() > 0 {
                match parse_cidr(&item) {
                    Err(kind) => {
                        result = Err(ParseCidrError { kind, input: string_of(&item) });
                    },
                    Ok(c) => {
                        match result {
                            Ok(list) => {
                                let mut list = list;
                                let ghost before = list@;
                                list.insert(0, c);
                                assert(values_of(list@) =~= seq![c.value()] + values_of(before));
                                result = Ok(list);
                            },
                            Err(e) => {
                                result = Err(e);
                            },
                        }
                    },
                }
            }
        }
        assert(all.skip(0) =~= all);
        match result {
            Ok(values) => Ok(AllowedIps { values }),
            Err(e) => Err(e),
        }
    }

    /// The list in text form: each network in CIDR form, with a comma and a
    /// space between each two.
    pub fn to_string(&self) -> (r: String)
        ensures
            r@ == list_text(values_of(self.values@)),
    {
        let mut out: Vec<char> = Vec::new();
        let ghost texts = cidr_texts(values_of(self.values@));
        let mut i: usize = 0;
        assert(texts.take(0) =~= Seq::<Seq<char>>::empty());
        while i < self.values.len()
            invariant
                i <= self.values.len(),
                texts == cidr_texts(values_of(self.values@)),
                out@ == joined(texts.take(i as int), seq![',', ' ']),
            decreases self.values.len() - i,
        {
            let ghost done = texts.take(i as int);
            proof {
                crate::text::lemma_joined_push(done, seq![',', ' '], texts[i as int]);
                assert(texts.take(i + 1) =~= done.push(texts[i as int]));
            }
            if i > 0 {
                out.push(',');
                out.push(' ');
            }
            let ghost mid = out@;
            let c = self.values[i];
            push_cidr(&mut out, &c);
            proof {
                if i > 0 {
                    assert(mid =~= joined(done, seq![',', ' ']) + seq![',', ' ']);
                }
            }
            i += 1;
        }
        assert(texts.take(texts.len() as int) =~= texts);
        string_of(&out)
    }
}

/// Whether a character may stand in the text of a network.
pub open spec fn is_cidr_char(c: char) -> bool {
    crate::notation::is_address_char(c) || c == '/'
}

/// The text of a network holds a character, and only characters that are
/// neither a comma nor white space.
pub proof fn lemma_cidr_text_chars(c: CidrValue)
    requires
        c.1.len() == if c.0 {
            16nat
        } else {
            4nat
        },
    ensures
        cidr_text(c).len() > 0,
        forall|j: int| 0 <= j < cidr_text(c).len() ==> is_cidr_char(#[trigger] cidr_text(c)[j]),
        !cidr_text(c).contains(','),
        !is_space(cidr_text(c)[0]),
        !is_space(cidr_text(c).last()),
{
    let a = address_text(c.0, c.1);
    let p = number_text(c.2 as nat, 10);
    let text = cidr_text(c);
    lemma_address_text_chars(c.0, c.1);
    lemma_number_text(c.2 as nat, 10);
    let at = a.len() as int;
    assert forall|j: int| 0 <= j < text.len() implies is_cidr_char(#[trigger] text[j]) by {
        if j < at {
            assert(text[j] == a[j]);
        } else if j > at {
            assert(text[j] == p[j - at - 1]);
            assert(is_digit_in(p[j - at - 1], 10));
        }
    }
    if text.contains(',') {
        let j = choose|j: int| 0 <= j < text.len() && text[j] == ',';
        assert(is_cidr_char(text[j]));
    }
    assert(is_cidr_char(text[0]));
    assert(is_cidr_char(text[text.len() - 1]));
}

/// The parts of a list in which each network but the first has a space
/// before it.
pub open spec fn padded(texts: Seq<Seq<char>>, first_too: bool) -> Seq<Seq<char>> {
    Seq::new(
        texts.len(),
        |i: int|
            if i == 0 && !first_too {
                texts[i]
            } else {
                seq![' '] + texts[i]
            },
    )
}

/// Texts joined by a comma and a space are the padded texts joined by a
/// comma.
proof fn lemma_joined_padded(texts: Seq<Seq<char>>, first_too: bool)
    requires
        texts.len() >= 1,
    ensures
        joined(padded(texts, first_too), seq![',']) == if first_too {
            seq![' '] + joined(texts, seq![',', ' '])
        } else {
            joined(texts, seq![',', ' '])
        },
    decreases texts.len(),
{
    let parts = padded(texts, first_too);
    if texts.len() == 1 {
        assert(joined(parts, seq![',']) == parts[0]);
    } else {
        let rest = texts.skip(1);
        lemma_joined_padded(rest, true);
        assert(parts.skip(1) =~= padded(rest, true));
        let tail = joined(rest, seq![',', ' ']);
        assert(joined(parts, seq![',']) == parts[0] + seq![','] + (seq![' '] + tail));
        assert(joined(texts, seq![',', ' ']) == texts[0] + seq![',', ' '] + tail);
        if first_too {
            assert(joined(parts, seq![',']) =~= seq![' '] + joined(texts, seq![',', ' ']));
        } else {
            assert(joined(parts, seq![',']) =~= joined(texts, seq![',', ' ']));
        }
    }
}

/// A text of a network with a space before it is read as the network.
proof fn lemma_trimmed_item(c: CidrValue, with_space: bool)
    requires
        c.1.len() == if c.0 {
            16nat
        } else {
            4nat
        },
    ensures
        trimmed(
            if with_space {
                seq![' '] + cidr_text(c)
            } else {
                cidr_text(c)
            },
        ) == cidr_text(c),
{
    let t = cidr_text(c);
    lemma_cidr_text_chars(c);
    assert(trim_start(t) == t);
    assert(trim_end(t) == t);
    if with_space {
        let s = seq![' '] + t;
        assert(is_space(s[0]));
        assert(s.skip(1) =~= t);
    }
}

/// The padded texts of networks are read as those networks.
proof fn lemma_items_of_padded(values: Seq<CidrValue>, first_too: bool)
    requires
        forall|i: int|
            0 <= i < values.len() ==> (#[trigger] values[i]).1.len() == (if values[i].0 {
                16nat
            } else {
                4nat
            }) && values[i].2 <= max_prefix(values[i].0),
    ensures
        items_of(padded(cidr_texts(values), first_too)) == Ok::<Seq<CidrValue>, ListError>(values),
    decreases values.len(),
{
    let texts = cidr_texts(values);
    let parts = padded(texts, first_too);
    if values.len() == 0 {
        assert(values =~= Seq::<CidrValue>::empty());
    } else {
        let rest = values.skip(1);
        assert forall|i: int| 0 <= i < rest.len() implies (#[trigger] rest[i]).1.len() == (
        if rest[i].0 {
            16nat
        } else {
            4nat
        }) && rest[i].2 <= max_prefix(rest[i].0) by {
            assert(rest[i] == values[i + 1]);
        }
        lemma_items_of_padded(rest, true);
        assert(parts.skip(1) =~= padded(cidr_texts(rest), true));
        lemma_trimmed_item(values[0], first_too);
        lemma_cidr_text_chars(values[0]);
        lemma_cidr_round_trip(values[0]);
        assert(trimmed(parts[0]) == cidr_text(values[0]));
        assert(seq![values[0]] + rest =~= values);
    }
}

/// The text of a list of networks is read back as the list it was written
/// from.
pub proof fn lemma_list_round_trip(values: Seq<CidrValue>)
    requires
        forall|i: int|
            0 <= i < values.len() ==> (#[trigger] values[i]).1.len() == (if values[i].0 {
                16nat
            } else {
                4nat
            }) && values[i].2 <= max_prefix(values[i].0),
    ensures
        list_of(list_text(values)) == Ok::<Seq<CidrValue>, ListError>(values),
{
    let texts = cidr_texts(values);
    if values.len() == 0 {
        let text = list_text(values);
        assert(text.len() == 0);
        assert(pieces(text, ',') =~= seq![text]);
        assert(trimmed(text) == text);
        let one = pieces(text, ',');
        assert(one.skip(1) =~= Seq::<Seq<char>>::empty());
        assert(items_of(one.skip(1)) == Ok::<Seq<CidrValue>, ListError>(Seq::empty()));
        assert(trimmed(one[0]).len() == 0);
        assert(items_of(one) == items_of(one.skip(1)));
        assert(values =~= Seq::<CidrValue>::empty());
    } else {
        let parts = padded(texts, false);
        lemma_joined_padded(texts, false);
        assert forall|i: int| 0 <= i < parts.len() implies !(#[trigger] parts[i]).contains(',') by {
            lemma_cidr_text_chars(values[i]);
            let t = texts[i];
            if parts[i].contains(',') {
                let j = choose|j: int| 0 <= j < parts[i].len() && parts[i][j] == ',';
                if i == 0 {
                    assert(t.contains(parts[i][j]));
                } else {
                    assert(j > 0);
                    assert(parts[i][j] == t[j - 1]);
                    assert(t.contains(t[j - 1]));
                }
            }
        }
        lemma_pieces_of_joined(parts, ',');
        lemma_items_of_padded(values, false);
        assert(list_text(values) == joined(parts, seq![',']));
        assert(pieces(list_text(values), ',') == parts);
    }
}

/// The port that the server listens on where the configuration names none.
pub const DEFAULT_LISTEN_PORT: u16 = 10086;

/// The MTU of the TUN device where the configuration names none.
pub const DEFAULT_MTU: usize = 1434;

/// The routing mark of tunnel traffic where the configuration names none.
pub const DEFAULT_FWMARK: u32 = 19988;

/// The port that the client dials where the server's URL names none.
pub const DEFAULT_SERVER_PORT: u16 = 443;

/// The seconds after which an idle connection is closed.
pub const IDLE_TIMEOUT_SECS: u64 = 120;

/// The seconds between two keep-alive packets of the client.
pub const KEEP_ALIVE_SECS: u64 = 15;

/// The bytes that a QUIC packet needs beyond the IP packet it carries.
pub const DATAGRAM_OVERHEAD: u16 = 60;

/// The name of the TUN device where the configuration names none.
pub open spec fn default_tun_name() -> Seq<char> {
    "tun0"@
}

/// The files of the TLS material.
#[derive(Debug, Clone)]
pub struct Tls {
    pub key: String,
    pub cert: String,
    pub ca_cert: String,
}

/// A client that the server admits: the file of its certificate chain and
/// the networks it may use.
#[derive(Debug, Clone)]
pub struct ClientPeer {
    pub client_cert: String,
    pub allowed_ips: AllowedIps,
}

/// The server that a client dials: host and port as its URL has them, the
/// name it is known by in TLS, and the networks routed to it.
#[derive(Debug, Clone)]
pub struct ServerPeer {
    pub host: Option<String>,
    pub port: Option<u16>,
    pub server_name: Option<String>,
    pub allowed_ips: AllowedIps,
}

/// The network settings, by role.
#[derive(Debug, Clone)]
pub enum Network {
    Server {
        name: Option<String>,
        address: Cidr,
        mtu: Option<usize>,
        port: Option<u16>,
        client: Vec<ClientPeer>,
        fwmark: Option<u32>,
        dns: Option<String>,
    },
    Client {
        name: Option<String>,
        address: Cidr,
        mtu: Option<usize>,
        server: ServerPeer,
        fwmark: Option<u32>,
        dns: Option<String>,
    },
}

/// The whole configuration.
#[derive(Debug, Clone)]
pub struct Conf {
    pub network: Network,
    pub tls: Tls,
}

/// What the TUN device is made with.
#[derive(Debug)]
pub struct TunSettings {
    pub name: String,
    pub address: IpAddr,
    pub netmask: (u8, u8, u8, u8),
    pub mtu: i32,
}

/// Whether a path is absolute, as `std::path::Path::is_absolute` has it.
pub uninterp spec fn path_absolute(path: Seq<char>) -> bool;

/// A path adjoined to another, as `std::path::Path::join` has it.
pub uninterp spec fn path_joined(base: Seq<char>, path: Seq<char>) -> Seq<char>;

/// A path without its last component, as `std::path::PathBuf::pop` leaves
/// it.
pub uninterp spec fn path_popped(path: Seq<char>) -> Seq<char>;

/// `Path::is_absolute`: whether the path is absolute on this platform.
#[verifier::external_body]
fn is_absolute_path(path: &str) -> (r: bool)
    ensures
        r == path_absolute(path@),
{
    std::path::Path::new(path).is_absolute()
}

/// `Path::join`: the path adjoined to the base; an absolute path replaces
/// the base.
#[verifier::external_body]
fn join_paths(base: &str, path: &str) -> (r: String)
    ensures
        r@ == path_joined(base@, path@),
        path_absolute(path@) ==> r@ == path@,
{
    std::path::Path::new(base).join(path).to_string_lossy().into_owned()
}

/// `PathBuf::pop`: the path without its last component; the path itself
/// where it has no parent.
#[verifier::external_body]
fn pop_path(path: &str) -> (r: String)
    ensures
        r@ == path_popped(path@),
{
    let mut buf = std::path::PathBuf::from(path);
    buf.pop();
    buf.to_string_lossy().into_owned()
}

/// The directory that relative paths of the configuration start from: the
/// configuration file's own directory, made absolute by the current
/// directory where it is not; nothing where that would be needed and is not
/// known.
pub open spec fn base_of(config: Seq<char>, cwd: Option<Seq<char>>, config_is_file: bool) -> Option<
    Seq<char>,
> {
    let whole = if path_absolute(config) {
        Some(config)
    } else {
        match cwd {
            Some(dir) => Some(path_joined(dir, config)),
            None => None,
        }
    };
    match whole {
        Some(path) => Some(
            if config_is_file {
                path_popped(path)
            } else {
                path
            },
        ),
        None => None,
    }
}

/// A path of the configuration, resolved: an absolute path as it stands, a
/// relative one adjoined to the base.
pub open spec fn resolved(base: Option<Seq<char>>, file: Seq<char>) -> Option<Seq<char>> {
    if path_absolute(file) {
        Some(file)
    } else {
        match base {
            Some(dir) => Some(path_joined(dir, file)),
            None => None,
        }
    }
}

/// The current directory could not be had, and a relative path needed it.
#[derive(Debug, Clone, Copy, PartialEq, Eq)]
pub struct NoCurrentDir;

/// Resolves one path against the configuration file's directory.
fn update_relative_path(config: &str, cwd: Option<&str>, config_is_file: bool, file: &mut String) -> (r:
    Result<(), NoCurrentDir>)
    ensures
        match resolved(base_of(config@, spec_cwd(cwd), config_is_file), old(file)@) {
            Some(path) => r is Ok && final(file)@ == path,
            None => r is Err && final(file)@ == old(file)@,
        },
{
    if !is_absolute_path(file.as_str()) {
        let whole = if is_absolute_path(config) {
            let mut whole = String::new();
            whole.append(config);
            assert(whole@ =~= config@);
            whole
        } else {
            match cwd {
                Some(dir) => join_paths(dir, config),
                None => {
                    return Err(NoCurrentDir);
                },
            }
        };
        let base = if config_is_file {
            pop_path(whole.as_str())
        } else {
            whole
        };
        let joined = join_paths(base.as_str(), file.as_str());
        *file = joined;
    }
    Ok(())
}

/// The current directory as characters.
pub open spec fn spec_cwd(cwd: Option<&str>) -> Option<Seq<char>> {
    match cwd {
        Some(dir) => Some(dir@),
        None => None,
    }
}

impl Tls {
    /// Resolves the three paths against the directory of the configuration
    /// file `base`.
    ///
    /// A path that is absolute stays. A relative one is adjoined to the
    /// directory of the configuration file, which is made absolute by the
    /// current directory `cwd` where `base` is relative, and loses its last
    /// component where `base_is_file` says that it is a file. Where the
    /// current directory is needed and not known, nothing changes.
    pub fn update_relative_paths(&mut self, base: &str, cwd: Option<&str>, base_is_file: bool) -> (r:
        Result<(), NoCurrentDir>)
        ensures
            ({
                let dir = base_of(base@, spec_cwd(cwd), base_is_file);
                match (
                    resolved(dir, old(self).key@),
                    resolved(dir, old(self).cert@),
                    resolved(dir, old(self).ca_cert@),
                ) {
                    (Some(key), Some(cert), Some(ca_cert)) => r is Ok && final(self).key@ == key
                        && final(self).cert@ == cert && final(self).ca_cert@ == ca_cert,
                    _ => r is Err && final(self).key@ == old(self).key@ && final(self).cert@ == old(
                        self,
                    ).cert@ && final(self).ca_cert@ == old(self).ca_cert@,
                }
            }),
    {
        match update_relative_path(base, cwd, base_is_file, &mut self.key) {
            Ok(()) => {},
            Err(e) => {
                return Err(e);
            },
        }
        match update_relative_path(base, cwd, base_is_file, &mut self.cert) {
            Ok(()) => {},
            Err(e) => {
                return Err(e);
            },
        }
        update_relative_path(base, cwd, base_is_file, &mut self.ca_cert)
    }
}

impl ServerPeer {
    /// The port to dial: that of the URL, or 443.
    pub fn remote_port(&self) -> (r: u16)
        ensures
            r == match self.port {
                Some(port) => port,
                None => DEFAULT_SERVER_PORT,
            },
    {
        match self.port {
            Some(port) => port,
            None => DEFAULT_SERVER_PORT,
        }
    }

    /// The name to present the server with in TLS: the configured server
    /// name, else the host of the URL.
    pub fn tls_name(&self) -> (r: Option<&str>)
        ensures
            match r {
                Some(name) => match self.server_name {
                    Some(chosen) => name@ == chosen@,
                    None => self.host matches Some(host) && name@ == host@,
                },
                None => self.server_name is None && self.host is None,
            },
    {
        match &self.server_name {
            Some(name) => Some(name.as_str()),
            None => match &self.host {
                Some(host) => Some(host.as_str()),
                None => None,
            },
        }
    }
}

impl Network {
    /// The address of the TUN device with its prefix length.
    pub fn address(&self) -> (r: Cidr)
        ensures
            r == self.spec_address(),
    {
        match self {
            Network::Server { address, .. } => *address,
            Network::Client { address, .. } => *address,
        }
    }

    /// The MTU that the configuration names.
    pub fn mtu(&self) -> (r: Option<usize>)
        ensures
            r == self.spec_mtu(),
    {
        match self {
            Network::Server { mtu, .. } => *mtu,
            Network::Client { mtu, .. } => *mtu,
        }
    }

    /// The routing mark that the configuration names.
    pub fn fwmark(&self) -> (r: Option<u32>)
        ensures
            r == self.spec_fwmark(),
    {
        match self {
            Network::Server { fwmark, .. } => *fwmark,
            Network::Client { fwmark, .. } => *fwmark,
        }
    }

    /// The name of the TUN device that the configuration names.
    pub fn name(&self) -> (r: Option<&str>)
        ensures
            match r {
                Some(name) => self.spec_name() == Some(name@),
                None => self.spec_name() is None,
            },
    {
        let name = match self {
            Network::Server { name, .. } => name,
            Network::Client { name, .. } => name,
        };
        match name {
            Some(name) => Some(name.as_str()),
            None => None,
        }
    }

    /// The DNS server that the configuration names.
    pub fn dns(&self) -> (r: Option<&str>)
        ensures
            match r {
                Some(dns) => self.spec_dns() == Some(dns@),
                None => self.spec_dns() is None,
            },
    {
        let dns = match self {
            Network::Server { dns, .. } => dns,
            Network::Client { dns, .. } => dns,
        };
        match dns {
            Some(dns) => Some(dns.as_str()),
            None => None,
        }
    }

    /// The address of the TUN device with its prefix length.
    pub open spec fn spec_address(&self) -> Cidr {
        match self {
            Network::Server { address, .. } => *address,
            Network::Client { address, .. } => *address,
        }
    }

    /// The MTU that the configuration names.
    pub open spec fn spec_mtu(&self) -> Option<usize> {
        match self {
            Network::Server { mtu, .. } => *mtu,
            Network::Client { mtu, .. } => *mtu,
        }
    }

    /// The routing mark that the configuration names.
    pub open spec fn spec_fwmark(&self) -> Option<u32> {
        match self {
            Network::Server { fwmark, .. } => *fwmark,
            Network::Client { fwmark, .. } => *fwmark,
        }
    }

    /// The name of the TUN device that the configuration names.
    pub open spec fn spec_name(&self) -> Option<Seq<char>> {
        match self {
            Network::Server { name: Some(name), .. } => Some(name@),
            Network::Client { name: Some(name), .. } => Some(name@),
            _ => None,
        }
    }

    /// The DNS server that the configuration names.
    pub open spec fn spec_dns(&self) -> Option<Seq<char>> {
        match self {
            Network::Server { dns: Some(dns), .. } => Some(dns@),
            Network::Client { dns: Some(dns), .. } => Some(dns@),
            _ => None,
        }
    }

    /// The name of the TUN device: the configured one, or `tun0`.
    pub open spec fn spec_tun_name(&self) -> Seq<char> {
        match self.spec_name() {
            Some(name) => name,
            None => default_tun_name(),
        }
    }

    /// The name of the TUN device: the configured one, or `tun0`.
    pub fn tun_name(&self) -> (r: String)
        ensures
            r@ == self.spec_tun_name(),
    {
        let mut r = String::new();
        match self.name() {
            Some(name) => {
                r.append(name);
                assert(r@ =~= name@);
            },
            None => {
                r.append("tun0");
                assert(r@ =~= "tun0"@);
            },
        }
        r
    }

    /// The port that the server listens on: the configured one, or 10086.
    /// A client listens on none.
    pub fn listen_port(&self) -> (r: Option<u16>)
        ensures
            r == match self {
                Network::Server { port: Some(port), .. } => Some(*port),
                Network::Server { port: None, .. } => Some(DEFAULT_LISTEN_PORT),
                Network::Client { .. } => None,
            },
    {
        match self {
            Network::Server { port: Some(port), .. } => Some(*port),
            Network::Server { port: None, .. } => Some(DEFAULT_LISTEN_PORT),
            Network::Client { .. } => None,
        }
    }

    /// The routing mark of tunnel traffic: the configured one, or 19988.
    pub fn effective_fwmark(&self) -> (r: u32)
        ensures
            r == match self.spec_fwmark() {
                Some(mark) => mark,
                None => DEFAULT_FWMARK,
            },
    {
        match self.fwmark() {
            Some(mark) => mark,
            None => DEFAULT_FWMARK,
        }
    }

    /// What the TUN device is made with: the name, the address, the netmask
    /// of the address's prefix length, and the MTU, each as configured or
    /// by its default.
    pub fn tun_settings(&self) -> (r: TunSettings)
        ensures
            r.name@ == self.spec_tun_name(),
            r.address == self.spec_address().0,
            r.netmask.0 == mask_octet(self.spec_address().1 as nat, 0),
            r.netmask.1 == mask_octet(self.spec_address().1 as nat, 1),
            r.netmask.2 == mask_octet(self.spec_address().1 as nat, 2),
            r.netmask.3 == mask_octet(self.spec_address().1 as nat, 3),
            r.mtu == match self.spec_mtu() {
                Some(mtu) => mtu,
                None => DEFAULT_MTU,
            } as i32,
    {
        let mtu = match self.mtu() {
            Some(mtu) => mtu,
            None => DEFAULT_MTU,
        };
        TunSettings {
            name: self.tun_name(),
            address: self.address().ip(),
            netmask: self.address().netmask(),
            mtu: #[verifier::truncate]
            (mtu as i32),
        }
    }
}

/// The size of the first QUIC packets for a TUN device of the given MTU:
/// the MTU and the bytes that QUIC adds. Nothing where that is no size of a
/// packet.
pub fn initial_mtu(tun_mtu: i32) -> (r: Option<u16>)
    ensures
        r == if 0 <= tun_mtu && tun_mtu + DATAGRAM_OVERHEAD <= u16::MAX {
            Some((tun_mtu + DATAGRAM_OVERHEAD) as u16)
        } else {
            None
        },
{
    if tun_mtu < 0 || tun_mtu > 65535 - 60 {
        None
    } else {
        Some(tun_mtu as u16 + DATAGRAM_OVERHEAD)
    }
}

} // verus!
