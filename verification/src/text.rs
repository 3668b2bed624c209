//! Text as sequences of characters: splitting, joining, and numbers in
//! decimal and hexadecimal.

use vstd::prelude::*;

verus! {

/// `String::push`: the character is appended.
pub assume_specification[ String::push ](s: &mut String, c: char)
    ensures
        final(s)@ == old(s)@.push(c),
;

/// The characters of a string.
pub fn chars_of(s: &str) -> (r: Vec<char>)
    ensures
        r@ == s@,
{
    let mut r: Vec<char> = Vec::new();
    for c in it: s.chars()
        invariant
            it.seq() == s@,
            r@ == s@.subrange(0, it.index() as int),
    {
        proof {
            let n = it.index() as int;
            assert(s@.subrange(0, n + 1) =~= s@.subrange(0, n).push(s@[n]));
        }
        r.push(c);
    }
    assert(s@.subrange(0, s@.len() as int) =~= s@);
    r
}

/// The string of the given characters.
pub fn string_of(chars: &Vec<char>) -> (r: String)
    ensures
        r@ == chars@,
{
    let mut r = String::new();
    let mut i: usize = 0;
    while i < chars.len()
        invariant
            i <= chars.len(),
            r@ == chars@.subrange(0, i as int),
        decreases chars.len() - i,
    {
        assert(chars@.subrange(0, i + 1) =~= chars@.subrange(0, i as int).push(chars@[i as int]));
        r.push(chars[i]);
        i += 1;
    }
    assert(chars@.subrange(0, chars@.len() as int) =~= chars@);
    r
}

/// The views of the parts of a text.
pub open spec fn parts_view(parts: Seq<Vec<char>>) -> Seq<Seq<char>> {
    Seq::new(parts.len(), |i: int| parts[i]@)
}

/// The position of the first `sep` in `s`, or the length of `s` where it
/// holds none.
pub open spec fn first_index(s: Seq<char>, sep: char) -> int
    decreases s.len(),
{
    if s.len() == 0 {
        0
    } else if s[0] == sep {
        0
    } else {
        1 + first_index(s.skip(1), sep)
    }
}

/// The pieces of `s` between its separators: one more than it has
/// separators, in order, each without a separator.
pub open spec fn pieces(s: Seq<char>, sep: char) -> Seq<Seq<char>>
    decreases s.len(),
{
    let i = first_index(s, sep);
    if 0 <= i < s.len() {
        seq![s.take(i)] + pieces(s.skip(i + 1), sep)
    } else {
        seq![s]
    }
}

/// The parts in a row, with `sep` between each two.
pub open spec fn joined(parts: Seq<Seq<char>>, sep: Seq<char>) -> Seq<char>
    decreases parts.len(),
{
    if parts.len() == 0 {
        Seq::empty()
    } else if parts.len() == 1 {
        parts[0]
    } else {
        parts[0] + sep + joined(parts.skip(1), sep)
    }
}

/// `first_index` is within the text, nothing before it is the separator,
/// and the separator stands there unless it is the end.
pub proof fn lemma_first_index(s: Seq<char>, sep: char)
    ensures
        0 <= first_index(s, sep) <= s.len(),
        forall|j: int| 0 <= j < first_index(s, sep) ==> s[j] != sep,
        first_index(s, sep) < s.len() ==> s[first_index(s, sep)] == sep,
    decreases s.len(),
{
    if s.len() > 0 && s[0] != sep {
        lemma_first_index(s.skip(1), sep);
        assert forall|j: int| 0 <= j < first_index(s, sep) implies s[j] != sep by {
            if j > 0 {
                assert(s.skip(1)[j - 1] == s[j]);
            }
        }
    }
}

/// A position with no separator before it, which holds the separator or is
/// the end, is the `first_index`.
pub proof fn lemma_first_index_is(s: Seq<char>, sep: char, i: int)
    requires
        0 <= i <= s.len(),
        forall|j: int| 0 <= j < i ==> s[j] != sep,
        i < s.len() ==> s[i] == sep,
    ensures
        first_index(s, sep) == i,
{
    lemma_first_index(s, sep);
}

/// Splitting what was joined gives the parts back, where no part holds the
/// separator.
pub proof fn lemma_pieces_of_joined(parts: Seq<Seq<char>>, sep: char)
    requires
        parts.len() >= 1,
        forall|i: int| 0 <= i < parts.len() ==> !(#[trigger] parts[i]).contains(sep),
    ensures
        pieces(joined(parts, seq![sep]), sep) == parts,
    decreases parts.len(),
{
    let text = joined(parts, seq![sep]);
    if parts.len() == 1 {
        assert(!parts[0].contains(sep));
        assert forall|j: int| 0 <= j < text.len() implies text[j] != sep by {
            assert(parts[0].contains(text[j]));
        }
        lemma_first_index_is(text, sep, text.len() as int);
        assert(pieces(text, sep) =~= parts);
    } else {
        let rest = parts.skip(1);
        assert forall|i: int| 0 <= i < rest.len() implies !(#[trigger] rest[i]).contains(sep) by {
            assert(rest[i] == parts[i + 1]);
        }
        lemma_pieces_of_joined(rest, sep);
        let n = parts[0].len() as int;
        assert(!parts[0].contains(sep));
        assert forall|j: int| 0 <= j < n implies text[j] != sep by {
            assert(text[j] == parts[0][j]);
            assert(parts[0].contains(text[j]));
        }
        assert(text[n] == sep);
        lemma_first_index_is(text, sep, n);
        assert(text.take(n) =~= parts[0]);
        assert(text.skip(n + 1) =~= joined(rest, seq![sep]));
        assert(pieces(text, sep) =~= parts);
    }
}

/// Joining one part more appends the separator and the part.
pub proof fn lemma_joined_push(parts: Seq<Seq<char>>, sep: Seq<char>, last: Seq<char>)
    ensures
        joined(parts.push(last), sep) == if parts.len() == 0 {
            last
        } else {
            joined(parts, sep) + sep + last
        },
    decreases parts.len(),
{
    let all = parts.push(last);
    if parts.len() == 0 {
    } else if parts.len() == 1 {
        assert(all.skip(1) =~= seq![last]);
        assert(joined(all.skip(1), sep) == last);
    } else {
        lemma_joined_push(parts.skip(1), sep, last);
        assert(all.skip(1) =~= parts.skip(1).push(last));
        assert(all[0] == parts[0]);
        assert(joined(all, sep) =~= joined(parts, sep) + sep + last);
    }
}

/// Splits a text at each `sep`.
pub fn split(s: &Vec<char>, sep: char) -> (r: Vec<Vec<char>>)
    ensures
        parts_view(r@) == pieces(s@, sep),
{
    let mut parts: Vec<Vec<char>> = Vec::new();
    let mut cur: Vec<char> = Vec::new();
    let mut start: usize = 0;
    let mut i: usize = 0;
    proof {
        assert(s@.skip(0) =~= s@);
        assert(parts_view(parts@) + pieces(s@, sep) =~= pieces(s@, sep));
        assert(cur@ =~= s@.subrange(0, 0));
    }
    while i < s.len()
        invariant
            start <= i <= s.len(),
            cur@ == s@.subrange(start as int, i as int),
            forall|j: int| start <= j < i ==> s@[j] != sep,
            pieces(s@, sep) == parts_view(parts@) + pieces(s@.skip(start as int), sep),
        decreases s.len() - i,
    {
        let c = s[i];
        if c == sep {
            proof {
                let rest = s@.skip(start as int);
                lemma_first_index_is(rest, sep, i - start);
                assert(rest.take(i - start) =~= cur@);
                assert(rest.skip(i - start + 1) =~= s@.skip(i + 1));
                assert(parts_view(parts@.push(cur)) =~= parts_view(parts@).push(cur@));
                assert(pieces(s@, sep) =~= parts_view(parts@).push(cur@) + pieces(
                    s@.skip(i + 1),
                    sep,
                ));
            }
            parts.push(cur);
            cur = Vec::new();
            start = i + 1;
            assert(cur@ =~= s@.subrange(start as int, i + 1));
        } else {
            cur.push(c);
            assert(cur@ =~= s@.subrange(start as int, i + 1));
        }
        i += 1;
    }
    proof {
        let rest = s@.skip(start as int);
        lemma_first_index_is(rest, sep, rest.len() as int);
        assert(rest =~= cur@);
        assert(parts_view(parts@.push(cur)) =~= parts_view(parts@).push(cur@));
    }
    parts.push(cur);
    parts
}

/// Appends the characters of `more` to `out`.
pub fn append(out: &mut Vec<char>, more: &Vec<char>)
    ensures
        final(out)@ == old(out)@ + more@,
{
    let ghost before = out@;
    let mut i: usize = 0;
    while i < more.len()
        invariant
            i <= more.len(),
            out@ == before + more@.subrange(0, i as int),
        decreases more.len() - i,
    {
        out.push(more[i]);
        assert(out@ =~= before + more@.subrange(0, i + 1));
        i += 1;
    }
    assert(more@.subrange(0, more@.len() as int) =~= more@);
}

/// Appends the characters of a string to `out`.
pub fn append_str(out: &mut Vec<char>, more: &str)
    ensures
        final(out)@ == old(out)@ + more@,
{
    let chars = chars_of(more);
    append(out, &chars);
}

/// Puts the parts in a row, with `sep` between each two.
pub fn join(parts: &Vec<Vec<char>>, sep: &Vec<char>) -> (r: Vec<char>)
    ensures
        r@ == joined(parts_view(parts@), sep@),
{
    let mut r: Vec<char> = Vec::new();
    let mut i: usize = 0;
    while i < parts.len()
        invariant
            i <= parts.len(),
            r@ == joined(parts_view(parts@).take(i as int), sep@),
        decreases parts.len() - i,
    {
        proof {
            let all = parts_view(parts@);
            lemma_joined_push(all.take(i as int), sep@, all[i as int]);
            assert(all.take(i + 1) =~= all.take(i as int).push(all[i as int]));
        }
        if i > 0 {
            append(&mut r, sep);
        }
        append(&mut r, &parts[i]);
        i += 1;
    }
    assert(parts_view(parts@).take(parts@.len() as int) =~= parts_view(parts@));
    r
}

/// Whether `c` is a decimal digit.
pub open spec fn is_dec_digit(c: char) -> bool {
    '0' <= c && c <= '9'
}

/// Whether `c` is a hexadecimal digit, in either case.
pub open spec fn is_hex_digit(c: char) -> bool {
    is_dec_digit(c) || ('a' <= c && c <= 'f') || ('A' <= c && c <= 'F')
}

/// The value of a digit; 0 for what is no digit.
pub open spec fn digit_value(c: char) -> nat {
    if is_dec_digit(c) {
        (c as int - '0' as int) as nat
    } else if 'a' <= c && c <= 'f' {
        (c as int - 'a' as int + 10) as nat
    } else if 'A' <= c && c <= 'F' {
        (c as int - 'A' as int + 10) as nat
    } else {
        0
    }
}

/// Whether `c` is a digit of the given radix.
pub open spec fn is_digit_in(c: char, radix: nat) -> bool {
    is_hex_digit(c) && digit_value(c) < radix
}

/// Whether the text holds digits of the given radix only.
pub open spec fn all_digits_in(s: Seq<char>, radix: nat) -> bool {
    forall|i: int| 0 <= i < s.len() ==> is_digit_in(#[trigger] s[i], radix)
}

/// The number that the digits denote in the given radix.
pub open spec fn number_value(s: Seq<char>, radix: nat) -> nat
    decreases s.len(),
{
    if s.len() == 0 {
        0
    } else {
        number_value(s.drop_last(), radix) * radix + digit_value(s.last())
    }
}

/// The digit for a value below 16, in lower case.
pub open spec fn digit_char(d: nat) -> char {
    if d < 10 {
        (d + 48) as char
    } else {
        (d + 87) as char
    }
}

/// The shortest text of a number in the given radix: no leading zero but
/// in the text of zero itself, and letters in lower case.
pub open spec fn number_text(n: nat, radix: nat) -> Seq<char>
    decreases n,
{
    if n < radix || radix < 2 {
        seq![digit_char(n)]
    } else {
        proof {
            vstd::arithmetic::div_mod::lemma_div_decreases(n as int, radix as int);
        }
        number_text(n / radix, radix).push(digit_char(n % radix))
    }
}

/// The text of a number holds digits of the radix only, denotes that
/// number, and begins with a zero only where the number is zero.
pub proof fn lemma_number_text(n: nat, radix: nat)
    requires
        2 <= radix <= 16,
    ensures
        number_text(n, radix).len() >= 1,
        all_digits_in(number_text(n, radix), radix),
        number_value(number_text(n, radix), radix) == n,
        number_text(n, radix)[0] == '0' <==> n == 0,
        n < radix ==> number_text(n, radix).len() == 1,
        n >= radix ==> number_text(n, radix).len() == number_text(n / radix, radix).len() + 1,
    decreases n,
{
    let text = number_text(n, radix);
    if n < radix {
        assert(text.drop_last() =~= Seq::<char>::empty());
        assert(number_value(text.drop_last(), radix) == 0);
        assert(is_digit_in(digit_char(n), radix) && digit_value(digit_char(n)) == n);
        assert(text.last() == digit_char(n));
        assert(number_value(text, radix) == 0 * radix + n);
    } else {
        let q = n / radix;
        let d = n % radix;
        assert(q < n && q >= 1 && n == q * radix + d && d < radix) by (nonlinear_arith)
            requires
                n >= radix,
                radix >= 2,
                q == n / radix,
                d == n % radix,
        ;
        lemma_number_text(q, radix);
        assert(text.drop_last() =~= number_text(q, radix));
        assert(is_digit_in(digit_char(d), radix) && digit_value(digit_char(d)) == d);
        assert(text[0] == number_text(q, radix)[0]);
        assert(text.last() == digit_char(d));
        assert(number_value(text, radix) == q * radix + d);
    }
}

/// The value of the digits read so far is no more than that of all.
pub proof fn lemma_number_value_grows(s: Seq<char>, radix: nat, i: int)
    requires
        0 <= i <= s.len(),
        radix >= 1,
    ensures
        number_value(s.take(i), radix) <= number_value(s, radix),
    decreases s.len(),
{
    if i == s.len() {
        assert(s.take(i) =~= s);
    } else {
        lemma_number_value_grows(s.drop_last(), radix, i);
        assert(s.drop_last().take(i) =~= s.take(i));
        let v = number_value(s.drop_last(), radix);
        assert(v <= v * radix) by (nonlinear_arith)
            requires
                radix >= 1,
                v >= 0,
        ;
    }
}

/// The value of a character as a digit of the radix, if it is one.
pub fn digit_of(c: char, radix: u32) -> (r: Option<u32>)
    requires
        radix == 10 || radix == 16,
    ensures
        r == if is_digit_in(c, radix as nat) {
            Some(digit_value(c) as u32)
        } else {
            None
        },
{
    if c >= '0' && c <= '9' {
        Some(c as u32 - 48)
    } else if radix == 16 && c >= 'a' && c <= 'f' {
        Some(c as u32 - 87)
    } else if radix == 16 && c >= 'A' && c <= 'F' {
        Some(c as u32 - 55)
    } else {
        None
    }
}

/// Reads a number: one digit of the radix or more, denoting `max` at most.
pub fn parse_number(s: &Vec<char>, radix: u32, max: u32) -> (r: Option<u32>)
    requires
        radix == 10 || radix == 16,
        max <= 0xffff,
    ensures
        r == if s@.len() > 0 && all_digits_in(s@, radix as nat) && number_value(s@, radix as nat)
            <= max {
            Some(number_value(s@, radix as nat) as u32)
        } else {
            None
        },
{
    if s.len() == 0 {
        return None;
    }
    let mut acc: u32 = 0;
    let mut i: usize = 0;
    while i < s.len()
        invariant
            i <= s.len(),
            radix == 10 || radix == 16,
            max <= 0xffff,
            acc <= max,
            acc == number_value(s@.take(i as int), radix as nat),
            all_digits_in(s@.take(i as int), radix as nat),
        decreases s.len() - i,
    {
        proof {
            assert(s@.take(i + 1).drop_last() =~= s@.take(i as int));
        }
        match digit_of(s[i], radix) {
            None => {
                return None;
            },
            Some(d) => {
                acc = acc * radix + d;
                if acc > max {
                    proof {
                        lemma_number_value_grows(s@, radix as nat, i + 1);
                    }
                    return None;
                }
            },
        }
        i += 1;
    }
    assert(s@.take(s@.len() as int) =~= s@);
    Some(acc)
}

/// Appends the text of a number in the given radix to `out`.
pub fn push_number(out: &mut Vec<char>, n: u32, radix: u32)
    requires
        radix == 10 || radix == 16,
    ensures
        final(out)@ == old(out)@ + number_text(n as nat, radix as nat),
    decreases n,
{
    let ghost before = out@;
    if n >= radix {
        push_number(out, n / radix, radix);
    }
    let d = n % radix;
    let c = if d < 10 {
        (d as u8 + 48) as char
    } else {
        (d as u8 + 87) as char
    };
    out.push(c);
    proof {
        assert(c == digit_char(d as nat));
        if n >= radix {
            assert(out@ =~= before + number_text((n / radix) as nat, radix as nat).push(c));
        } else {
            assert(out@ =~= before + seq![c]);
        }
    }
}

/// Where every character of the parts and of the separator is of some
/// kind, so is every character of the parts joined.
pub proof fn lemma_joined_all(parts: Seq<Seq<char>>, sep: Seq<char>, kind: spec_fn(char) -> bool)
    requires
        forall|i: int, j: int|
            0 <= i < parts.len() && 0 <= j < parts[i].len() ==> kind(#[trigger] parts[i][j]),
        forall|j: int| 0 <= j < sep.len() ==> kind(#[trigger] sep[j]),
    ensures
        forall|j: int| 0 <= j < joined(parts, sep).len() ==> kind(#[trigger] joined(parts, sep)[j]),
    decreases parts.len(),
{
    let text = joined(parts, sep);
    if parts.len() == 1 {
        assert forall|j: int| 0 <= j < text.len() implies kind(#[trigger] text[j]) by {
            assert(text[j] == parts[0][j]);
        }
    } else if parts.len() > 1 {
        let rest = parts.skip(1);
        assert forall|i: int, j: int| 0 <= i < rest.len() && 0 <= j < rest[i].len() implies kind(
            #[trigger] rest[i][j],
        ) by {
            assert(rest[i][j] == parts[i + 1][j]);
        }
        lemma_joined_all(rest, sep, kind);
        let later = joined(rest, sep);
        let a = parts[0].len() as int;
        let b = sep.len() as int;
        assert forall|j: int| 0 <= j < text.len() implies kind(#[trigger] text[j]) by {
            if j < a {
                assert(text[j] == parts[0][j]);
            } else if j < a + b {
                assert(text[j] == sep[j - a]);
            } else {
                assert(text[j] == later[j - a - b]);
            }
        }
    }
}

/// A character of a text that is not the separator stands in one of the
/// text's pieces.
pub proof fn lemma_pieces_hold(text: Seq<char>, sep: char, c: char)
    requires
        text.contains(c),
        c != sep,
    ensures
        exists|k: int| 0 <= k < pieces(text, sep).len() && (#[trigger] pieces(text, sep)[k]).contains(c),
    decreases text.len(),
{
    let at = first_index(text, sep);
    lemma_first_index(text, sep);
    let j = choose|j: int| 0 <= j < text.len() && text[j] == c;
    if 0 <= at < text.len() {
        let rest = text.skip(at + 1);
        let later = pieces(rest, sep);
        if j < at {
            assert(text.take(at)[j] == c);
            assert(pieces(text, sep)[0].contains(c));
        } else {
            assert(rest[j - at - 1] == c);
            lemma_pieces_hold(rest, sep, c);
            let k = choose|k: int| 0 <= k < later.len() && (#[trigger] later[k]).contains(c);
            assert(pieces(text, sep)[k + 1] == later[k]);
        }
    } else {
        assert(pieces(text, sep)[0] == text);
    }
}

/// Whether `c` is white space, as Unicode has it.
pub open spec fn is_space(c: char) -> bool {
    let n = c as u32;
    (0x09 <= n && n <= 0x0d) || n == 0x20 || n == 0x85 || n == 0xa0 || n == 0x1680 || (0x2000 <= n
        && n <= 0x200a) || n == 0x2028 || n == 0x2029 || n == 0x202f || n == 0x205f || n == 0x3000
}

/// The text without the white space in front of it.
pub open spec fn trim_start(s: Seq<char>) -> Seq<char>
    decreases s.len(),
{
    if s.len() > 0 && is_space(s[0]) {
        trim_start(s.skip(1))
    } else {
        s
    }
}

/// The text without the white space at its end.
pub open spec fn trim_end(s: Seq<char>) -> Seq<char>
    decreases s.len(),
{
    if s.len() > 0 && is_space(s.last()) {
        trim_end(s.drop_last())
    } else {
        s
    }
}

/// The text without the white space around it.
pub open spec fn trimmed(s: Seq<char>) -> Seq<char> {
    trim_end(trim_start(s))
}

/// Whether a character is white space.
pub fn is_whitespace(c: char) -> (r: bool)
    ensures
        r == is_space(c),
{
    let n = c as u32;
    (0x09 <= n && n <= 0x0d) || n == 0x20 || n == 0x85 || n == 0xa0 || n == 0x1680 || (0x2000 <= n
        && n <= 0x200a) || n == 0x2028 || n == 0x2029 || n == 0x202f || n == 0x205f || n == 0x3000
}

/// The text without the white space around it.
pub fn trim(s: &Vec<char>) -> (r: Vec<char>)
    ensures
        r@ == trimmed(s@),
{
    let mut from: usize = 0;
    assert(s@.skip(0) =~= s@);
    while from < s.len() && is_whitespace(s[from])
        invariant
            from <= s.len(),
            trim_start(s@) == trim_start(s@.skip(from as int)),
        decreases s.len() - from,
    {
        assert(s@.skip(from as int).skip(1) =~= s@.skip(from + 1));
        from += 1;
    }
    let ghost mid = s@.skip(from as int);
    assert(trim_start(s@) == mid);
    let mut to: usize = s.len();
    assert(s@.subrange(from as int, to as int) =~= mid);
    while to > from && is_whitespace(s[to - 1])
        invariant
            from <= to <= s.len(),
            trim_end(mid) == trim_end(s@.subrange(from as int, to as int)),
        decreases to - from,
    {
        assert(s@.subrange(from as int, to as int).drop_last() =~= s@.subrange(
            from as int,
            to - 1,
        ));
        to -= 1;
    }
    let mut r: Vec<char> = Vec::new();
    let mut i: usize = from;
    while i < to
        invariant
            from <= i <= to <= s.len(),
            r@ == s@.subrange(from as int, i as int),
        decreases to - i,
    {
        r.push(s[i]);
        assert(r@ =~= s@.subrange(from as int, i + 1));
        i += 1;
    }
    r
}

} // verus!
