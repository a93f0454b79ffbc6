use vstd::prelude::*;
use crate::envelope::{Envelope, EnvelopeModel, RelayMessage};
use vstd::string::StringSliceAdditionalSpecFns;
use vstd::utf8::{decode_utf8, valid_utf8};

verus! {

/// The decimal digit for `d < 10`.
pub open spec fn digit_char(d: nat) -> char {
    if d == 0 { '0' } else if d == 1 { '1' } else if d == 2 { '2' } else if d == 3 { '3' }
    else if d == 4 { '4' } else if d == 5 { '5' } else if d == 6 { '6' } else if d == 7 { '7' }
    else if d == 8 { '8' } else { '9' }
}

/// The value of a decimal digit, if `c` is one.
pub open spec fn digit_value(c: char) -> Option<nat> {
    if c == '0' { Some(0) } else if c == '1' { Some(1) } else if c == '2' { Some(2) }
    else if c == '3' { Some(3) } else if c == '4' { Some(4) } else if c == '5' { Some(5) }
    else if c == '6' { Some(6) } else if c == '7' { Some(7) } else if c == '8' { Some(8) }
    else if c == '9' { Some(9) } else { None }
}

/// The lowercase hexadecimal digit for `d < 16`.
pub open spec fn hex_char(d: nat) -> char {
    if d < 10 { digit_char(d) } else if d == 10 { 'a' } else if d == 11 { 'b' } else if d == 12 { 'c' }
    else if d == 13 { 'd' } else if d == 14 { 'e' } else { 'f' }
}

/// The value of a lowercase hexadecimal digit, if `c` is one.
pub open spec fn hex_value(c: char) -> Option<nat> {
    if c == 'a' { Some(10) } else if c == 'b' { Some(11) } else if c == 'c' { Some(12) }
    else if c == 'd' { Some(13) } else if c == 'e' { Some(14) } else if c == 'f' { Some(15) }
    else { digit_value(c) }
}

/// The decimal representation of `n`, without leading zeros.
pub open spec fn decimal(n: nat) -> Seq<char>
    decreases n,
{
    if n < 10 {
        seq![digit_char(n)]
    } else {
        decimal(n / 10).push(digit_char(n % 10))
    }
}

/// How one character of a text is written inside a JSON string literal:
/// the quote and the backslash are escaped, the usual control characters
/// get their short escape, the other control characters a `\u00XX` escape.
pub open spec fn escape_char(c: char) -> Seq<char> {
    if c == '"' {
        seq!['\\', '"']
    } else if c == '\\' {
        seq!['\\', '\\']
    } else if c == '\n' {
        seq!['\\', 'n']
    } else if c == '\r' {
        seq!['\\', 'r']
    } else if c == '\t' {
        seq!['\\', 't']
    } else if c == '\u{8}' {
        seq!['\\', 'b']
    } else if c == '\u{c}' {
        seq!['\\', 'f']
    } else if (c as u32) < 0x20 {
        seq!['\\', 'u', '0', '0', hex_char((c as u32) as nat / 16), hex_char((c as u32) as nat % 16)]
    } else {
        seq![c]
    }
}

/// The body of a JSON string literal holding `s`.
pub open spec fn escape(s: Seq<char>) -> Seq<char>
    decreases s.len(),
{
    if s.len() == 0 {
        seq![]
    } else {
        escape_char(s[0]) + escape(s.drop_first())
    }
}

pub open spec fn keep_alive_text() -> Seq<char> {
    seq!['"', 'K', 'e', 'e', 'p', 'A', 'l', 'i', 'v', 'e', '"']
}

/// `{"Message":{"channel_id":`
pub open spec fn message_head() -> Seq<char> {
    seq!['{', '"', 'M', 'e', 's', 's', 'a', 'g', 'e', '"', ':', '{', '"', 'c', 'h', 'a', 'n', 'n', 'e', 'l', '_', 'i', 'd', '"', ':']
}

/// `,"content":"`
pub open spec fn message_middle() -> Seq<char> {
    seq![',', '"', 'c', 'o', 'n', 't', 'e', 'n', 't', '"', ':', '"']
}

/// `"}}`
pub open spec fn message_tail() -> Seq<char> {
    seq!['"', '}', '}']
}

/// The wire text of an envelope: compact JSON, with the variant name as
/// the tag of an object for `Message` and as a bare string for `KeepAlive`.
pub open spec fn encode_spec(m: EnvelopeModel) -> Seq<char> {
    match m {
        EnvelopeModel::Message { channel_id, content } => message_head() + decimal(channel_id as nat)
            + message_middle() + escape(content) + message_tail(),
        EnvelopeModel::KeepAlive => keep_alive_text(),
    }
}

pub proof fn lemma_escape_append(a: Seq<char>, b: Seq<char>)
    ensures
        escape(a + b) == escape(a) + escape(b),
    decreases a.len(),
{
    if a.len() == 0 {
        assert(a + b =~= b);
    } else {
        assert((a + b).drop_first() =~= a.drop_first() + b);
        lemma_escape_append(a.drop_first(), b);
    }
}

fn digit_of(d: u64) -> (c: char)
    requires
        d < 10,
    ensures
        c == digit_char(d as nat),
{
    if d == 0 { '0' } else if d == 1 { '1' } else if d == 2 { '2' } else if d == 3 { '3' }
    else if d == 4 { '4' } else if d == 5 { '5' } else if d == 6 { '6' } else if d == 7 { '7' }
    else if d == 8 { '8' } else { '9' }
}

fn hex_of(d: u32) -> (c: char)
    requires
        d < 16,
    ensures
        c == hex_char(d as nat),
{
    if d < 10 { digit_of(d as u64) } else if d == 10 { 'a' } else if d == 11 { 'b' } else if d == 12 { 'c' }
    else if d == 13 { 'd' } else if d == 14 { 'e' } else { 'f' }
}

fn push_decimal(n: u64, out: &mut Vec<char>)
    ensures
        final(out)@ == old(out)@ + decimal(n as nat),
    decreases n,
{
    if n >= 10 {
        push_decimal(n / 10, out);
    }
    let c = digit_of(n % 10);
    out.push(c);
}

fn push_all(out: &mut Vec<char>, s: &Vec<char>)
    ensures
        final(out)@ == old(out)@ + s@,
{
    let mut i: usize = 0;
    while i < s.len()
        invariant
            i <= s@.len(),
            out@ == old(out)@ + s@.take(i as int),
        decreases s@.len() - i,
    {
        out.push(s[i]);
        i = i + 1;
        assert(s@.take(i as int) =~= s@.take(i - 1) .push(s@[i - 1]));
    }
    assert(s@.take(i as int) =~= s@);
}

fn push_escaped(c: char, out: &mut Vec<char>)
    ensures
        final(out)@ == old(out)@ + escape_char(c),
{
    let code = c as u32;
    if c == '"' {
        push_all(out, &vec!['\\', '"']);
    } else if c == '\\' {
        push_all(out, &vec!['\\', '\\']);
    } else if c == '\n' {
        push_all(out, &vec!['\\', 'n']);
    } else if c == '\r' {
        push_all(out, &vec!['\\', 'r']);
    } else if c == '\t' {
        push_all(out, &vec!['\\', 't']);
    } else if c == '\u{8}' {
        push_all(out, &vec!['\\', 'b']);
    } else if c == '\u{c}' {
        push_all(out, &vec!['\\', 'f']);
    } else if code < 0x20 {
        let hi = hex_of(code / 16);
        let lo = hex_of(code % 16);
        push_all(out, &vec!['\\', 'u', '0', '0', hi, lo]);
    } else {
        out.push(c);
    }
}

fn push_escaped_text(s: &Vec<char>, out: &mut Vec<char>)
    ensures
        final(out)@ == old(out)@ + escape(s@),
{
    let mut i: usize = 0;
    while i < s.len()
        invariant
            i <= s@.len(),
            out@ == old(out)@ + escape(s@.take(i as int)),
        decreases s@.len() - i,
    {
        proof {
            lemma_escape_append(s@.take(i as int), seq![s@[i as int]]);
            assert(s@.take(i + 1) =~= s@.take(i as int) + seq![s@[i as int]]);
            assert(escape(seq![s@[i as int]]) =~= escape_char(s@[i as int])) by {
                let one = seq![s@[i as int]];
                assert(one.drop_first() =~= Seq::<char>::empty());
                assert(escape(one.drop_first()) == Seq::<char>::empty());
                assert(one[0] == s@[i as int]);
                assert(escape(one) == escape_char(one[0]) + escape(one.drop_first()));
            }
        }
        push_escaped(s[i], out);
        i = i + 1;
    }
    assert(s@.take(i as int) =~= s@);
}

/// Relies on `Iterator::collect` into a `String`: the characters in order.
#[verifier::external_body]
fn string_from_chars(v: &Vec<char>) -> (r: String)
    ensures
        r@ == v@,
{
    v.iter().collect()
}

/// Relies on `str::chars` collected into a `Vec`: the characters in order.
#[verifier::external_body]
fn chars_of(s: &str) -> (r: Vec<char>)
    ensures
        r@ == s@,
{
    s.chars().collect()
}

fn encode_chars(e: &Envelope) -> (r: Vec<char>)
    ensures
        r@ == encode_spec(e@),
{
    let mut out: Vec<char> = Vec::new();
    match e {
        Envelope::Message(m) => {
            push_all(&mut out, &vec!['{', '"', 'M', 'e', 's', 's', 'a', 'g', 'e', '"', ':', '{', '"', 'c', 'h', 'a', 'n', 'n', 'e', 'l', '_', 'i', 'd', '"', ':']);
            push_decimal(m.channel_id, &mut out);
            push_all(&mut out, &vec![',', '"', 'c', 'o', 'n', 't', 'e', 'n', 't', '"', ':', '"']);
            let content = chars_of(m.content.as_str());
            push_escaped_text(&content, &mut out);
            push_all(&mut out, &vec!['"', '}', '}']);
        },
        Envelope::KeepAlive => {
            push_all(&mut out, &vec!['"', 'K', 'e', 'e', 'p', 'A', 'l', 'i', 'v', 'e', '"']);
        },
    }
    assert(out@ =~= encode_spec(e@));
    out
}

/// The wire text of `e`.
pub fn encode(e: &Envelope) -> (r: String)
    ensures
        r@ == encode_spec(e@),
{
    let chars = encode_chars(e);
    string_from_chars(&chars)
}

/// The number written by a sequence of decimal digits.
pub open spec fn decimal_value(s: Seq<char>) -> nat
    decreases s.len(),
{
    if s.len() == 0 {
        0
    } else {
        decimal_value(s.drop_last()) * 10 + match digit_value(s.last()) {
            Some(d) => d,
            None => 0,
        }
    }
}

/// `n` is written at `pos` in `t`, and followed by a character that is no digit.
pub open spec fn number_at(t: Seq<char>, pos: int, n: nat) -> bool {
    &&& 0 <= pos
    &&& pos + decimal(n).len() < t.len()
    &&& t.subrange(pos, pos + decimal(n).len()) == decimal(n)
    &&& digit_value(t[pos + decimal(n).len()]) is None
}

/// The escaped form of `x` stands at `pos` in `t`.
pub open spec fn unit_at(t: Seq<char>, pos: int, x: char) -> bool {
    &&& 0 <= pos
    &&& pos + escape_char(x).len() <= t.len()
    &&& t.subrange(pos, pos + escape_char(x).len()) == escape_char(x)
}

/// The escaped form of `c` stands at `pos` in `t`, followed by a closing quote.
pub open spec fn content_at(t: Seq<char>, pos: int, c: Seq<char>) -> bool {
    &&& 0 <= pos
    &&& pos + escape(c).len() < t.len()
    &&& t.subrange(pos, pos + escape(c).len()) == escape(c)
    &&& t[pos + escape(c).len()] == '"'
}

proof fn lemma_decimal(n: nat)
    ensures
        decimal(n).len() >= 1,
        decimal_value(decimal(n)) == n,
        forall|i: int| 0 <= i < decimal(n).len() ==> (#[trigger] digit_value(decimal(n)[i])) is Some,
    decreases n,
{
    assert(digit_value(digit_char(n % 10)) == Some(n % 10));
    if n >= 10 {
        lemma_decimal(n / 10);
        let s = decimal(n);
        assert(n == (n / 10) * 10 + n % 10);
        assert(s.last() == digit_char(n % 10));
        assert(decimal_value(s) == decimal_value(s.drop_last()) * 10 + (n % 10));
        assert(s.drop_last() =~= decimal(n / 10));
        assert forall|i: int| 0 <= i < s.len() implies (#[trigger] digit_value(s[i])) is Some by {
            if i < s.len() - 1 {
                assert(s[i] == decimal(n / 10)[i]);
            }
        }
    } else {
        assert(decimal(n).drop_last() =~= Seq::<char>::empty());
        assert(decimal_value(Seq::<char>::empty()) == 0);
        assert(n % 10 == n);
        assert(decimal(n).last() == digit_char(n));
    }
}

proof fn lemma_prefix_value(s: Seq<char>, k: int)
    requires
        0 <= k <= s.len(),
    ensures
        decimal_value(s.take(k)) <= decimal_value(s),
    decreases s.len(),
{
    if k < s.len() {
        assert(s.take(k) =~= s.drop_last().take(k));
        lemma_prefix_value(s.drop_last(), k);
    } else {
        assert(s.take(k) =~= s);
    }
}

proof fn lemma_escape_split(c: Seq<char>, k: int)
    requires
        0 <= k < c.len(),
    ensures
        escape(c) == escape(c.take(k)) + escape_char(c[k]) + escape(c.skip(k + 1)),
        escape(c.take(k + 1)) == escape(c.take(k)) + escape_char(c[k]),
{
    let one = seq![c[k]];
    assert(one.drop_first() =~= Seq::<char>::empty());
    assert(escape(one) == escape_char(one[0]) + escape(one.drop_first()));
    assert(escape(one) =~= escape_char(c[k]));
    assert(c.take(k + 1) =~= c.take(k) + one);
    lemma_escape_append(c.take(k), one);
    assert(c =~= c.take(k + 1) + c.skip(k + 1));
    lemma_escape_append(c.take(k + 1), c.skip(k + 1));
}

fn digit_value_of(c: char) -> (r: Option<u64>)
    ensures
        r matches Some(d) ==> digit_value(c) == Some(d as nat),
        r is None ==> digit_value(c) is None,
{
    if c == '0' { Some(0) } else if c == '1' { Some(1) } else if c == '2' { Some(2) }
    else if c == '3' { Some(3) } else if c == '4' { Some(4) } else if c == '5' { Some(5) }
    else if c == '6' { Some(6) } else if c == '7' { Some(7) } else if c == '8' { Some(8) }
    else if c == '9' { Some(9) } else { None }
}

fn hex_value_of(c: char) -> (r: Option<u32>)
    ensures
        r matches Some(d) ==> hex_value(c) == Some(d as nat),
        r is None ==> hex_value(c) is None,
{
    if c == 'a' { Some(10) } else if c == 'b' { Some(11) } else if c == 'c' { Some(12) }
    else if c == 'd' { Some(13) } else if c == 'e' { Some(14) } else if c == 'f' { Some(15) }
    else {
        match digit_value_of(c) {
            Some(d) => Some(d as u32),
            None => None,
        }
    }
}

/// Relies on `char::from_u32`: `Some` of the character with that code for
/// every Unicode scalar value, `None` for the rest.
#[verifier::external_body]
fn char_from_code(v: u32) -> (r: Option<char>)
    ensures
        r matches Some(c) ==> c == v as char && c as u32 == v,
        (v < 0xD800 || (0xE000 <= v && v <= 0x10FFFF)) ==> r is Some,
{
    char::from_u32(v)
}

/// Reads the number at `pos`; finds `n` wherever `n` is written there.
fn parse_number(t: &Vec<char>, pos: usize, Ghost(expected): Ghost<Option<u64>>) -> (r: Option<(u64, usize)>)
    requires
        pos <= t@.len(),
    ensures
        expected is Some && number_at(t@, pos as int, expected->0 as nat) ==> r == Some((expected->0, (pos + decimal(expected->0 as nat).len()) as usize)),
{
    let mut v: u64 = 0;
    let mut i: usize = pos;
    proof {
        if let Some(n) = expected {
            lemma_decimal(n as nat);
        }
        assert(t@.subrange(pos as int, pos as int) =~= Seq::<char>::empty());
    }
    while i < t.len() && digit_value_of(t[i]).is_some()
        invariant
            pos <= i <= t@.len(),
            v == decimal_value(t@.subrange(pos as int, i as int)),
            forall|j: int| pos <= j < i ==> (#[trigger] digit_value(t@[j])) is Some,
            expected is Some && number_at(t@, pos as int, expected->0 as nat) ==> i - pos <= decimal(expected->0 as nat).len(),
            expected is Some ==> decimal_value(decimal(expected->0 as nat)) == expected->0 as nat && decimal(expected->0 as nat).len() >= 1
                && forall|j: int| 0 <= j < decimal(expected->0 as nat).len() ==> (#[trigger] digit_value(decimal(expected->0 as nat)[j])) is Some,
        decreases t@.len() - i,
    {
        let d = digit_value_of(t[i]).unwrap();
        let w: u128 = v as u128 * 10 + d as u128;
        let ghost seg = t@.subrange(pos as int, i + 1);
        assert(seg.drop_last() =~= t@.subrange(pos as int, i as int));
        assert(seg.last() == t@[i as int]);
        proof {
            if let Some(n) = expected {
                if number_at(t@, pos as int, n as nat) {
                    let len = decimal(n as nat).len();
                    if i - pos == len {
                        assert(digit_value(t@[pos + len]) is None);
                    }
                    assert(seg =~= decimal(n as nat).take(i + 1 - pos));
                    lemma_prefix_value(decimal(n as nat), i + 1 - pos);
                }
            }
        }
        if w > u64::MAX as u128 {
            return None;
        }
        v = w as u64;
        i = i + 1;
    }
    if i == pos {
        proof {
            if let Some(n) = expected {
                if number_at(t@, pos as int, n as nat) {
                    assert(t@[pos as int] == decimal(n as nat)[0]);
                }
            }
        }
        return None;
    }
    proof {
        if let Some(n) = expected {
            if number_at(t@, pos as int, n as nat) {
                let len = decimal(n as nat).len();
                if i - pos < len {
                    assert(t@[i as int] == decimal(n as nat)[i - pos]);
                }
                assert(t@.subrange(pos as int, i as int) == decimal(n as nat));
            }
        }
    }
    Some((v, i))
}

proof fn lemma_escape_char_shape(x: char)
    ensures
        escape_char(x).len() >= 1,
        escape_char(x)[0] != '"',
        escape_char(x)[0] != '\\' ==> escape_char(x) == seq![x] && x != '"' && (x as u32) >= 0x20,
{
}

/// Reads one character of a string literal's body at `pos`; finds `x`
/// wherever the escaped form of `x` stands there.
fn decode_unit(t: &Vec<char>, pos: usize) -> (r: Option<(char, usize)>)
    requires
        pos < t@.len(),
    ensures
        r matches Some(p) ==> pos < p.1 <= t@.len(),
        forall|x: char| #[trigger] unit_at(t@, pos as int, x) ==> r == Some((x, (pos + escape_char(x).len()) as usize)),
{
    let n: usize = t.len();
    let ch = t[pos];
    proof {
        assert forall|x: char| #[trigger] unit_at(t@, pos as int, x) implies t@[pos as int] == escape_char(x)[0] by {
            lemma_escape_char_shape(x);
            assert(t@.subrange(pos as int, pos + escape_char(x).len())[0] == t@[pos as int]);
        }
    }
    if ch != '\\' {
        if ch == '"' || (ch as u32) < 0x20 {
            proof {
                assert forall|x: char| !unit_at(t@, pos as int, x) by {
                    lemma_escape_char_shape(x);
                }
            }
            None
        } else {
            proof {
                assert forall|x: char| #[trigger] unit_at(t@, pos as int, x) implies x == ch by {
                    lemma_escape_char_shape(x);
                }
            }
            Some((ch, pos + 1))
        }
    } else if pos + 1 < n {
        let e = t[pos + 1];
        proof {
            assert forall|x: char| #[trigger] unit_at(t@, pos as int, x) implies escape_char(x).len() >= 2
                && t@[pos + 1] == escape_char(x)[1] by {
                lemma_escape_char_shape(x);
                assert(t@.subrange(pos as int, pos + escape_char(x).len())[1] == t@[pos + 1]);
            }
        }
        if e == '"' {
            Some(('"', pos + 2))
        } else if e == '\\' {
            Some(('\\', pos + 2))
        } else if e == 'n' {
            Some(('\n', pos + 2))
        } else if e == 'r' {
            Some(('\r', pos + 2))
        } else if e == 't' {
            Some(('\t', pos + 2))
        } else if e == 'b' {
            Some(('\u{8}', pos + 2))
        } else if e == 'f' {
            Some(('\u{c}', pos + 2))
        } else if e == 'u' && 5 < n - pos {
            proof {
                assert forall|x: char| #[trigger] unit_at(t@, pos as int, x) implies (x as u32) < 0x20
                    && t@[pos + 4] == hex_char((x as u32) as nat / 16) && t@[pos + 5] == hex_char((x as u32) as nat % 16) by {
                    let w = t@.subrange(pos as int, pos + escape_char(x).len());
                    assert(w[4] == t@[pos + 4]);
                    assert(w[5] == t@[pos + 5]);
                }
            }
            match (hex_value_of(t[pos + 4]), hex_value_of(t[pos + 5])) {
                (Some(hi), Some(lo)) => {
                    if hi < 16 && lo < 16 {
                        let v: u32 = hi * 16 + lo;
                        proof {
                            assert forall|x: char| #[trigger] unit_at(t@, pos as int, x) implies v == x as u32 by {
                                let k = (x as u32) as nat;
                                assert(hex_value(hex_char(k / 16)) == Some(k / 16));
                                assert(hex_value(hex_char(k % 16)) == Some(k % 16));
                                assert(k == (k / 16) * 16 + k % 16);
                            }
                        }
                        match char_from_code(v) {
                            Some(c) => {
                                proof {
                                    assert forall|x: char| #[trigger] unit_at(t@, pos as int, x) implies x == c by {
                                        vstd::utf8::char_u32_cast(x, v);
                                    }
                                }
                                Some((c, pos + 6))
                            },
                            None => None,
                        }
                    } else {
                        None
                    }
                },
                _ => None,
            }
        } else {
            None
        }
    } else {
        None
    }
}

/// Reads the body of a string literal at `pos`, up to its closing quote;
/// finds `c` wherever the escaped form of `c` and a quote stand there.
fn parse_text(t: &Vec<char>, pos: usize, Ghost(expected): Ghost<Option<Seq<char>>>) -> (r: Option<(Vec<char>, usize)>)
    requires
        pos <= t@.len(),
    ensures
        expected is Some && content_at(t@, pos as int, expected->0) ==> (r matches Some(p) && p.0@ == expected->0
            && p.1 == pos + escape(expected->0).len()),
{
    let n: usize = t.len();
    let mut out: Vec<char> = Vec::new();
    let mut i: usize = pos;
    proof {
        assert(Seq::<char>::empty().take(0) =~= Seq::<char>::empty());
        assert(escape(Seq::<char>::empty()) == Seq::<char>::empty());
        if let Some(c) = expected {
            assert(c.take(0) =~= Seq::<char>::empty());
        }
    }
    while i < n && t[i] != '"'
        invariant
            n == t@.len(),
            pos <= i <= n,
            expected is Some && content_at(t@, pos as int, expected->0) ==> out@.len() <= expected->0.len()
                && out@ == expected->0.take(out@.len() as int) && i == pos + escape(out@).len(),
        decreases n - i,
    {
        let ghost k = out@.len() as int;
        proof {
            if let Some(c) = expected {
                if content_at(t@, pos as int, c) {
                    if k == c.len() {
                        assert(out@ =~= c);
                    }
                    assert(k < c.len());
                    lemma_escape_split(c, k);
                    assert(out@ =~= c.take(k));
                    let a = pos + escape(c.take(k)).len();
                    let w = escape_char(c[k]);
                    assert(t@.subrange(a, a + w.len()) =~= t@.subrange(pos as int, pos + escape(c).len()).subrange(a - pos, a - pos + w.len()));
                    assert(t@.subrange(a, a + w.len()) =~= w);
                    assert(unit_at(t@, i as int, c[k]));
                }
            }
        }
        match decode_unit(t, i) {
            Some((x, j)) => {
                out.push(x);
                i = j;
                proof {
                    if let Some(c) = expected {
                        if content_at(t@, pos as int, c) {
                            assert(out@ =~= c.take(k + 1));
                        }
                    }
                }
            },
            None => {
                return None;
            },
        }
    }
    if i < n {
        proof {
            if let Some(c) = expected {
                if content_at(t@, pos as int, c) {
                    let k = out@.len() as int;
                    if k < c.len() {
                        lemma_escape_split(c, k);
                        lemma_escape_char_shape(c[k]);
                        let a = pos + escape(c.take(k)).len();
                        assert(t@.subrange(pos as int, pos + escape(c).len())[a - pos] == t@[a]);
                        assert(out@ =~= c.take(k));
                    }
                    assert(out@ =~= c);
                }
            }
        }
        Some((out, i))
    } else {
        proof {
            if let Some(c) = expected {
                if content_at(t@, pos as int, c) {
                    let k = out@.len() as int;
                    if k < c.len() {
                        lemma_escape_split(c, k);
                        lemma_escape_char_shape(c[k]);
                        assert(out@ =~= c.take(k));
                    }
                    assert(out@ =~= c);
                }
            }
        }
        None
    }
}

fn matches_at(t: &Vec<char>, pos: usize, lit: &Vec<char>) -> (r: bool)
    requires
        pos <= t@.len(),
    ensures
        r == (pos + lit@.len() <= t@.len() && t@.subrange(pos as int, pos + lit@.len()) == lit@),
{
    let n: usize = t.len();
    if lit.len() > n - pos {
        return false;
    }
    let mut i: usize = 0;
    while i < lit.len()
        invariant
            n == t@.len(),
            i <= lit@.len(),
            pos + lit@.len() <= t@.len(),
            forall|j: int| 0 <= j < i ==> t@[pos + j] == lit@[j],
        decreases lit@.len() - i,
    {
        if t[pos + i] != lit[i] {
            assert(t@.subrange(pos as int, pos + lit@.len())[i as int] == t@[pos + i]);
            return false;
        }
        i = i + 1;
    }
    assert(t@.subrange(pos as int, pos + lit@.len()) =~= lit@);
    true
}

fn same_chars(a: &Vec<char>, b: &Vec<char>) -> (r: bool)
    ensures
        r == (a@ == b@),
{
    if a.len() != b.len() {
        return false;
    }
    let mut i: usize = 0;
    while i < a.len()
        invariant
            i <= a@.len(),
            a@.len() == b@.len(),
            forall|j: int| 0 <= j < i ==> a@[j] == b@[j],
        decreases a@.len() - i,
    {
        if a[i] != b[i] {
            return false;
        }
        i = i + 1;
    }
    assert(a@ =~= b@);
    true
}

/// Reads the envelope that `t` holds; finds `expected` wherever `t` is its wire text.
fn parse_candidate(t: &Vec<char>, Ghost(expected): Ghost<Option<EnvelopeModel>>) -> (r: Option<Envelope>)
    ensures
        expected is Some && t@ == encode_spec(expected->0) ==> (r matches Some(e) && e@ == expected->0),
{
    let n: usize = t.len();
    if n > 0 && t[0] == '"' {
        proof {
            if let Some(EnvelopeModel::Message { .. }) = expected {
                if t@ == encode_spec(expected->0) {
                    assert(t@[0] == message_head()[0]);
                }
            }
        }
        return Some(Envelope::KeepAlive);
    }
    let ghost is_msg = expected is Some && t@ == encode_spec(expected->0) && expected->0 is Message;
    let ghost id_expected: Option<u64> = if is_msg { Some(expected->0->channel_id) } else { None };
    let ghost text_expected: Option<Seq<char>> = if is_msg { Some(expected->0->content) } else { None };
    let ghost dec = decimal(id_expected->0 as nat);
    let ghost esc = escape(text_expected->0);
    proof {
        if expected is Some && t@ == encode_spec(expected->0) && !is_msg {
            assert(t@[0] == keep_alive_text()[0]);
        }
        if is_msg {
            let dl = dec.len() as int;
            let el = esc.len() as int;
            assert(t@ == message_head() + dec + message_middle() + esc + message_tail());
            assert(t@.subrange(0, 25) =~= message_head());
            assert(t@.subrange(25, 25 + dl) =~= dec);
            assert(t@[25 + dl] == ',');
            assert(t@.subrange(25 + dl, 25 + dl + 12) =~= message_middle());
            assert(t@.subrange(37 + dl, 37 + dl + el) =~= esc);
            assert(t@[37 + dl + el] == '"');
            assert(number_at(t@, 25, id_expected->0 as nat));
            assert(content_at(t@, 37 + dl, text_expected->0));
        }
    }
    let head: Vec<char> = vec!['{', '"', 'M', 'e', 's', 's', 'a', 'g', 'e', '"', ':', '{', '"', 'c', 'h', 'a', 'n', 'n', 'e', 'l', '_', 'i', 'd', '"', ':'];
    assert(head@ =~= message_head());
    if !matches_at(t, 0, &head) {
        return None;
    }
    let (id, p) = match parse_number(t, 25, Ghost(id_expected)) {
        Some(found) => found,
        None => {
            return None;
        },
    };
    let middle: Vec<char> = vec![',', '"', 'c', 'o', 'n', 't', 'e', 'n', 't', '"', ':', '"'];
    assert(middle@ =~= message_middle());
    if p > n || !matches_at(t, p, &middle) {
        return None;
    }
    let (body, _end) = match parse_text(t, p + 12, Ghost(text_expected)) {
        Some(found) => found,
        None => {
            return None;
        },
    };
    let content = string_from_chars(&body);
    Some(Envelope::Message(RelayMessage { channel_id: id, content }))
}

proof fn lemma_hex_round_trip(d: nat)
    requires
        d < 16,
    ensures
        hex_value(hex_char(d)) == Some(d),
{
}

proof fn lemma_escape_char_prefix(x: char, y: char, a: Seq<char>, b: Seq<char>)
    requires
        escape_char(x) + a == escape_char(y) + b,
    ensures
        x == y,
{
    let s = escape_char(x) + a;
    lemma_escape_char_shape(x);
    lemma_escape_char_shape(y);
    assert(s[0] == escape_char(x)[0]);
    assert(s[0] == escape_char(y)[0]);
    if escape_char(x)[0] == '\\' {
        assert(s[1] == escape_char(x)[1]);
        assert(s[1] == escape_char(y)[1]);
        if escape_char(x)[1] == 'u' {
            assert(s[4] == escape_char(x)[4] && s[5] == escape_char(x)[5]);
            assert(s[4] == escape_char(y)[4] && s[5] == escape_char(y)[5]);
            let kx = (x as u32) as nat;
            let ky = (y as u32) as nat;
            lemma_hex_round_trip(kx / 16);
            lemma_hex_round_trip(kx % 16);
            lemma_hex_round_trip(ky / 16);
            lemma_hex_round_trip(ky % 16);
            assert(kx == (kx / 16) * 16 + kx % 16);
            assert(ky == (ky / 16) * 16 + ky % 16);
            vstd::utf8::char_u32_cast(x, x as u32);
            vstd::utf8::char_u32_cast(y, y as u32);
        }
    }
}

proof fn lemma_escape_injective(c1: Seq<char>, c2: Seq<char>)
    requires
        escape(c1) == escape(c2),
    ensures
        c1 == c2,
    decreases c1.len(),
{
    if c1.len() == 0 {
        if c2.len() > 0 {
            lemma_escape_char_shape(c2[0]);
        }
        assert(c1 =~= c2);
    } else {
        if c2.len() == 0 {
            lemma_escape_char_shape(c1[0]);
            assert(escape(c1) == escape_char(c1[0]) + escape(c1.drop_first()));
            assert(escape(c2).len() == 0);
            assert(false);
        }
        lemma_escape_char_prefix(c1[0], c2[0], escape(c1.drop_first()), escape(c2.drop_first()));
        let w = escape_char(c1[0]).len() as int;
        assert(escape(c1.drop_first()) =~= escape(c1).skip(w));
        assert(escape(c2.drop_first()) =~= escape(c2).skip(w));
        lemma_escape_injective(c1.drop_first(), c2.drop_first());
        assert(c1 =~= seq![c1[0]] + c1.drop_first());
        assert(c2 =~= seq![c2[0]] + c2.drop_first());
    }
}

/// Different envelopes have different wire texts, so decoding the wire
/// text of an envelope gives that envelope back.
pub proof fn lemma_encode_injective(m1: EnvelopeModel, m2: EnvelopeModel)
    requires
        encode_spec(m1) == encode_spec(m2),
    ensures
        m1 == m2,
{
    let t = encode_spec(m1);
    match (m1, m2) {
        (EnvelopeModel::Message { channel_id: a, content: c1 }, EnvelopeModel::Message { channel_id: b, content: c2 }) => {
            let da = decimal(a as nat);
            let la = da.len() as int;
            let db = decimal(b as nat);
            let lb = db.len() as int;
            lemma_decimal(a as nat);
            lemma_decimal(b as nat);
            let ea = escape(c1);
            let eb = escape(c2);
            assert(t == message_head() + da + message_middle() + ea + message_tail());
            assert(t == message_head() + db + message_middle() + eb + message_tail());
            if da.len() < db.len() {
                assert(t[25 + la] == ',');
                assert(t[25 + la] == db[la]);
                assert(digit_value(db[la]) is Some);
                assert(false);
            }
            if db.len() < da.len() {
                assert(t[25 + lb] == ',');
                assert(t[25 + lb] == da[lb]);
                assert(digit_value(da[lb]) is Some);
                assert(false);
            }
            assert(da =~= t.subrange(25, 25 + la));
            assert(db =~= t.subrange(25, 25 + lb));
            let start = 37 + la;
            assert(ea =~= t.subrange(start, t.len() as int - 3));
            assert(eb =~= t.subrange(start, t.len() as int - 3));
            lemma_escape_injective(c1, c2);
        },
        (EnvelopeModel::Message { .. }, EnvelopeModel::KeepAlive) => {
            assert(t[0] == '{');
            assert(encode_spec(m2)[0] == '"');
        },
        (EnvelopeModel::KeepAlive, EnvelopeModel::Message { .. }) => {
            assert(t[0] == '"');
            assert(encode_spec(m2)[0] == '{');
        },
        (EnvelopeModel::KeepAlive, EnvelopeModel::KeepAlive) => {},
    }
}

/// Reads a frame's text as an envelope. The result is `Some` exactly when
/// the text is the wire text of an envelope, and then it is that envelope.
/// Only the compact form that `encode` writes is read here: no whitespace
/// between tokens, `channel_id` before `content`, the shortest escapes;
/// `read_envelope` reads other layouts.
pub fn decode(text: &str) -> (r: Option<Envelope>)
    ensures
        r matches Some(e) ==> text@ == encode_spec(e@),
        forall|m: EnvelopeModel| text@ == encode_spec(m) ==> (r matches Some(e) && e@ == m),
{
    let t = chars_of(text);
    let ghost expected: Option<EnvelopeModel> = if exists|m: EnvelopeModel| t@ == encode_spec(m) {
        Some(choose|m: EnvelopeModel| t@ == encode_spec(m))
    } else {
        None
    };
    let r = match parse_candidate(&t, Ghost(expected)) {
        Some(e) => {
            let again = encode_chars(&e);
            if same_chars(&again, &t) {
                Some(e)
            } else {
                None
            }
        },
        None => None,
    };
    proof {
        assert forall|m: EnvelopeModel| text@ == encode_spec(m) implies (r matches Some(e) && e@ == m) by {
            if let Some(e) = r {
                lemma_encode_injective(e@, m);
            }
        }
    }
    r
}

/// The compact JSON text that serde_json writes for the value that the JSON
/// text `s` holds; `None` when `s` is no JSON text.
pub uninterp spec fn json_compact_form(s: Seq<char>) -> Option<Seq<char>>;

/// Relies on `serde_json::from_str` into a `serde_json::Value` and on
/// `serde_json::to_string` of that value: the compact form of a JSON text,
/// which depends on the text alone.
#[verifier::external_body]
fn compact_json(text: &str) -> (r: Option<String>)
    ensures
        match r {
            Some(c) => json_compact_form(text@) == Some(c@),
            None => json_compact_form(text@) is None,
        },
{
    match serde_json::from_str::<serde_json::Value>(text) {
        Ok(v) => serde_json::to_string(&v).ok(),
        Err(_) => None,
    }
}

/// `t` reads as `m`: it is the wire text of `m`, or it is the wire text of
/// no envelope and its compact JSON form is the wire text of `m`.
pub open spec fn reads_as(t: Seq<char>, m: EnvelopeModel) -> bool {
    ||| t == encode_spec(m)
    ||| !(exists|m2: EnvelopeModel| t == encode_spec(m2)) && json_compact_form(t) == Some(encode_spec(m))
}

/// Reads a JSON text as an envelope, whatever its layout: the wire text
/// is read directly, any other text through its compact JSON form.
pub fn read_envelope(text: &str) -> (r: Option<Envelope>)
    ensures
        r matches Some(e) ==> reads_as(text@, e@),
        forall|m: EnvelopeModel| reads_as(text@, m) ==> (r matches Some(e) && e@ == m),
{
    match decode(text) {
        Some(e) => {
            proof {
                assert forall|m: EnvelopeModel| reads_as(text@, m) implies e@ == m by {
                    if text@ == encode_spec(m) {
                        lemma_encode_injective(e@, m);
                    }
                }
            }
            Some(e)
        },
        None => match compact_json(text) {
            Some(c) => decode(c.as_str()),
            None => None,
        },
    }
}

/// The bytes are UTF-8 and their text reads as `m`.
pub open spec fn frame_of(b: Seq<u8>, m: EnvelopeModel) -> bool {
    valid_utf8(b) && reads_as(decode_utf8(b), m)
}

/// Relies on `std::str::from_utf8`: `Ok` exactly for valid UTF-8, holding
/// the same bytes.
#[verifier::external_body]
fn utf8_text(b: &[u8]) -> (r: Option<&str>)
    ensures
        r is Some <==> valid_utf8(b@),
        r matches Some(s) ==> s.spec_bytes() == b@,
{
    std::str::from_utf8(b).ok()
}

/// Reads a frame as an envelope. The result is `Some` exactly when the
/// bytes are UTF-8 whose text reads as an envelope, and then it is that
/// envelope.
pub fn decode_frame(b: &[u8]) -> (r: Option<Envelope>)
    ensures
        r matches Some(e) ==> frame_of(b@, e@),
        forall|m: EnvelopeModel| frame_of(b@, m) ==> (r matches Some(e) && e@ == m),
{
    match utf8_text(b) {
        Some(text) => {
            proof {
                vstd::utf8::encode_utf8_decode_utf8(text@);
            }
            read_envelope(text)
        },
        None => None,
    }
}

} // verus!
