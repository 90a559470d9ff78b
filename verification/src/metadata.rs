//! Record provenance and its textual interchange form.
//!
//! A `Metadata` links one record's headers to the slice of an output
//! language file that the record produced: `offset` is the line count
//! at which its sentences begin and `nb_sentences` how many were kept.
//! It is persisted as a small JSON object whose header keys are opaque
//! strings, and the codec here round-trips every value exactly,
//! unrecognized keys included.

use crate::text::{chars_of, push_char};
use vstd::prelude::*;

verus! {

/// Holds record headers.
///
/// Each metadata is linked to a specific paragraph/text zone of an
/// output language file.
#[derive(Debug, PartialEq, Eq)]
pub struct Metadata {
    pub headers: Vec<(String, String)>,
    pub offset: usize,
    pub nb_sentences: usize,
}

impl Metadata {
    /// Header names are unique.
    pub open spec fn wf(self) -> bool {
        forall|i: int, j: int|
            0 <= i < j < self.headers.deep_view().len()
                ==> self.headers.deep_view()[i].0 != self.headers.deep_view()[j].0
    }
}

/// A string is stored between quotes; a quote or backslash inside it is
/// preceded by a backslash.
pub open spec fn esc_char(c: char) -> Seq<char> {
    if c == '"' || c == '\\' {
        seq!['\\', c]
    } else {
        seq![c]
    }
}

/// The escaped body of a quoted string.
pub open spec fn escape(s: Seq<char>) -> Seq<char>
    decreases s.len(),
{
    if s.len() == 0 {
        Seq::empty()
    } else {
        esc_char(s[0]) + escape(s.skip(1))
    }
}

/// A string as stored: quoted and escaped.
pub open spec fn quote(s: Seq<char>) -> Seq<char> {
    seq!['"'] + escape(s) + seq!['"']
}

/// The ten digit characters.
pub open spec fn is_digit(c: char) -> bool {
    c == '0' || c == '1' || c == '2' || c == '3' || c == '4' || c == '5' || c == '6' || c == '7'
        || c == '8' || c == '9'
}

/// The digit character for a value below ten.
pub open spec fn digit_char(d: nat) -> char {
    if d == 0 {
        '0'
    } else if d == 1 {
        '1'
    } else if d == 2 {
        '2'
    } else if d == 3 {
        '3'
    } else if d == 4 {
        '4'
    } else if d == 5 {
        '5'
    } else if d == 6 {
        '6'
    } else if d == 7 {
        '7'
    } else if d == 8 {
        '8'
    } else {
        '9'
    }
}

/// The value of a digit character.
pub open spec fn digit_val(c: char) -> nat
    recommends
        is_digit(c),
{
    if c == '0' {
        0
    } else if c == '1' {
        1
    } else if c == '2' {
        2
    } else if c == '3' {
        3
    } else if c == '4' {
        4
    } else if c == '5' {
        5
    } else if c == '6' {
        6
    } else if c == '7' {
        7
    } else if c == '8' {
        8
    } else {
        9
    }
}

/// The decimal representation of a value, most significant digit first.
pub open spec fn dec_rep(n: nat) -> Seq<char>
    decreases n,
{
    if n < 10 {
        seq![digit_char(n)]
    } else {
        dec_rep(n / 10).push(digit_char(n % 10))
    }
}

/// The `headers` key.
pub open spec fn headers_key() -> Seq<char> {
    seq!['h', 'e', 'a', 'd', 'e', 'r', 's']
}

/// The `offset` key.
pub open spec fn offset_key() -> Seq<char> {
    seq!['o', 'f', 'f', 's', 'e', 't']
}

/// The `nb_sentences` key.
pub open spec fn nb_key() -> Seq<char> {
    seq!['n', 'b', '_', 's', 'e', 'n', 't', 'e', 'n', 'c', 'e', 's']
}

/// One stored header entry: `"key":"value"`.
pub open spec fn ser_entry(k: Seq<char>, v: Seq<char>) -> Seq<char> {
    quote(k) + seq![':'] + quote(v)
}

/// The stored header entries, comma-separated, in order.
pub open spec fn ser_entries(hs: Seq<(Seq<char>, Seq<char>)>) -> Seq<char>
    decreases hs.len(),
{
    if hs.len() == 0 {
        Seq::empty()
    } else if hs.len() == 1 {
        ser_entry(hs[0].0, hs[0].1)
    } else {
        ser_entry(hs[0].0, hs[0].1) + seq![','] + ser_entries(hs.skip(1))
    }
}

/// The stored form of a whole metadata value.
pub open spec fn ser_metadata(hs: Seq<(Seq<char>, Seq<char>)>, off: nat, nb: nat) -> Seq<char> {
    seq!['{'] + quote(headers_key()) + seq![':'] + seq!['{'] + ser_entries(hs) + seq!['}'] + seq![
        ','
    ] + quote(offset_key()) + seq![':'] + dec_rep(off) + seq![','] + quote(nb_key()) + seq![':']
        + dec_rep(nb) + seq!['}']
}

/// Whitespace accepted between tokens.
pub open spec fn is_ws(c: char) -> bool {
    c == ' ' || c == '\t' || c == '\n' || c == '\r'
}

/// Drops leading whitespace.
pub open spec fn skip_ws(s: Seq<char>) -> Seq<char>
    decreases s.len(),
{
    if s.len() > 0 && is_ws(s[0]) {
        skip_ws(s.skip(1))
    } else {
        s
    }
}

/// Reads a quoted string's body up to its closing quote, undoing the
/// escapes, and returns it with what follows the quote.
pub open spec fn parse_str_body(s: Seq<char>) -> Option<(Seq<char>, Seq<char>)>
    decreases s.len(),
{
    if s.len() == 0 {
        None
    } else if s[0] == '"' {
        Some((Seq::empty(), s.skip(1)))
    } else if s[0] == '\\' {
        if s.len() < 2 {
            None
        } else {
            match parse_str_body(s.skip(2)) {
                Some((t, r)) => Some((seq![s[1]] + t, r)),
                None => None,
            }
        }
    } else {
        match parse_str_body(s.skip(1)) {
            Some((t, r)) => Some((seq![s[0]] + t, r)),
            None => None,
        }
    }
}

/// Reads a quoted string, whitespace allowed before it.
pub open spec fn parse_string(s: Seq<char>) -> Option<(Seq<char>, Seq<char>)> {
    let t = skip_ws(s);
    if t.len() > 0 && t[0] == '"' {
        parse_str_body(t.skip(1))
    } else {
        None
    }
}

/// The count of leading digit characters.
pub open spec fn digits_len(s: Seq<char>) -> int
    decreases s.len(),
{
    if s.len() > 0 && is_digit(s[0]) {
        1 + digits_len(s.skip(1))
    } else {
        0
    }
}

/// The value of a digit sequence, most significant digit first.
pub open spec fn digits_val(ds: Seq<char>) -> nat
    decreases ds.len(),
{
    if ds.len() == 0 {
        0
    } else {
        digits_val(ds.drop_last()) * 10 + digit_val(ds.last())
    }
}

/// Reads a decimal number, whitespace allowed before it.
pub open spec fn parse_nat(s: Seq<char>) -> Option<(nat, Seq<char>)> {
    let t = skip_ws(s);
    let k = digits_len(t);
    if k == 0 {
        None
    } else {
        Some((digits_val(t.take(k)), t.skip(k)))
    }
}

/// Reads one expected punctuation character, whitespace allowed before
/// it.
pub open spec fn expect(s: Seq<char>, c: char) -> Option<Seq<char>> {
    let t = skip_ws(s);
    if t.len() > 0 && t[0] == c {
        Some(t.skip(1))
    } else {
        None
    }
}

/// Reads the header entries standing after the object's opening brace,
/// one or more, and the closing brace.  `fuel` bounds the recursion; it
/// never runs out on an input longer than the entry count.
pub open spec fn parse_entries_rec(s: Seq<char>, fuel: nat) -> Option<
    (Seq<(Seq<char>, Seq<char>)>, Seq<char>),
>
    decreases fuel,
{
    if fuel == 0 {
        None
    } else {
        match parse_string(s) {
            None => None,
            Some((k, r1)) => match expect(r1, ':') {
                None => None,
                Some(r2) => match parse_string(r2) {
                    None => None,
                    Some((v, r3)) => {
                        let t = skip_ws(r3);
                        if t.len() > 0 && t[0] == ',' {
                            match parse_entries_rec(t.skip(1), (fuel - 1) as nat) {
                                Some((es, r4)) => Some((seq![(k, v)] + es, r4)),
                                None => None,
                            }
                        } else if t.len() > 0 && t[0] == '}' {
                            Some((seq![(k, v)], t.skip(1)))
                        } else {
                            None
                        }
                    },
                },
            },
        }
    }
}

/// Reads a whole header object after its opening brace: empty, or
/// entries up to the closing brace.
pub open spec fn parse_headers(s: Seq<char>) -> Option<(Seq<(Seq<char>, Seq<char>)>, Seq<char>)> {
    let t = skip_ws(s);
    if t.len() > 0 && t[0] == '}' {
        Some((Seq::empty(), t.skip(1)))
    } else {
        parse_entries_rec(s, (s.len() + 1) as nat)
    }
}

/// Reads a whole stored metadata value; anything but trailing
/// whitespace after the closing brace is refused.
pub open spec fn parse_metadata(s: Seq<char>) -> Option<(Seq<(Seq<char>, Seq<char>)>, nat, nat)> {
    match expect(s, '{') {
        None => None,
        Some(r1) => match parse_string(r1) {
            None => None,
            Some((k1, r2)) => if k1 != headers_key() {
                None
            } else {
                match expect(r2, ':') {
                    None => None,
                    Some(r3) => match expect(r3, '{') {
                        None => None,
                        Some(r4) => match parse_headers(r4) {
                            None => None,
                            Some((hs, r5)) => match expect(r5, ',') {
                                None => None,
                                Some(r6) => match parse_string(r6) {
                                    None => None,
                                    Some((k2, r7)) => if k2 != offset_key() {
                                        None
                                    } else {
                                        match expect(r7, ':') {
                                            None => None,
                                            Some(r8) => match parse_nat(r8) {
                                                None => None,
                                                Some((off, r9)) => match expect(r9, ',') {
                                                    None => None,
                                                    Some(r10) => match parse_string(r10) {
                                                        None => None,
                                                        Some((k3, r11)) => if k3 != nb_key() {
                                                            None
                                                        } else {
                                                            match expect(r11, ':') {
                                                                None => None,
                                                                Some(r12) => match parse_nat(
                                                                    r12,
                                                                ) {
                                                                    None => None,
                                                                    Some((nb, r13)) => match expect(
                                                                        r13,
                                                                        '}',
                                                                    ) {
                                                                        None => None,
                                                                        Some(r14) => if skip_ws(
                                                                            r14,
                                                                        ).len() == 0 {
                                                                            Some((hs, off, nb))
                                                                        } else {
                                                                            None
                                                                        },
                                                                    },
                                                                },
                                                            }
                                                        },
                                                    },
                                                },
                                            },
                                        }
                                    },
                                },
                            },
                        },
                    },
                }
            },
        },
    }
}


/// Unescaping inverts escaping: the stored body of a string, followed
/// by its closing quote, reads back as exactly the original string.
pub proof fn lemma_escape_roundtrip(x: Seq<char>, rest: Seq<char>)
    ensures
        parse_str_body(escape(x) + seq!['"'] + rest) == Some((x, rest)),
    decreases x.len(),
{
    let s = escape(x) + seq!['"'] + rest;
    if x.len() == 0 {
        assert(escape(x) =~= Seq::<char>::empty());
        assert(s[0] == '"');
        assert(s.skip(1) =~= rest);
    } else {
        let c = x[0];
        let tail = escape(x.skip(1)) + seq!['"'] + rest;
        lemma_escape_roundtrip(x.skip(1), rest);
        if c == '"' || c == '\\' {
            assert(s =~= seq!['\\', c] + tail);
            assert(s[0] == '\\');
            assert(s[1] == c);
            assert(s.len() >= 2);
            assert(s.skip(2) =~= tail);
            assert(seq![c] + x.skip(1) =~= x);
        } else {
            assert(s =~= seq![c] + tail);
            assert(s[0] == c);
            assert(s.skip(1) =~= tail);
            assert(seq![c] + x.skip(1) =~= x);
        }
    }
}

/// The decimal representation is non-empty and all digits.
pub proof fn lemma_dec_rep_digits(n: nat)
    ensures
        dec_rep(n).len() >= 1,
        forall|i: int| 0 <= i < dec_rep(n).len() ==> is_digit(#[trigger] dec_rep(n)[i]),
    decreases n,
{
    if n >= 10 {
        lemma_dec_rep_digits(n / 10);
        assert forall|i: int| 0 <= i < dec_rep(n).len() implies is_digit(
            #[trigger] dec_rep(n)[i],
        ) by {
            if i < dec_rep(n / 10).len() {
                assert(dec_rep(n)[i] == dec_rep(n / 10)[i]);
            } else {
                assert(dec_rep(n)[i] == digit_char(n % 10));
            }
        }
    }
}

/// Digit counting stops exactly at the first non-digit.
pub proof fn lemma_digits_len_exact(ds: Seq<char>, rest: Seq<char>)
    requires
        forall|i: int| 0 <= i < ds.len() ==> is_digit(#[trigger] ds[i]),
        rest.len() == 0 || !is_digit(rest[0]),
    ensures
        digits_len(ds + rest) == ds.len(),
    decreases ds.len(),
{
    if ds.len() == 0 {
        assert(ds + rest =~= rest);
    } else {
        assert((ds + rest)[0] == ds[0]);
        assert((ds + rest).skip(1) =~= ds.skip(1) + rest);
        lemma_digits_len_exact(ds.skip(1), rest);
    }
}

/// Reading the digits of a value back gives the value.
pub proof fn lemma_digits_val_rep(n: nat)
    ensures
        digits_val(dec_rep(n)) == n,
    decreases n,
{
    if n < 10 {
        assert(dec_rep(n).drop_last() =~= Seq::<char>::empty());
        assert(dec_rep(n).last() == digit_char(n));
        assert(digit_val(digit_char(n)) == n);
        assert(digits_val(Seq::<char>::empty()) == 0);
        assert(digits_val(dec_rep(n)) == 0 * 10 + digit_val(digit_char(n)));
    } else {
        lemma_digits_val_rep(n / 10);
        assert(dec_rep(n).drop_last() =~= dec_rep(n / 10));
        assert(dec_rep(n).last() == digit_char(n % 10));
        assert(digit_val(digit_char(n % 10)) == n % 10);
        vstd::arithmetic::div_mod::lemma_fundamental_div_mod(n as int, 10);
    }
}

/// Skipping whitespace before a non-whitespace character changes
/// nothing.
pub proof fn lemma_skip_ws_id(s: Seq<char>)
    requires
        s.len() == 0 || !is_ws(s[0]),
    ensures
        skip_ws(s) == s,
{
}

/// A stored number followed by a non-digit reads back as the value.
pub proof fn lemma_parse_nat_rep(n: nat, rest: Seq<char>)
    requires
        rest.len() == 0 || !is_digit(rest[0]),
    ensures
        parse_nat(dec_rep(n) + rest) == Some((n, rest)),
{
    let s = dec_rep(n) + rest;
    lemma_dec_rep_digits(n);
    assert(s[0] == dec_rep(n)[0]);
    lemma_skip_ws_id(s);
    lemma_digits_len_exact(dec_rep(n), rest);
    let k = digits_len(s);
    assert(k == dec_rep(n).len());
    assert(s.take(k) =~= dec_rep(n));
    assert(s.skip(k) =~= rest);
    lemma_digits_val_rep(n);
}

/// A stored string reads back as the original string.
pub proof fn lemma_parse_string_quote(x: Seq<char>, rest: Seq<char>)
    ensures
        parse_string(quote(x) + rest) == Some((x, rest)),
{
    let s = quote(x) + rest;
    assert(s[0] == '"');
    lemma_skip_ws_id(s);
    assert(s.skip(1) =~= escape(x) + seq!['"'] + rest);
    lemma_escape_roundtrip(x, rest);
}

/// Stored header entries, with the object's closing brace, read back
/// as exactly the original entries.
pub proof fn lemma_entries_roundtrip(hs: Seq<(Seq<char>, Seq<char>)>, rest: Seq<char>, fuel: nat)
    requires
        hs.len() >= 1,
        fuel >= hs.len(),
    ensures
        parse_entries_rec(ser_entries(hs) + seq!['}'] + rest, fuel) == Some((hs, rest)),
    decreases hs.len(),
{
    let s = ser_entries(hs) + seq!['}'] + rest;
    let k0 = hs[0].0;
    let v0 = hs[0].1;
    if hs.len() == 1 {
        let tail = seq![':'] + quote(v0) + (seq!['}'] + rest);
        assert(s =~= quote(k0) + tail);
        lemma_parse_string_quote(k0, tail);
        assert(tail[0] == ':');
        lemma_skip_ws_id(tail);
        assert(tail.skip(1) =~= quote(v0) + (seq!['}'] + rest));
        lemma_parse_string_quote(v0, seq!['}'] + rest);
        let t = seq!['}'] + rest;
        lemma_skip_ws_id(t);
        assert(t[0] == '}');
        assert(t.skip(1) =~= rest);
        assert(seq![(k0, v0)] =~= hs);
    } else {
        let inner = ser_entries(hs.skip(1)) + seq!['}'] + rest;
        let tail = seq![':'] + quote(v0) + (seq![','] + inner);
        assert(s =~= quote(k0) + tail);
        lemma_parse_string_quote(k0, tail);
        assert(tail[0] == ':');
        lemma_skip_ws_id(tail);
        assert(tail.skip(1) =~= quote(v0) + (seq![','] + inner));
        lemma_parse_string_quote(v0, seq![','] + inner);
        let t = seq![','] + inner;
        lemma_skip_ws_id(t);
        assert(t[0] == ',');
        assert(t.skip(1) =~= inner);
        assert(hs.skip(1).len() >= 1);
        lemma_entries_roundtrip(hs.skip(1), rest, (fuel - 1) as nat);
        assert(seq![(k0, v0)] + hs.skip(1) =~= hs);
    }
}

/// Serialized entries hold at least one character per entry.
pub proof fn lemma_ser_entries_len(hs: Seq<(Seq<char>, Seq<char>)>)
    ensures
        ser_entries(hs).len() >= hs.len(),
    decreases hs.len(),
{
    if hs.len() > 1 {
        lemma_ser_entries_len(hs.skip(1));
    }
}

/// The interchange form of a metadata value reads back as exactly the
/// value: headers with their order and every key, offset and sentence
/// count are preserved.
#[verifier::rlimit(100)]
pub proof fn lemma_metadata_roundtrip(hs: Seq<(Seq<char>, Seq<char>)>, off: nat, nb: nat)
    ensures
        parse_metadata(ser_metadata(hs, off, nb)) == Some((hs, off, nb)),
{
    let s = ser_metadata(hs, off, nb);
    let after_off = seq![','] + quote(nb_key()) + seq![':'] + dec_rep(nb) + seq!['}'];
    let after_hdr = seq![','] + quote(offset_key()) + seq![':'] + dec_rep(off) + after_off;
    let r1 = quote(headers_key()) + (seq![':'] + seq!['{'] + ser_entries(hs) + seq!['}']
        + after_hdr);
    assert(s =~= seq!['{'] + r1);
    assert(s[0] == '{');
    lemma_skip_ws_id(s);
    assert(s.skip(1) =~= r1);
    lemma_parse_string_quote(
        headers_key(),
        seq![':'] + seq!['{'] + ser_entries(hs) + seq!['}'] + after_hdr,
    );
    let r2 = seq![':'] + (seq!['{'] + ser_entries(hs) + seq!['}'] + after_hdr);
    assert(seq![':'] + seq!['{'] + ser_entries(hs) + seq!['}'] + after_hdr =~= r2);
    assert(r2[0] == ':');
    lemma_skip_ws_id(r2);
    let r3 = seq!['{'] + (ser_entries(hs) + seq!['}'] + after_hdr);
    assert(r2.skip(1) =~= r3);
    assert(r3[0] == '{');
    lemma_skip_ws_id(r3);
    let r4 = ser_entries(hs) + seq!['}'] + after_hdr;
    assert(r3.skip(1) =~= r4);
    if hs.len() == 0 {
        assert(ser_entries(hs) =~= Seq::<char>::empty());
        assert(r4 =~= seq!['}'] + after_hdr);
        assert(r4[0] == '}');
        lemma_skip_ws_id(r4);
        assert(skip_ws(r4).skip(1) =~= after_hdr);
        assert(parse_headers(r4) == Some((hs, after_hdr))) by {
            assert(hs =~= Seq::<(Seq<char>, Seq<char>)>::empty());
        }
    } else {
        lemma_ser_entries_len(hs);
        lemma_entries_roundtrip(hs, after_hdr, (r4.len() + 1) as nat);
        assert(r4[0] == '"');
        lemma_skip_ws_id(r4);
        assert(parse_headers(r4) == Some((hs, after_hdr)));
    }
    assert(after_hdr[0] == ',');
    lemma_skip_ws_id(after_hdr);
    let r6 = quote(offset_key()) + (seq![':'] + dec_rep(off) + after_off);
    assert(after_hdr.skip(1) =~= r6);
    lemma_parse_string_quote(offset_key(), seq![':'] + dec_rep(off) + after_off);
    let r7 = seq![':'] + (dec_rep(off) + after_off);
    assert(seq![':'] + dec_rep(off) + after_off =~= r7);
    assert(r7[0] == ':');
    lemma_skip_ws_id(r7);
    let r8 = dec_rep(off) + after_off;
    assert(r7.skip(1) =~= r8);
    assert(after_off[0] == ',');
    lemma_parse_nat_rep(off, after_off);
    lemma_skip_ws_id(after_off);
    let r10 = quote(nb_key()) + (seq![':'] + dec_rep(nb) + seq!['}']);
    assert(after_off.skip(1) =~= r10);
    lemma_parse_string_quote(nb_key(), seq![':'] + dec_rep(nb) + seq!['}']);
    let r12 = seq![':'] + (dec_rep(nb) + seq!['}']);
    assert(seq![':'] + dec_rep(nb) + seq!['}'] =~= r12);
    assert(r12[0] == ':');
    lemma_skip_ws_id(r12);
    let r13 = dec_rep(nb) + seq!['}'];
    assert(r12.skip(1) =~= r13);
    lemma_parse_nat_rep(nb, seq!['}']);
    let r14 = seq!['}'];
    lemma_skip_ws_id(r14);
    assert(r14[0] == '}');
    assert(r14.skip(1) =~= Seq::<char>::empty());
    assert(skip_ws(Seq::<char>::empty()).len() == 0);
    assert(headers_key() != offset_key());
}


/// Escaping one more character appends its escaped form.
pub proof fn lemma_escape_snoc(x: Seq<char>, c: char)
    ensures
        escape(x.push(c)) == escape(x) + esc_char(c),
    decreases x.len(),
{
    if x.len() == 0 {
        assert(x.push(c)[0] == c);
        assert(x.push(c).skip(1) =~= Seq::<char>::empty());
        assert(escape(x) =~= Seq::<char>::empty());
        assert(escape(x.push(c)) == esc_char(c) + escape(Seq::<char>::empty()));
        assert(escape(x.push(c)) =~= escape(x) + esc_char(c));
    } else {
        assert(x.push(c)[0] == x[0]);
        assert(x.push(c).skip(1) =~= x.skip(1).push(c));
        lemma_escape_snoc(x.skip(1), c);
        assert(esc_char(x[0]) + (escape(x.skip(1)) + esc_char(c)) =~= (esc_char(x[0]) + escape(
            x.skip(1),
        )) + esc_char(c));
    }
}

/// Serializing one more entry appends a comma and the entry.
pub proof fn lemma_ser_entries_snoc(hs: Seq<(Seq<char>, Seq<char>)>, e: (Seq<char>, Seq<char>))
    requires
        hs.len() >= 1,
    ensures
        ser_entries(hs.push(e)) == ser_entries(hs) + seq![','] + ser_entry(e.0, e.1),
    decreases hs.len(),
{
    if hs.len() == 1 {
        assert(hs.push(e)[0] == hs[0]);
        assert(hs.push(e).skip(1) =~= seq![e]);
        assert(ser_entries(seq![e]) == ser_entry(e.0, e.1));
        assert(ser_entries(hs.push(e)) =~= ser_entries(hs) + seq![','] + ser_entry(e.0, e.1));
    } else {
        assert(hs.push(e)[0] == hs[0]);
        assert(hs.push(e).skip(1) =~= hs.skip(1).push(e));
        lemma_ser_entries_snoc(hs.skip(1), e);
        assert(ser_entries(hs.push(e)) =~= ser_entries(hs) + seq![','] + ser_entry(e.0, e.1));
    }
}

/// The digit character for a value below ten.
fn digit_of(d: usize) -> (c: char)
    requires
        d < 10,
    ensures
        c == digit_char(d as nat),
{
    if d == 0 {
        '0'
    } else if d == 1 {
        '1'
    } else if d == 2 {
        '2'
    } else if d == 3 {
        '3'
    } else if d == 4 {
        '4'
    } else if d == 5 {
        '5'
    } else if d == 6 {
        '6'
    } else if d == 7 {
        '7'
    } else if d == 8 {
        '8'
    } else {
        '9'
    }
}

/// The value of a digit character, if it is one.
fn digit_of_char(c: char) -> (r: Option<usize>)
    ensures
        r is Some <==> is_digit(c),
        r is Some ==> r.unwrap() < 10 && r.unwrap() as nat == digit_val(c),
{
    if c == '0' {
        Some(0)
    } else if c == '1' {
        Some(1)
    } else if c == '2' {
        Some(2)
    } else if c == '3' {
        Some(3)
    } else if c == '4' {
        Some(4)
    } else if c == '5' {
        Some(5)
    } else if c == '6' {
        Some(6)
    } else if c == '7' {
        Some(7)
    } else if c == '8' {
        Some(8)
    } else if c == '9' {
        Some(9)
    } else {
        None
    }
}

/// Appends the decimal representation of `n`.
fn push_nat(s: &mut String, n: usize)
    ensures
        final(s)@ == old(s)@ + dec_rep(n as nat),
    decreases n,
{
    if n < 10 {
        let c = digit_of(n);
        push_char(s, c);
        proof {
            assert(s@ =~= old(s)@ + dec_rep(n as nat));
        }
    } else {
        push_nat(s, n / 10);
        let c = digit_of(n % 10);
        push_char(s, c);
        proof {
            assert((n / 10) as nat == n as nat / 10);
            assert((n % 10) as nat == n as nat % 10);
            assert(s@ =~= old(s)@ + dec_rep(n as nat));
        }
    }
}

/// Appends `t` quoted and escaped.
fn push_quoted(s: &mut String, t: &String)
    ensures
        final(s)@ == old(s)@ + quote(t@),
{
    let chars = chars_of(t.as_str());
    push_char(s, '"');
    let ghost base = old(s)@ + seq!['"'];
    let mut i: usize = 0;
    proof {
        assert(escape(t@.take(0)) =~= Seq::<char>::empty());
        assert(s@ =~= base + escape(t@.take(0)));
    }
    while i < chars.len()
        invariant
            i <= chars.len(),
            chars@ == t@,
            base == old(s)@ + seq!['"'],
            s@ == base + escape(t@.take(i as int)),
        decreases chars.len() - i,
    {
        let c = chars[i];
        if c == '"' || c == '\\' {
            push_char(s, '\\');
            push_char(s, c);
        } else {
            push_char(s, c);
        }
        i = i + 1;
        proof {
            let k = (i - 1) as int;
            assert(t@.take(k + 1) =~= t@.take(k).push(t@[k]));
            lemma_escape_snoc(t@.take(k), t@[k]);
            assert(s@ =~= base + escape(t@.take(k + 1)));
        }
    }
    push_char(s, '"');
    proof {
        assert(t@.take(t@.len() as int) =~= t@);
        assert(s@ =~= old(s)@ + quote(t@));
    }
}

impl Metadata {
    /// The textual interchange form of this value.
    pub fn to_json(&self) -> (r: String)
        ensures
            r@ == ser_metadata(
                self.headers.deep_view(),
                self.offset as nat,
                self.nb_sentences as nat,
            ),
    {
        let ghost hv = self.headers.deep_view();
        let hk = String::from_str("headers");
        let ok = String::from_str("offset");
        let nk = String::from_str("nb_sentences");
        proof {
            reveal_strlit("headers");
            reveal_strlit("offset");
            reveal_strlit("nb_sentences");
            assert(hk@ =~= headers_key());
            assert(ok@ =~= offset_key());
            assert(nk@ =~= nb_key());
        }
        let mut s = String::new();
        push_char(&mut s, '{');
        push_quoted(&mut s, &hk);
        push_char(&mut s, ':');
        push_char(&mut s, '{');
        let ghost pre = s@;
        proof {
            assert(pre =~= seq!['{'] + quote(headers_key()) + seq![':'] + seq!['{']);
            assert(ser_entries(hv.take(0)) =~= Seq::<char>::empty());
            assert(s@ =~= pre + ser_entries(hv.take(0)));
        }
        let mut i: usize = 0;
        while i < self.headers.len()
            invariant
                i <= self.headers.len(),
                hv == self.headers.deep_view(),
                hv.len() == self.headers.len(),
                s@ == pre + ser_entries(hv.take(i as int)),
            decreases self.headers.len() - i,
        {
            if i > 0 {
                push_char(&mut s, ',');
            }
            push_quoted(&mut s, &self.headers[i].0);
            push_char(&mut s, ':');
            push_quoted(&mut s, &self.headers[i].1);
            i = i + 1;
            proof {
                let k = (i - 1) as int;
                assert(hv[k] == (self.headers@[k].0@, self.headers@[k].1@));
                assert(hv.take(k + 1) =~= hv.take(k).push(hv[k]));
                if k == 0 {
                    assert(ser_entries(hv.take(1)) == ser_entry(hv[0].0, hv[0].1));
                    assert(s@ =~= pre + ser_entries(hv.take(k + 1)));
                } else {
                    lemma_ser_entries_snoc(hv.take(k), hv[k]);
                    assert(s@ =~= pre + ser_entries(hv.take(k + 1)));
                }
            }
        }
        proof {
            assert(hv.take(hv.len() as int) =~= hv);
        }
        push_char(&mut s, '}');
        push_char(&mut s, ',');
        push_quoted(&mut s, &ok);
        push_char(&mut s, ':');
        push_nat(&mut s, self.offset);
        push_char(&mut s, ',');
        push_quoted(&mut s, &nk);
        push_char(&mut s, ':');
        push_nat(&mut s, self.nb_sentences);
        push_char(&mut s, '}');
        proof {
            assert(s@ =~= ser_metadata(hv, self.offset as nat, self.nb_sentences as nat));
        }
        s
    }
}

/// Reading a string body consumes at least its closing quote.
pub proof fn lemma_parse_str_body_consumes(s: Seq<char>)
    ensures
        parse_str_body(s) is Some ==> parse_str_body(s).unwrap().1.len() < s.len(),
    decreases s.len(),
{
    if s.len() > 0 && s[0] != '"' {
        if s[0] == '\\' {
            if s.len() >= 2 {
                lemma_parse_str_body_consumes(s.skip(2));
            }
        } else {
            lemma_parse_str_body_consumes(s.skip(1));
        }
    }
}

/// Skipping whitespace never lengthens the input.
pub proof fn lemma_skip_ws_len(s: Seq<char>)
    ensures
        skip_ws(s).len() <= s.len(),
    decreases s.len(),
{
    if s.len() > 0 && is_ws(s[0]) {
        lemma_skip_ws_len(s.skip(1));
    }
}

/// Reading a string consumes at least its quotes.
pub proof fn lemma_parse_string_consumes(s: Seq<char>)
    ensures
        parse_string(s) is Some ==> parse_string(s).unwrap().1.len() < s.len(),
{
    lemma_skip_ws_len(s);
    let t = skip_ws(s);
    if t.len() > 0 && t[0] == '"' {
        lemma_parse_str_body_consumes(t.skip(1));
    }
}

/// Reading an expected character consumes it.
pub proof fn lemma_expect_consumes(s: Seq<char>, c: char)
    ensures
        expect(s, c) is Some ==> expect(s, c).unwrap().len() < s.len(),
{
    lemma_skip_ws_len(s);
}

/// With fuel above the input length the entry reader's result does not
/// depend on the fuel.
pub proof fn lemma_entries_fuel(s: Seq<char>, f1: nat, f2: nat)
    requires
        f1 >= s.len() + 1,
        f2 >= s.len() + 1,
    ensures
        parse_entries_rec(s, f1) == parse_entries_rec(s, f2),
    decreases s.len(),
{
    lemma_parse_string_consumes(s);
    match parse_string(s) {
        None => {},
        Some((k, r1)) => {
            lemma_expect_consumes(r1, ':');
            match expect(r1, ':') {
                None => {},
                Some(r2) => {
                    lemma_parse_string_consumes(r2);
                    match parse_string(r2) {
                        None => {},
                        Some((v, r3)) => {
                            lemma_skip_ws_len(r3);
                            let t = skip_ws(r3);
                            if t.len() > 0 && t[0] == ',' {
                                assert(t.skip(1).len() < s.len());
                                lemma_entries_fuel(t.skip(1), (f1 - 1) as nat, (f2 - 1) as nat);
                            }
                        },
                    }
                },
            }
        },
    }
}

/// Advances past leading whitespace.
fn p_ws(v: &Vec<char>, i: usize) -> (j: usize)
    requires
        i <= v@.len(),
    ensures
        i <= j <= v@.len(),
        v@.skip(j as int) == skip_ws(v@.skip(i as int)),
{
    let mut j = i;
    while j < v.len() && (v[j] == ' ' || v[j] == '\t' || v[j] == '\n' || v[j] == '\r')
        invariant
            i <= j <= v@.len(),
            skip_ws(v@.skip(i as int)) == skip_ws(v@.skip(j as int)),
        decreases v@.len() - j,
    {
        proof {
            assert(v@.skip(j as int)[0] == v@[j as int]);
            assert(v@.skip(j as int).skip(1) =~= v@.skip(j as int + 1));
        }
        j = j + 1;
    }
    proof {
        if j < v@.len() {
            assert(v@.skip(j as int)[0] == v@[j as int]);
            assert(!is_ws(v@.skip(j as int)[0]));
        } else {
            assert(v@.skip(j as int).len() == 0);
        }
        assert(skip_ws(v@.skip(j as int)) == v@.skip(j as int));
    }
    j
}

/// Reads one expected punctuation character.
fn p_char(v: &Vec<char>, i: usize, c: char) -> (r: Option<usize>)
    requires
        i <= v@.len(),
    ensures
        match expect(v@.skip(i as int), c) {
            None => r is None,
            Some(rest) => r is Some && i < r.unwrap() <= v@.len() && v@.skip(
                r.unwrap() as int,
            ) == rest,
        },
{
    let j = p_ws(v, i);
    if j < v.len() && v[j] == c {
        proof {
            assert(v@.skip(j as int)[0] == v@[j as int]);
            assert(v@.skip(j as int).skip(1) =~= v@.skip(j as int + 1));
        }
        Some(j + 1)
    } else {
        proof {
            if j < v@.len() {
                assert(v@.skip(j as int)[0] == v@[j as int]);
            }
        }
        None
    }
}

/// Reads a quoted string, undoing the escapes.
fn p_string(v: &Vec<char>, i: usize) -> (r: Option<(String, usize)>)
    requires
        i <= v@.len(),
    ensures
        match parse_string(v@.skip(i as int)) {
            None => r is None,
            Some((t, rest)) => r is Some && r.unwrap().0@ == t && i < r.unwrap().1 <= v@.len()
                && v@.skip(r.unwrap().1 as int) == rest,
        },
{
    let j = p_ws(v, i);
    if j >= v.len() || v[j] != '"' {
        proof {
            if j < v@.len() {
                assert(v@.skip(j as int)[0] == v@[j as int]);
            }
        }
        return None;
    }
    proof {
        assert(v@.skip(j as int)[0] == v@[j as int]);
        assert(v@.skip(j as int).skip(1) =~= v@.skip(j as int + 1));
    }
    let ghost body = v@.skip(j as int + 1);
    let mut out = String::new();
    let mut k = j + 1;
    while k < v.len()
        invariant
            i <= j,
            j + 1 <= k <= v@.len(),
            body == v@.skip(j as int + 1),
            parse_string(v@.skip(i as int)) == parse_str_body(body),
            parse_str_body(body) == match parse_str_body(v@.skip(k as int)) {
                Some((t, r)) => Some((out@ + t, r)),
                None => None,
            },
        decreases v@.len() - k,
    {
        let c = v[k];
        proof {
            assert(v@.skip(k as int)[0] == v@[k as int]);
        }
        if c == '"' {
            proof {
                assert(v@.skip(k as int).skip(1) =~= v@.skip(k as int + 1));
                assert(parse_str_body(v@.skip(k as int)) == Some(
                    (Seq::<char>::empty(), v@.skip(k as int + 1)),
                ));
                assert(out@ + Seq::<char>::empty() =~= out@);
            }
            return Some((out, k + 1));
        } else if c == '\\' {
            if k + 1 >= v.len() {
                proof {
                    assert(v@.skip(k as int).len() < 2);
                }
                return None;
            }
            let c2 = v[k + 1];
            proof {
                assert(v@.skip(k as int)[1] == v@[k as int + 1]);
                assert(v@.skip(k as int).skip(2) =~= v@.skip(k as int + 2));
            }
            let ghost out0 = out@;
            push_char(&mut out, c2);
            k = k + 2;
            proof {
                assert forall|t: Seq<char>| out0 + (seq![c2] + t) =~= out@ + t by {}
            }
        } else {
            proof {
                assert(v@.skip(k as int).skip(1) =~= v@.skip(k as int + 1));
            }
            let ghost out0 = out@;
            push_char(&mut out, c);
            k = k + 1;
            proof {
                assert forall|t: Seq<char>| out0 + (seq![c] + t) =~= out@ + t by {}
            }
        }
    }
    proof {
        assert(v@.skip(k as int).len() == 0);
    }
    None
}

/// Reads a decimal number that fits the platform's word.
fn p_nat(v: &Vec<char>, i: usize) -> (r: Option<(usize, usize)>)
    requires
        i <= v@.len(),
    ensures
        match parse_nat(v@.skip(i as int)) {
            None => r is None,
            Some((n, rest)) => if n <= usize::MAX {
                r is Some && r.unwrap().0 as nat == n && i <= r.unwrap().1 <= v@.len() && v@.skip(
                    r.unwrap().1 as int,
                ) == rest
            } else {
                r is None
            },
        },
{
    let j = p_ws(v, i);
    let ghost t = v@.skip(j as int);
    let mut k = j;
    let mut acc: usize = 0;
    let mut big = false;
    let ghost mut val: nat = 0;
    proof {
        assert(t.take(0) =~= Seq::<char>::empty());
    }
    while k < v.len() && digit_of_char(v[k]).is_some()
        invariant
            j <= k <= v@.len(),
            t == v@.skip(j as int),
            digits_len(t) == (k - j) + digits_len(v@.skip(k as int)),
            val == digits_val(t.take(k - j)),
            big <==> val > usize::MAX,
            !big ==> acc as nat == val,
        decreases v@.len() - k,
    {
        let d = digit_of_char(v[k]).unwrap();
        proof {
            assert(v@.skip(k as int)[0] == v@[k as int]);
            assert(v@.skip(k as int).skip(1) =~= v@.skip(k as int + 1));
            assert(t.take(k - j + 1).drop_last() =~= t.take(k - j));
            assert(t.take(k - j + 1).last() == t[k - j]);
            assert(t[k - j] == v@[k as int]);
        }
        let ghost val0 = val;
        proof {
            val = val * 10 + digit_val(v@[k as int]);
        }
        if big {
            proof {
                assert(val0 * 10 >= val0 + val0);
                assert(val > usize::MAX);
            }
        } else {
            match acc.checked_mul(10) {
                Some(m) => match m.checked_add(d) {
                    Some(a) => {
                        acc = a;
                    },
                    None => {
                        big = true;
                    },
                },
                None => {
                    big = true;
                },
            }
        }
        k = k + 1;
    }
    proof {
        if k < v@.len() {
            assert(v@.skip(k as int)[0] == v@[k as int]);
            assert(!is_digit(v@.skip(k as int)[0]));
        } else {
            assert(v@.skip(k as int).len() == 0);
        }
        assert(digits_len(v@.skip(k as int)) == 0);
        assert(digits_len(t) == k - j);
    }
    if k == j {
        return None;
    }
    proof {
        assert(t.take(k - j) =~= t.take(digits_len(t)));
        assert(t.skip(k - j) =~= v@.skip(k as int));
    }
    if big {
        None
    } else {
        Some((acc, k))
    }
}

/// Reads the header entries after the object's opening brace, one or
/// more, and the closing brace.
fn p_entries(v: &Vec<char>, i: usize) -> (r: Option<(Vec<(String, String)>, usize)>)
    requires
        i <= v@.len(),
    ensures
        match parse_entries_rec(v@.skip(i as int), (v@.len() - i + 1) as nat) {
            None => r is None,
            Some((es, rest)) => r is Some && r.unwrap().0.deep_view() == es && i < r.unwrap().1
                <= v@.len() && v@.skip(r.unwrap().1 as int) == rest,
        },
    decreases v@.len() - i,
{
    let ghost s0 = v@.skip(i as int);
    let ghost fuel = (v@.len() - i + 1) as nat;
    let key = match p_string(v, i) {
        Some(kj) => kj,
        None => {
            return None;
        },
    };
    let (key_s, j1) = key;
    let j2 = match p_char(v, j1, ':') {
        Some(j2) => j2,
        None => {
            return None;
        },
    };
    let val = match p_string(v, j2) {
        Some(vj) => vj,
        None => {
            return None;
        },
    };
    let (val_s, j3) = val;
    let j4 = p_ws(v, j3);
    let ghost kv = (key_s@, val_s@);
    if j4 < v.len() && v[j4] == ',' {
        proof {
            assert(v@.skip(j4 as int)[0] == v@[j4 as int]);
            assert(v@.skip(j4 as int).skip(1) =~= v@.skip(j4 as int + 1));
        }
        match p_entries(v, j4 + 1) {
            Some(esj) => {
                let (mut es, j5) = esj;
                let ghost es0 = es.deep_view();
                es.insert(0, (key_s, val_s));
                proof {
                    lemma_entries_fuel(
                        v@.skip(j4 as int + 1),
                        (v@.len() - (j4 + 1) + 1) as nat,
                        (fuel - 1) as nat,
                    );
                    assert(es.deep_view() =~= seq![kv] + es0);
                }
                Some((es, j5))
            },
            None => {
                proof {
                    lemma_entries_fuel(
                        v@.skip(j4 as int + 1),
                        (v@.len() - (j4 + 1) + 1) as nat,
                        (fuel - 1) as nat,
                    );
                }
                None
            },
        }
    } else if j4 < v.len() && v[j4] == '}' {
        proof {
            assert(v@.skip(j4 as int)[0] == v@[j4 as int]);
            assert(v@.skip(j4 as int).skip(1) =~= v@.skip(j4 as int + 1));
        }
        let mut es: Vec<(String, String)> = Vec::new();
        es.push((key_s, val_s));
        proof {
            assert(es.deep_view() =~= seq![kv]);
        }
        Some((es, j4 + 1))
    } else {
        proof {
            if j4 < v@.len() {
                assert(v@.skip(j4 as int)[0] == v@[j4 as int]);
            } else {
                assert(v@.skip(j4 as int).len() == 0);
            }
        }
        None
    }
}

impl Metadata {
    /// Reads a value back from its textual interchange form.  `None` on
    /// anything that is not a stored metadata value, and on a count too
    /// large for the platform's word.
    pub fn from_json(s: &str) -> (r: Option<Metadata>)
        ensures
            match parse_metadata(s@) {
                None => r is None,
                Some((hs, off, nb)) => if off <= usize::MAX && nb <= usize::MAX {
                    r is Some && r.unwrap().headers.deep_view() == hs && r.unwrap().offset as nat
                        == off && r.unwrap().nb_sentences as nat == nb
                } else {
                    r is None
                },
            },
    {
        let v = chars_of(s);
        proof {
            assert(v@.skip(0) =~= s@);
        }
        let hk = String::from_str("headers");
        let ok = String::from_str("offset");
        let nk = String::from_str("nb_sentences");
        proof {
            reveal_strlit("headers");
            reveal_strlit("offset");
            reveal_strlit("nb_sentences");
            assert(hk@ =~= headers_key());
            assert(ok@ =~= offset_key());
            assert(nk@ =~= nb_key());
        }
        let j1 = match p_char(&v, 0, '{') {
            Some(j) => j,
            None => {
                return None;
            },
        };
        let (k1, j2) = match p_string(&v, j1) {
            Some(kj) => kj,
            None => {
                return None;
            },
        };
        if !(k1 == hk) {
            return None;
        }
        let j3 = match p_char(&v, j2, ':') {
            Some(j) => j,
            None => {
                return None;
            },
        };
        let j4 = match p_char(&v, j3, '{') {
            Some(j) => j,
            None => {
                return None;
            },
        };
        let jw = p_ws(&v, j4);
        let headers: Vec<(String, String)>;
        let j5: usize;
        if jw < v.len() && {
            let c = v[jw];
            c == '}'
        } {
            proof {
                assert(v@.skip(jw as int)[0] == v@[jw as int]);
                assert(v@.skip(jw as int).skip(1) =~= v@.skip(jw as int + 1));
            }
            headers = Vec::new();
            j5 = jw + 1;
            proof {
                assert(headers.deep_view() =~= Seq::<(Seq<char>, Seq<char>)>::empty());
            }
        } else {
            proof {
                if jw < v@.len() {
                    assert(v@.skip(jw as int)[0] == v@[jw as int]);
                } else {
                    assert(v@.skip(jw as int).len() == 0);
                }
            }
            match p_entries(&v, j4) {
                Some(ej) => {
                    let (es, j) = ej;
                    headers = es;
                    j5 = j;
                },
                None => {
                    return None;
                },
            }
        }
        let j6 = match p_char(&v, j5, ',') {
            Some(j) => j,
            None => {
                return None;
            },
        };
        let (k2, j7) = match p_string(&v, j6) {
            Some(kj) => kj,
            None => {
                return None;
            },
        };
        if !(k2 == ok) {
            return None;
        }
        let j8 = match p_char(&v, j7, ':') {
            Some(j) => j,
            None => {
                return None;
            },
        };
        let (off, j9) = match p_nat(&v, j8) {
            Some(nj) => nj,
            None => {
                return None;
            },
        };
        let j10 = match p_char(&v, j9, ',') {
            Some(j) => j,
            None => {
                return None;
            },
        };
        let (k3, j11) = match p_string(&v, j10) {
            Some(kj) => kj,
            None => {
                return None;
            },
        };
        if !(k3 == nk) {
            return None;
        }
        let j12 = match p_char(&v, j11, ':') {
            Some(j) => j,
            None => {
                return None;
            },
        };
        let (nb, j13) = match p_nat(&v, j12) {
            Some(nj) => nj,
            None => {
                return None;
            },
        };
        let j14 = match p_char(&v, j13, '}') {
            Some(j) => j,
            None => {
                return None;
            },
        };
        let j15 = p_ws(&v, j14);
        if j15 < v.len() {
            proof {
                assert(v@.skip(j15 as int).len() > 0);
            }
            return None;
        }
        proof {
            assert(v@.skip(j15 as int).len() == 0);
        }
        Some(Metadata { headers, offset: off, nb_sentences: nb })
    }
}

} // verus!
