//! Unpadded, canonical base64 over the standard alphabet.
//!
//! Every byte string has exactly one encoding and every accepted text has
//! exactly one decoding: text whose unused trailing bits are not zero, or
//! which holds a byte outside the alphabet (padding included), is rejected.

use vstd::prelude::*;

verus! {

/// The character that stands for the six-bit value `v`.
pub open spec fn sextet_char(v: int) -> u8 {
    if v < 26 {
        (65 + v) as u8
    } else if v < 52 {
        (97 + (v - 26)) as u8
    } else if v < 62 {
        (48 + (v - 52)) as u8
    } else if v == 62 {
        43u8
    } else {
        47u8
    }
}

/// Whether `c` is one of the 64 characters of the alphabet.
pub open spec fn is_alphabet(c: u8) -> bool {
    (65 <= c <= 90) || (97 <= c <= 122) || (48 <= c <= 57) || c == 43 || c == 47
}

/// The six-bit value that the alphabet character `c` stands for.
pub open spec fn char_sextet(c: u8) -> int {
    if 65 <= c <= 90 {
        c - 65
    } else if 97 <= c <= 122 {
        c - 97 + 26
    } else if 48 <= c <= 57 {
        c - 48 + 52
    } else if c == 43 {
        62
    } else {
        63
    }
}

/// First character of a group: the high six bits of its first byte.
pub open spec fn c0(x: int) -> u8 {
    sextet_char(x / 4)
}

/// Second character of a group: two bits of the first byte, four of the second.
pub open spec fn c1(x: int, y: int) -> u8 {
    sextet_char((x % 4) * 16 + y / 16)
}

/// Third character of a group: four bits of the second byte, two of the third.
pub open spec fn c2(y: int, z: int) -> u8 {
    sextet_char((y % 16) * 4 + z / 64)
}

/// Fourth character of a group: the low six bits of its third byte.
pub open spec fn c3(z: int) -> u8 {
    sextet_char(z % 64)
}

/// First byte of a group, from the values of its first two characters.
pub open spec fn b0(a: int, b: int) -> u8 {
    (a * 4 + b / 16) as u8
}

/// Second byte of a group, from the values of its second and third character.
pub open spec fn b1(b: int, c: int) -> u8 {
    ((b % 16) * 16 + c / 4) as u8
}

/// Third byte of a group, from the values of its third and fourth character.
pub open spec fn b2(c: int, d: int) -> u8 {
    ((c % 4) * 64 + d) as u8
}

/// The encoding of `s`: four characters for every three bytes, and two or
/// three characters for a last group of one or two bytes.
pub open spec fn encode_spec(s: Seq<u8>) -> Seq<u8>
    decreases s.len(),
{
    if s.len() == 0 {
        Seq::empty()
    } else if s.len() == 1 {
        seq![c0(s[0] as int), c1(s[0] as int, 0)]
    } else if s.len() == 2 {
        seq![c0(s[0] as int), c1(s[0] as int, s[1] as int), c2(s[1] as int, 0)]
    } else {
        seq![
            c0(s[0] as int),
            c1(s[0] as int, s[1] as int),
            c2(s[1] as int, s[2] as int),
            c3(s[2] as int),
        ] + encode_spec(s.skip(3))
    }
}

/// The bytes that `t` encodes, or `None` where `t` is not a canonical
/// encoding.
pub open spec fn decode_spec(t: Seq<u8>) -> Option<Seq<u8>>
    decreases t.len(),
{
    if t.len() == 0 {
        Some(Seq::empty())
    } else if t.len() == 1 || !is_alphabet(t[0]) || !is_alphabet(t[1]) {
        None
    } else {
        let a = char_sextet(t[0]);
        let b = char_sextet(t[1]);
        if t.len() == 2 {
            if b % 16 == 0 {
                Some(seq![b0(a, b)])
            } else {
                None
            }
        } else if !is_alphabet(t[2]) {
            None
        } else {
            let c = char_sextet(t[2]);
            if t.len() == 3 {
                if c % 4 == 0 {
                    Some(seq![b0(a, b), b1(b, c)])
                } else {
                    None
                }
            } else if !is_alphabet(t[3]) {
                None
            } else {
                let d = char_sextet(t[3]);
                match decode_spec(t.skip(4)) {
                    Some(r) => Some(seq![b0(a, b), b1(b, c), b2(c, d)] + r),
                    None => None,
                }
            }
        }
    }
}

/// The number of characters that encode `n` bytes.
pub open spec fn encoded_len(n: nat) -> nat {
    ((4 * n + 2) / 3) as nat
}

/// A six-bit value and its character determine each other.
pub proof fn lemma_sextet_char(v: int)
    requires
        0 <= v < 64,
    ensures
        is_alphabet(sextet_char(v)),
        char_sextet(sextet_char(v)) == v,
{
}

/// An alphabet character and its six-bit value determine each other.
pub proof fn lemma_char_sextet(c: u8)
    requires
        is_alphabet(c),
    ensures
        0 <= char_sextet(c) < 64,
        sextet_char(char_sextet(c)) == c,
{
}

/// An encoding of `n` bytes is `encoded_len(n)` characters long.
pub proof fn lemma_encode_len(s: Seq<u8>)
    ensures
        encode_spec(s).len() == encoded_len(s.len()),
    decreases s.len(),
{
    if s.len() >= 3 {
        lemma_encode_len(s.skip(3));
    }
}

/// An encoding holds characters of the alphabet only.
pub proof fn lemma_encode_alphabet(s: Seq<u8>)
    ensures
        forall|i: int| 0 <= i < encode_spec(s).len() ==> is_alphabet(#[trigger] encode_spec(s)[i]),
    decreases s.len(),
{
    if s.len() == 0 {
    } else if s.len() == 1 {
        lemma_sextet_char(s[0] as int / 4);
        lemma_sextet_char((s[0] as int % 4) * 16);
    } else if s.len() == 2 {
        lemma_sextet_char(s[0] as int / 4);
        lemma_sextet_char((s[0] as int % 4) * 16 + s[1] as int / 16);
        lemma_sextet_char((s[1] as int % 16) * 4);
    } else {
        lemma_sextet_char(s[0] as int / 4);
        lemma_sextet_char((s[0] as int % 4) * 16 + s[1] as int / 16);
        lemma_sextet_char((s[1] as int % 16) * 4 + s[2] as int / 64);
        lemma_sextet_char(s[2] as int % 64);
        lemma_encode_alphabet(s.skip(3));
        let tail = encode_spec(s.skip(3));
        assert forall|i: int| 0 <= i < encode_spec(s).len() implies is_alphabet(
            #[trigger] encode_spec(s)[i],
        ) by {
            if i >= 4 {
                assert(encode_spec(s)[i] == tail[i - 4]);
            }
        }
    }
}

/// Decoding undoes encoding.
pub proof fn lemma_decode_encode(s: Seq<u8>)
    ensures
        decode_spec(encode_spec(s)) == Some(s),
    decreases s.len(),
{
    let t = encode_spec(s);
    if s.len() == 0 {
    } else if s.len() == 1 {
        lemma_sextet_char(s[0] as int / 4);
        lemma_sextet_char((s[0] as int % 4) * 16);
        assert(decode_spec(t).unwrap() =~= s);
    } else if s.len() == 2 {
        lemma_sextet_char(s[0] as int / 4);
        lemma_sextet_char((s[0] as int % 4) * 16 + s[1] as int / 16);
        lemma_sextet_char((s[1] as int % 16) * 4);
        assert(decode_spec(t).unwrap() =~= s);
    } else {
        lemma_sextet_char(s[0] as int / 4);
        lemma_sextet_char((s[0] as int % 4) * 16 + s[1] as int / 16);
        lemma_sextet_char((s[1] as int % 16) * 4 + s[2] as int / 64);
        lemma_sextet_char(s[2] as int % 64);
        lemma_decode_encode(s.skip(3));
        assert(t.skip(4) =~= encode_spec(s.skip(3)));
        assert(seq![s[0], s[1], s[2]] + s.skip(3) =~= s);
    }
}

/// Encoding undoes decoding: a text that decodes is the encoding of what it
/// decodes to.
pub proof fn lemma_encode_decode(t: Seq<u8>)
    requires
        decode_spec(t) is Some,
    ensures
        encode_spec(decode_spec(t).unwrap()) == t,
    decreases t.len(),
{
    let s = decode_spec(t).unwrap();
    if t.len() == 0 {
    } else {
        lemma_char_sextet(t[0]);
        lemma_char_sextet(t[1]);
        if t.len() == 2 {
            assert(encode_spec(s) =~= t);
        } else {
            lemma_char_sextet(t[2]);
            if t.len() == 3 {
                assert(encode_spec(s) =~= t);
            } else {
                lemma_char_sextet(t[3]);
                lemma_encode_decode(t.skip(4));
                let r = decode_spec(t.skip(4)).unwrap();
                assert(s.skip(3) =~= r);
                assert(encode_spec(s) =~= t);
            }
        }
    }
}

/// Two byte strings with the same encoding are the same.
pub proof fn lemma_encode_injective(a: Seq<u8>, b: Seq<u8>)
    requires
        encode_spec(a) == encode_spec(b),
    ensures
        a == b,
{
    lemma_decode_encode(a);
    lemma_decode_encode(b);
}

fn sextet_to_char(v: u8) -> (c: u8)
    requires
        v < 64,
    ensures
        c == sextet_char(v as int),
{
    if v < 26 {
        65 + v
    } else if v < 52 {
        97 + (v - 26)
    } else if v < 62 {
        48 + (v - 52)
    } else if v == 62 {
        43
    } else {
        47
    }
}

fn char_to_sextet(c: u8) -> (v: Option<u8>)
    ensures
        match v {
            Some(x) => is_alphabet(c) && x == char_sextet(c) && x < 64,
            None => !is_alphabet(c),
        },
{
    if 65 <= c && c <= 90 {
        Some(c - 65)
    } else if 97 <= c && c <= 122 {
        Some(c - 97 + 26)
    } else if 48 <= c && c <= 57 {
        Some(c - 48 + 52)
    } else if c == 43 {
        Some(62)
    } else if c == 47 {
        Some(63)
    } else {
        None
    }
}

/// Whether `c` is one of the 64 characters of the alphabet.
pub fn is_alphabet_char(c: u8) -> (r: bool)
    ensures
        r == is_alphabet(c),
{
    (65 <= c && c <= 90) || (97 <= c && c <= 122) || (48 <= c && c <= 57) || c == 43 || c == 47
}

/// Encodes `data`.
pub fn encode(data: &[u8]) -> (out: Vec<u8>)
    ensures
        out@ == encode_spec(data@),
{
    let n = data.len();
    let mut out: Vec<u8> = Vec::new();
    let mut i: usize = 0;
    assert(data@.skip(0) =~= data@);
    assert(out@ + encode_spec(data@) =~= encode_spec(data@));
    while n - i >= 3
        invariant
            i <= n,
            n == data@.len(),
            out@ + encode_spec(data@.skip(i as int)) == encode_spec(data@),
        decreases n - i,
    {
        let x = data[i];
        let y = data[i + 1];
        let z = data[i + 2];
        proof {
            let rest = data@.skip(i as int);
            assert(rest.skip(3) =~= data@.skip(i + 3));
            assert(out@ + (seq![
                c0(x as int),
                c1(x as int, y as int),
                c2(y as int, z as int),
                c3(z as int),
            ] + encode_spec(rest.skip(3))) =~= out@.push(c0(x as int)).push(
                c1(x as int, y as int),
            ).push(c2(y as int, z as int)).push(c3(z as int)) + encode_spec(data@.skip(i + 3)));
        }
        out.push(sextet_to_char(x / 4));
        out.push(sextet_to_char((x % 4) * 16 + y / 16));
        out.push(sextet_to_char((y % 16) * 4 + z / 64));
        out.push(sextet_to_char(z % 64));
        i += 3;
    }
    proof {
        let rest = data@.skip(i as int);
        if n - i == 1 {
            assert(out@ + encode_spec(rest) =~= out@.push(c0(rest[0] as int)).push(
                c1(rest[0] as int, 0),
            ));
        } else if n - i == 2 {
            assert(out@ + encode_spec(rest) =~= out@.push(c0(rest[0] as int)).push(
                c1(rest[0] as int, rest[1] as int),
            ).push(c2(rest[1] as int, 0)));
        } else {
            assert(out@ + encode_spec(rest) =~= out@);
        }
    }
    if n - i == 1 {
        let x = data[i];
        out.push(sextet_to_char(x / 4));
        out.push(sextet_to_char((x % 4) * 16));
    } else if n - i == 2 {
        let x = data[i];
        let y = data[i + 1];
        out.push(sextet_to_char(x / 4));
        out.push(sextet_to_char((x % 4) * 16 + y / 16));
        out.push(sextet_to_char((y % 16) * 4));
    }
    out
}

/// What is left to decode after `done` has been decoded from the front.
spec fn decode_after(done: Seq<u8>, rest: Seq<u8>) -> Option<Seq<u8>> {
    match decode_spec(rest) {
        Some(r) => Some(done + r),
        None => None,
    }
}

/// Decodes `text`, or returns `None` where it is not a canonical encoding.
pub fn decode(text: &[u8]) -> (out: Option<Vec<u8>>)
    ensures
        match out {
            Some(v) => decode_spec(text@) == Some(v@),
            None => decode_spec(text@) is None,
        },
{
    let n = text.len();
    let mut out: Vec<u8> = Vec::new();
    let mut i: usize = 0;
    assert(text@.skip(0) =~= text@);
    assert(decode_after(out@, text@) == decode_spec(text@)) by {
        if decode_spec(text@) is Some {
            assert(out@ + decode_spec(text@).unwrap() =~= decode_spec(text@).unwrap());
        }
    }
    while n - i >= 4
        invariant
            i <= n,
            n == text@.len(),
            decode_after(out@, text@.skip(i as int)) == decode_spec(text@),
        decreases n - i,
    {
        let ghost rest = text@.skip(i as int);
        let ghost before = out@;
        let a = match char_to_sextet(text[i]) {
            Some(v) => v,
            None => { return None; },
        };
        let b = match char_to_sextet(text[i + 1]) {
            Some(v) => v,
            None => { return None; },
        };
        let c = match char_to_sextet(text[i + 2]) {
            Some(v) => v,
            None => { return None; },
        };
        let d = match char_to_sextet(text[i + 3]) {
            Some(v) => v,
            None => { return None; },
        };
        out.push(a * 4 + b / 16);
        out.push((b % 16) * 16 + c / 4);
        out.push((c % 4) * 64 + d);
        proof {
            assert(rest.skip(4) =~= text@.skip(i + 4));
            if decode_spec(rest.skip(4)) is Some {
                let r = decode_spec(rest.skip(4)).unwrap();
                assert(before + (seq![
                    b0(a as int, b as int),
                    b1(b as int, c as int),
                    b2(c as int, d as int),
                ] + r) =~= out@ + r);
            }
        }
        i += 4;
    }
    let ghost rest = text@.skip(i as int);
    if n - i == 0 {
        assert(out@ + Seq::<u8>::empty() =~= out@);
        return Some(out);
    }
    if n - i == 1 {
        return None;
    }
    let a = match char_to_sextet(text[i]) {
        Some(v) => v,
        None => { return None; },
    };
    let b = match char_to_sextet(text[i + 1]) {
        Some(v) => v,
        None => { return None; },
    };
    if n - i == 2 {
        if b % 16 != 0 {
            return None;
        }
        assert(out@ + seq![b0(a as int, b as int)] =~= out@.push(b0(a as int, b as int)));
        out.push(a * 4 + b / 16);
        return Some(out);
    }
    let c = match char_to_sextet(text[i + 2]) {
        Some(v) => v,
        None => { return None; },
    };
    if c % 4 != 0 {
        return None;
    }
    assert(out@ + seq![b0(a as int, b as int), b1(b as int, c as int)] =~= out@.push(
        b0(a as int, b as int),
    ).push(b1(b as int, c as int)));
    out.push(a * 4 + b / 16);
    out.push((b % 16) * 16 + c / 4);
    Some(out)
}

} // verus!
