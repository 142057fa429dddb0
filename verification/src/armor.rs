//! The ASCII armor: a message as text.
//!
//! ```text
//! -----BEGIN AGE ENCRYPTED FILE-----
//! <the message in padded base64, 64 columns>
//! -----END AGE ENCRYPTED FILE-----
//! ```
//!
//! Every message has one armored form, and reading accepts nothing else.

use crate::base64::{
    decode, decode_spec, encode, encode_spec, is_alphabet, lemma_decode_encode,
    lemma_encode_alphabet,
};
use crate::util::{append, has_at, same_bytes};
use vstd::prelude::*;
use vstd::slice::slice_subrange;

verus! {

/// The first line of an armored message, with its line feed.
pub const ARMOR_BEGIN: [u8; 35] = [
    45, 45, 45, 45, 45, 66, 69, 71, 73, 78, 32, 65, 71, 69, 32, 69, 78, 67, 82, 89, 80, 84, 69, 68,
    32, 70, 73, 76, 69, 45, 45, 45, 45, 45, 10,
];

/// The last line of an armored message, with its line feed.
pub const ARMOR_END: [u8; 33] = [
    45, 45, 45, 45, 45, 69, 78, 68, 32, 65, 71, 69, 32, 69, 78, 67, 82, 89, 80, 84, 69, 68, 32, 70,
    73, 76, 69, 45, 45, 45, 45, 45, 10,
];

/// The number of characters in a full line of armor.
pub const ARMOR_COLUMNS: usize = 64;

/// The padding that follows the base64 characters of `n` bytes: as many `=`
/// as fill the last group of four.
pub open spec fn padding_spec(n: nat) -> Seq<u8> {
    if n % 3 == 1 {
        seq![61u8, 61u8]
    } else if n % 3 == 2 {
        seq![61u8]
    } else {
        Seq::empty()
    }
}

/// The padded base64 text of `data`.
pub open spec fn padded_spec(data: Seq<u8>) -> Seq<u8> {
    encode_spec(data) + padding_spec(data.len())
}

/// The text `t` in lines of at most 64 characters, each ended by a line
/// feed; no line is empty.
pub open spec fn lines_spec(t: Seq<u8>) -> Seq<u8>
    decreases t.len(),
{
    if t.len() == 0 {
        Seq::empty()
    } else if t.len() <= ARMOR_COLUMNS {
        t.push(10u8)
    } else {
        t.take(ARMOR_COLUMNS as int).push(10u8) + lines_spec(t.skip(ARMOR_COLUMNS as int))
    }
}

/// The armored form of `data`.
pub open spec fn armor_spec(data: Seq<u8>) -> Seq<u8> {
    ARMOR_BEGIN@ + lines_spec(padded_spec(data)) + ARMOR_END@
}

/// What `text` is the armored form of, if it is one.
pub open spec fn dearmor_spec(text: Seq<u8>) -> Option<Seq<u8>> {
    if exists|data: Seq<u8>| armor_spec(data) == text {
        Some(choose|data: Seq<u8>| armor_spec(data) == text)
    } else {
        None
    }
}

/// `s` without its line feeds.
pub open spec fn joined_spec(s: Seq<u8>) -> Seq<u8>
    decreases s.len(),
{
    if s.len() == 0 {
        Seq::empty()
    } else if s[0] == 10 {
        joined_spec(s.skip(1))
    } else {
        seq![s[0]] + joined_spec(s.skip(1))
    }
}

/// `t` without the one or two `=` that it ends with.
pub open spec fn unpadded_spec(t: Seq<u8>) -> Seq<u8> {
    if t.len() >= 2 && t[t.len() - 1] == 61 && t[t.len() - 2] == 61 {
        t.take(t.len() - 2)
    } else if t.len() >= 1 && t[t.len() - 1] == 61 {
        t.take(t.len() - 1)
    } else {
        t
    }
}

/// What `text` can only be the armored form of: what its lines between the
/// first and the last hold as base64, line feeds and padding set aside.
pub open spec fn candidate_spec(text: Seq<u8>) -> Option<Seq<u8>> {
    if text.len() < ARMOR_BEGIN@.len() + ARMOR_END@.len() {
        None
    } else {
        decode_spec(
            unpadded_spec(
                joined_spec(text.subrange(ARMOR_BEGIN@.len() as int, text.len() - ARMOR_END@.len())),
            ),
        )
    }
}

/// Joining two texts joins what each holds.
pub proof fn lemma_joined_add(a: Seq<u8>, b: Seq<u8>)
    ensures
        joined_spec(a + b) == joined_spec(a) + joined_spec(b),
    decreases a.len(),
{
    if a.len() == 0 {
        assert(a + b =~= b);
        assert(joined_spec(a) + joined_spec(b) =~= joined_spec(b));
    } else {
        assert((a + b).skip(1) =~= a.skip(1) + b);
        lemma_joined_add(a.skip(1), b);
        if a[0] != 10 {
            assert(seq![a[0]] + (joined_spec(a.skip(1)) + joined_spec(b)) =~= (seq![a[0]]
                + joined_spec(a.skip(1))) + joined_spec(b));
        }
    }
}

/// A text without line feeds is what it holds.
pub proof fn lemma_joined_plain(t: Seq<u8>)
    requires
        forall|i: int| 0 <= i < t.len() ==> #[trigger] t[i] != 10,
    ensures
        joined_spec(t) == t,
    decreases t.len(),
{
    if t.len() > 0 {
        assert forall|i: int| 0 <= i < t.skip(1).len() implies #[trigger] t.skip(1)[i] != 10 by {
            assert(t.skip(1)[i] == t[i + 1]);
        }
        lemma_joined_plain(t.skip(1));
        assert(seq![t[0]] + t.skip(1) =~= t);
    }
}

/// The lines of a text without line feeds hold the text.
pub proof fn lemma_joined_lines(t: Seq<u8>)
    requires
        forall|i: int| 0 <= i < t.len() ==> #[trigger] t[i] != 10,
    ensures
        joined_spec(lines_spec(t)) == t,
    decreases t.len(),
{
    let lf = seq![10u8];
    assert(joined_spec(lf) =~= Seq::<u8>::empty()) by {
        assert(lf[0] == 10);
        assert(lf.skip(1).len() == 0);
        assert(joined_spec(lf.skip(1)) =~= Seq::<u8>::empty());
    }
    if t.len() == 0 {
    } else if t.len() <= ARMOR_COLUMNS {
        assert(t.push(10u8) =~= t + lf);
        lemma_joined_add(t, lf);
        lemma_joined_plain(t);
        assert(t + Seq::<u8>::empty() =~= t);
    } else {
        let head = t.take(ARMOR_COLUMNS as int);
        let tail = t.skip(ARMOR_COLUMNS as int);
        assert forall|i: int| 0 <= i < tail.len() implies #[trigger] tail[i] != 10 by {
            assert(tail[i] == t[i + ARMOR_COLUMNS]);
        }
        assert forall|i: int| 0 <= i < head.len() implies #[trigger] head[i] != 10 by {
            assert(head[i] == t[i]);
        }
        lemma_joined_lines(tail);
        lemma_joined_plain(head);
        assert(head.push(10u8) =~= head + lf);
        lemma_joined_add(head, lf);
        lemma_joined_add(head + lf, lines_spec(tail));
        assert(head + Seq::<u8>::empty() + tail =~= t);
    }
}

/// Padded base64 holds no line feed, and without its padding it is the
/// base64 text.
pub proof fn lemma_padded(data: Seq<u8>)
    ensures
        forall|i: int| 0 <= i < padded_spec(data).len() ==> #[trigger] padded_spec(data)[i] != 10,
        unpadded_spec(padded_spec(data)) == encode_spec(data),
{
    let text = encode_spec(data);
    let padded = padded_spec(data);
    lemma_encode_alphabet(data);
    assert forall|i: int| 0 <= i < padded.len() implies #[trigger] padded[i] != 10 by {
        if i < text.len() {
            assert(padded[i] == text[i]);
        }
    }
    if text.len() > 0 {
        assert(is_alphabet(text[text.len() - 1]));
    }
    if data.len() % 3 == 1 {
        assert(padded.take(padded.len() - 2) =~= text);
    } else if data.len() % 3 == 2 {
        assert(padded[padded.len() - 2] == text[text.len() - 1]);
        assert(padded.take(padded.len() - 1) =~= text);
    } else {
        assert(padded =~= text);
    }
}

/// The armored form of `data` can only be the armored form of `data`.
pub proof fn lemma_candidate_of_armor(data: Seq<u8>)
    ensures
        candidate_spec(armor_spec(data)) == Some(data),
{
    let text = armor_spec(data);
    let body = lines_spec(padded_spec(data));
    assert(text.subrange(ARMOR_BEGIN@.len() as int, text.len() - ARMOR_END@.len()) =~= body);
    lemma_padded(data);
    lemma_joined_lines(padded_spec(data));
    lemma_decode_encode(data);
}

/// Two messages with the same armored form are the same message.
pub proof fn lemma_armor_injective(a: Seq<u8>, b: Seq<u8>)
    requires
        armor_spec(a) == armor_spec(b),
    ensures
        a == b,
{
    lemma_candidate_of_armor(a);
    lemma_candidate_of_armor(b);
}

/// Reading undoes armoring.
pub proof fn lemma_dearmor_armor(data: Seq<u8>)
    ensures
        dearmor_spec(armor_spec(data)) == Some(data),
{
    let found = choose|d: Seq<u8>| armor_spec(d) == armor_spec(data);
    lemma_armor_injective(found, data);
}

fn lines(text: &[u8]) -> (out: Vec<u8>)
    ensures
        out@ == lines_spec(text@),
{
    let n = text.len();
    let mut out: Vec<u8> = Vec::new();
    let mut i: usize = 0;
    assert(text@.skip(0) =~= text@);
    assert(out@ + lines_spec(text@) =~= lines_spec(text@));
    while n - i > ARMOR_COLUMNS
        invariant
            i <= n == text@.len(),
            out@ + lines_spec(text@.skip(i as int)) == lines_spec(text@),
        decreases n - i,
    {
        let ghost before = out@;
        let ghost rest = text@.skip(i as int);
        let line = slice_subrange(text, i, i + ARMOR_COLUMNS);
        append(&mut out, line);
        out.push(10u8);
        proof {
            assert(rest.take(ARMOR_COLUMNS as int) =~= line@);
            assert(rest.skip(ARMOR_COLUMNS as int) =~= text@.skip(i + ARMOR_COLUMNS));
            assert(before + (rest.take(ARMOR_COLUMNS as int).push(10u8) + lines_spec(
                rest.skip(ARMOR_COLUMNS as int),
            )) =~= out@ + lines_spec(text@.skip(i + ARMOR_COLUMNS)));
        }
        i += ARMOR_COLUMNS;
    }
    if n - i > 0 {
        let ghost before = out@;
        let line = slice_subrange(text, i, n);
        append(&mut out, line);
        out.push(10u8);
        proof {
            let rest = text@.skip(i as int);
            assert(rest =~= line@);
            assert(before + rest.push(10u8) =~= out@);
        }
    } else {
        assert(out@ + Seq::<u8>::empty() =~= out@);
    }
    out
}

/// The armored form of `data`.
pub fn armor(data: &[u8]) -> (out: Vec<u8>)
    ensures
        out@ == armor_spec(data@),
{
    let mut text = encode(data);
    if data.len() % 3 == 1 {
        text.push(61u8);
        text.push(61u8);
    } else if data.len() % 3 == 2 {
        text.push(61u8);
    }
    assert(text@ =~= padded_spec(data@));
    let body = lines(text.as_slice());
    let mut out: Vec<u8> = Vec::new();
    append(&mut out, ARMOR_BEGIN.as_slice());
    append(&mut out, body.as_slice());
    append(&mut out, ARMOR_END.as_slice());
    out
}

fn joined(s: &[u8]) -> (out: Vec<u8>)
    ensures
        out@ == joined_spec(s@),
{
    let n = s.len();
    let mut out: Vec<u8> = Vec::new();
    let mut i: usize = 0;
    assert(s@.skip(0) =~= s@);
    assert(out@ + joined_spec(s@) =~= joined_spec(s@));
    while i < n
        invariant
            i <= n == s@.len(),
            out@ + joined_spec(s@.skip(i as int)) == joined_spec(s@),
        decreases n - i,
    {
        let ghost before = out@;
        let ghost rest = s@.skip(i as int);
        assert(rest[0] == s@[i as int]);
        assert(rest.skip(1) =~= s@.skip(i + 1));
        if s[i] != 10 {
            out.push(s[i]);
            assert(before + (seq![rest[0]] + joined_spec(rest.skip(1))) =~= out@ + joined_spec(
                s@.skip(i + 1),
            ));
        }
        i += 1;
    }
    assert(out@ + joined_spec(s@.skip(i as int)) =~= out@);
    out
}

fn candidate(text: &[u8]) -> (r: Option<Vec<u8>>)
    ensures
        crate::primitives::option_view(r) == candidate_spec(text@),
{
    let n = text.len();
    if n < 68 {
        return None;
    }
    let body = slice_subrange(text, 35, n - 33);
    let t = joined(body);
    let m = t.len();
    let cut = if m >= 2 && t[m - 1] == 61 && t[m - 2] == 61 {
        m - 2
    } else if m >= 1 && t[m - 1] == 61 {
        m - 1
    } else {
        m
    };
    let u = slice_subrange(t.as_slice(), 0, cut);
    assert(u@ =~= unpadded_spec(t@));
    decode(u)
}

/// Whether `data` starts like an armored message: with the first line of
/// the armor.
pub open spec fn is_armored_spec(data: Seq<u8>) -> bool {
    data.len() >= ARMOR_BEGIN@.len() && data.take(ARMOR_BEGIN@.len() as int) == ARMOR_BEGIN@
}

/// Whether `data` starts like an armored message.
pub fn is_armored(data: &[u8]) -> (r: bool)
    ensures
        r == is_armored_spec(data@),
{
    let r = has_at(data, 0, ARMOR_BEGIN.as_slice());
    proof {
        if data@.len() >= ARMOR_BEGIN@.len() {
            assert(data@.take(ARMOR_BEGIN@.len() as int) =~= data@.subrange(
                0,
                ARMOR_BEGIN@.len() as int,
            ));
        }
    }
    r
}

/// Reads an armored message.
///
/// Gives the message where `text` is the armored form of one, and `None`
/// for any other text.
pub fn dearmor(text: &[u8]) -> (r: Option<Vec<u8>>)
    ensures
        crate::primitives::option_view(r) == dearmor_spec(text@),
        r matches Some(data) ==> armor_spec(data@) == text@,
{
    let data = match candidate(text) {
        Some(d) => d,
        None => {
            proof {
                assert forall|d: Seq<u8>| armor_spec(d) != text@ by {
                    lemma_candidate_of_armor(d);
                }
            }
            return None;
        },
    };
    let again = armor(data.as_slice());
    if same_bytes(again.as_slice(), text) {
        proof {
            lemma_dearmor_armor(data@);
        }
        Some(data)
    } else {
        proof {
            assert forall|d: Seq<u8>| armor_spec(d) != text@ by {
                lemma_candidate_of_armor(d);
            }
        }
        None
    }
}

} // verus!
