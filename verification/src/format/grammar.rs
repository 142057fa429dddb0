//! What reading a header means, stated on the bytes that are left to read,
//! and the proof that it is the inverse of writing.

use crate::base64::{
    decode_spec, encode_spec, is_alphabet, lemma_decode_encode, lemma_encode_alphabet,
    lemma_encode_decode, lemma_encode_len,
};
use crate::format::{
    args_spec, header_spec, is_visible, is_word, stanza_spec, stanzas_spec, wrap_spec, HeaderView,
    StanzaView, COLUMNS, MAC_LEN, MAC_PREFIX, MAC_TEXT_LEN, STANZA_PREFIX, VERSION_LINE,
};
use vstd::prelude::*;

verus! {

/// The number of visible characters that `d` starts with.
pub open spec fn word_len(d: Seq<u8>) -> nat
    decreases d.len(),
{
    if d.len() > 0 && is_visible(d[0]) {
        1 + word_len(d.skip(1))
    } else {
        0
    }
}

/// The number of base64 characters that `d` starts with.
pub open spec fn text_len(d: Seq<u8>) -> nat
    decreases d.len(),
{
    if d.len() > 0 && is_alphabet(d[0]) {
        1 + text_len(d.skip(1))
    } else {
        0
    }
}

/// Whether `d` starts with `lit`.
pub open spec fn starts_with(d: Seq<u8>, lit: Seq<u8>) -> bool {
    d.len() >= lit.len() && d.take(lit.len() as int) == lit
}

/// Reads the rest of a stanza's first line, after its tag: arguments, each
/// after one space, up to the line feed. Gives the arguments and what
/// follows the line.
pub open spec fn parse_args_spec(d: Seq<u8>) -> Option<(Seq<Seq<u8>>, Seq<u8>)>
    decreases d.len(),
{
    if d.len() == 0 {
        None
    } else if d[0] == 10 {
        Some((Seq::empty(), d.skip(1)))
    } else if d[0] == 32 {
        let n = word_len(d.skip(1)) as int;
        if n == 0 || 1 + n > d.len() {
            None
        } else {
            match parse_args_spec(d.skip(1 + n)) {
                Some((args, rest)) => Some((seq![d.subrange(1, 1 + n)] + args, rest)),
                None => None,
            }
        }
    } else {
        None
    }
}

/// Reads the lines of a stanza's body: full lines of 64 base64 characters,
/// then one shorter line. Gives the characters without the line feeds and
/// what follows the last line.
pub open spec fn parse_body_spec(d: Seq<u8>) -> Option<(Seq<u8>, Seq<u8>)>
    decreases d.len(),
{
    let n = text_len(d) as int;
    if n > COLUMNS || n >= d.len() || d[n] != 10 {
        None
    } else if n < COLUMNS {
        Some((d.take(n), d.skip(n + 1)))
    } else {
        match parse_body_spec(d.skip(COLUMNS + 1)) {
            Some((t, rest)) => Some((d.take(COLUMNS as int) + t, rest)),
            None => None,
        }
    }
}

/// Reads one stanza. Gives the stanza and what follows it.
pub open spec fn parse_stanza_spec(d: Seq<u8>) -> Option<(StanzaView, Seq<u8>)> {
    if !starts_with(d, STANZA_PREFIX@) {
        None
    } else {
        let n = word_len(d.skip(3)) as int;
        if n == 0 || 3 + n > d.len() {
            None
        } else {
            match parse_args_spec(d.skip(3 + n)) {
                None => None,
                Some((args, after_line)) => match parse_body_spec(after_line) {
                    None => None,
                    Some((text, rest)) => match decode_spec(text) {
                        None => None,
                        Some(body) => Some(
                            (StanzaView { tag: d.subrange(3, 3 + n), args, body }, rest),
                        ),
                    },
                },
            }
        }
    }
}

/// Reads stanzas for as long as the input starts with `-> `. Gives the
/// stanzas and what follows the last of them.
pub open spec fn parse_stanzas_spec(d: Seq<u8>) -> Option<(Seq<StanzaView>, Seq<u8>)>
    decreases d.len(),
{
    if starts_with(d, STANZA_PREFIX@) {
        match parse_stanza_spec(d) {
            None => None,
            Some((s, rest)) => if rest.len() >= d.len() {
                None
            } else {
                match parse_stanzas_spec(rest) {
                    None => None,
                    Some((ss, after)) => Some((seq![s] + ss, after)),
                }
            },
        }
    } else {
        Some((Seq::empty(), d))
    }
}

/// Reads the last line of a header: `--- `, the authentication code in
/// base64, a line feed. Gives the code and what follows the line.
pub open spec fn parse_mac_spec(d: Seq<u8>) -> Option<(Seq<u8>, Seq<u8>)> {
    if d.len() < MAC_TEXT_LEN + 5 || !starts_with(d, MAC_PREFIX@) || d[3] != 32 || d[MAC_TEXT_LEN
        + 4] != 10 {
        None
    } else {
        match decode_spec(d.subrange(4, MAC_TEXT_LEN + 4)) {
            None => None,
            Some(mac) => Some((mac, d.skip(MAC_TEXT_LEN + 5))),
        }
    }
}

/// Reads a header from the front of `d`. Gives the header and what follows
/// it: the payload.
pub open spec fn parse_header_spec(d: Seq<u8>) -> Option<(HeaderView, Seq<u8>)> {
    if !starts_with(d, VERSION_LINE@) {
        None
    } else {
        match parse_stanzas_spec(d.skip(VERSION_LINE@.len() as int)) {
            None => None,
            Some((stanzas, after)) => match parse_mac_spec(after) {
                None => None,
                Some((mac, rest)) => Some((HeaderView { stanzas, mac }, rest)),
            },
        }
    }
}

/// A run of visible characters lies inside the input, and holds visible
/// characters only.
pub proof fn lemma_word_len(d: Seq<u8>)
    ensures
        word_len(d) <= d.len(),
        forall|i: int| 0 <= i < word_len(d) ==> is_visible(#[trigger] d[i]),
        word_len(d) < d.len() ==> !is_visible(d[word_len(d) as int]),
    decreases d.len(),
{
    if d.len() > 0 && is_visible(d[0]) {
        lemma_word_len(d.skip(1));
        assert forall|i: int| 0 <= i < word_len(d) implies is_visible(#[trigger] d[i]) by {
            if i > 0 {
                assert(d[i] == d.skip(1)[i - 1]);
            }
        }
    }
}

/// Visible characters followed by something else are a run of their length.
pub proof fn lemma_word_len_of(w: Seq<u8>, tail: Seq<u8>)
    requires
        forall|i: int| 0 <= i < w.len() ==> is_visible(#[trigger] w[i]),
        tail.len() == 0 || !is_visible(tail[0]),
    ensures
        word_len(w + tail) == w.len(),
    decreases w.len(),
{
    if w.len() == 0 {
        assert(w + tail =~= tail);
    } else {
        assert((w + tail)[0] == w[0]);
        assert((w + tail).skip(1) =~= w.skip(1) + tail);
        assert forall|i: int| 0 <= i < w.skip(1).len() implies is_visible(
            #[trigger] w.skip(1)[i],
        ) by {
            assert(w.skip(1)[i] == w[i + 1]);
        }
        lemma_word_len_of(w.skip(1), tail);
    }
}

/// Base64 characters followed by something else are a run of their length.
pub proof fn lemma_text_len_of(t: Seq<u8>, tail: Seq<u8>)
    requires
        forall|i: int| 0 <= i < t.len() ==> is_alphabet(#[trigger] t[i]),
        tail.len() == 0 || !is_alphabet(tail[0]),
    ensures
        text_len(t + tail) == t.len(),
    decreases t.len(),
{
    if t.len() == 0 {
        assert(t + tail =~= tail);
    } else {
        assert((t + tail)[0] == t[0]);
        assert((t + tail).skip(1) =~= t.skip(1) + tail);
        assert forall|i: int| 0 <= i < t.skip(1).len() implies is_alphabet(
            #[trigger] t.skip(1)[i],
        ) by {
            assert(t.skip(1)[i] == t[i + 1]);
        }
        lemma_text_len_of(t.skip(1), tail);
    }
}

/// Reading the written arguments gives the arguments back.
pub proof fn lemma_parse_args_complete(args: Seq<Seq<u8>>, rest: Seq<u8>)
    requires
        forall|i: int| 0 <= i < args.len() ==> is_word(#[trigger] args[i]),
    ensures
        parse_args_spec(args_spec(args) + seq![10u8] + rest) == Some((args, rest)),
    decreases args.len(),
{
    let d = args_spec(args) + seq![10u8] + rest;
    if args.len() == 0 {
        assert(d[0] == 10);
        assert(d.skip(1) =~= rest);
        assert(args =~= Seq::<Seq<u8>>::empty());
    } else {
        let a = args[0];
        let more = args.skip(1);
        let after = args_spec(more) + seq![10u8] + rest;
        assert(is_word(a));
        assert(d =~= seq![32u8] + a + after);
        assert(d[0] == 32);
        assert(d.skip(1) =~= a + after);
        assert(after[0] == 32 || after[0] == 10) by {
            if more.len() == 0 {
                assert(after[0] == 10);
            } else {
                assert(after[0] == 32);
            }
        }
        lemma_word_len_of(a, after);
        let n = a.len() as int;
        assert(d.skip(1 + n) =~= after);
        assert(d.subrange(1, 1 + n) =~= a);
        assert forall|i: int| 0 <= i < more.len() implies is_word(#[trigger] more[i]) by {
            assert(more[i] == args[i + 1]);
        }
        lemma_parse_args_complete(more, rest);
        assert(seq![a] + more =~= args);
    }
}

/// Reading the written lines of a body gives its base64 text back.
pub proof fn lemma_parse_body_complete(t: Seq<u8>, rest: Seq<u8>)
    requires
        forall|i: int| 0 <= i < t.len() ==> is_alphabet(#[trigger] t[i]),
    ensures
        parse_body_spec(wrap_spec(t) + rest) == Some((t, rest)),
    decreases t.len(),
{
    let d = wrap_spec(t) + rest;
    if t.len() < COLUMNS {
        let tail = seq![10u8] + rest;
        assert(d =~= t + tail);
        lemma_text_len_of(t, tail);
        let n = t.len() as int;
        assert(d[n] == 10);
        assert(d.take(n) =~= t);
        assert(d.skip(n + 1) =~= rest);
    } else {
        let line = t.take(COLUMNS as int);
        let more = t.skip(COLUMNS as int);
        let tail = seq![10u8] + (wrap_spec(more) + rest);
        assert(d =~= line + tail);
        lemma_text_len_of(line, tail);
        assert(d[COLUMNS as int] == 10);
        assert(d.skip(COLUMNS + 1) =~= wrap_spec(more) + rest);
        assert forall|i: int| 0 <= i < more.len() implies is_alphabet(#[trigger] more[i]) by {
            assert(more[i] == t[i + COLUMNS]);
        }
        lemma_parse_body_complete(more, rest);
        assert(d.take(COLUMNS as int) =~= line);
        assert(line + more =~= t);
    }
}

/// Reading a written stanza gives the stanza back.
pub proof fn lemma_parse_stanza_complete(s: StanzaView, rest: Seq<u8>)
    requires
        s.wf(),
    ensures
        parse_stanza_spec(stanza_spec(s) + rest) == Some((s, rest)),
{
    let d = stanza_spec(s) + rest;
    let text = encode_spec(s.body);
    let after_line = wrap_spec(text) + rest;
    let after_tag = args_spec(s.args) + seq![10u8] + after_line;
    assert(d =~= STANZA_PREFIX@ + (s.tag + after_tag));
    assert(d.take(3) =~= STANZA_PREFIX@);
    assert(d.skip(3) =~= s.tag + after_tag);
    assert(after_tag[0] == 32 || after_tag[0] == 10) by {
        if s.args.len() == 0 {
            assert(after_tag[0] == 10);
        } else {
            assert(after_tag[0] == 32);
        }
    }
    lemma_word_len_of(s.tag, after_tag);
    let n = s.tag.len() as int;
    assert(d.skip(3 + n) =~= after_tag);
    assert(d.subrange(3, 3 + n) =~= s.tag);
    lemma_parse_args_complete(s.args, after_line);
    lemma_encode_alphabet(s.body);
    lemma_parse_body_complete(text, rest);
    lemma_decode_encode(s.body);
}

/// Reading written stanzas gives the stanzas back, where what follows them
/// is no stanza.
pub proof fn lemma_parse_stanzas_complete(ss: Seq<StanzaView>, rest: Seq<u8>)
    requires
        forall|i: int| 0 <= i < ss.len() ==> (#[trigger] ss[i]).wf(),
        !starts_with(rest, STANZA_PREFIX@),
    ensures
        parse_stanzas_spec(stanzas_spec(ss) + rest) == Some((ss, rest)),
    decreases ss.len(),
{
    let d = stanzas_spec(ss) + rest;
    if ss.len() == 0 {
        assert(d =~= rest);
        assert(ss =~= Seq::<StanzaView>::empty());
    } else {
        let s = ss[0];
        let more = ss.skip(1);
        let after = stanzas_spec(more) + rest;
        assert(s.wf());
        assert(d =~= stanza_spec(s) + after);
        assert(d.take(3) =~= STANZA_PREFIX@);
        lemma_parse_stanza_complete(s, after);
        assert forall|i: int| 0 <= i < more.len() implies (#[trigger] more[i]).wf() by {
            assert(more[i] == ss[i + 1]);
        }
        lemma_parse_stanzas_complete(more, rest);
        assert(seq![s] + more =~= ss);
    }
}

/// An authentication code of 32 bytes is 43 characters of base64, and the
/// other way round.
pub proof fn lemma_mac_text_len(mac: Seq<u8>)
    ensures
        mac.len() == MAC_LEN <==> encode_spec(mac).len() == MAC_TEXT_LEN,
{
    lemma_encode_len(mac);
}

/// Reading the written last line gives the authentication code back.
pub proof fn lemma_parse_mac_complete(mac: Seq<u8>, rest: Seq<u8>)
    requires
        mac.len() == MAC_LEN,
    ensures
        parse_mac_spec(MAC_PREFIX@ + seq![32u8] + encode_spec(mac) + seq![10u8] + rest) == Some(
            (mac, rest),
        ),
{
    let text = encode_spec(mac);
    let d = MAC_PREFIX@ + seq![32u8] + text + seq![10u8] + rest;
    lemma_mac_text_len(mac);
    assert(d.take(3) =~= MAC_PREFIX@);
    assert(d[3] == 32);
    assert(d[MAC_TEXT_LEN + 4] == 10);
    assert(d.subrange(4, MAC_TEXT_LEN + 4) =~= text);
    assert(d.skip(MAC_TEXT_LEN + 5) =~= rest);
    lemma_decode_encode(mac);
}

/// Reading a written header, whatever follows it, gives the header back
/// and leaves what follows.
pub proof fn lemma_parse_header_complete(h: HeaderView, rest: Seq<u8>)
    requires
        h.wf(),
    ensures
        parse_header_spec(header_spec(h) + rest) == Some((h, rest)),
{
    let d = header_spec(h) + rest;
    let last = MAC_PREFIX@ + seq![32u8] + encode_spec(h.mac) + seq![10u8] + rest;
    let after = stanzas_spec(h.stanzas) + last;
    assert(d =~= VERSION_LINE@ + after);
    assert(d.take(VERSION_LINE@.len() as int) =~= VERSION_LINE@);
    assert(d.skip(VERSION_LINE@.len() as int) =~= after);
    assert(!starts_with(last, STANZA_PREFIX@)) by {
        if starts_with(last, STANZA_PREFIX@) {
            assert(last.take(3)[1] == STANZA_PREFIX@[1]);
            assert(last[1] == MAC_PREFIX@[1]);
        }
    }
    lemma_parse_stanzas_complete(h.stanzas, last);
    lemma_parse_mac_complete(h.mac, rest);
}

/// The arguments that were read are words, and writing them gives the
/// bytes that were read.
pub proof fn lemma_parse_args_sound(d: Seq<u8>)
    requires
        parse_args_spec(d) is Some,
    ensures
        ({
            let (args, rest) = parse_args_spec(d).unwrap();
            &&& forall|i: int| 0 <= i < args.len() ==> is_word(#[trigger] args[i])
            &&& args_spec(args) + seq![10u8] + rest == d
        }),
    decreases d.len(),
{
    let (args, rest) = parse_args_spec(d).unwrap();
    if d[0] == 10 {
        assert(args_spec(args) + seq![10u8] + rest =~= d);
    } else {
        let n = word_len(d.skip(1)) as int;
        let a = d.subrange(1, 1 + n);
        lemma_word_len(d.skip(1));
        assert forall|i: int| 0 <= i < a.len() implies is_visible(#[trigger] a[i]) by {
            assert(a[i] == d.skip(1)[i]);
        }
        lemma_parse_args_sound(d.skip(1 + n));
        let (more, _) = parse_args_spec(d.skip(1 + n)).unwrap();
        assert(args == seq![a] + more);
        assert(args.skip(1) =~= more);
        assert forall|i: int| 0 <= i < args.len() implies is_word(#[trigger] args[i]) by {
            if i > 0 {
                assert(args[i] == more[i - 1]);
            }
        }
        assert(seq![32u8] + a + (args_spec(more) + seq![10u8] + rest) =~= seq![32u8] + a
            + d.skip(1 + n));
        assert(seq![32u8] + a + d.skip(1 + n) =~= d);
        assert(args_spec(args) + seq![10u8] + rest =~= seq![32u8] + a + (args_spec(more)
            + seq![10u8] + rest));
    }
}

/// Writing the base64 text that was read in lines gives the bytes that were
/// read.
pub proof fn lemma_parse_body_sound(d: Seq<u8>)
    requires
        parse_body_spec(d) is Some,
    ensures
        ({
            let (t, rest) = parse_body_spec(d).unwrap();
            wrap_spec(t) + rest == d
        }),
    decreases d.len(),
{
    let (t, rest) = parse_body_spec(d).unwrap();
    let n = text_len(d) as int;
    if n < COLUMNS {
        assert(t.push(10u8) + rest =~= d);
    } else {
        lemma_parse_body_sound(d.skip(COLUMNS + 1));
        let (more, _) = parse_body_spec(d.skip(COLUMNS + 1)).unwrap();
        let line = d.take(COLUMNS as int);
        assert(t == line + more);
        assert(t.take(COLUMNS as int) =~= line);
        assert(t.skip(COLUMNS as int) =~= more);
        assert(line.push(10u8) + (wrap_spec(more) + rest) =~= d);
        assert(wrap_spec(t) + rest =~= line.push(10u8) + (wrap_spec(more) + rest));
    }
}

/// A stanza that was read is well formed, writing it gives the bytes that
/// were read, and reading it used up at least one byte.
pub proof fn lemma_parse_stanza_sound(d: Seq<u8>)
    requires
        parse_stanza_spec(d) is Some,
    ensures
        ({
            let (s, rest) = parse_stanza_spec(d).unwrap();
            &&& s.wf()
            &&& stanza_spec(s) + rest == d
            &&& rest.len() < d.len()
        }),
{
    let (s, rest) = parse_stanza_spec(d).unwrap();
    let n = word_len(d.skip(3)) as int;
    lemma_word_len(d.skip(3));
    assert forall|i: int| 0 <= i < s.tag.len() implies is_visible(#[trigger] s.tag[i]) by {
        assert(s.tag[i] == d.skip(3)[i]);
    }
    lemma_parse_args_sound(d.skip(3 + n));
    let (args, after_line) = parse_args_spec(d.skip(3 + n)).unwrap();
    lemma_parse_body_sound(after_line);
    let (text, _) = parse_body_spec(after_line).unwrap();
    lemma_encode_decode(text);
    assert(d.take(3) + s.tag + d.skip(3 + n) =~= d);
    assert(stanza_spec(s) + rest =~= STANZA_PREFIX@ + s.tag + (args_spec(args) + seq![10u8] + (
    wrap_spec(text) + rest)));
}

/// Stanzas that were read are well formed, writing them gives the bytes
/// that were read, and what follows them is no stanza.
pub proof fn lemma_parse_stanzas_sound(d: Seq<u8>)
    requires
        parse_stanzas_spec(d) is Some,
    ensures
        ({
            let (ss, rest) = parse_stanzas_spec(d).unwrap();
            &&& forall|i: int| 0 <= i < ss.len() ==> (#[trigger] ss[i]).wf()
            &&& stanzas_spec(ss) + rest == d
            &&& !starts_with(rest, STANZA_PREFIX@)
        }),
    decreases d.len(),
{
    let (ss, rest) = parse_stanzas_spec(d).unwrap();
    if starts_with(d, STANZA_PREFIX@) {
        lemma_parse_stanza_sound(d);
        let (s, after) = parse_stanza_spec(d).unwrap();
        lemma_parse_stanzas_sound(after);
        let (more, _) = parse_stanzas_spec(after).unwrap();
        assert(ss == seq![s] + more);
        assert(ss.skip(1) =~= more);
        assert forall|i: int| 0 <= i < ss.len() implies (#[trigger] ss[i]).wf() by {
            if i > 0 {
                assert(ss[i] == more[i - 1]);
            }
        }
        assert(stanzas_spec(ss) + rest =~= stanza_spec(s) + (stanzas_spec(more) + rest));
    } else {
        assert(stanzas_spec(ss) + rest =~= d);
    }
}

/// An authentication code that was read has 32 bytes, and writing the last
/// line with it gives the bytes that were read.
pub proof fn lemma_parse_mac_sound(d: Seq<u8>)
    requires
        parse_mac_spec(d) is Some,
    ensures
        ({
            let (mac, rest) = parse_mac_spec(d).unwrap();
            &&& mac.len() == MAC_LEN
            &&& MAC_PREFIX@ + seq![32u8] + encode_spec(mac) + seq![10u8] + rest == d
        }),
{
    let (mac, rest) = parse_mac_spec(d).unwrap();
    let text = d.subrange(4, MAC_TEXT_LEN + 4);
    lemma_encode_decode(text);
    lemma_mac_text_len(mac);
    assert(MAC_PREFIX@ + seq![32u8] + text + seq![10u8] + rest =~= d) by {
        assert(d.take(3) == MAC_PREFIX@);
        assert forall|i: int| 0 <= i < 3 implies d[i] == MAC_PREFIX@[i] by {
            assert(d.take(3)[i] == d[i]);
        }
    }
}

/// A header that was read is well formed, and writing it gives the bytes
/// that were read: reading accepts nothing but what writing produces.
pub proof fn lemma_parse_header_sound(d: Seq<u8>)
    requires
        parse_header_spec(d) is Some,
    ensures
        ({
            let (h, rest) = parse_header_spec(d).unwrap();
            &&& h.wf()
            &&& header_spec(h) + rest == d
        }),
{
    let (h, rest) = parse_header_spec(d).unwrap();
    let after_version = d.skip(VERSION_LINE@.len() as int);
    lemma_parse_stanzas_sound(after_version);
    let (_, after) = parse_stanzas_spec(after_version).unwrap();
    lemma_parse_mac_sound(after);
    assert(d.take(VERSION_LINE@.len() as int) + after_version =~= d);
    assert(header_spec(h) + rest =~= VERSION_LINE@ + (stanzas_spec(h.stanzas) + (MAC_PREFIX@
        + seq![32u8] + encode_spec(h.mac) + seq![10u8] + rest)));
}

/// Two well-formed headers with the same bytes are the same header.
pub proof fn lemma_header_spec_injective(a: HeaderView, b: HeaderView)
    requires
        a.wf(),
        b.wf(),
        header_spec(a) == header_spec(b),
    ensures
        a == b,
{
    lemma_parse_header_complete(a, Seq::empty());
    lemma_parse_header_complete(b, Seq::empty());
}

/// No well-formed header is the front of an input from which none can be
/// read.
pub proof fn lemma_parse_header_none(d: Seq<u8>)
    requires
        parse_header_spec(d) is None,
    ensures
        forall|h: HeaderView, rest: Seq<u8>| h.wf() ==> #[trigger] (header_spec(h) + rest) != d,
{
    assert forall|h: HeaderView, rest: Seq<u8>| h.wf() implies #[trigger] (header_spec(h) + rest)
        != d by {
        lemma_parse_header_complete(h, rest);
    }
}

} // verus!
