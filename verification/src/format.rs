//! The header of a message: its stanzas and its authentication code, and
//! the one byte string that stands for each header.
//!
//! ```text
//! age-encryption.org/v1
//! -> X25519 <ephemeral share>
//! <body, base64, 64 columns>
//! -> scrypt <salt> <work factor>
//! <body>
//! --- <authentication code>
//! ```
//!
//! A stanza's body is written as base64 in lines of 64 characters. The last
//! line is shorter than 64 characters, and is empty where the encoding fills
//! its lines exactly. Reading accepts exactly what writing produces, so a
//! header that was read is written back byte for byte.

use crate::base64::{decode, encode, encode_spec, is_alphabet_char};
use crate::error::Error;
use crate::format::grammar::{
    lemma_parse_header_none, lemma_parse_header_sound, parse_args_spec, parse_body_spec,
    parse_header_spec, parse_mac_spec, parse_stanza_spec, parse_stanzas_spec, text_len, word_len,
};
use crate::keys::FileKey;
use crate::primitives::{hkdf_output, hkdf_sha256, hmac_code, hmac_sha256, hmac_verify};
use crate::secret::SecretBytes;
use crate::util::{append, copy_range, has_at};
use vstd::prelude::*;

pub mod grammar;
pub mod scrypt;
pub mod x25519;

verus! {

/// The first line of every header, with its line feed.
pub const VERSION_LINE: [u8; 22] = [
    97, 103, 101, 45, 101, 110, 99, 114, 121, 112, 116, 105, 111, 110, 46, 111, 114, 103, 47, 118,
    49, 10,
];

/// What a stanza's first line starts with: `-> `.
pub const STANZA_PREFIX: [u8; 3] = [45, 62, 32];

/// What the last line of a header starts with: `---`.
pub const MAC_PREFIX: [u8; 3] = [45, 45, 45];

/// The number of base64 characters in a full line of a stanza's body.
pub const COLUMNS: usize = 64;

/// The label under which the key of the authentication code is derived:
/// `header`.
pub const HEADER_LABEL: [u8; 6] = [104, 101, 97, 100, 101, 114];

/// The number of bytes in a header's authentication code.
pub const MAC_LEN: usize = 32;

/// The number of base64 characters that encode an authentication code.
pub const MAC_TEXT_LEN: usize = 43;

/// One recipient's record in a header.
#[derive(Debug)]
pub struct Stanza {
    /// Names the way in which the file key is wrapped.
    pub tag: Vec<u8>,
    /// The arguments that follow the tag on the stanza's first line.
    pub args: Vec<Vec<u8>>,
    /// The wrapped file key.
    pub body: Vec<u8>,
}

/// The mathematical value of a `Stanza`.
pub struct StanzaView {
    pub tag: Seq<u8>,
    pub args: Seq<Seq<u8>>,
    pub body: Seq<u8>,
}

/// The stanzas of a message and the code that authenticates them.
#[derive(Debug)]
pub struct Header {
    /// One stanza for each recipient, in the recipients' order.
    pub stanzas: Vec<Stanza>,
    /// The authentication code over everything before it.
    pub mac: Vec<u8>,
}

/// The mathematical value of a `Header`.
pub struct HeaderView {
    pub stanzas: Seq<StanzaView>,
    pub mac: Seq<u8>,
}

/// The values of a list of byte strings.
pub open spec fn strings_view(v: Seq<Vec<u8>>) -> Seq<Seq<u8>> {
    Seq::new(v.len(), |i: int| v[i]@)
}

/// The values of a list of stanzas.
pub open spec fn stanzas_view(v: Seq<Stanza>) -> Seq<StanzaView> {
    Seq::new(v.len(), |i: int| v[i]@)
}

impl View for Stanza {
    type V = StanzaView;

    open spec fn view(&self) -> StanzaView {
        StanzaView { tag: self.tag@, args: strings_view(self.args@), body: self.body@ }
    }
}

impl View for Header {
    type V = HeaderView;

    open spec fn view(&self) -> HeaderView {
        HeaderView { stanzas: stanzas_view(self.stanzas@), mac: self.mac@ }
    }
}

/// Whether `c` is a visible ASCII character: neither a space nor a control.
pub open spec fn is_visible(c: u8) -> bool {
    33 <= c <= 126
}

/// Whether `s` can stand as a tag or an argument: visible characters, at
/// least one.
pub open spec fn is_word(s: Seq<u8>) -> bool {
    s.len() > 0 && forall|i: int| 0 <= i < s.len() ==> is_visible(#[trigger] s[i])
}

impl StanzaView {
    /// Whether the stanza can be written and read back: its tag and its
    /// arguments are words.
    pub open spec fn wf(self) -> bool {
        is_word(self.tag) && forall|i: int|
            0 <= i < self.args.len() ==> is_word(#[trigger] self.args[i])
    }
}

impl HeaderView {
    /// Whether the header can be written and read back: its stanzas are
    /// well formed and its authentication code has 32 bytes.
    pub open spec fn wf(self) -> bool {
        self.mac.len() == MAC_LEN && forall|i: int|
            0 <= i < self.stanzas.len() ==> (#[trigger] self.stanzas[i]).wf()
    }
}

/// The arguments as they stand on a stanza's first line: each after a space.
pub open spec fn args_spec(args: Seq<Seq<u8>>) -> Seq<u8>
    decreases args.len(),
{
    if args.len() == 0 {
        Seq::empty()
    } else {
        seq![32u8] + args[0] + args_spec(args.skip(1))
    }
}

/// The base64 text `t` in lines of 64 characters, each ended by a line feed;
/// the last line is shorter than 64 characters.
pub open spec fn wrap_spec(t: Seq<u8>) -> Seq<u8>
    decreases t.len(),
{
    if t.len() < COLUMNS {
        t.push(10u8)
    } else {
        t.take(COLUMNS as int).push(10u8) + wrap_spec(t.skip(COLUMNS as int))
    }
}

/// The bytes of one stanza.
pub open spec fn stanza_spec(s: StanzaView) -> Seq<u8> {
    STANZA_PREFIX@ + s.tag + args_spec(s.args) + seq![10u8] + wrap_spec(encode_spec(s.body))
}

/// The bytes of a list of stanzas, one after the other.
pub open spec fn stanzas_spec(ss: Seq<StanzaView>) -> Seq<u8>
    decreases ss.len(),
{
    if ss.len() == 0 {
        Seq::empty()
    } else {
        stanza_spec(ss[0]) + stanzas_spec(ss.skip(1))
    }
}

/// The bytes that a header's authentication code covers: the version line,
/// the stanzas, and the three dashes that open the last line.
pub open spec fn authenticated_spec(ss: Seq<StanzaView>) -> Seq<u8> {
    VERSION_LINE@ + stanzas_spec(ss) + MAC_PREFIX@
}

/// The key of the authentication code of a header, derived from the file
/// key.
pub open spec fn mac_key_spec(file_key: Seq<u8>) -> Seq<u8> {
    hkdf_output(Seq::empty(), file_key, HEADER_LABEL@)
}

/// The authentication code of a header with the stanzas `ss` in a message
/// with the file key `file_key`.
pub open spec fn header_mac_spec(file_key: Seq<u8>, ss: Seq<StanzaView>) -> Seq<u8> {
    hmac_code(mac_key_spec(file_key), authenticated_spec(ss))
}

/// The bytes of a header.
pub open spec fn header_spec(h: HeaderView) -> Seq<u8> {
    authenticated_spec(h.stanzas) + seq![32u8] + encode_spec(h.mac) + seq![10u8]
}

fn write_args(args: &Vec<Vec<u8>>) -> (out: Vec<u8>)
    ensures
        out@ == args_spec(strings_view(args@)),
{
    let ghost all = strings_view(args@);
    let mut out: Vec<u8> = Vec::new();
    let mut i: usize = 0;
    assert(all.skip(0) =~= all);
    assert(out@ + args_spec(all) =~= args_spec(all));
    while i < args.len()
        invariant
            i <= args@.len(),
            all == strings_view(args@),
            out@ + args_spec(all.skip(i as int)) == args_spec(all),
        decreases args@.len() - i,
    {
        let ghost before = out@;
        let ghost rest = all.skip(i as int);
        out.push(32u8);
        append(&mut out, args[i].as_slice());
        proof {
            assert(rest[0] == args@[i as int]@);
            assert(rest.skip(1) =~= all.skip(i + 1));
            assert(before + (seq![32u8] + rest[0] + args_spec(rest.skip(1))) =~= out@ + args_spec(
                all.skip(i + 1),
            ));
        }
        i += 1;
    }
    assert(out@ + args_spec(all.skip(i as int)) =~= out@);
    out
}

fn wrap(text: &[u8]) -> (out: Vec<u8>)
    ensures
        out@ == wrap_spec(text@),
{
    let n = text.len();
    let mut out: Vec<u8> = Vec::new();
    let mut i: usize = 0;
    assert(text@.skip(0) =~= text@);
    assert(out@ + wrap_spec(text@) =~= wrap_spec(text@));
    while n - i >= COLUMNS
        invariant
            i <= n == text@.len(),
            out@ + wrap_spec(text@.skip(i as int)) == wrap_spec(text@),
        decreases n - i,
    {
        let ghost before = out@;
        let ghost rest = text@.skip(i as int);
        let line = copy_range(text, i, i + COLUMNS);
        append(&mut out, line.as_slice());
        out.push(10u8);
        proof {
            assert(rest.take(COLUMNS as int) =~= line@);
            assert(rest.skip(COLUMNS as int) =~= text@.skip(i + COLUMNS));
            assert(before + (rest.take(COLUMNS as int).push(10u8) + wrap_spec(
                rest.skip(COLUMNS as int),
            )) =~= out@ + wrap_spec(text@.skip(i + COLUMNS)));
        }
        i += COLUMNS;
    }
    let ghost before = out@;
    let line = copy_range(text, i, n);
    append(&mut out, line.as_slice());
    out.push(10u8);
    proof {
        let rest = text@.skip(i as int);
        assert(rest =~= line@);
        assert(before + rest.push(10u8) =~= out@);
    }
    out
}

/// Whether `s` can stand as a tag or an argument.
pub fn is_word_bytes(s: &[u8]) -> (r: bool)
    ensures
        r == is_word(s@),
{
    if s.len() == 0 {
        return false;
    }
    let mut i: usize = 0;
    while i < s.len()
        invariant
            i <= s@.len(),
            forall|j: int| 0 <= j < i ==> is_visible(#[trigger] s@[j]),
        decreases s@.len() - i,
    {
        if s[i] < 33 || s[i] > 126 {
            return false;
        }
        i += 1;
    }
    true
}

impl Stanza {
    /// Whether the stanza can be written and read back.
    pub fn is_well_formed(&self) -> (r: bool)
        ensures
            r == self@.wf(),
    {
        if !is_word_bytes(self.tag.as_slice()) {
            return false;
        }
        let mut i: usize = 0;
        while i < self.args.len()
            invariant
                i <= self.args@.len(),
                forall|j: int| 0 <= j < i ==> is_word(#[trigger] self@.args[j]),
            decreases self.args@.len() - i,
        {
            assert(self@.args[i as int] == self.args@[i as int]@);
            if !is_word_bytes(self.args[i].as_slice()) {
                return false;
            }
            i += 1;
        }
        true
    }

    /// A stanza with the same tag, arguments and body.
    pub fn duplicate(&self) -> (copy: Stanza)
        ensures
            copy@ == self@,
    {
        let tag = copy_range(self.tag.as_slice(), 0, self.tag.len());
        let body = copy_range(self.body.as_slice(), 0, self.body.len());
        let mut args: Vec<Vec<u8>> = Vec::new();
        let mut i: usize = 0;
        while i < self.args.len()
            invariant
                i <= self.args@.len(),
                args@.len() == i,
                forall|j: int| 0 <= j < i ==> args@[j]@ == self.args@[j]@,
            decreases self.args@.len() - i,
        {
            let arg = copy_range(self.args[i].as_slice(), 0, self.args[i].len());
            assert(arg@ =~= self.args@[i as int]@);
            args.push(arg);
            i += 1;
        }
        let copy = Stanza { tag, args, body };
        proof {
            assert(copy@.tag =~= self@.tag);
            assert(copy@.body =~= self@.body);
            assert(copy@.args =~= self@.args);
        }
        copy
    }

    /// The bytes of the stanza: its first line, then its body in base64.
    pub fn write(&self) -> (out: Vec<u8>)
        ensures
            out@ == stanza_spec(self@),
    {
        let mut out: Vec<u8> = Vec::new();
        append(&mut out, STANZA_PREFIX.as_slice());
        append(&mut out, self.tag.as_slice());
        let args = write_args(&self.args);
        append(&mut out, args.as_slice());
        out.push(10u8);
        let text = encode(self.body.as_slice());
        let lines = wrap(text.as_slice());
        append(&mut out, lines.as_slice());
        assert(out@ =~= stanza_spec(self@));
        out
    }
}

fn write_stanzas(stanzas: &Vec<Stanza>) -> (out: Vec<u8>)
    ensures
        out@ == stanzas_spec(stanzas_view(stanzas@)),
{
    let ghost all = stanzas_view(stanzas@);
    let mut out: Vec<u8> = Vec::new();
    let mut i: usize = 0;
    assert(all.skip(0) =~= all);
    assert(out@ + stanzas_spec(all) =~= stanzas_spec(all));
    while i < stanzas.len()
        invariant
            i <= stanzas@.len(),
            all == stanzas_view(stanzas@),
            out@ + stanzas_spec(all.skip(i as int)) == stanzas_spec(all),
        decreases stanzas@.len() - i,
    {
        let ghost before = out@;
        let ghost rest = all.skip(i as int);
        let one = stanzas[i].write();
        append(&mut out, one.as_slice());
        proof {
            assert(rest[0] == stanzas@[i as int]@);
            assert(rest.skip(1) =~= all.skip(i + 1));
            assert(before + (stanza_spec(rest[0]) + stanzas_spec(rest.skip(1))) =~= out@
                + stanzas_spec(all.skip(i + 1)));
        }
        i += 1;
    }
    assert(out@ + stanzas_spec(all.skip(i as int)) =~= out@);
    out
}

/// The bytes that the authentication code of a header with these stanzas
/// covers.
pub fn write_authenticated(stanzas: &Vec<Stanza>) -> (out: Vec<u8>)
    ensures
        out@ == authenticated_spec(stanzas_view(stanzas@)),
{
    let mut out: Vec<u8> = Vec::new();
    append(&mut out, VERSION_LINE.as_slice());
    let body = write_stanzas(stanzas);
    append(&mut out, body.as_slice());
    append(&mut out, MAC_PREFIX.as_slice());
    assert(out@ =~= authenticated_spec(stanzas_view(stanzas@)));
    out
}

fn mac_key(file_key: &FileKey) -> (key: SecretBytes)
    ensures
        key@ == mac_key_spec(file_key@),
{
    let salt: Vec<u8> = Vec::new();
    SecretBytes::new(hkdf_sha256(salt.as_slice(), file_key.as_bytes(), HEADER_LABEL.as_slice()))
}

impl Header {
    /// The header with these stanzas for a message with the file key
    /// `file_key`: its authentication code is computed here.
    pub fn new(stanzas: Vec<Stanza>, file_key: &FileKey) -> (header: Header)
        ensures
            header.stanzas == stanzas,
            header@.mac == header_mac_spec(file_key@, stanzas_view(stanzas@)),
            header@.mac.len() == MAC_LEN,
    {
        let key = mac_key(file_key);
        let covered = write_authenticated(&stanzas);
        let mac = hmac_sha256(key.as_bytes(), covered.as_slice());
        Header { stanzas, mac }
    }

    /// Whether the header can be written and read back.
    pub fn is_well_formed(&self) -> (r: bool)
        ensures
            r == self@.wf(),
    {
        if self.mac.len() != MAC_LEN {
            return false;
        }
        let mut i: usize = 0;
        while i < self.stanzas.len()
            invariant
                i <= self.stanzas@.len(),
                forall|j: int| 0 <= j < i ==> (#[trigger] self@.stanzas[j]).wf(),
            decreases self.stanzas@.len() - i,
        {
            assert(self@.stanzas[i as int] == self.stanzas@[i as int]@);
            if !self.stanzas[i].is_well_formed() {
                return false;
            }
            i += 1;
        }
        true
    }

    /// Whether the header's authentication code is the code of its stanzas
    /// in a message with the file key `file_key`. The codes are compared in
    /// constant time.
    pub fn verify_mac(&self, file_key: &FileKey) -> (ok: bool)
        ensures
            ok == (header_mac_spec(file_key@, self@.stanzas) == self@.mac),
    {
        let key = mac_key(file_key);
        let covered = write_authenticated(&self.stanzas);
        hmac_verify(key.as_bytes(), covered.as_slice(), self.mac.as_slice())
    }

    /// The bytes of the header. A well-formed header is read back from
    /// them.
    pub fn write(&self) -> (out: Vec<u8>)
        ensures
            out@ == header_spec(self@),
            self@.wf() ==> parse_header_spec(out@) == Some((self@, Seq::<u8>::empty())),
    {
        proof {
            if self@.wf() {
                crate::format::grammar::lemma_parse_header_complete(self@, Seq::empty());
                assert(header_spec(self@) + Seq::<u8>::empty() =~= header_spec(self@));
            }
        }
        let mut out = write_authenticated(&self.stanzas);
        out.push(32u8);
        let text = encode(self.mac.as_slice());
        append(&mut out, text.as_slice());
        out.push(10u8);
        assert(out@ =~= header_spec(self@));
        out
    }
}

/// The index at which the visible characters that start at `pos` end.
fn scan_word(data: &[u8], pos: usize) -> (end: usize)
    requires
        pos <= data@.len(),
    ensures
        pos <= end <= data@.len(),
        end - pos == word_len(data@.skip(pos as int)),
{
    let n = data.len();
    let mut i: usize = pos;
    while i < n && 33 <= data[i] && data[i] <= 126
        invariant
            pos <= i <= n == data@.len(),
            word_len(data@.skip(pos as int)) == (i - pos) + word_len(data@.skip(i as int)),
        decreases n - i,
    {
        proof {
            let d = data@.skip(i as int);
            assert(d[0] == data@[i as int]);
            assert(d.skip(1) =~= data@.skip(i + 1));
        }
        i += 1;
    }
    proof {
        let d = data@.skip(i as int);
        if i < n {
            assert(d[0] == data@[i as int]);
        }
    }
    i
}

/// The index at which the base64 characters that start at `pos` end.
fn scan_text(data: &[u8], pos: usize) -> (end: usize)
    requires
        pos <= data@.len(),
    ensures
        pos <= end <= data@.len(),
        end - pos == text_len(data@.skip(pos as int)),
{
    let n = data.len();
    let mut i: usize = pos;
    while i < n && is_alphabet_char(data[i])
        invariant
            pos <= i <= n == data@.len(),
            text_len(data@.skip(pos as int)) == (i - pos) + text_len(data@.skip(i as int)),
        decreases n - i,
    {
        proof {
            let d = data@.skip(i as int);
            assert(d[0] == data@[i as int]);
            assert(d.skip(1) =~= data@.skip(i + 1));
        }
        i += 1;
    }
    proof {
        let d = data@.skip(i as int);
        if i < n {
            assert(d[0] == data@[i as int]);
        }
    }
    i
}

/// The result of reading arguments after `done` have been read.
spec fn args_after(done: Seq<Seq<u8>>, r: Option<(Seq<Seq<u8>>, Seq<u8>)>) -> Option<
    (Seq<Seq<u8>>, Seq<u8>),
> {
    match r {
        Some((args, rest)) => Some((done + args, rest)),
        None => None,
    }
}

fn read_args(data: &[u8], pos: usize) -> (r: Option<(Vec<Vec<u8>>, usize)>)
    requires
        pos <= data@.len(),
    ensures
        match r {
            Some((args, next)) => pos < next <= data@.len() && parse_args_spec(
                data@.skip(pos as int),
            ) == Some((strings_view(args@), data@.skip(next as int))),
            None => parse_args_spec(data@.skip(pos as int)) is None,
        },
{
    let n = data.len();
    let mut args: Vec<Vec<u8>> = Vec::new();
    let mut i: usize = pos;
    proof {
        let r = parse_args_spec(data@.skip(pos as int));
        if r is Some {
            assert(strings_view(args@) + r.unwrap().0 =~= r.unwrap().0);
        }
    }
    loop
        invariant
            pos <= i <= n == data@.len(),
            parse_args_spec(data@.skip(pos as int)) == args_after(
                strings_view(args@),
                parse_args_spec(data@.skip(i as int)),
            ),
        decreases n - i,
    {
        let ghost d = data@.skip(i as int);
        if i >= n {
            return None;
        }
        assert(d[0] == data@[i as int]);
        let c = data[i];
        if c == 10 {
            proof {
                assert(d.skip(1) =~= data@.skip(i + 1));
                assert(strings_view(args@) + Seq::<Seq<u8>>::empty() =~= strings_view(args@));
            }
            return Some((args, i + 1));
        }
        if c != 32 {
            return None;
        }
        let end = scan_word(data, i + 1);
        proof {
            assert(d.skip(1) =~= data@.skip(i + 1));
        }
        if end == i + 1 {
            return None;
        }
        let word = copy_range(data, i + 1, end);
        let ghost done = strings_view(args@);
        args.push(word);
        proof {
            let k = end - (i + 1);
            assert(d.skip(1 + k) =~= data@.skip(end as int));
            assert(d.subrange(1, 1 + k) =~= word@);
            assert(strings_view(args@) =~= done.push(word@));
            let r = parse_args_spec(data@.skip(end as int));
            if r is Some {
                assert(done + (seq![word@] + r.unwrap().0) =~= done.push(word@) + r.unwrap().0);
            }
        }
        i = end;
    }
}

/// The result of reading lines of base64 after `done` has been read.
spec fn text_after(done: Seq<u8>, r: Option<(Seq<u8>, Seq<u8>)>) -> Option<(Seq<u8>, Seq<u8>)> {
    match r {
        Some((t, rest)) => Some((done + t, rest)),
        None => None,
    }
}

fn read_body_text(data: &[u8], pos: usize) -> (r: Option<(Vec<u8>, usize)>)
    requires
        pos <= data@.len(),
    ensures
        match r {
            Some((text, next)) => pos < next <= data@.len() && parse_body_spec(
                data@.skip(pos as int),
            ) == Some((text@, data@.skip(next as int))),
            None => parse_body_spec(data@.skip(pos as int)) is None,
        },
{
    let n = data.len();
    let mut text: Vec<u8> = Vec::new();
    let mut i: usize = pos;
    proof {
        let r = parse_body_spec(data@.skip(pos as int));
        if r is Some {
            assert(text@ + r.unwrap().0 =~= r.unwrap().0);
        }
    }
    loop
        invariant
            pos <= i <= n == data@.len(),
            parse_body_spec(data@.skip(pos as int)) == text_after(
                text@,
                parse_body_spec(data@.skip(i as int)),
            ),
        decreases n - i,
    {
        let ghost d = data@.skip(i as int);
        let ghost done = text@;
        let end = scan_text(data, i);
        let k = end - i;
        if k > COLUMNS || end >= n {
            return None;
        }
        assert(d[k as int] == data@[end as int]);
        if data[end] != 10 {
            return None;
        }
        let line = copy_range(data, i, end);
        append(&mut text, line.as_slice());
        assert(d.take(k as int) =~= line@);
        if k < COLUMNS {
            assert(d.skip(k + 1) =~= data@.skip(end + 1));
            return Some((text, end + 1));
        }
        proof {
            assert(d.skip(COLUMNS + 1) =~= data@.skip(end + 1));
            let r = parse_body_spec(data@.skip(end + 1));
            if r is Some {
                assert(done + (line@ + r.unwrap().0) =~= text@ + r.unwrap().0);
            }
        }
        i = end + 1;
    }
}

fn read_stanza(data: &[u8], pos: usize) -> (r: Option<(Stanza, usize)>)
    requires
        pos <= data@.len(),
    ensures
        match r {
            Some((s, next)) => pos < next <= data@.len() && parse_stanza_spec(
                data@.skip(pos as int),
            ) == Some((s@, data@.skip(next as int))),
            None => parse_stanza_spec(data@.skip(pos as int)) is None,
        },
{
    let ghost d = data@.skip(pos as int);
    let n = data.len();
    let found = has_at(data, pos, STANZA_PREFIX.as_slice());
    proof {
        if d.len() >= 3 {
            assert(d.take(3) =~= data@.subrange(pos as int, pos + 3));
        }
    }
    if !found {
        return None;
    }
    let start = pos + 3;
    assert(d.skip(3) =~= data@.skip(start as int));
    let end = scan_word(data, start);
    if end == start {
        return None;
    }
    let ghost k = end - start;
    let tag = copy_range(data, start, end);
    assert(d.subrange(3, 3 + k) =~= tag@);
    assert(d.skip(3 + k) =~= data@.skip(end as int));
    let (args, after_line) = match read_args(data, end) {
        Some(v) => v,
        None => { return None; },
    };
    let (text, next) = match read_body_text(data, after_line) {
        Some(v) => v,
        None => { return None; },
    };
    let body = match decode(text.as_slice()) {
        Some(v) => v,
        None => { return None; },
    };
    Some((Stanza { tag, args, body }, next))
}

/// The result of reading stanzas after `done` have been read.
spec fn stanzas_after(done: Seq<StanzaView>, r: Option<(Seq<StanzaView>, Seq<u8>)>) -> Option<
    (Seq<StanzaView>, Seq<u8>),
> {
    match r {
        Some((ss, rest)) => Some((done + ss, rest)),
        None => None,
    }
}

fn read_stanzas(data: &[u8], pos: usize) -> (r: Option<(Vec<Stanza>, usize)>)
    requires
        pos <= data@.len(),
    ensures
        match r {
            Some((ss, next)) => pos <= next <= data@.len() && parse_stanzas_spec(
                data@.skip(pos as int),
            ) == Some((stanzas_view(ss@), data@.skip(next as int))),
            None => parse_stanzas_spec(data@.skip(pos as int)) is None,
        },
{
    let n = data.len();
    let mut stanzas: Vec<Stanza> = Vec::new();
    let mut i: usize = pos;
    proof {
        let r = parse_stanzas_spec(data@.skip(pos as int));
        if r is Some {
            assert(stanzas_view(stanzas@) + r.unwrap().0 =~= r.unwrap().0);
        }
    }
    loop
        invariant
            pos <= i <= n == data@.len(),
            parse_stanzas_spec(data@.skip(pos as int)) == stanzas_after(
                stanzas_view(stanzas@),
                parse_stanzas_spec(data@.skip(i as int)),
            ),
        decreases n - i,
    {
        let ghost d = data@.skip(i as int);
        let ghost done = stanzas_view(stanzas@);
        let more = has_at(data, i, STANZA_PREFIX.as_slice());
        proof {
            if d.len() >= 3 {
                assert(d.take(3) =~= data@.subrange(i as int, i + 3));
            }
        }
        if !more {
            assert(done + Seq::<StanzaView>::empty() =~= done);
            return Some((stanzas, i));
        }
        let (s, next) = match read_stanza(data, i) {
            Some(v) => v,
            None => { return None; },
        };
        stanzas.push(s);
        proof {
            assert(stanzas_view(stanzas@) =~= done.push(s@));
            let r = parse_stanzas_spec(data@.skip(next as int));
            if r is Some {
                assert(done + (seq![s@] + r.unwrap().0) =~= done.push(s@) + r.unwrap().0);
            }
        }
        i = next;
    }
}

fn read_mac(data: &[u8], pos: usize) -> (r: Option<(Vec<u8>, usize)>)
    requires
        pos <= data@.len(),
    ensures
        match r {
            Some((mac, next)) => pos < next <= data@.len() && parse_mac_spec(
                data@.skip(pos as int),
            ) == Some((mac@, data@.skip(next as int))),
            None => parse_mac_spec(data@.skip(pos as int)) is None,
        },
{
    let ghost d = data@.skip(pos as int);
    let n = data.len();
    if n - pos < MAC_TEXT_LEN + 5 {
        return None;
    }
    assert(d.take(3) =~= data@.subrange(pos as int, pos + 3));
    if !has_at(data, pos, MAC_PREFIX.as_slice()) {
        return None;
    }
    assert(d[3] == data@[pos + 3]);
    assert(d[MAC_TEXT_LEN + 4] == data@[pos + MAC_TEXT_LEN + 4]);
    if data[pos + 3] != 32 || data[pos + MAC_TEXT_LEN + 4] != 10 {
        return None;
    }
    let text = copy_range(data, pos + 4, pos + MAC_TEXT_LEN + 4);
    assert(d.subrange(4, MAC_TEXT_LEN + 4) =~= text@);
    assert(d.skip(MAC_TEXT_LEN + 5) =~= data@.skip(pos + MAC_TEXT_LEN + 5));
    match decode(text.as_slice()) {
        Some(mac) => Some((mac, pos + MAC_TEXT_LEN + 5)),
        None => None,
    }
}

impl Header {
    /// Reads a header from the front of `data` and says where it ends.
    ///
    /// Succeeds exactly where `data` starts with the bytes of a well-formed
    /// header, and then gives that header: writing it gives the first
    /// `next` bytes of `data` back.
    pub fn read_prefix(data: &[u8]) -> (r: Result<(Header, usize), Error>)
        ensures
            match r {
                Ok((h, next)) => {
                    &&& next <= data@.len()
                    &&& h@.wf()
                    &&& header_spec(h@) == data@.take(next as int)
                    &&& parse_header_spec(data@) == Some((h@, data@.skip(next as int)))
                },
                Err(e) => {
                    &&& e == Error::HeaderParseError
                    &&& parse_header_spec(data@) is None
                    &&& forall|h: HeaderView, rest: Seq<u8>|
                        h.wf() ==> #[trigger] (header_spec(h) + rest) != data@
                },
            },
    {
        let ghost d = data@;
        assert(d.skip(0) =~= d);
        let version = has_at(data, 0, VERSION_LINE.as_slice());
        proof {
            if d.len() >= 22 {
                assert(d.take(22) =~= d.subrange(0, 22));
            }
        }
        if !version {
            proof {
                lemma_parse_header_none(d);
            }
            return Err(Error::HeaderParseError);
        }
        let (stanzas, after) = match read_stanzas(data, 22) {
            Some(v) => v,
            None => {
                proof {
                    lemma_parse_header_none(d);
                }
                return Err(Error::HeaderParseError);
            },
        };
        let (mac, next) = match read_mac(data, after) {
            Some(v) => v,
            None => {
                proof {
                    lemma_parse_header_none(d);
                }
                return Err(Error::HeaderParseError);
            },
        };
        let h = Header { stanzas, mac };
        proof {
            lemma_parse_header_sound(d);
            let rest = d.skip(next as int);
            assert(header_spec(h@).len() + rest.len() == d.len());
            assert(header_spec(h@) =~= (header_spec(h@) + rest).take(next as int));
        }
        Ok((h, next))
    }

    /// Reads a header that fills `data`.
    ///
    /// Succeeds exactly where `data` is the bytes of a well-formed header,
    /// and then gives that header: writing it gives `data` back.
    pub fn read(data: &[u8]) -> (r: Result<Header, Error>)
        ensures
            match r {
                Ok(h) => h@.wf() && header_spec(h@) == data@,
                Err(e) => {
                    &&& e == Error::HeaderParseError
                    &&& forall|h: HeaderView| h.wf() ==> #[trigger] header_spec(h) != data@
                },
            },
    {
        match Header::read_prefix(data) {
            Ok((h, next)) => {
                if next == data.len() {
                    assert(data@.take(next as int) =~= data@);
                    Ok(h)
                } else {
                    proof {
                        assert forall|g: HeaderView| g.wf() implies #[trigger] header_spec(g)
                            != data@ by {
                            if header_spec(g) == data@ {
                                crate::format::grammar::lemma_parse_header_complete(
                                    g,
                                    Seq::empty(),
                                );
                                assert(header_spec(g) + Seq::<u8>::empty() =~= data@);
                            }
                        }
                    }
                    Err(Error::HeaderParseError)
                }
            },
            Err(e) => {
                proof {
                    assert forall|g: HeaderView| g.wf() implies #[trigger] header_spec(g)
                        != data@ by {
                        assert(header_spec(g) + Seq::<u8>::empty() =~= header_spec(g));
                    }
                }
                Err(e)
            },
        }
    }
}

} // verus!
