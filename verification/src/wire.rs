//! The text format of chat messages between clients and the relay server:
//! `*address*label*base64(body)*`, where an address is `base64(name)@device`.
use vstd::prelude::*;
use crate::codec::{
    encode_base64_str, i32_to_decimal, parse_i32, push_char, push_str, to_owned_string,
    try_decode_base64, all_base64, dec_int, dec_nat, decode_base64_spec, encode_base64_text, is_base64_char,
    is_digit, all_digits, lemma_dec_nat, lemma_parse_dec_i32, parse_i32_spec,
};
use crate::text::{
    is_ws, join, lemma_split_and_clean_framed, lemma_split_and_clean_join, plain_piece,
    plain_pieces, split_and_clean, split_and_clean_spec,
};
use vstd::string::*;

verus! {

/// An address as the wire carries it: a display name and a numeric device id.
pub struct AddrView {
    pub name: Seq<char>,
    pub device_id: i32,
}

/// What a message says.
pub enum ContentView {
    InsecureText(Seq<char>),
    SecureText(Seq<char>),
    Join(Seq<char>),
    PublicKey(Seq<char>),
    Leave(Seq<char>),
    Trust(AddrView),
    Blank,
}

/// A message: its sender and its content.
pub struct MsgView {
    pub from: AddrView,
    pub content: ContentView,
}

/// `base64(name)@device`, the form in which an address travels.
pub open spec fn sendable(a: AddrView) -> Seq<char> {
    encode_base64_text(a.name) + seq!['@'] + dec_int(a.device_id as int)
}

/// The parts of a sendable address.
pub open spec fn sendable_parts(s: Seq<char>) -> Seq<Seq<char>> {
    split_and_clean_spec(s, '@')
}

/// Whether `s` can be read as an address without failing: two parts, the first Base64 of
/// UTF-8 text and the second a decimal `i32`.
pub open spec fn sendable_ok(s: Seq<char>) -> bool {
    let p = sendable_parts(s);
    &&& p.len() >= 2
    &&& decode_base64_spec(p[0]) is Some
    &&& parse_i32_spec(p[1]) is Some
}

/// The address read from `s`.
pub open spec fn from_sendable_spec(s: Seq<char>) -> AddrView {
    let p = sendable_parts(s);
    AddrView { name: decode_base64_spec(p[0]).unwrap(), device_id: parse_i32_spec(p[1]).unwrap() }
}

/// The label character and the body text that carry `c`.
pub open spec fn label_body(c: ContentView) -> (char, Seq<char>) {
    match c {
        ContentView::PublicKey(k) => ('p', k),
        ContentView::SecureText(t) => ('s', t),
        ContentView::InsecureText(t) => ('i', t),
        ContentView::Join(g) => ('j', g),
        ContentView::Leave(g) => ('l', g),
        ContentView::Trust(a) => ('t', sendable(a)),
        ContentView::Blank => ('_', seq!['_']),
    }
}

/// The three fields of the wire form of `m`.
pub open spec fn wire_fields(m: MsgView) -> Seq<Seq<char>> {
    seq![sendable(m.from), seq![label_body(m.content).0], encode_base64_text(label_body(m.content).1)]
}

/// `*address*label*base64(body)*`.
pub open spec fn wire(m: MsgView) -> Seq<char> {
    seq!['*'] + join(wire_fields(m), '*') + seq!['*']
}

/// The content that the label `label` and the decoded body `data` stand for; an unknown
/// label stands for a blank message.
pub open spec fn content_from(label: Seq<char>, data: Seq<char>) -> ContentView {
    if label == seq!['i'] {
        ContentView::InsecureText(data)
    } else if label == seq!['s'] {
        ContentView::SecureText(data)
    } else if label == seq!['j'] {
        ContentView::Join(data)
    } else if label == seq!['p'] {
        ContentView::PublicKey(data)
    } else if label == seq!['t'] {
        ContentView::Trust(from_sendable_spec(data))
    } else if label == seq!['l'] {
        ContentView::Leave(data)
    } else {
        ContentView::Blank
    }
}

/// Whether the text `txt` can be read as a message without failing.
pub open spec fn wire_ok(txt: Seq<char>) -> bool {
    let seg = split_and_clean_spec(txt, '*');
    &&& seg.len() >= 3
    &&& sendable_ok(seg[0])
    &&& decode_base64_spec(seg[2]) is Some
    &&& (seg[1] == seq!['t'] ==> sendable_ok(decode_base64_spec(seg[2]).unwrap()))
}

/// The message read from `txt`.
pub open spec fn parse_wire(txt: Seq<char>) -> MsgView {
    let seg = split_and_clean_spec(txt, '*');
    MsgView {
        from: from_sendable_spec(seg[0]),
        content: content_from(seg[1], decode_base64_spec(seg[2]).unwrap()),
    }
}

/// A message that survives its trip over the wire: its sender and every text it holds
/// are not empty.
pub open spec fn transmittable(m: MsgView) -> bool {
    &&& m.from.name.len() > 0
    &&& match m.content {
        ContentView::Trust(a) => a.name.len() > 0,
        ContentView::Blank => true,
        _ => label_body(m.content).1.len() > 0,
    }
}

/// What the Base64 encoder promises of the encoding of a text.
pub open spec fn encoded_text(s: Seq<char>) -> bool {
    &&& all_base64(encode_base64_text(s))
    &&& (encode_base64_text(s).len() == 0 <==> s.len() == 0)
    &&& decode_base64_spec(encode_base64_text(s)) == Some(s)
}

proof fn lemma_decimal_plain(n: i32, sep: char)
    requires
        sep == '@' || sep == '*',
    ensures
        forall|i: int|
            0 <= i < dec_int(n as int).len() ==> #[trigger] dec_int(n as int)[i] != sep && !is_ws(
                dec_int(n as int)[i],
            ) && dec_int(n as int)[i] != '*' && dec_int(n as int)[i] != '@',
{
    let d = dec_int(n as int);
    if n < 0 {
        lemma_dec_nat((-n) as nat);
        assert forall|i: int| 0 <= i < d.len() implies d[i] == '-' || is_digit(d[i]) by {
            if i > 0 {
                assert(d[i] == dec_nat((-n) as nat)[i - 1]);
            }
        }
    } else {
        lemma_dec_nat(n as nat);
    }
}

proof fn lemma_base64_plain(s: Seq<char>)
    requires
        all_base64(s),
    ensures
        forall|i: int|
            0 <= i < s.len() ==> #[trigger] s[i] != '*' && s[i] != '@' && !is_ws(s[i]),
{
    assert forall|i: int| 0 <= i < s.len() implies #[trigger] s[i] != '*' && s[i] != '@' && !is_ws(
        s[i],
    ) by {
        assert(is_base64_char(s[i]));
    }
}

/// The characters an address is sent with: Base64, `@`, `-` and decimal digits.
pub open spec fn sendable_char(c: char) -> bool {
    is_base64_char(c) || c == '@' || c == '-' || is_digit(c)
}

/// Every character of a sendable address is a sendable character, none of them whitespace.
pub proof fn lemma_sendable_chars(a: AddrView)
    requires
        encoded_text(a.name),
    ensures
        forall|i: int|
            0 <= i < sendable(a).len() ==> sendable_char(#[trigger] sendable(a)[i]) && !is_ws(
                sendable(a)[i],
            ),
{
    let b = encode_base64_text(a.name);
    let d = dec_int(a.device_id as int);
    let s = sendable(a);
    if a.device_id < 0 {
        lemma_dec_nat((-a.device_id) as nat);
    } else {
        lemma_dec_nat(a.device_id as nat);
    }
    assert forall|i: int| 0 <= i < s.len() implies sendable_char(#[trigger] s[i]) && !is_ws(s[i]) by {
        if i < b.len() {
            assert(s[i] == b[i]);
            assert(is_base64_char(b[i]));
        } else if i > b.len() {
            let k = i - b.len() - 1;
            assert(s[i] == d[k]);
            if a.device_id < 0 && k > 0 {
                assert(d[k] == dec_nat((-a.device_id) as nat)[k - 1]);
                assert(is_digit(dec_nat((-a.device_id) as nat)[k - 1]));
            } else if a.device_id >= 0 {
                assert(is_digit(dec_nat(a.device_id as nat)[k]));
            }
        }
    }
}

/// A sendable address reads back as the address it was made from.
pub proof fn lemma_sendable_roundtrip(a: AddrView)
    requires
        a.name.len() > 0,
        encoded_text(a.name),
    ensures
        sendable_ok(sendable(a)),
        from_sendable_spec(sendable(a)) == a,
        sendable(a).len() > 0,
        forall|i: int|
            0 <= i < sendable(a).len() ==> #[trigger] sendable(a)[i] != '*' && !is_ws(
                sendable(a)[i],
            ),
{
    let b = encode_base64_text(a.name);
    let d = dec_int(a.device_id as int);
    lemma_base64_plain(b);
    lemma_decimal_plain(a.device_id, '@');
    lemma_parse_dec_i32(a.device_id);
    let ps = seq![b, d];
    assert(plain_piece(b, '@'));
    assert(plain_piece(d, '@'));
    assert(plain_pieces(ps, '@')) by {
        assert forall|i: int| 0 <= i < ps.len() implies plain_piece(#[trigger] ps[i], '@') by {
            if i == 0 {
            } else {
            }
        }
    }
    assert(join(ps, '@') =~= sendable(a)) by {
        assert(ps.drop_last() =~= seq![b]);
        assert(join(seq![b], '@') == b);
    }
    lemma_split_and_clean_join(ps, '@');
    let s = sendable(a);
    assert forall|i: int| 0 <= i < s.len() implies #[trigger] s[i] != '*' && !is_ws(s[i]) by {
        if i < b.len() {
            assert(s[i] == b[i]);
        } else if i > b.len() {
            assert(s[i] == d[i - b.len() - 1]);
        }
    }
}

/// A transmittable message reads back, from its wire form, as itself.
pub proof fn lemma_wire_roundtrip(m: MsgView)
    requires
        transmittable(m),
        encoded_text(m.from.name),
        encoded_text(label_body(m.content).1),
        m.content matches ContentView::Trust(a) ==> encoded_text(a.name),
    ensures
        wire_ok(wire(m)),
        parse_wire(wire(m)) == m,
{
    let f = wire_fields(m);
    let (l, body) = label_body(m.content);
    let eb = encode_base64_text(body);
    lemma_sendable_roundtrip(m.from);
    lemma_base64_plain(eb);
    assert(body.len() > 0) by {
        if let ContentView::Trust(a) = m.content {
            lemma_sendable_roundtrip(a);
        }
    }
    assert(plain_pieces(f, '*')) by {
        assert forall|i: int| 0 <= i < f.len() implies plain_piece(#[trigger] f[i], '*') by {
            if i == 1 {
                assert(f[1] == seq![l]);
                assert(l != '*' && !is_ws(l));
            }
        }
    }
    lemma_split_and_clean_framed(f, '*');
    assert(seq![l] == seq!['t'] ==> l == 't') by {
        if seq![l] == seq!['t'] {
            assert(seq![l][0] == seq!['t'][0]);
        }
    }
    if let ContentView::Trust(a) = m.content {
        lemma_sendable_roundtrip(a);
        assert(seq![l] =~= seq!['t']);
    }
    let lab = seq![l];
    assert(lab == seq!['i'] <==> l == 'i') by { if lab == seq!['i'] { assert(lab[0] == 'i'); } }
    assert(lab == seq!['s'] <==> l == 's') by { if lab == seq!['s'] { assert(lab[0] == 's'); } }
    assert(lab == seq!['j'] <==> l == 'j') by { if lab == seq!['j'] { assert(lab[0] == 'j'); } }
    assert(lab == seq!['p'] <==> l == 'p') by { if lab == seq!['p'] { assert(lab[0] == 'p'); } }
    assert(lab == seq!['t'] <==> l == 't') by { if lab == seq!['t'] { assert(lab[0] == 't'); } }
    assert(lab == seq!['l'] <==> l == 'l') by { if lab == seq!['l'] { assert(lab[0] == 'l'); } }
}


proof fn lemma_wire_shape(m: MsgView)
    ensures
        wire(m) == seq!['*'] + sendable(m.from) + seq!['*', label_body(m.content).0, '*']
            + encode_base64_text(label_body(m.content).1) + seq!['*'],
{
    let f = wire_fields(m);
    let f01 = seq![f[0], f[1]];
    assert(f.drop_last() =~= f01);
    assert(f01.drop_last() =~= seq![f[0]]);
    assert(seq![f[0]].drop_last() =~= Seq::<Seq<char>>::empty());
    assert(join(seq![f[0]], '*') == f[0]);
    assert(join(f01, '*') == join(seq![f[0]], '*') + seq!['*'] + f[1]);
    assert(join(f, '*') == join(f01, '*') + seq!['*'] + f[2]);
    assert(wire(m) =~= seq!['*'] + sendable(m.from) + seq!['*', label_body(m.content).0, '*']
        + encode_base64_text(label_body(m.content).1) + seq!['*']);
}

/// Each kind of content travels under a label of its own: a public key under `p`, a secure
/// text under `s`, a plain text under `i`, a join under `j`, a leave under `l`, a trust under
/// `t` and a blank message under `_`, with the Base64 of its body after the label.
pub proof fn lemma_wire_labels(m: MsgView)
    ensures
        m.content matches ContentView::PublicKey(k) ==> wire(m) == seq!['*'] + sendable(m.from)
            + seq!['*', 'p', '*'] + encode_base64_text(k) + seq!['*'],
        m.content matches ContentView::SecureText(t) ==> wire(m) == seq!['*'] + sendable(m.from)
            + seq!['*', 's', '*'] + encode_base64_text(t) + seq!['*'],
        m.content matches ContentView::InsecureText(t) ==> wire(m) == seq!['*'] + sendable(m.from)
            + seq!['*', 'i', '*'] + encode_base64_text(t) + seq!['*'],
        m.content matches ContentView::Join(g) ==> wire(m) == seq!['*'] + sendable(m.from)
            + seq!['*', 'j', '*'] + encode_base64_text(g) + seq!['*'],
        m.content matches ContentView::Leave(g) ==> wire(m) == seq!['*'] + sendable(m.from)
            + seq!['*', 'l', '*'] + encode_base64_text(g) + seq!['*'],
        m.content matches ContentView::Trust(a) ==> wire(m) == seq!['*'] + sendable(m.from)
            + seq!['*', 't', '*'] + encode_base64_text(sendable(a)) + seq!['*'],
        m.content is Blank ==> wire(m) == seq!['*'] + sendable(m.from) + seq!['*', '_', '*']
            + encode_base64_text(seq!['_']) + seq!['*'],
{
    lemma_wire_shape(m);
}

proof fn lemma_single_ne(a: char, b: char)
    requires
        a != b,
    ensures
        seq![a] != seq![b],
{
    assert(seq![a][0] != seq![b][0]);
}

/// Reading goes by the same labels: the field after the address names the kind of content,
/// `p` a public key, `s` a secure text, `i` a plain text, `j` a join, `l` a leave and `t` a
/// trust, whose body is the decoded third field; any other label reads as a blank message.
pub proof fn lemma_wire_reading(txt: Seq<char>)
    ensures
        parse_wire(txt).from == from_sendable_spec(split_and_clean_spec(txt, '*')[0]),
        split_and_clean_spec(txt, '*')[1] == seq!['p'] ==> parse_wire(txt).content
            == ContentView::PublicKey(decode_base64_spec(split_and_clean_spec(txt, '*')[2]).unwrap()),
        split_and_clean_spec(txt, '*')[1] == seq!['s'] ==> parse_wire(txt).content
            == ContentView::SecureText(decode_base64_spec(split_and_clean_spec(txt, '*')[2]).unwrap()),
        split_and_clean_spec(txt, '*')[1] == seq!['i'] ==> parse_wire(txt).content
            == ContentView::InsecureText(
            decode_base64_spec(split_and_clean_spec(txt, '*')[2]).unwrap(),
        ),
        split_and_clean_spec(txt, '*')[1] == seq!['j'] ==> parse_wire(txt).content
            == ContentView::Join(decode_base64_spec(split_and_clean_spec(txt, '*')[2]).unwrap()),
        split_and_clean_spec(txt, '*')[1] == seq!['l'] ==> parse_wire(txt).content
            == ContentView::Leave(decode_base64_spec(split_and_clean_spec(txt, '*')[2]).unwrap()),
        split_and_clean_spec(txt, '*')[1] == seq!['t'] ==> parse_wire(txt).content
            == ContentView::Trust(
            from_sendable_spec(decode_base64_spec(split_and_clean_spec(txt, '*')[2]).unwrap()),
        ),
        split_and_clean_spec(txt, '*')[1] != seq!['p'] && split_and_clean_spec(txt, '*')[1]
            != seq!['s'] && split_and_clean_spec(txt, '*')[1] != seq!['i'] && split_and_clean_spec(
            txt,
            '*',
        )[1] != seq!['j'] && split_and_clean_spec(txt, '*')[1] != seq!['l'] && split_and_clean_spec(
            txt,
            '*',
        )[1] != seq!['t'] ==> parse_wire(txt).content is Blank,
{
    lemma_single_ne('i', 's');
    lemma_single_ne('i', 'j');
    lemma_single_ne('i', 'p');
    lemma_single_ne('i', 't');
    lemma_single_ne('i', 'l');
    lemma_single_ne('s', 'j');
    lemma_single_ne('s', 'p');
    lemma_single_ne('s', 't');
    lemma_single_ne('s', 'l');
    lemma_single_ne('j', 'p');
    lemma_single_ne('j', 't');
    lemma_single_ne('j', 'l');
    lemma_single_ne('p', 't');
    lemma_single_ne('p', 'l');
    lemma_single_ne('t', 'l');
}

}

verus! {

/// A chat participant: display name and device id.
pub struct Address {
    pub name: String,
    pub deviceId: i32,
}

impl View for Address {
    type V = AddrView;

    open spec fn view(&self) -> AddrView {
        AddrView { name: self.name@, device_id: self.deviceId }
    }
}

impl Clone for Address {
    fn clone(&self) -> (res: Self)
        ensures
            res@ == self@,
    {
        Address { name: self.name.clone(), deviceId: self.deviceId }
    }
}

/// What a message carries.
pub enum MsgContent {
    InsecureText(String),
    SecureText(String),
    Join(String),
    PublicKey(String),
    Leave(String),
    Trust(Address),
    Blank(),
}

impl View for MsgContent {
    type V = ContentView;

    open spec fn view(&self) -> ContentView {
        match self {
            MsgContent::InsecureText(t) => ContentView::InsecureText(t@),
            MsgContent::SecureText(t) => ContentView::SecureText(t@),
            MsgContent::Join(t) => ContentView::Join(t@),
            MsgContent::PublicKey(t) => ContentView::PublicKey(t@),
            MsgContent::Leave(t) => ContentView::Leave(t@),
            MsgContent::Trust(a) => ContentView::Trust(a@),
            MsgContent::Blank() => ContentView::Blank,
        }
    }
}

impl Clone for MsgContent {
    fn clone(&self) -> (res: Self)
        ensures
            res@ == self@,
    {
        match self {
            MsgContent::InsecureText(t) => MsgContent::InsecureText(t.clone()),
            MsgContent::SecureText(t) => MsgContent::SecureText(t.clone()),
            MsgContent::Join(t) => MsgContent::Join(t.clone()),
            MsgContent::PublicKey(t) => MsgContent::PublicKey(t.clone()),
            MsgContent::Leave(t) => MsgContent::Leave(t.clone()),
            MsgContent::Trust(a) => MsgContent::Trust(a.clone()),
            MsgContent::Blank() => MsgContent::Blank(),
        }
    }
}

/// Base64-decodes `text` into UTF-8 text; the input must be both.
pub fn decode_base64_text(text: &str) -> (res: String)
    requires
        decode_base64_spec(text@) is Some,
    ensures
        decode_base64_spec(text@) == Some(res@),
{
    match try_decode_base64(text) {
        Some(s) => s,
        None => {
            assert(false);
            String::new()
        }
    }
}

/// Whether the string slice `s` is the single character `c`.
pub fn is_single(s: &str, c: char) -> (r: bool)
    ensures
        r == (s@ == seq![c]),
        r ==> s@.len() == 1 && s@[0] == c,
{
    let n = s.unicode_len();
    if n != 1 {
        assert(s@.len() != seq![c].len());
        return false;
    }
    let d = s.get_char(0);
    if d == c {
        assert(s@ =~= seq![c]);
        true
    } else {
        assert(s@[0] != seq![c][0]);
        false
    }
}

impl Address {
    pub fn new(name: &str, deviceId: i32) -> (res: Address)
        ensures
            res@ == (AddrView { name: name@, device_id: deviceId }),
    {
        Address { name: to_owned_string(name), deviceId }
    }

    /// `base64(name)@device`; read back by `fromSendable` as this same address when the
    /// name is not empty.
    pub fn asSendable(&self) -> (res: String)
        ensures
            res@ == sendable(self@),
            encoded_text(self@.name),
            self@.name.len() > 0 ==> sendable_ok(res@) && from_sendable_spec(res@) == self@,
            self@.name.len() > 0 ==> forall|i: int|
                0 <= i < res@.len() ==> #[trigger] res@[i] != '*' && !is_ws(res@[i]),
    {
        let mut s = encode_base64_str(self.name.as_str());
        push_char(&mut s, '@');
        let d = i32_to_decimal(self.deviceId);
        push_str(&mut s, d.as_str());
        proof {
            if self@.name.len() > 0 {
                lemma_sendable_roundtrip(self@);
            }
        }
        s
    }

    /// Reads an address written by `asSendable`.
    pub fn fromSendable(s: String) -> (res: Address)
        requires
            sendable_ok(s@),
        ensures
            res@ == from_sendable_spec(s@),
    {
        let parts = split_and_clean(s.as_str(), '@');
        assert(parts@[0]@ == sendable_parts(s@)[0]);
        assert(parts@[1]@ == sendable_parts(s@)[1]);
        let name = decode_base64_text(parts[0]);
        let id = match parse_i32(parts[1]) {
            Some(v) => v,
            None => {
                assert(false);
                0
            },
        };
        Address { name, deviceId: id }
    }
}

/// The label character and the body of `content`, as the wire carries them.
fn label_and_body(content: &MsgContent) -> (res: (char, String))
    ensures
        res.0 == label_body(content@).0,
        res.1@ == label_body(content@).1,
        content@ matches ContentView::Trust(a) ==> encoded_text(a.name),
        content@ matches ContentView::Trust(a) && a.name.len() > 0 ==> forall|i: int|
            0 <= i < res.1@.len() ==> #[trigger] res.1@[i] != '*' && !is_ws(res.1@[i]),
{
    match content {
        MsgContent::PublicKey(k) => ('p', k.clone()),
        MsgContent::SecureText(t) => ('s', t.clone()),
        MsgContent::InsecureText(t) => ('i', t.clone()),
        MsgContent::Join(g) => ('j', g.clone()),
        MsgContent::Leave(g) => ('l', g.clone()),
        MsgContent::Trust(a) => ('t', a.asSendable()),
        MsgContent::Blank() => {
            let mut s = String::new();
            push_char(&mut s, '_');
            ('_', s)
        },
    }
}

/// `*address*label*base64(body)*` for a message from `from` carrying `content`; a
/// transmittable message reads back from it as itself.
pub fn to_wire(from: &Address, content: &MsgContent) -> (res: String)
    ensures
        res@ == wire(MsgView { from: from@, content: content@ }),
        transmittable(MsgView { from: from@, content: content@ }) ==> wire_ok(res@) && parse_wire(
            res@,
        ) == (MsgView { from: from@, content: content@ }),
{
    let (kind, body) = label_and_body(content);
    let sender = from.asSendable();
    let encoded_body = encode_base64_str(body.as_str());
    let mut s = String::new();
    push_char(&mut s, '*');
    push_str(&mut s, sender.as_str());
    push_char(&mut s, '*');
    push_char(&mut s, kind);
    push_char(&mut s, '*');
    push_str(&mut s, encoded_body.as_str());
    push_char(&mut s, '*');
    proof {
        let m = MsgView { from: from@, content: content@ };
        let f = wire_fields(m);
        assert(f.drop_last().drop_last() =~= seq![f[0]]);
        assert(join(seq![f[0]], '*') == f[0]);
        assert(join(f, '*') =~= f[0] + seq!['*'] + f[1] + seq!['*'] + f[2]) by {
            let f01 = seq![f[0], f[1]];
            assert(f.drop_last() =~= f01);
            assert(f01.drop_last() =~= seq![f[0]]);
            assert(join(f01, '*') == join(seq![f[0]], '*') + seq!['*'] + f[1]);
            assert(join(f, '*') == join(f01, '*') + seq!['*'] + f[2]);
        }
        assert(s@ =~= wire(m));
        if transmittable(m) {
            lemma_wire_roundtrip(m);
        }
    }
    s
}

}

verus! {

/// Reads an address written as `base64(name)@device`; `None` where `s` is not one.
pub fn try_read_sendable(s: &str) -> (res: Option<Address>)
    ensures
        res is Some <==> sendable_ok(s@),
        res matches Some(a) ==> a@ == from_sendable_spec(s@),
{
    let parts = split_and_clean(s, '@');
    if parts.len() < 2 {
        return None;
    }
    assert(parts@[0]@ == sendable_parts(s@)[0]);
    assert(parts@[1]@ == sendable_parts(s@)[1]);
    match try_decode_base64(parts[0]) {
        None => None,
        Some(name) => match parse_i32(parts[1]) {
            None => None,
            Some(id) => Some(Address { name, deviceId: id }),
        },
    }
}

/// Reads a message in the wire format; `None` where `txt` is not one that can be read.
pub fn try_from_wire(txt: &str) -> (res: Option<(Address, MsgContent)>)
    ensures
        res is Some <==> wire_ok(txt@),
        res matches Some(p) ==> (MsgView { from: p.0@, content: p.1@ }) == parse_wire(txt@),
{
    let seg = split_and_clean(txt, '*');
    if seg.len() < 3 {
        return None;
    }
    let ghost sp = split_and_clean_spec(txt@, '*');
    assert(seg@[0]@ == sp[0] && seg@[1]@ == sp[1] && seg@[2]@ == sp[2]);
    let from = match try_read_sendable(seg[0]) {
        Some(a) => a,
        None => return None,
    };
    let data = match try_decode_base64(seg[2]) {
        Some(d) => d,
        None => return None,
    };
    let label = seg[1];
    proof {
        if sp[1] == seq!['t'] {
            assert(sp[1][0] == 't');
        }
    }
    let content = if is_single(label, 'i') {
        MsgContent::InsecureText(data)
    } else if is_single(label, 's') {
        MsgContent::SecureText(data)
    } else if is_single(label, 'j') {
        MsgContent::Join(data)
    } else if is_single(label, 'p') {
        MsgContent::PublicKey(data)
    } else if is_single(label, 't') {
        match try_read_sendable(data.as_str()) {
            Some(a) => MsgContent::Trust(a),
            None => return None,
        }
    } else if is_single(label, 'l') {
        MsgContent::Leave(data)
    } else {
        MsgContent::Blank()
    };
    assert(sp.len() >= 3);
    assert(sendable_ok(sp[0]));
    assert(decode_base64_spec(sp[2]) is Some);
    assert(sp[1] == seq!['t'] ==> sendable_ok(decode_base64_spec(sp[2]).unwrap()));
    Some((from, content))
}

/// Reads a message in the wire format.
pub fn from_wire(txt: &str) -> (res: (Address, MsgContent))
    requires
        wire_ok(txt@),
    ensures
        (MsgView { from: res.0@, content: res.1@ }) == parse_wire(txt@),
{
    match try_from_wire(txt) {
        Some(p) => p,
        None => {
            assert(false);
            (Address { name: String::new(), deviceId: 0 }, MsgContent::Blank())
        },
    }
}

}
