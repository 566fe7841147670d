use vstd::prelude::*;
use vstd::utf8::{decode_utf8, encode_utf8, valid_utf8};
use crate::state::{Message, MessageType, State};
use crate::history::History;
use crate::directory::Directory;

verus! {

/// The fields of a message as mathematical values.
pub struct MessageModel {
    pub kind: MessageType,
    pub data: Seq<u8>,
    pub addressee: Option<Seq<char>>,
    pub source: Seq<char>,
}

impl View for Message {
    type V = MessageModel;

    open spec fn view(&self) -> MessageModel {
        MessageModel {
            kind: self.message_type,
            data: self.data@,
            addressee: crate::state::opt_view(self.addressee),
            source: self.source@,
        }
    }
}

/// The eight little-endian bytes of `n`.
pub open spec fn enc_u64(n: u64) -> Seq<u8> {
    seq![
        n as u8,
        (n >> 8u64) as u8,
        (n >> 16u64) as u8,
        (n >> 24u64) as u8,
        (n >> 32u64) as u8,
        (n >> 40u64) as u8,
        (n >> 48u64) as u8,
        (n >> 56u64) as u8,
    ]
}

/// The integer whose little-endian bytes stand in `b` from `pos` on.
pub open spec fn le_u64(b: Seq<u8>, pos: int) -> u64 {
    (b[pos] as u64) | ((b[pos + 1] as u64) << 8u64) | ((b[pos + 2] as u64) << 16u64) | ((b[pos
        + 3] as u64) << 24u64) | ((b[pos + 4] as u64) << 32u64) | ((b[pos + 5] as u64) << 40u64)
        | ((b[pos + 6] as u64) << 48u64) | ((b[pos + 7] as u64) << 56u64)
}

/// A byte field: its length in eight bytes, then the bytes.
pub open spec fn enc_field(bytes: Seq<u8>) -> Seq<u8> {
    enc_u64(bytes.len() as u64) + bytes
}

/// A text field: the field of the text's UTF-8 bytes.
pub open spec fn enc_text(s: Seq<char>) -> Seq<u8> {
    enc_field(encode_utf8(s))
}

/// The byte that tells the kinds of message apart.
pub open spec fn kind_tag(k: MessageType) -> u8 {
    match k {
        MessageType::Message => 0,
        MessageType::State => 1,
    }
}

/// The encoding of a message: its kind, the addressee (a flag, then the
/// text when there is one), the source and the payload.
pub open spec fn enc_message(m: MessageModel) -> Seq<u8> {
    seq![kind_tag(m.kind)] + match m.addressee {
        None => seq![0u8],
        Some(a) => seq![1u8] + enc_text(a),
    } + enc_text(m.source) + enc_field(m.data)
}

/// Reads a byte field at `pos`: the bytes and the position after them.
pub open spec fn parse_field(b: Seq<u8>, pos: int) -> Option<(Seq<u8>, int)> {
    if 0 <= pos && pos + 8 <= b.len() && le_u64(b, pos) as int <= b.len() - pos - 8 {
        let end = pos + 8 + le_u64(b, pos) as int;
        Some((b.subrange(pos + 8, end), end))
    } else {
        None
    }
}

/// Reads a text field at `pos`; its bytes must be valid UTF-8.
pub open spec fn parse_text(b: Seq<u8>, pos: int) -> Option<(Seq<char>, int)> {
    match parse_field(b, pos) {
        Some((f, end)) => if valid_utf8(f) {
            Some((decode_utf8(f), end))
        } else {
            None
        },
        None => None,
    }
}

/// Reads the addressee at `pos`.
pub open spec fn parse_addressee(b: Seq<u8>, pos: int) -> Option<(Option<Seq<char>>, int)> {
    if 0 <= pos < b.len() && b[pos] == 0 {
        Some((None, pos + 1))
    } else if 0 <= pos < b.len() && b[pos] == 1 {
        match parse_text(b, pos + 1) {
            Some((a, end)) => Some((Some(a), end)),
            None => None,
        }
    } else {
        None
    }
}

/// The kind of message that `tag` stands for.
pub open spec fn kind_of(tag: u8) -> Option<MessageType> {
    if tag == 0 {
        Some(MessageType::Message)
    } else if tag == 1 {
        Some(MessageType::State)
    } else {
        None
    }
}

/// Reads a message at `pos`: the message and the position after it.
pub open spec fn parse_message(b: Seq<u8>, pos: int) -> Option<(MessageModel, int)> {
    if 0 <= pos < b.len() && kind_of(b[pos]) is Some {
        match parse_addressee(b, pos + 1) {
            Some((addressee, e1)) => match parse_text(b, e1) {
                Some((source, e2)) => match parse_field(b, e2) {
                    Some((data, e3)) => Some(
                        (MessageModel { kind: kind_of(b[pos])->0, data, addressee, source }, e3),
                    ),
                    None => None,
                },
                None => None,
            },
            None => None,
        }
    } else {
        None
    }
}

/// The message that `b` encodes, with nothing after it.
pub open spec fn decode_message(b: Seq<u8>) -> Option<MessageModel> {
    match parse_message(b, 0) {
        Some((m, end)) => if end == b.len() {
            Some(m)
        } else {
            None
        },
        None => None,
    }
}

/// Every field of `m` is short enough for its length to fit in eight bytes.
pub open spec fn fits(m: MessageModel) -> bool {
    &&& m.data.len() <= u64::MAX
    &&& encode_utf8(m.source).len() <= u64::MAX
    &&& (m.addressee matches Some(a) ==> encode_utf8(a).len() <= u64::MAX)
}

proof fn lemma_le_u64_of_enc(n: u64, b: Seq<u8>, pos: int)
    requires
        0 <= pos,
        pos + 8 <= b.len(),
        b.subrange(pos, pos + 8) == enc_u64(n),
    ensures
        le_u64(b, pos) == n,
{
    assert(b[pos] == b.subrange(pos, pos + 8)[0]);
    assert(b[pos + 1] == b.subrange(pos, pos + 8)[1]);
    assert(b[pos + 2] == b.subrange(pos, pos + 8)[2]);
    assert(b[pos + 3] == b.subrange(pos, pos + 8)[3]);
    assert(b[pos + 4] == b.subrange(pos, pos + 8)[4]);
    assert(b[pos + 5] == b.subrange(pos, pos + 8)[5]);
    assert(b[pos + 6] == b.subrange(pos, pos + 8)[6]);
    assert(b[pos + 7] == b.subrange(pos, pos + 8)[7]);
    assert(((n as u8) as u64) | ((((n >> 8u64) as u8) as u64) << 8u64) | ((((n >> 16u64) as u8)
        as u64) << 16u64) | ((((n >> 24u64) as u8) as u64) << 24u64) | ((((n >> 32u64) as u8)
        as u64) << 32u64) | ((((n >> 40u64) as u8) as u64) << 40u64) | ((((n >> 48u64) as u8)
        as u64) << 48u64) | ((((n >> 56u64) as u8) as u64) << 56u64) == n) by (bit_vector);
}

proof fn lemma_parse_field_of_enc(f: Seq<u8>, b: Seq<u8>, pos: int)
    requires
        0 <= pos,
        f.len() <= u64::MAX,
        pos + enc_field(f).len() <= b.len(),
        b.subrange(pos, pos + enc_field(f).len()) == enc_field(f),
    ensures
        parse_field(b, pos) == Some((f, pos + enc_field(f).len())),
{
    let e = enc_field(f);
    assert(b.subrange(pos, pos + 8) =~= e.subrange(0, 8));
    assert(e.subrange(0, 8) =~= enc_u64(f.len() as u64));
    lemma_le_u64_of_enc(f.len() as u64, b, pos);
    assert(b.subrange(pos + 8, pos + 8 + f.len()) =~= e.subrange(8, e.len() as int));
    assert(e.subrange(8, e.len() as int) =~= f);
}

proof fn lemma_parse_text_of_enc(s: Seq<char>, b: Seq<u8>, pos: int)
    requires
        0 <= pos,
        encode_utf8(s).len() <= u64::MAX,
        pos + enc_text(s).len() <= b.len(),
        b.subrange(pos, pos + enc_text(s).len()) == enc_text(s),
    ensures
        parse_text(b, pos) == Some((s, pos + enc_text(s).len())),
{
    lemma_parse_field_of_enc(encode_utf8(s), b, pos);
    vstd::utf8::encode_utf8_valid_utf8(s);
    vstd::utf8::encode_utf8_decode_utf8(s);
}

/// A message is read back from its encoding, wherever the encoding stands
/// in a longer sequence of bytes.
pub proof fn lemma_parse_message_of_enc(m: MessageModel, b: Seq<u8>, pos: int)
    requires
        fits(m),
        0 <= pos,
        pos + enc_message(m).len() <= b.len(),
        b.subrange(pos, pos + enc_message(m).len()) == enc_message(m),
    ensures
        parse_message(b, pos) == Some((m, pos + enc_message(m).len())),
{
    let e = enc_message(m);
    assert(b[pos] == e[0]);
    let a_len: int = match m.addressee {
        None => 1,
        Some(a) => 1 + enc_text(a).len() as int,
    };
    let s_len = enc_text(m.source).len() as int;
    let d_len = enc_field(m.data).len() as int;
    assert(e.len() == 1 + a_len + s_len + d_len);
    assert(b[pos + 1] == e[1]);
    match m.addressee {
        None => {},
        Some(a) => {
            assert(b.subrange(pos + 2, pos + 1 + a_len) =~= e.subrange(2, 1 + a_len));
            assert(e.subrange(2, 1 + a_len) =~= enc_text(a));
            lemma_parse_text_of_enc(a, b, pos + 2);
        },
    }
    assert(b.subrange(pos + 1 + a_len, pos + 1 + a_len + s_len) =~= e.subrange(
        1 + a_len,
        1 + a_len + s_len,
    ));
    assert(e.subrange(1 + a_len, 1 + a_len + s_len) =~= enc_text(m.source));
    lemma_parse_text_of_enc(m.source, b, pos + 1 + a_len);
    assert(b.subrange(pos + 1 + a_len + s_len, pos + e.len()) =~= e.subrange(
        1 + a_len + s_len,
        e.len() as int,
    ));
    assert(e.subrange(1 + a_len + s_len, e.len() as int) =~= enc_field(m.data));
    lemma_parse_field_of_enc(m.data, b, pos + 1 + a_len + s_len);
}

/// Decoding the encoding of a message gives back the same message, field
/// for field.
pub proof fn lemma_message_round_trip(m: MessageModel)
    requires
        fits(m),
    ensures
        decode_message(enc_message(m)) == Some(m),
{
    let e = enc_message(m);
    assert(e.subrange(0, e.len() as int) =~= e);
    lemma_parse_message_of_enc(m, e, 0);
}


/// Relies on String::from_utf8: it accepts exactly the byte sequences that
/// are valid UTF-8, and the string it returns holds the characters they
/// encode.
#[verifier::external_body]
fn string_from_utf8(bytes: Vec<u8>) -> (r: Option<String>)
    ensures
        match r {
            Some(s) => valid_utf8(bytes@) && s@ == decode_utf8(bytes@),
            None => !valid_utf8(bytes@),
        },
{
    String::from_utf8(bytes).ok()
}

fn push_u64(out: &mut Vec<u8>, n: u64)
    ensures
        final(out)@ == old(out)@ + enc_u64(n),
{
    out.push(n as u8);
    out.push((n >> 8u64) as u8);
    out.push((n >> 16u64) as u8);
    out.push((n >> 24u64) as u8);
    out.push((n >> 32u64) as u8);
    out.push((n >> 40u64) as u8);
    out.push((n >> 48u64) as u8);
    out.push((n >> 56u64) as u8);
    assert(final(out)@ =~= old(out)@ + enc_u64(n));
}

fn push_field(out: &mut Vec<u8>, bytes: &[u8])
    ensures
        final(out)@ == old(out)@ + enc_field(bytes@),
{
    push_u64(out, bytes.len() as u64);
    let ghost mid = out@;
    let mut i: usize = 0;
    while i < bytes.len()
        invariant
            i <= bytes@.len(),
            out@ == mid + bytes@.subrange(0, i as int),
        decreases bytes@.len() - i,
    {
        out.push(bytes[i]);
        assert(bytes@.subrange(0, i + 1) =~= bytes@.subrange(0, i as int).push(bytes@[i as int]));
        i = i + 1;
    }
    assert(bytes@.subrange(0, i as int) =~= bytes@);
    assert(final(out)@ =~= old(out)@ + enc_field(bytes@));
}

fn push_text(out: &mut Vec<u8>, s: &String)
    ensures
        final(out)@ == old(out)@ + enc_text(s@),
{
    push_field(out, s.as_str().as_bytes());
}

/// Appends the encoding of `m` to `out`.
pub fn push_message(out: &mut Vec<u8>, m: &Message)
    ensures
        final(out)@ == old(out)@ + enc_message(m@),
{
    let ghost start = out@;
    match m.message_type {
        MessageType::Message => out.push(0u8),
        MessageType::State => out.push(1u8),
    }
    match &m.addressee {
        None => out.push(0u8),
        Some(a) => {
            out.push(1u8);
            push_text(out, a);
        },
    }
    push_text(out, &m.source);
    push_field(out, m.data.as_slice());
    assert(out@ =~= start + enc_message(m@));
}

fn read_u64(b: &[u8], pos: usize) -> (r: u64)
    requires
        pos + 8 <= b@.len(),
    ensures
        r == le_u64(b@, pos as int),
{
    (b[pos] as u64) | ((b[pos + 1] as u64) << 8u64) | ((b[pos + 2] as u64) << 16u64) | ((b[pos
        + 3] as u64) << 24u64) | ((b[pos + 4] as u64) << 32u64) | ((b[pos + 5] as u64) << 40u64)
        | ((b[pos + 6] as u64) << 48u64) | ((b[pos + 7] as u64) << 56u64)
}

fn read_field(b: &[u8], pos: usize) -> (r: Option<(Vec<u8>, usize)>)
    ensures
        match r {
            Some((f, end)) => parse_field(b@, pos as int) == Some((f@, end as int)),
            None => parse_field(b@, pos as int) is None,
        },
{
    if pos > b.len() || b.len() - pos < 8 {
        return None;
    }
    let n = read_u64(b, pos);
    if n > (b.len() - pos - 8) as u64 {
        return None;
    }
    let end = pos + 8 + n as usize;
    let f = vstd::slice::slice_to_vec(vstd::slice::slice_subrange(b, pos + 8, end));
    Some((f, end))
}

fn read_text(b: &[u8], pos: usize) -> (r: Option<(String, usize)>)
    ensures
        match r {
            Some((s, end)) => parse_text(b@, pos as int) == Some((s@, end as int)),
            None => parse_text(b@, pos as int) is None,
        },
{
    match read_field(b, pos) {
        Some((f, end)) => match string_from_utf8(f) {
            Some(s) => Some((s, end)),
            None => None,
        },
        None => None,
    }
}

fn read_addressee(b: &[u8], pos: usize) -> (r: Option<(Option<String>, usize)>)
    ensures
        match r {
            Some((a, end)) => parse_addressee(b@, pos as int) == Some(
                (crate::state::opt_view(a), end as int),
            ),
            None => parse_addressee(b@, pos as int) is None,
        },
{
    if pos >= b.len() {
        None
    } else if b[pos] == 0 {
        Some((None, pos + 1))
    } else if b[pos] == 1 {
        match read_text(b, pos + 1) {
            Some((a, end)) => Some((Some(a), end)),
            None => None,
        }
    } else {
        None
    }
}

/// Reads the message that starts at `pos`, and the position after it.
pub fn read_message(b: &[u8], pos: usize) -> (r: Option<(Message, usize)>)
    ensures
        match r {
            Some((m, end)) => parse_message(b@, pos as int) == Some((m@, end as int)),
            None => parse_message(b@, pos as int) is None,
        },
{
    if pos >= b.len() {
        return None;
    }
    let kind = if b[pos] == 0 {
        MessageType::Message
    } else if b[pos] == 1 {
        MessageType::State
    } else {
        return None;
    };
    let (addressee, e1) = match read_addressee(b, pos + 1) {
        Some(x) => x,
        None => return None,
    };
    let (source, e2) = match read_text(b, e1) {
        Some(x) => x,
        None => return None,
    };
    let (data, e3) = match read_field(b, e2) {
        Some(x) => x,
        None => return None,
    };
    Some((Message { message_type: kind, data, addressee, source }, e3))
}

impl Message {
    /// The wire encoding of this message.
    pub fn to_bytes(&self) -> (r: Vec<u8>)
        ensures
            r@ == enc_message(self@),
    {
        let mut out: Vec<u8> = Vec::new();
        push_message(&mut out, self);
        assert(out@ =~= enc_message(self@));
        out
    }

    /// The message that `b` encodes, or `None` where `b` is not exactly the
    /// encoding of one message.
    pub fn from_bytes(b: &[u8]) -> (r: Option<Message>)
        ensures
            match r {
                Some(m) => decode_message(b@) == Some(m@),
                None => decode_message(b@) is None,
            },
    {
        match read_message(b, 0) {
            Some((m, end)) => if end == b.len() {
                Some(m)
            } else {
                None
            },
            None => None,
        }
    }
}


/// The encodings of the messages of `ms`, one after another.
pub open spec fn enc_messages(ms: Seq<MessageModel>) -> Seq<u8>
    decreases ms.len(),
{
    if ms.len() == 0 {
        Seq::empty()
    } else {
        enc_messages(ms.drop_last()) + enc_message(ms.last())
    }
}

/// The encodings of the entries of `ps`, each a peer then its name.
pub open spec fn enc_pairs(ps: Seq<(Seq<char>, Seq<char>)>) -> Seq<u8>
    decreases ps.len(),
{
    if ps.len() == 0 {
        Seq::empty()
    } else {
        enc_pairs(ps.drop_last()) + enc_text(ps.last().0) + enc_text(ps.last().1)
    }
}

/// The models of a sequence of messages.
pub open spec fn models(ms: Seq<Message>) -> Seq<MessageModel> {
    ms.map_values(|m: Message| m@)
}

/// The encoding of a replica state: the number of messages, the messages,
/// the number of directory entries, the entries.
pub open spec fn enc_state(s: State) -> Seq<u8> {
    enc_u64(s.history@.len() as u64) + enc_messages(models(s.history@)) + enc_u64(
        s.usernames.pairs().len() as u64,
    ) + enc_pairs(s.usernames.pairs())
}

/// Reads `n` messages one after another from `pos` on.
pub open spec fn parse_messages(b: Seq<u8>, pos: int, n: nat) -> Option<(Seq<MessageModel>, int)>
    decreases n,
{
    if n == 0 {
        if 0 <= pos <= b.len() {
            Some((Seq::empty(), pos))
        } else {
            None
        }
    } else {
        match parse_messages(b, pos, (n - 1) as nat) {
            Some((ms, e)) => match parse_message(b, e) {
                Some((m, e2)) => Some((ms.push(m), e2)),
                None => None,
            },
            None => None,
        }
    }
}

/// Whether some entry of `ps` is for `peer`.
pub open spec fn has_key(ps: Seq<(Seq<char>, Seq<char>)>, peer: Seq<char>) -> bool {
    exists|j: int| 0 <= j < ps.len() && ps[j].0 == peer
}

/// Reads `n` directory entries from `pos` on; a repeated peer is refused.
pub open spec fn parse_pairs(b: Seq<u8>, pos: int, n: nat) -> Option<
    (Seq<(Seq<char>, Seq<char>)>, int),
>
    decreases n,
{
    if n == 0 {
        if 0 <= pos <= b.len() {
            Some((Seq::empty(), pos))
        } else {
            None
        }
    } else {
        match parse_pairs(b, pos, (n - 1) as nat) {
            Some((ps, e)) => match parse_text(b, e) {
                Some((k, e1)) => match parse_text(b, e1) {
                    Some((v, e2)) => if has_key(ps, k) {
                        None
                    } else {
                        Some((ps.push((k, v)), e2))
                    },
                    None => None,
                },
                None => None,
            },
            None => None,
        }
    }
}

/// The history and the directory entries that `b` encodes, with nothing
/// after them.
pub open spec fn parse_state(b: Seq<u8>) -> Option<(Seq<MessageModel>, Seq<(Seq<char>, Seq<char>)>)> {
    if 8 <= b.len() {
        match parse_messages(b, 8, le_u64(b, 0) as nat) {
            Some((ms, e1)) => if e1 + 8 <= b.len() {
                match parse_pairs(b, e1 + 8, le_u64(b, e1) as nat) {
                    Some((ps, e2)) => if e2 == b.len() {
                        Some((ms, ps))
                    } else {
                        None
                    },
                    None => None,
                }
            } else {
                None
            },
            None => None,
        }
    } else {
        None
    }
}

proof fn lemma_parse_messages_none(b: Seq<u8>, pos: int, k: nat, n: nat)
    requires
        k <= n,
        parse_messages(b, pos, k) is None,
    ensures
        parse_messages(b, pos, n) is None,
    decreases n - k,
{
    if k < n {
        lemma_parse_messages_none(b, pos, k + 1, n);
    }
}

proof fn lemma_parse_pairs_none(b: Seq<u8>, pos: int, k: nat, n: nat)
    requires
        k <= n,
        parse_pairs(b, pos, k) is None,
    ensures
        parse_pairs(b, pos, n) is None,
    decreases n - k,
{
    if k < n {
        lemma_parse_pairs_none(b, pos, k + 1, n);
    }
}

/// Every message of `ms` fits.
pub open spec fn all_fit(ms: Seq<MessageModel>) -> bool {
    forall|i: int| 0 <= i < ms.len() ==> fits(#[trigger] ms[i])
}

/// Every text of `ps` is short enough for its length to fit in eight bytes.
pub open spec fn pairs_fit(ps: Seq<(Seq<char>, Seq<char>)>) -> bool {
    forall|i: int|
        0 <= i < ps.len() ==> encode_utf8((#[trigger] ps[i]).0).len() <= u64::MAX && encode_utf8(
            ps[i].1,
        ).len() <= u64::MAX
}

/// Peers of `ps` are unique.
pub open spec fn unique_keys(ps: Seq<(Seq<char>, Seq<char>)>) -> bool {
    forall|i: int, j: int| 0 <= i < ps.len() && 0 <= j < ps.len() && i != j ==> #[trigger] ps[i].0 != #[trigger] ps[j].0
}

proof fn lemma_parse_messages_of_enc(ms: Seq<MessageModel>, b: Seq<u8>, pos: int)
    requires
        all_fit(ms),
        0 <= pos,
        pos + enc_messages(ms).len() <= b.len(),
        b.subrange(pos, pos + enc_messages(ms).len()) == enc_messages(ms),
    ensures
        parse_messages(b, pos, ms.len()) == Some((ms, pos + enc_messages(ms).len())),
    decreases ms.len(),
{
    if ms.len() > 0 {
        let init = ms.drop_last();
        let e = enc_messages(ms);
        let l1 = enc_messages(init).len() as int;
        assert(b.subrange(pos, pos + l1) =~= e.subrange(0, l1));
        assert(e.subrange(0, l1) =~= enc_messages(init));
        assert forall|i: int| 0 <= i < init.len() implies fits(#[trigger] init[i]) by {
            assert(init[i] == ms[i]);
        }
        lemma_parse_messages_of_enc(init, b, pos);
        assert(b.subrange(pos + l1, pos + e.len()) =~= e.subrange(l1, e.len() as int));
        assert(e.subrange(l1, e.len() as int) =~= enc_message(ms.last()));
        assert(fits(ms[ms.len() - 1]));
        lemma_parse_message_of_enc(ms.last(), b, pos + l1);
        assert(init.push(ms.last()) =~= ms);
    } else {
        assert(ms =~= Seq::<MessageModel>::empty());
    }
}

proof fn lemma_parse_pairs_of_enc(ps: Seq<(Seq<char>, Seq<char>)>, b: Seq<u8>, pos: int)
    requires
        pairs_fit(ps),
        unique_keys(ps),
        0 <= pos,
        pos + enc_pairs(ps).len() <= b.len(),
        b.subrange(pos, pos + enc_pairs(ps).len()) == enc_pairs(ps),
    ensures
        parse_pairs(b, pos, ps.len()) == Some((ps, pos + enc_pairs(ps).len())),
    decreases ps.len(),
{
    if ps.len() > 0 {
        let init = ps.drop_last();
        let last = ps.last();
        let e = enc_pairs(ps);
        let l1 = enc_pairs(init).len() as int;
        let l2 = l1 + enc_text(last.0).len();
        assert(b.subrange(pos, pos + l1) =~= e.subrange(0, l1));
        assert(e.subrange(0, l1) =~= enc_pairs(init));
        assert forall|i: int| 0 <= i < init.len() implies encode_utf8((#[trigger] init[i]).0).len()
            <= u64::MAX && encode_utf8(init[i].1).len() <= u64::MAX by {
            assert(init[i] == ps[i]);
        }
        assert forall|i: int, j: int| 0 <= i < init.len() && 0 <= j < init.len() && i != j implies
            #[trigger] init[i].0 != #[trigger] init[j].0 by {
            assert(init[i] == ps[i] && init[j] == ps[j]);
        }
        lemma_parse_pairs_of_enc(init, b, pos);
        assert(encode_utf8(ps[ps.len() - 1].0).len() <= u64::MAX);
        assert(b.subrange(pos + l1, pos + l2) =~= e.subrange(l1, l2));
        assert(e.subrange(l1, l2) =~= enc_text(last.0));
        lemma_parse_text_of_enc(last.0, b, pos + l1);
        assert(b.subrange(pos + l2, pos + e.len()) =~= e.subrange(l2, e.len() as int));
        assert(e.subrange(l2, e.len() as int) =~= enc_text(last.1));
        lemma_parse_text_of_enc(last.1, b, pos + l2);
        if has_key(init, last.0) {
            let j = choose|j: int| 0 <= j < init.len() && init[j].0 == last.0;
            assert(ps[j].0 == ps[ps.len() - 1].0);
        }
        assert(init.push(last) =~= ps);
    } else {
        assert(ps =~= Seq::<(Seq<char>, Seq<char>)>::empty());
    }
}

/// Decoding the encoding of a state gives back its history and its
/// directory entries, in order.
#[verifier::rlimit(60)]
pub proof fn lemma_state_round_trip(s: State)
    requires
        s.wf(),
        s.history@.len() <= u64::MAX,
        s.usernames.pairs().len() <= u64::MAX,
        all_fit(models(s.history@)),
        pairs_fit(s.usernames.pairs()),
    ensures
        parse_state(enc_state(s)) == Some((models(s.history@), s.usernames.pairs())),
{
    let b = enc_state(s);
    let ms = models(s.history@);
    let ps = s.usernames.pairs();
    s.usernames.lemma_pairs();
    let l1 = 8 + enc_messages(ms).len() as int;
    assert(b.subrange(0, 8) =~= enc_u64(s.history@.len() as u64));
    lemma_le_u64_of_enc(s.history@.len() as u64, b, 0);
    assert(b.subrange(8, l1) =~= enc_messages(ms));
    lemma_parse_messages_of_enc(ms, b, 8);
    assert(ms.len() == s.history@.len());
    assert(parse_messages(b, 8, le_u64(b, 0) as nat) == Some((ms, l1)));
    assert(b.subrange(l1, l1 + 8) =~= enc_u64(ps.len() as u64));
    lemma_le_u64_of_enc(ps.len() as u64, b, l1);
    assert(b.subrange(l1 + 8, b.len() as int) =~= enc_pairs(ps));
    lemma_parse_pairs_of_enc(ps, b, l1 + 8);
    assert(parse_pairs(b, l1 + 8, le_u64(b, l1) as nat) == Some((ps, b.len() as int)));
}

/// Reads `n` messages from `pos` on into a log.
fn read_messages(b: &[u8], pos: usize, n: u64) -> (r: Option<(History<Message>, usize)>)
    ensures
        match r {
            Some((h, end)) => parse_messages(b@, pos as int, n as nat) == Some((models(h@), end as int)),
            None => parse_messages(b@, pos as int, n as nat) is None,
        },
{
    let mut h: History<Message> = History::new();
    let mut at = pos;
    let mut i: u64 = 0;
    if pos > b.len() {
        proof {
            lemma_parse_messages_none(b@, pos as int, 0, n as nat);
        }
        return None;
    }
    assert(models(h@) =~= Seq::<MessageModel>::empty());
    while i < n
        invariant
            i <= n,
            parse_messages(b@, pos as int, i as nat) == Some((models(h@), at as int)),
        decreases n - i,
    {
        match read_message(b, at) {
            Some((m, end)) => {
                let ghost before = h@;
                h.insert(m);
                assert(models(h@) =~= models(before).push(m@));
                at = end;
            },
            None => {
                proof {
                    lemma_parse_messages_none(b@, pos as int, (i + 1) as nat, n as nat);
                }
                return None;
            },
        }
        i = i + 1;
    }
    Some((h, at))
}

/// Reads `n` directory entries from `pos` on; a repeated peer is refused.
fn read_pairs(b: &[u8], pos: usize, n: u64) -> (r: Option<(Directory, usize)>)
    ensures
        match r {
            Some((d, end)) => d.wf() && parse_pairs(b@, pos as int, n as nat) == Some((d.pairs(), end as int)),
            None => parse_pairs(b@, pos as int, n as nat) is None,
        },
{
    let mut d = Directory::new();
    let mut at = pos;
    let mut i: u64 = 0;
    if pos > b.len() {
        proof {
            lemma_parse_pairs_none(b@, pos as int, 0, n as nat);
        }
        return None;
    }
    while i < n
        invariant
            d.wf(),
            i <= n,
            parse_pairs(b@, pos as int, i as nat) == Some((d.pairs(), at as int)),
        decreases n - i,
    {
        let (peer, e1) = match read_text(b, at) {
            Some(x) => x,
            None => {
                proof {
                    lemma_parse_pairs_none(b@, pos as int, (i + 1) as nat, n as nat);
                }
                return None;
            },
        };
        let (name, e2) = match read_text(b, e1) {
            Some(x) => x,
            None => {
                proof {
                    lemma_parse_pairs_none(b@, pos as int, (i + 1) as nat, n as nat);
                }
                return None;
            },
        };
        proof {
            d.lemma_pairs();
            if has_key(d.pairs(), peer@) {
                let j = choose|j: int| 0 <= j < d.pairs().len() && d.pairs()[j].0 == peer@;
                assert(d@.contains_key(d.pairs()[j].0));
            }
            if d@.contains_key(peer@) {
                assert(has_key(d.pairs(), peer@));
            }
        }
        if !d.insert_if_absent(peer, name) {
            proof {
                lemma_parse_pairs_none(b@, pos as int, (i + 1) as nat, n as nat);
            }
            return None;
        }
        at = e2;
        i = i + 1;
    }
    Some((d, at))
}

fn push_messages(out: &mut Vec<u8>, ms: &[Message])
    ensures
        final(out)@ == old(out)@ + enc_messages(models(ms@)),
{
    let ghost start = out@;
    let mut i: usize = 0;
    assert(models(ms@.subrange(0, 0)) =~= Seq::<MessageModel>::empty());
    while i < ms.len()
        invariant
            i <= ms@.len(),
            out@ == start + enc_messages(models(ms@.subrange(0, i as int))),
        decreases ms@.len() - i,
    {
        push_message(out, &ms[i]);
        assert(models(ms@.subrange(0, i + 1)).drop_last() =~= models(ms@.subrange(0, i as int)));
        assert(models(ms@.subrange(0, i + 1)).last() == ms@[i as int]@);
        i = i + 1;
    }
    assert(ms@.subrange(0, i as int) =~= ms@);
    assert(out@ =~= start + enc_messages(models(ms@)));
}

fn push_pairs(out: &mut Vec<u8>, d: &Directory)
    ensures
        final(out)@ == old(out)@ + enc_pairs(d.pairs()),
{
    let ghost start = out@;
    let entries = d.entries();
    let ghost p = d.pairs();
    let mut i: usize = 0;
    assert(p.subrange(0, 0) =~= Seq::<(Seq<char>, Seq<char>)>::empty());
    while i < entries.len()
        invariant
            i <= p.len(),
            entries@.map_values(|e: (String, String)| crate::directory::entry_view(e)) == p,
            out@ == start + enc_pairs(p.subrange(0, i as int)),
        decreases p.len() - i,
    {
        assert(p[i as int] == crate::directory::entry_view(entries@[i as int]));
        push_text(out, &entries[i].0);
        push_text(out, &entries[i].1);
        assert(p.subrange(0, i + 1).drop_last() =~= p.subrange(0, i as int));
        assert(out@ =~= start + enc_pairs(p.subrange(0, i + 1)));
        i = i + 1;
    }
    assert(p.subrange(0, i as int) =~= p);
}

impl State {
    /// The wire encoding of this state, as carried by a snapshot.
    pub fn to_bytes(&self) -> (r: Vec<u8>)
        ensures
            r@ == enc_state(*self),
    {
        let mut out: Vec<u8> = Vec::new();
        let msgs = self.history.get_all();
        push_u64(&mut out, msgs.len() as u64);
        push_messages(&mut out, msgs);
        let entries = self.usernames.entries();
        assert(entries@.len() == self.usernames.pairs().len());
        push_u64(&mut out, entries.len() as u64);
        push_pairs(&mut out, &self.usernames);
        assert(out@ =~= enc_state(*self));
        out
    }

    /// The state that `b` encodes, or `None` where `b` is not exactly the
    /// encoding of a history and of directory entries with unique peers.
    pub fn from_bytes(b: &[u8]) -> (r: Option<State>)
        ensures
            match r {
                Some(s) => s.wf() && parse_state(b@) == Some((models(s.history@), s.usernames.pairs())),
                None => parse_state(b@) is None,
            },
    {
        if b.len() < 8 {
            return None;
        }
        let n = read_u64(b, 0);
        let (history, e1) = match read_messages(b, 8, n) {
            Some(x) => x,
            None => return None,
        };
        if b.len() - e1 < 8 {
            return None;
        }
        let k = read_u64(b, e1);
        let (usernames, e2) = match read_pairs(b, e1 + 8, k) {
            Some(x) => x,
            None => return None,
        };
        if e2 != b.len() {
            return None;
        }
        Some(State { history, usernames })
    }
}

} // verus!
