//! Chat messages, the blocks that commit them, and the keys under which a
//! node tells messages apart.

use vstd::prelude::*;

use crate::text::{
    append_decimal, append_signed_decimal, decimal, lemma_decimal_digits, lemma_decimal_injective,
    lemma_signed_decimal_injective, lemma_split_at, signed_decimal,
};

verus! {

/// One chat message from `sender` to `recipient`, stamped by its sender.
#[derive(Clone, Debug, PartialEq, Eq, PartialOrd, Ord, Hash)]
pub struct ChatMessage {
    pub sender: String,
    pub recipient: String,
    pub timestamp: i64,
    pub text: String,
}

/// A committed block: the messages that one commit took out of the mempool,
/// in the order in which they were pushed.
#[derive(Clone, Debug, PartialEq, Eq, PartialOrd, Ord, Hash)]
pub struct ChatValue {
    pub messages: Vec<ChatMessage>,
}

/// The identity under which the mempool tells messages apart: sender,
/// recipient and timestamp. The text takes no part in it.
pub open spec fn spec_message_id(m: ChatMessage) -> (Seq<char>, Seq<char>, i64) {
    (m.sender@, m.recipient@, m.timestamp)
}

/// The identity written as one string: each name prefixed by its length in
/// characters and a `:`, then the timestamp, as in `5:Alice3:Bob1619827200`.
/// No two identities are written alike (`lemma_identity_encoding_injective`).
pub open spec fn identity_encoding(id: (Seq<char>, Seq<char>, i64)) -> Seq<char> {
    decimal(id.0.len()) + seq![':'] + id.0 + decimal(id.1.len()) + seq![':'] + id.1
        + signed_decimal(id.2 as int)
}

/// A name prefixed by its length and a `:`, followed by more text, gives
/// back the name and the text in one way only.
proof fn lemma_length_prefixed(s1: Seq<char>, t1: Seq<char>, s2: Seq<char>, t2: Seq<char>)
    requires
        decimal(s1.len()) + seq![':'] + (s1 + t1) == decimal(s2.len()) + seq![':'] + (s2 + t2),
    ensures
        s1 == s2,
        t1 == t2,
{
    lemma_decimal_digits(s1.len());
    lemma_decimal_digits(s2.len());
    lemma_split_at(decimal(s1.len()), s1 + t1, decimal(s2.len()), s2 + t2, ':');
    lemma_decimal_injective(s1.len(), s2.len());
    assert(s1 =~= (s1 + t1).take(s1.len() as int));
    assert(s2 =~= (s2 + t2).take(s2.len() as int));
    assert(t1 =~= (s1 + t1).skip(s1.len() as int));
    assert(t2 =~= (s2 + t2).skip(s2.len() as int));
}

/// Two identities that are written alike are the same identity.
pub proof fn lemma_identity_encoding_injective(
    a: (Seq<char>, Seq<char>, i64),
    b: (Seq<char>, Seq<char>, i64),
)
    requires
        identity_encoding(a) == identity_encoding(b),
    ensures
        a == b,
{
    let ta = signed_decimal(a.2 as int);
    let tb = signed_decimal(b.2 as int);
    let ra = decimal(a.1.len()) + seq![':'] + (a.1 + ta);
    let rb = decimal(b.1.len()) + seq![':'] + (b.1 + tb);
    assert(identity_encoding(a) =~= decimal(a.0.len()) + seq![':'] + (a.0 + ra));
    assert(identity_encoding(b) =~= decimal(b.0.len()) + seq![':'] + (b.0 + rb));
    lemma_length_prefixed(a.0, ra, b.0, rb);
    lemma_length_prefixed(a.1, ta, b.1, tb);
    lemma_signed_decimal_injective(a.2 as int, b.2 as int);
}

/// The key under which a committed message is stored: `timestamp-sender`.
pub open spec fn spec_storage_key(m: ChatMessage) -> Seq<char> {
    signed_decimal(m.timestamp as int) + seq!['-'] + m.sender@
}

/// A storage key names exactly one timestamp and one sender: two messages
/// share a storage key if and only if they have the same timestamp and the
/// same sender. The recipient and the text take no part in it.
pub proof fn lemma_storage_key_identifies(a: ChatMessage, b: ChatMessage)
    ensures
        spec_storage_key(a) == spec_storage_key(b) <==> (a.timestamp == b.timestamp && a.sender@
            == b.sender@),
{
    if spec_storage_key(a) == spec_storage_key(b) {
        let ta = a.timestamp as int;
        let tb = b.timestamp as int;
        let ka = spec_storage_key(a);
        let kb = spec_storage_key(b);
        lemma_decimal_digits((-ta) as nat);
        lemma_decimal_digits((-tb) as nat);
        lemma_decimal_digits(ta as nat);
        lemma_decimal_digits(tb as nat);
        if ta < 0 && tb < 0 {
            assert(ka.drop_first() =~= decimal((-ta) as nat) + seq!['-'] + a.sender@);
            assert(kb.drop_first() =~= decimal((-tb) as nat) + seq!['-'] + b.sender@);
            lemma_split_at(decimal((-ta) as nat), a.sender@, decimal((-tb) as nat), b.sender@, '-');
            lemma_decimal_injective((-ta) as nat, (-tb) as nat);
        } else if ta >= 0 && tb >= 0 {
            assert(ka =~= decimal(ta as nat) + seq!['-'] + a.sender@);
            assert(kb =~= decimal(tb as nat) + seq!['-'] + b.sender@);
            lemma_split_at(decimal(ta as nat), a.sender@, decimal(tb as nat), b.sender@, '-');
            lemma_decimal_injective(ta as nat, tb as nat);
        } else if ta < 0 {
            assert(ka[0] == '-');
            assert(kb[0] == decimal(tb as nat)[0]);
        } else {
            assert(kb[0] == '-');
            assert(ka[0] == decimal(ta as nat)[0]);
        }
    }
}

impl ChatMessage {
    /// The identity of this message written as one string (see
    /// `identity_encoding`).
    pub fn identity_key(&self) -> (key: String)
        ensures
            key@ == identity_encoding(spec_message_id(*self)),
    {
        let mut key = String::new();
        proof { reveal_strlit(":"); }
        let sender_len: usize = self.sender.as_str().unicode_len();
        append_decimal(&mut key, sender_len as u64);
        key.append(":");
        key.append(self.sender.as_str());
        let recipient_len: usize = self.recipient.as_str().unicode_len();
        append_decimal(&mut key, recipient_len as u64);
        key.append(":");
        key.append(self.recipient.as_str());
        append_signed_decimal(&mut key, self.timestamp);
        assert(key@ =~= identity_encoding(spec_message_id(*self)));
        key
    }

    /// The storage key of this message, `timestamp-sender`.
    pub fn storage_key(&self) -> (key: String)
        ensures
            key@ == spec_storage_key(*self),
    {
        let mut key = String::new();
        append_signed_decimal(&mut key, self.timestamp);
        proof { reveal_strlit("-"); }
        key.append("-");
        key.append(self.sender.as_str());
        key
    }
}

} // verus!
