//! Identifiers of committed blocks: byte strings, ordered byte by byte.

use vstd::prelude::*;
use std::cmp::Ordering;

use crate::text::{append_decimal, decimal};

verus! {

/// The identifier of a committed block.
#[derive(Clone, Debug, PartialEq, Eq, Hash)]
pub struct ChatValueId(pub Vec<u8>);

/// Lexicographic comparison of byte strings: `-1`, `0` or `1` as `a` comes
/// before, equals or comes after `b`. A proper prefix comes first.
pub open spec fn lex_order(a: Seq<u8>, b: Seq<u8>) -> int
    decreases a.len(),
{
    if a.len() == 0 {
        if b.len() == 0 {
            0
        } else {
            -1
        }
    } else if b.len() == 0 {
        1
    } else if a[0] < b[0] {
        -1
    } else if a[0] > b[0] {
        1
    } else {
        lex_order(a.drop_first(), b.drop_first())
    }
}

/// The bytes of `s` in decimal, separated by `", "`, as `Debug` lists them.
pub open spec fn byte_list(s: Seq<u8>) -> Seq<char>
    decreases s.len(),
{
    if s.len() == 0 {
        Seq::empty()
    } else if s.len() == 1 {
        decimal(s[0] as nat)
    } else {
        byte_list(s.drop_last()) + ", "@ + decimal(s.last() as nat)
    }
}

/// How an identifier is displayed: `ChatValueId([b0, b1, ...])`.
pub open spec fn spec_display(bytes: Seq<u8>) -> Seq<char> {
    "ChatValueId(["@ + byte_list(bytes) + "])"@
}

/// The display lists every byte, in order: no bytes give nothing, one byte
/// gives its decimal, and one more byte after others adds `", "` and its
/// decimal. The display is the byte list inside `ChatValueId([` and `])`.
pub proof fn lemma_display_lists_every_byte(s: Seq<u8>, b: u8)
    ensures
        byte_list(Seq::empty()) == Seq::<char>::empty(),
        byte_list(seq![b]) == decimal(b as nat),
        s.len() > 0 ==> byte_list(s.push(b)) == byte_list(s) + seq![',', ' '] + decimal(b as nat),
        spec_display(s) == seq!['C', 'h', 'a', 't', 'V', 'a', 'l', 'u', 'e', 'I', 'd', '(', '[']
            + byte_list(s) + seq![']', ')'],
{
    reveal_strlit(", ");
    reveal_strlit("ChatValueId([");
    reveal_strlit("])");
    assert(", "@ =~= seq![',', ' ']);
    assert("ChatValueId(["@ =~= seq!['C', 'h', 'a', 't', 'V', 'a', 'l', 'u', 'e', 'I', 'd', '(', '[']);
    assert("])"@ =~= seq![']', ')']);
    assert(s.push(b).drop_last() =~= s);
}

/// Where two identifiers first differ in a byte, the smaller byte comes
/// first; an identifier that is a proper prefix of another comes first.
pub proof fn lemma_lex_order_first_difference(a: Seq<u8>, b: Seq<u8>, i: int)
    requires
        0 <= i <= a.len(),
        i <= b.len(),
        a.take(i) == b.take(i),
    ensures
        i < a.len() && i < b.len() && a[i] < b[i] ==> lex_order(a, b) == -1,
        i < a.len() && i < b.len() && a[i] > b[i] ==> lex_order(a, b) == 1,
        i == a.len() && i < b.len() ==> lex_order(a, b) == -1,
        i < a.len() && i == b.len() ==> lex_order(a, b) == 1,
    decreases i,
{
    if i > 0 {
        assert(a[0] == a.take(i)[0]);
        assert(b[0] == b.take(i)[0]);
        assert(a.drop_first().take(i - 1) =~= a.take(i).drop_first());
        assert(b.drop_first().take(i - 1) =~= b.take(i).drop_first());
        lemma_lex_order_first_difference(a.drop_first(), b.drop_first(), i - 1);
        if i < a.len() {
            assert(a.drop_first()[i - 1] == a[i]);
        }
        if i < b.len() {
            assert(b.drop_first()[i - 1] == b[i]);
        }
    }
}

/// The order of `a` and `b` once their first `i` bytes are set aside.
pub open spec fn lex_order_from(a: Seq<u8>, b: Seq<u8>, i: usize) -> int {
    lex_order(a.skip(i as int), b.skip(i as int))
}

proof fn lemma_lex_order_from_start(a: Seq<u8>, b: Seq<u8>)
    ensures
        lex_order_from(a, b, 0) == lex_order(a, b),
{
    assert(a.skip(0) =~= a);
    assert(b.skip(0) =~= b);
}

/// Comparison can step over a byte that both strings share.
proof fn lemma_lex_order_from_step(a: Seq<u8>, b: Seq<u8>, i: usize)
    requires
        i < a.len(),
        i < b.len(),
        i < usize::MAX,
        a[i as int] == b[i as int],
    ensures
        lex_order_from(a, b, i) == lex_order_from(a, b, (i + 1) as usize),
{
    assert(a.skip(i as int).drop_first() =~= a.skip(i + 1));
    assert(b.skip(i as int).drop_first() =~= b.skip(i + 1));
}

/// What is left of the comparison at `i`, when one string ends there.
proof fn lemma_lex_order_from_end(a: Seq<u8>, b: Seq<u8>, i: usize)
    requires
        i <= a.len(),
        i <= b.len(),
        i == a.len() || i == b.len(),
    ensures
        lex_order_from(a, b, i) == (if i < a.len() {
            1int
        } else if i < b.len() {
            -1int
        } else {
            0int
        }),
{
}

/// At `i` the strings differ in a byte.
proof fn lemma_lex_order_from_differ(a: Seq<u8>, b: Seq<u8>, i: usize)
    requires
        i < a.len(),
        i < b.len(),
    ensures
        a[i as int] < b[i as int] ==> lex_order_from(a, b, i) == -1,
        a[i as int] > b[i as int] ==> lex_order_from(a, b, i) == 1,
{
}

/// Identifiers compare equal exactly when their bytes are the same.
pub proof fn lemma_lex_order_equal(a: Seq<u8>, b: Seq<u8>)
    ensures
        lex_order(a, b) == 0 <==> a == b,
        -1 <= lex_order(a, b) <= 1,
    decreases a.len(),
{
    if a.len() > 0 && b.len() > 0 && a[0] == b[0] {
        lemma_lex_order_equal(a.drop_first(), b.drop_first());
        if a.drop_first() == b.drop_first() {
            assert(a =~= seq![a[0]] + a.drop_first());
            assert(b =~= seq![b[0]] + b.drop_first());
        }
    }
    if a.len() == 0 && b.len() == 0 {
        assert(a =~= b);
    }
}

/// Swapping the two identifiers reverses the order.
pub proof fn lemma_lex_order_antisymmetric(a: Seq<u8>, b: Seq<u8>)
    ensures
        lex_order(a, b) == -lex_order(b, a),
    decreases a.len(),
{
    if a.len() > 0 && b.len() > 0 && a[0] == b[0] {
        lemma_lex_order_antisymmetric(a.drop_first(), b.drop_first());
    }
}

/// The order is transitive: what comes before something that comes before
/// `c` comes before `c`, strictly or not.
pub proof fn lemma_lex_order_transitive(a: Seq<u8>, b: Seq<u8>, c: Seq<u8>)
    requires
        lex_order(a, b) <= 0,
        lex_order(b, c) <= 0,
    ensures
        lex_order(a, c) <= 0,
        lex_order(a, b) == -1 || lex_order(b, c) == -1 ==> lex_order(a, c) == -1,
    decreases a.len(),
{
    lemma_lex_order_equal(a, b);
    lemma_lex_order_equal(b, c);
    if a.len() > 0 && b.len() > 0 && c.len() > 0 && a[0] == b[0] && b[0] == c[0] {
        lemma_lex_order_transitive(a.drop_first(), b.drop_first(), c.drop_first());
    }
}

impl ChatValueId {
    /// Compares two identifiers byte by byte.
    pub fn cmp(&self, other: &ChatValueId) -> (r: Ordering)
        ensures
            lex_order(self.0@, other.0@) == match r {
                Ordering::Less => -1int,
                Ordering::Equal => 0int,
                Ordering::Greater => 1int,
            },
    {
        let a = &self.0;
        let b = &other.0;
        let mut i: usize = 0;
        proof {
            lemma_lex_order_from_start(a@, b@);
        }
        while i < a.len() && i < b.len()
            invariant
                a@ == self.0@,
                b@ == other.0@,
                i <= a@.len(),
                i <= b@.len(),
                lex_order(a@, b@) == lex_order_from(a@, b@, i),
            decreases a@.len() - i,
        {
            proof {
                lemma_lex_order_from_differ(a@, b@, i);
            }
            if a[i] < b[i] {
                return Ordering::Less;
            }
            if a[i] > b[i] {
                return Ordering::Greater;
            }
            proof {
                lemma_lex_order_from_step(a@, b@, i);
            }
            i = i + 1;
        }
        proof {
            lemma_lex_order_from_end(a@, b@, i);
        }
        if i < a.len() {
            Ordering::Greater
        } else if i < b.len() {
            Ordering::Less
        } else {
            Ordering::Equal
        }
    }

    /// Compares two identifiers byte by byte; never `None`.
    pub fn partial_cmp(&self, other: &ChatValueId) -> (r: Option<Ordering>)
        ensures
            r matches Some(o) && lex_order(self.0@, other.0@) == match o {
                Ordering::Less => -1int,
                Ordering::Equal => 0int,
                Ordering::Greater => 1int,
            },
    {
        Some(self.cmp(other))
    }
}

impl ChatValueId {
    /// The identifier as it is displayed: `ChatValueId([b0, b1, ...])`, each
    /// byte in decimal.
    pub fn to_string(&self) -> (s: String)
        ensures
            s@ == spec_display(self.0@),
    {
        let bytes = &self.0;
        let n: usize = bytes.len();
        let mut s = String::new();
        s.append("ChatValueId([");
        let mut i: usize = 0;
        assert(bytes@.take(0) =~= Seq::<u8>::empty());
        while i < n
            invariant
                n == bytes@.len(),
                i <= n,
                s@ == "ChatValueId(["@ + byte_list(bytes@.take(i as int)),
            decreases n - i,
        {
            if i > 0 {
                s.append(", ");
            }
            append_decimal(&mut s, bytes[i] as u64);
            proof {
                let t = bytes@.take(i + 1);
                assert(t.drop_last() =~= bytes@.take(i as int));
                assert(t.last() == bytes@[i as int]);
                if i == 0 {
                    assert(byte_list(t) == decimal(t[0] as nat));
                } else {
                    assert(byte_list(t) == byte_list(t.drop_last()) + ", "@ + decimal(
                        t.last() as nat,
                    ));
                }
                assert(s@ =~= "ChatValueId(["@ + byte_list(t));
            }
            i = i + 1;
        }
        s.append("])");
        assert(bytes@.take(n as int) =~= bytes@);
        s
    }
}

} // verus!
