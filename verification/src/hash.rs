use vstd::prelude::*;

verus! {

/// A Holochain hash (an agent key, an entry hash or an action hash), held as
/// its raw bytes.
#[derive(Debug)]
pub struct RawHash {
    pub bytes: Vec<u8>,
}

impl View for RawHash {
    type V = Seq<u8>;

    open spec fn view(&self) -> Seq<u8> {
        self.bytes@
    }
}

/// The public key of an agent.
pub type AgentPubKey = RawHash;

/// The hash of an entry.
pub type EntryHash = RawHash;

/// The hash of an action.
pub type ActionHash = RawHash;

/// Strict lexicographic order on byte strings: the order in which Holochain
/// hashes (and so the keys of the maps below) are sorted.
pub open spec fn bytes_lt(a: Seq<u8>, b: Seq<u8>) -> bool
    decreases a.len(),
{
    if a.len() == 0 {
        b.len() > 0
    } else if b.len() == 0 {
        false
    } else if a[0] != b[0] {
        a[0] < b[0]
    } else {
        bytes_lt(a.drop_first(), b.drop_first())
    }
}

/// How two hashes compare in the order of [`bytes_lt`].
#[derive(Debug, Clone, Copy, PartialEq, Eq, Structural)]
pub enum KeyOrder {
    Less,
    Equal,
    Greater,
}

/// No byte string is below itself.
pub proof fn lemma_bytes_lt_irreflexive(a: Seq<u8>)
    ensures
        !bytes_lt(a, a),
    decreases a.len(),
{
    if a.len() > 0 {
        lemma_bytes_lt_irreflexive(a.drop_first());
    }
}

/// The order is asymmetric.
pub proof fn lemma_bytes_lt_asymmetric(a: Seq<u8>, b: Seq<u8>)
    requires
        bytes_lt(a, b),
    ensures
        !bytes_lt(b, a),
    decreases a.len(),
{
    if a.len() > 0 && b.len() > 0 && a[0] == b[0] {
        lemma_bytes_lt_asymmetric(a.drop_first(), b.drop_first());
    }
}

/// The order is transitive.
pub proof fn lemma_bytes_lt_transitive(a: Seq<u8>, b: Seq<u8>, c: Seq<u8>)
    requires
        bytes_lt(a, b),
        bytes_lt(b, c),
    ensures
        bytes_lt(a, c),
    decreases a.len(),
{
    if a.len() > 0 && b.len() > 0 && c.len() > 0 && a[0] == b[0] && b[0] == c[0] {
        lemma_bytes_lt_transitive(a.drop_first(), b.drop_first(), c.drop_first());
    }
}

/// Any two different byte strings are ordered one way or the other.
pub proof fn lemma_bytes_lt_total(a: Seq<u8>, b: Seq<u8>)
    requires
        a != b,
    ensures
        bytes_lt(a, b) || bytes_lt(b, a),
    decreases a.len(),
{
    if a.len() > 0 && b.len() > 0 && a[0] == b[0] {
        if a.drop_first() == b.drop_first() {
            assert(a =~= seq![a[0]] + a.drop_first());
            assert(b =~= seq![b[0]] + b.drop_first());
        }
        lemma_bytes_lt_total(a.drop_first(), b.drop_first());
    } else if a.len() == 0 && b.len() == 0 {
        assert(a =~= b);
    }
}

/// Two byte strings that agree on their first `i` bytes compare as what
/// follows those bytes does.
proof fn lemma_bytes_lt_skip(a: Seq<u8>, b: Seq<u8>, i: int)
    requires
        0 <= i <= a.len(),
        i <= b.len(),
        a.subrange(0, i) == b.subrange(0, i),
    ensures
        bytes_lt(a, b) == bytes_lt(a.skip(i), b.skip(i)),
    decreases i,
{
    if i > 0 {
        assert(a[0] == a.subrange(0, i)[0]);
        assert(b[0] == b.subrange(0, i)[0]);
        assert(a.drop_first().subrange(0, i - 1) =~= a.subrange(0, i).drop_first());
        assert(b.drop_first().subrange(0, i - 1) =~= b.subrange(0, i).drop_first());
        lemma_bytes_lt_skip(a.drop_first(), b.drop_first(), i - 1);
        assert(a.drop_first().skip(i - 1) =~= a.skip(i));
        assert(b.drop_first().skip(i - 1) =~= b.skip(i));
    } else {
        assert(a.skip(0) =~= a);
        assert(b.skip(0) =~= b);
    }
}

/// The order is lexicographic: after a common prefix of length `k`, the byte
/// string with the smaller next byte, or the one that ends there while the
/// other goes on, comes first.
pub proof fn law_bytes_lt_lexicographic(a: Seq<u8>, b: Seq<u8>, k: int)
    requires
        0 <= k <= a.len(),
        k <= b.len(),
        a.subrange(0, k) == b.subrange(0, k),
    ensures
        k < a.len() && k < b.len() && a[k] < b[k] ==> bytes_lt(a, b),
        k == a.len() && k < b.len() ==> bytes_lt(a, b),
        k == a.len() && k == b.len() ==> a == b,
{
    lemma_bytes_lt_skip(a, b, k);
    if k < a.len() && k < b.len() {
        assert(a.skip(k)[0] == a[k]);
        assert(b.skip(k)[0] == b[k]);
    }
    if k == a.len() && k == b.len() {
        assert(a =~= a.subrange(0, k));
        assert(b =~= b.subrange(0, k));
    }
}

impl RawHash {
    /// A hash with the given bytes.
    pub fn new(bytes: Vec<u8>) -> (h: RawHash)
        ensures
            h@ == bytes@,
    {
        RawHash { bytes }
    }

    /// A copy of this hash.
    pub fn duplicate(&self) -> (h: RawHash)
        ensures
            h@ == self@,
    {
        let mut bytes: Vec<u8> = Vec::new();
        let n = self.bytes.len();
        for i in 0..n
            invariant
                n == self.bytes@.len(),
                bytes@ == self.bytes@.subrange(0, i as int),
        {
            bytes.push(self.bytes[i]);
        }
        RawHash { bytes }
    }

    /// Compares two hashes in the order of [`bytes_lt`].
    pub fn compare(&self, other: &RawHash) -> (r: KeyOrder)
        ensures
            r == KeyOrder::Less <==> bytes_lt(self@, other@),
            r == KeyOrder::Equal <==> self@ == other@,
            r == KeyOrder::Greater <==> bytes_lt(other@, self@),
    {
        let n = self.bytes.len();
        let m = other.bytes.len();
        let mut i: usize = 0;
        while i < n && i < m
            invariant
                n == self@.len(),
                m == other@.len(),
                i <= n,
                i <= m,
                self@.subrange(0, i as int) == other@.subrange(0, i as int),
            decreases n - i,
        {
            let x = self.bytes[i];
            let y = other.bytes[i];
            if x != y {
                proof {
                    lemma_bytes_lt_skip(self@, other@, i as int);
                    lemma_bytes_lt_skip(other@, self@, i as int);
                    assert(self@.skip(i as int)[0] == x);
                    assert(other@.skip(i as int)[0] == y);
                    assert(self@[i as int] != other@[i as int]);
                }
                if x < y {
                    return KeyOrder::Less;
                } else {
                    return KeyOrder::Greater;
                }
            }
            assert(self@.subrange(0, i + 1) =~= self@.subrange(0, i as int).push(x));
            assert(other@.subrange(0, i + 1) =~= other@.subrange(0, i as int).push(y));
            i = i + 1;
        }
        proof {
            lemma_bytes_lt_skip(self@, other@, i as int);
            lemma_bytes_lt_skip(other@, self@, i as int);
            if n == m {
                assert(self@ =~= self@.subrange(0, i as int));
                assert(other@ =~= other@.subrange(0, i as int));
            } else if n < m {
                assert(self@.len() != other@.len());
            } else {
                assert(self@.len() != other@.len());
            }
        }
        if n == m {
            KeyOrder::Equal
        } else if n < m {
            KeyOrder::Less
        } else {
            KeyOrder::Greater
        }
    }

    /// Whether two hashes are equal.
    pub fn same_as(&self, other: &RawHash) -> (r: bool)
        ensures
            r == (self@ == other@),
    {
        let n = self.bytes.len();
        if n != other.bytes.len() {
            return false;
        }
        for i in 0..n
            invariant
                n == self.bytes@.len(),
                n == other.bytes@.len(),
                forall|j: int| 0 <= j < i ==> self.bytes@[j] == other.bytes@[j],
        {
            if self.bytes[i] != other.bytes[i] {
                return false;
            }
        }
        assert(self@ =~= other@);
        true
    }
}

} // verus!
