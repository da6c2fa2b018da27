use vstd::prelude::*;

verus! {

pub open spec fn pow256(k: nat) -> nat
    decreases k,
{
    if k == 0 {
        1
    } else {
        256 * pow256((k - 1) as nat)
    }
}

/// The bytes read as a little-endian unsigned number.
pub open spec fn le_value(s: Seq<u8>) -> nat
    decreases s.len(),
{
    if s.len() == 0 {
        0
    } else {
        s[0] as nat + 256 * le_value(s.drop_first())
    }
}

/// Number of leading name bytes that take part in the key.
pub open spec fn prefix_len(s: Seq<u8>) -> int {
    if s.len() <= 8 {
        s.len() as int
    } else {
        8
    }
}

/// The key of a station name: its first (at most eight) bytes packed little-endian
/// into a word, xor the name's length.
pub open spec fn key_of(s: Seq<u8>) -> u64 {
    (le_value(s.take(prefix_len(s))) as u64) ^ (s.len() as u64)
}

proof fn lemma_le_value_bound(s: Seq<u8>)
    ensures
        le_value(s) < pow256(s.len()),
    decreases s.len(),
{
    if s.len() > 0 {
        lemma_le_value_bound(s.drop_first());
    }
}

/// Two names of equal length that agree on their first eight bytes get the same key,
/// whatever follows.
pub proof fn lemma_prefix_collision(a: Seq<u8>, b: Seq<u8>)
    requires
        a.len() == b.len(),
        a.len() >= 9,
        a.take(8) == b.take(8),
    ensures
        key_of(a) == key_of(b),
{
}

/// Derives the key of a station name without reading past its eighth byte.
pub fn to_key(data: &[u8]) -> (r: u64)
    ensures
        r == key_of(data@),
{
    let len = data.len();
    let n: usize = if len > 8 { 8 } else { len };
    let mut hash: u64 = 0;
    let mut i: usize = n;
    proof {
        reveal_with_fuel(pow256, 9);
    }
    while i > 0
        invariant
            n == prefix_len(data@),
            n <= len == data@.len(),
            i <= n,
            hash as nat == le_value(data@.subrange(i as int, n as int)),
            hash < pow256((n - i) as nat),
            pow256(8) == 0x1_0000_0000_0000_0000nat,
            pow256(7) == 0x100_0000_0000_0000nat,
        decreases i,
    {
        let ghost rest = data@.subrange(i as int, n as int);
        let ghost next = data@.subrange(i - 1, n as int);
        assert(next.drop_first() =~= rest);
        assert(hash < pow256(7)) by {
            if n - i < 7 {
                lemma_pow_mono((n - i) as nat, 7);
            }
        }
        hash = hash * 256 + data[i - 1] as u64;
        i = i - 1;
        proof {
            lemma_le_value_bound(next);
        }
    }
    assert(data@.subrange(0, n as int) =~= data@.take(prefix_len(data@)));
    hash ^ (len as u64)
}

proof fn lemma_pow_mono(a: nat, b: nat)
    requires
        a <= b,
    ensures
        pow256(a) <= pow256(b),
    decreases b,
{
    if a < b {
        lemma_pow_mono(a, (b - 1) as nat);
    }
}

} // verus!
