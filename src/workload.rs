use vstd::prelude::*;
use sha2::Digest;
use crate::bytes::{append_bytes, copy_range, parse_bounded, parse_u64};

verus! {

/// The SHA-256 digest of the bytes.
pub uninterp spec fn sha256_of(data: Seq<u8>) -> Seq<u8>;

/// Relies on sha2's `Sha256::digest`: the SHA-256 digest of the data, which
/// is 32 bytes long and depends on the data alone.
#[verifier::external_body]
fn sha256(data: &[u8]) -> (r: Vec<u8>)
    ensures
        r@ == sha256_of(data@),
        r@.len() == 32,
{
    sha2::Sha256::digest(data).to_vec()
}

pub open spec fn hex_digit(n: u8) -> u8 {
    if n < 10 {
        (48 + n) as u8
    } else {
        (87 + n) as u8
    }
}

/// Two lower-case hexadecimal digits per byte, high half first.
pub open spec fn hex_lower(b: Seq<u8>) -> Seq<u8>
    decreases b.len(),
{
    if b.len() == 0 {
        Seq::empty()
    } else {
        hex_lower(b.drop_last()) + seq![hex_digit(b.last() / 16), hex_digit(b.last() % 16)]
    }
}

pub proof fn lemma_hex_lower_len(b: Seq<u8>)
    ensures
        hex_lower(b).len() == 2 * b.len(),
    decreases b.len(),
{
    if b.len() > 0 {
        lemma_hex_lower_len(b.drop_last());
    }
}

/// Relies on hex::encode: two digits from `0123456789abcdef` per byte, the
/// high half of the byte first.
#[verifier::external_body]
fn hex_encode(b: &[u8]) -> (r: Vec<u8>)
    ensures
        r@ == hex_lower(b@),
{
    hex::encode(b).into_bytes()
}

/// The `k` low-order base-256 digits of `n`, least significant first.
pub open spec fn le_digits(n: nat, k: nat) -> Seq<u8>
    decreases k,
{
    if k == 0 {
        Seq::empty()
    } else {
        seq![(n % 256) as u8] + le_digits(n / 256, (k - 1) as nat)
    }
}

/// `u64::to_le_bytes`.
pub open spec fn le_bytes(n: nat) -> Seq<u8> {
    le_digits(n, 8)
}

/// The hash chain: 32 zero bytes, then each round hashes the previous value
/// followed by the round number in little-endian order.
pub open spec fn hash_chain(iters: nat) -> Seq<u8>
    decreases iters,
{
    if iters == 0 {
        Seq::new(32, |k: int| 0u8)
    } else {
        sha256_of(hash_chain((iters - 1) as nat) + le_bytes((iters - 1) as nat))
    }
}

/// The input of one round: the previous value and the round number.
pub fn chain_input(hash: &[u8], round: u64) -> (r: Vec<u8>)
    ensures
        r@ == hash@ + le_bytes(round as nat),
{
    let mut r = copy_range(hash, 0, hash.len());
    assert(r@ =~= hash@);
    let mut x: u64 = round;
    let mut k: usize = 0;
    while k < 8
        invariant
            k <= 8,
            r@ + le_digits(x as nat, (8 - k) as nat) == hash@ + le_bytes(round as nat),
        decreases 8 - k,
    {
        let ghost before = r@;
        r.push((x % 256) as u8);
        proof {
            assert(le_digits(x as nat, (8 - k) as nat) == seq![(x % 256) as u8] + le_digits(
                (x / 256) as nat,
                (8 - k - 1) as nat,
            ));
            assert(r@ + le_digits((x / 256) as nat, (8 - k - 1) as nat) =~= before + le_digits(
                x as nat,
                (8 - k) as nat,
            ));
        }
        x = x / 256;
        k = k + 1;
    }
    assert(r@ + le_digits(x as nat, 0) =~= r@);
    r
}

/// The CPU-bound workload: the hash chain of `iters` rounds, in hexadecimal.
pub fn cpu_heavy(iters: u64) -> (r: Vec<u8>)
    ensures
        r@ == hex_lower(hash_chain(iters as nat)),
        r@.len() == 64,
{
    let mut hash: Vec<u8> = vec![0u8; 32];
    assert(hash@ =~= hash_chain(0));
    let mut i: u64 = 0;
    while i < iters
        invariant
            i <= iters,
            hash@ == hash_chain(i as nat),
            hash@.len() == 32,
        decreases iters - i,
    {
        let input = chain_input(hash.as_slice(), i);
        hash = sha256(input.as_slice());
        i = i + 1;
    }
    proof {
        lemma_hex_lower_len(hash@);
    }
    hex_encode(hash.as_slice())
}

/// Number of rounds when a request names none that can be read.
pub const DEFAULT_ITERS: u64 = 50000;

/// The first index of `b` in `s`.
pub open spec fn index_of(s: Seq<u8>, b: u8) -> Option<int>
    decreases s.len(),
{
    if s.len() == 0 {
        None
    } else if s[0] == b {
        Some(0)
    } else {
        match index_of(s.drop_first(), b) {
            Some(i) => Some(i + 1),
            None => None,
        }
    }
}

pub proof fn lemma_index_of_first(s: Seq<u8>, b: u8, i: int)
    requires
        0 <= i < s.len(),
        s[i] == b,
        forall|j: int| 0 <= j < i ==> s[j] != b,
    ensures
        index_of(s, b) == Some(i),
    decreases i,
{
    if i > 0 {
        assert(s[0] != b);
        let t = s.drop_first();
        assert forall|j: int| 0 <= j < i - 1 implies t[j] != b by {
            assert(s[j + 1] != b);
        }
        lemma_index_of_first(t, b, i - 1);
    }
}

pub proof fn lemma_index_of_none(s: Seq<u8>, b: u8)
    requires
        forall|j: int| 0 <= j < s.len() ==> s[j] != b,
    ensures
        index_of(s, b) is None,
    decreases s.len(),
{
    if s.len() > 0 {
        let t = s.drop_first();
        assert forall|j: int| 0 <= j < t.len() implies t[j] != b by {
            assert(s[j + 1] != b);
        }
        lemma_index_of_none(t, b);
    }
}

/// Where `b` first occurs in `s` at `from` or later.
fn find_byte(s: &[u8], from: usize, b: u8) -> (r: Option<usize>)
    requires
        from <= s@.len(),
    ensures
        match r {
            Some(i) => from <= i < s@.len() && index_of(
                s@.subrange(from as int, s@.len() as int),
                b,
            ) == Some(i - from),
            None => index_of(s@.subrange(from as int, s@.len() as int), b) is None,
        },
{
    let n = s.len();
    let mut k: usize = from;
    while k < n
        invariant
            n == s@.len(),
            from <= k <= n,
            forall|j: int| from <= j < k ==> s@[j] != b,
        decreases n - k,
    {
        if s[k] == b {
            proof {
                let t = s@.subrange(from as int, n as int);
                assert forall|j: int| 0 <= j < k - from implies t[j] != b by {
                    assert(s@[j + from] != b);
                }
                lemma_index_of_first(t, b, k - from);
            }
            return Some(k);
        }
        k = k + 1;
    }
    proof {
        let t = s@.subrange(from as int, n as int);
        assert forall|j: int| 0 <= j < t.len() implies t[j] != b by {
            assert(s@[j + from] != b);
        }
        lemma_index_of_none(t, b);
    }
    None
}

/// The key and the value of one `key=value` pair (no `=`: the whole pair is
/// the key and the value is empty).
pub open spec fn pair_key(p: Seq<u8>) -> Seq<u8> {
    match index_of(p, 61u8) {
        Some(j) => p.subrange(0, j),
        None => p,
    }
}

pub open spec fn pair_value(p: Seq<u8>) -> Seq<u8> {
    match index_of(p, 61u8) {
        Some(j) => p.subrange(j + 1, p.len() as int),
        None => Seq::empty(),
    }
}

/// The value of the first `&`-separated pair of `q` whose key is `key`.
pub open spec fn lookup_pairs(q: Seq<u8>, key: Seq<u8>) -> Option<Seq<u8>>
    decreases q.len(),
{
    let pair = match index_of(q, 38u8) {
        Some(i) => q.subrange(0, i),
        None => q,
    };
    if pair_key(pair) == key {
        Some(pair_value(pair))
    } else {
        match index_of(q, 38u8) {
            Some(i) => if 0 <= i < q.len() {
                lookup_pairs(q.subrange(i + 1, q.len() as int), key)
            } else {
                None
            },
            None => None,
        }
    }
}

/// The value of query parameter `key` in a request target.
pub open spec fn query_value(target: Seq<u8>, key: Seq<u8>) -> Option<Seq<u8>> {
    match index_of(target, 63u8) {
        Some(i) => lookup_pairs(target.subrange(i + 1, target.len() as int), key),
        None => None,
    }
}

pub proof fn lemma_index_of_bound(s: Seq<u8>, b: u8)
    ensures
        index_of(s, b) matches Some(i) ==> 0 <= i < s.len() && s[i] == b,
    decreases s.len(),
{
    if s.len() > 0 && s[0] != b {
        lemma_index_of_bound(s.drop_first(), b);
    }
}

/// The value of query parameter `key` in a request target.
pub fn query_param(target: &[u8], key: &[u8]) -> (r: Option<Vec<u8>>)
    ensures
        match r {
            Some(v) => query_value(target@, key@) == Some(v@),
            None => query_value(target@, key@) is None,
        },
{
    let n = target.len();
    let q = match find_byte(target, 0, 63) {
        Some(i) => i + 1,
        None => {
            assert(target@.subrange(0, n as int) =~= target@);
            return None;
        },
    };
    assert(target@.subrange(0, n as int) =~= target@);
    let mut start: usize = q;
    while start <= n
        invariant
            q <= start <= n,
            n == target@.len(),
            query_value(target@, key@) == lookup_pairs(target@.subrange(start as int, n as int), key@),
        decreases n - start,
    {
        let ghost rest = target@.subrange(start as int, n as int);
        let amp = find_byte(target, start, 38);
        let end = match amp {
            Some(i) => i,
            None => n,
        };
        let ghost pair = target@.subrange(start as int, end as int);
        proof {
            match amp {
                Some(i) => {
                    assert(rest.subrange(0, i - start) =~= pair);
                },
                None => {
                    assert(rest =~= pair);
                },
            }
        }
        let eq = find_byte(target, start, 61);
        let (k_end, v_start) = match eq {
            Some(j) => if j < end {
                (j, j + 1)
            } else {
                (end, end)
            },
            None => (end, end),
        };
        proof {
            lemma_index_of_bound(rest, 61u8);
            lemma_index_of_bound(rest, 38u8);
            match eq {
                Some(j) => {
                    if j < end {
                        assert forall|x: int| 0 <= x < j - start implies pair[x] != 61u8 by {
                            lemma_first_is_first(rest, 61u8, x);
                        }
                        lemma_index_of_first(pair, 61u8, j - start);
                        assert(pair.subrange(0, j - start) =~= target@.subrange(
                            start as int,
                            j as int,
                        ));
                        assert(pair.subrange(j - start + 1, pair.len() as int) =~= target@.subrange(
                            j + 1,
                            end as int,
                        ));
                    } else {
                        assert forall|x: int| 0 <= x < pair.len() implies pair[x] != 61u8 by {
                            lemma_first_is_first(rest, 61u8, x);
                        }
                        lemma_index_of_none(pair, 61u8);
                        assert(target@.subrange(end as int, end as int) =~= Seq::<u8>::empty());
                    }
                },
                None => {
                    assert forall|x: int| 0 <= x < pair.len() implies pair[x] != 61u8 by {
                        lemma_no_index(rest, 61u8, x);
                    }
                    lemma_index_of_none(pair, 61u8);
                    assert(target@.subrange(end as int, end as int) =~= Seq::<u8>::empty());
                },
            }
        }
        let k = copy_range(target, start, k_end);
        if crate::bytes::bytes_eq(k.as_slice(), key) {
            return Some(copy_range(target, v_start, end));
        }
        match amp {
            Some(i) => {
                assert(rest.subrange(i - start + 1, rest.len() as int) =~= target@.subrange(
                    i + 1,
                    n as int,
                ));
                start = i + 1;
            },
            None => {
                return None;
            },
        }
    }
    None
}

pub proof fn lemma_first_is_first(s: Seq<u8>, b: u8, x: int)
    requires
        index_of(s, b) matches Some(i) && 0 <= x < i,
    ensures
        s[x] != b,
    decreases s.len(),
{
    lemma_index_of_bound(s, b);
    if s[0] != b && x > 0 {
        let t = s.drop_first();
        assert(index_of(t, b) is Some);
        assert(t[x - 1] == s[x]);
        lemma_first_is_first(t, b, x - 1);
    }
}

pub proof fn lemma_no_index(s: Seq<u8>, b: u8, x: int)
    requires
        index_of(s, b) is None,
        0 <= x < s.len(),
    ensures
        s[x] != b,
    decreases s.len(),
{
    if x > 0 {
        lemma_no_index(s.drop_first(), b, x - 1);
    }
}

/// Rounds asked for by a `/compute` target: the `iters` query parameter read
/// as an unsigned integer, or the default when it is absent or unreadable.
pub open spec fn iters_for(target: Seq<u8>) -> nat {
    match query_value(target, crate::names::iters_key()) {
        Some(v) => match parse_bounded(v, u64::MAX as nat) {
            Some(n) => n,
            None => DEFAULT_ITERS as nat,
        },
        None => DEFAULT_ITERS as nat,
    }
}

pub fn compute_iters(target: &[u8]) -> (r: u64)
    ensures
        r as nat == iters_for(target@),
{
    let key = crate::names::iters_key_bytes();
    match query_param(target, key.as_slice()) {
        Some(v) => match parse_u64(v.as_slice()) {
            Some(n) => n,
            None => DEFAULT_ITERS,
        },
        None => DEFAULT_ITERS,
    }
}

/// The payload unchanged: the transform of the native gateway.
pub fn identity_transform(payload: &[u8]) -> (r: Vec<u8>)
    ensures
        r@ == payload@,
{
    copy_range(payload, 0, payload.len())
}

/// The payload behind a fixed prefix.
pub fn prefix_transform(prefix: &[u8], payload: &[u8]) -> (r: Vec<u8>)
    ensures
        r@ == prefix@ + payload@,
{
    let mut r = copy_range(prefix, 0, prefix.len());
    append_bytes(&mut r, payload);
    r
}

} // verus!
