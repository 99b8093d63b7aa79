use vstd::prelude::*;

verus! {

/// A carriage return followed by a line feed starts at index `i` of `s`.
pub open spec fn crlf_at(s: Seq<u8>, i: int) -> bool {
    0 <= i && i + 1 < s.len() && s[i] == 13u8 && s[i + 1] == 10u8
}

/// The head terminator (two CRLF in a row) starts at index `i` of `s`.
pub open spec fn terminator_at(s: Seq<u8>, i: int) -> bool {
    crlf_at(s, i) && crlf_at(s, i + 2)
}

/// `i` is the leftmost place where a head terminator starts in `s`.
pub open spec fn is_first_terminator(s: Seq<u8>, i: int) -> bool {
    terminator_at(s, i) && forall|j: int| 0 <= j < i ==> !terminator_at(s, j)
}

pub open spec fn no_terminator(s: Seq<u8>) -> bool {
    forall|j: int| !terminator_at(s, j)
}

/// The pieces of `s` between CRLF separators, as `str::split("\r\n")` yields them.
pub open spec fn split_crlf(s: Seq<u8>) -> Seq<Seq<u8>>
    decreases s.len(),
{
    if s.len() < 2 {
        seq![s]
    } else if crlf_at(s, 0) {
        seq![Seq::<u8>::empty()] + split_crlf(s.subrange(2, s.len() as int))
    } else {
        let t = split_crlf(s.subrange(1, s.len() as int));
        t.update(0, seq![s[0]] + t[0])
    }
}

pub open spec fn lines_view(v: Seq<Vec<u8>>) -> Seq<Seq<u8>> {
    v.map_values(|l: Vec<u8>| l@)
}

/// The bytes that the lines make when each is followed by CRLF.
pub open spec fn join_lines(lines: Seq<Seq<u8>>) -> Seq<u8>
    decreases lines.len(),
{
    if lines.len() == 0 {
        Seq::empty()
    } else {
        join_lines(lines.drop_last()) + lines.last() + crlf()
    }
}

pub open spec fn crlf() -> Seq<u8> {
    seq![13u8, 10u8]
}

pub open spec fn ascii_lower(b: u8) -> u8 {
    if 65 <= b && b <= 90 {
        (b + 32) as u8
    } else {
        b
    }
}

/// `s` begins with `pattern` when ASCII letters are compared without case;
/// `pattern` is written in lower case.
pub open spec fn starts_with_ci(s: Seq<u8>, pattern: Seq<u8>) -> bool {
    s.len() >= pattern.len() && forall|k: int|
        0 <= k < pattern.len() ==> #[trigger] ascii_lower(s[k]) == pattern[k]
}

/// `c` is the UTF-8 encoding of a character that `char::is_whitespace`
/// accepts: U+0009 to U+000D, U+0020, U+0085, U+00A0, U+1680, U+2000 to
/// U+200A, U+2028, U+2029, U+202F, U+205F or U+3000.
pub open spec fn ws_code(c: Seq<u8>) -> bool {
    ||| c.len() == 1 && (c[0] == 32u8 || (9u8 <= c[0] && c[0] <= 13u8))
    ||| c.len() == 2 && c[0] == 0xC2u8 && (c[1] == 0x85u8 || c[1] == 0xA0u8)
    ||| c.len() == 3 && c[0] == 0xE1u8 && c[1] == 0x9Au8 && c[2] == 0x80u8
    ||| c.len() == 3 && c[0] == 0xE2u8 && c[1] == 0x80u8 && ((0x80u8 <= c[2] && c[2] <= 0x8Au8)
        || c[2] == 0xA8u8 || c[2] == 0xA9u8 || c[2] == 0xAFu8)
    ||| c.len() == 3 && c[0] == 0xE2u8 && c[1] == 0x81u8 && c[2] == 0x9Fu8
    ||| c.len() == 3 && c[0] == 0xE3u8 && c[1] == 0x80u8 && c[2] == 0x80u8
}

/// The length of the whitespace character that `s` starts with; 0 if none.
pub open spec fn ws_prefix_len(s: Seq<u8>) -> nat {
    if s.len() >= 1 && ws_code(s.subrange(0, 1)) {
        1
    } else if s.len() >= 2 && ws_code(s.subrange(0, 2)) {
        2
    } else if s.len() >= 3 && ws_code(s.subrange(0, 3)) {
        3
    } else {
        0
    }
}

/// The length of the whitespace character that `s` ends with; 0 if none.
pub open spec fn ws_suffix_len(s: Seq<u8>) -> nat {
    if s.len() >= 1 && ws_code(s.subrange(s.len() - 1, s.len() as int)) {
        1
    } else if s.len() >= 2 && ws_code(s.subrange(s.len() - 2, s.len() as int)) {
        2
    } else if s.len() >= 3 && ws_code(s.subrange(s.len() - 3, s.len() as int)) {
        3
    } else {
        0
    }
}

pub open spec fn trim_start(s: Seq<u8>) -> Seq<u8>
    decreases s.len(),
{
    if ws_prefix_len(s) > 0 {
        trim_start(s.subrange(ws_prefix_len(s) as int, s.len() as int))
    } else {
        s
    }
}

pub open spec fn trim_end(s: Seq<u8>) -> Seq<u8>
    decreases s.len(),
{
    if ws_suffix_len(s) > 0 {
        trim_end(s.subrange(0, s.len() - ws_suffix_len(s)))
    } else {
        s
    }
}

pub open spec fn trim(s: Seq<u8>) -> Seq<u8> {
    trim_end(trim_start(s))
}

/// The longest prefix of `s` without whitespace.
pub open spec fn word(s: Seq<u8>) -> Seq<u8>
    decreases s.len(),
{
    if s.len() == 0 || ws_prefix_len(s) > 0 {
        Seq::empty()
    } else {
        seq![s[0]] + word(s.drop_first())
    }
}

/// The first whitespace-separated token of `s` (empty when there is none).
pub open spec fn first_token(s: Seq<u8>) -> Seq<u8> {
    word(trim_start(s))
}

/// What follows the first token of `s`.
pub open spec fn after_first_token(s: Seq<u8>) -> Seq<u8> {
    trim_start(s).subrange(first_token(s).len() as int, trim_start(s).len() as int)
}

pub open spec fn is_digit(b: u8) -> bool {
    48u8 <= b && b <= 57u8
}

pub open spec fn all_digits(s: Seq<u8>) -> bool {
    forall|i: int| 0 <= i < s.len() ==> #[trigger] is_digit(s[i])
}

pub open spec fn digits_value(s: Seq<u8>) -> nat
    decreases s.len(),
{
    if s.len() == 0 {
        0
    } else {
        digits_value(s.drop_last()) * 10 + (s.last() - 48) as nat
    }
}

/// The decimal text of an unsigned integer, in the grammar of Rust's `from_str`
/// for unsigned types: an optional `+`, then one digit or more.
pub open spec fn parse_unsigned(s: Seq<u8>) -> Option<nat> {
    let d = if s.len() > 0 && s[0] == 43u8 {
        s.drop_first()
    } else {
        s
    };
    if d.len() > 0 && all_digits(d) {
        Some(digits_value(d))
    } else {
        None
    }
}

/// `parse_unsigned`, restricted to values up to `max`.
pub open spec fn parse_bounded(s: Seq<u8>, max: nat) -> Option<nat> {
    match parse_unsigned(s) {
        Some(v) => if v <= max {
            Some(v)
        } else {
            None
        },
        None => None,
    }
}

/// Decimal digits of `n`, without leading zeros.
pub open spec fn decimal(n: nat) -> Seq<u8>
    decreases n,
{
    if n < 10 {
        seq![(48 + n) as u8]
    } else {
        decimal(n / 10).push((48 + n % 10) as u8)
    }
}

pub proof fn lemma_split_crlf_nonempty(s: Seq<u8>)
    ensures
        split_crlf(s).len() >= 1,
    decreases s.len(),
{
    if s.len() >= 2 {
        if !crlf_at(s, 0) {
            lemma_split_crlf_nonempty(s.subrange(1, s.len() as int));
        }
    }
}

pub proof fn lemma_split_crlf_none(s: Seq<u8>)
    requires
        forall|j: int| !crlf_at(s, j),
    ensures
        split_crlf(s) == seq![s],
    decreases s.len(),
{
    if s.len() >= 2 {
        let r = s.subrange(1, s.len() as int);
        assert forall|j: int| !crlf_at(r, j) by {
            assert(!crlf_at(s, j + 1));
        }
        lemma_split_crlf_none(r);
        assert(seq![s[0]] + r =~= s);
        assert(seq![s].update(0, seq![s[0]] + r) =~= seq![s]);
        assert(seq![r].update(0, seq![s[0]] + r) =~= seq![s]);
    }
}

pub proof fn lemma_split_crlf_at(s: Seq<u8>, i: int)
    requires
        crlf_at(s, i),
        forall|j: int| 0 <= j < i ==> !crlf_at(s, j),
    ensures
        split_crlf(s) == seq![s.subrange(0, i)] + split_crlf(s.subrange(i + 2, s.len() as int)),
    decreases i,
{
    if i == 0 {
        assert(s.subrange(0, 0) =~= Seq::<u8>::empty());
    } else {
        assert(!crlf_at(s, 0));
        let r = s.subrange(1, s.len() as int);
        assert(crlf_at(r, i - 1));
        assert forall|j: int| 0 <= j < i - 1 implies !crlf_at(r, j) by {
            assert(!crlf_at(s, j + 1));
        }
        lemma_split_crlf_at(r, i - 1);
        assert(r.subrange(i - 1 + 2, r.len() as int) =~= s.subrange(i + 2, s.len() as int));
        let t = split_crlf(r);
        assert(seq![s[0]] + r.subrange(0, i - 1) =~= s.subrange(0, i));
        assert(t.update(0, seq![s[0]] + t[0]) =~= seq![s.subrange(0, i)] + split_crlf(
            s.subrange(i + 2, s.len() as int),
        ));
    }
}

pub proof fn lemma_trim_start_step(s: Seq<u8>, lo: int)
    requires
        0 <= lo <= s.len(),
        ws_prefix_len(s.subrange(lo, s.len() as int)) > 0,
    ensures
        trim_start(s.subrange(lo, s.len() as int)) == trim_start(
            s.subrange(lo + ws_prefix_len(s.subrange(lo, s.len() as int)), s.len() as int),
        ),
{
    let t = s.subrange(lo, s.len() as int);
    let w = ws_prefix_len(t);
    assert(t.subrange(w as int, t.len() as int) =~= s.subrange(lo + w, s.len() as int));
}

pub proof fn lemma_trim_end_step(s: Seq<u8>, hi: int)
    requires
        0 <= hi <= s.len(),
        ws_suffix_len(s.subrange(0, hi)) > 0,
    ensures
        trim_end(s.subrange(0, hi)) == trim_end(s.subrange(0, hi - ws_suffix_len(s.subrange(0, hi)))),
{
    let t = s.subrange(0, hi);
    let w = ws_suffix_len(t);
    assert(t.subrange(0, t.len() - w) =~= s.subrange(0, hi - w));
}

pub proof fn lemma_word_step(s: Seq<u8>, k: int)
    requires
        0 <= k < s.len(),
        ws_prefix_len(s.subrange(k, s.len() as int)) == 0,
    ensures
        word(s.subrange(k, s.len() as int)) == seq![s[k]] + word(
            s.subrange(k + 1, s.len() as int),
        ),
{
    assert(s.subrange(k, s.len() as int).drop_first() =~= s.subrange(k + 1, s.len() as int));
}

pub proof fn lemma_digits_prefix_le(d: Seq<u8>, k: int)
    requires
        0 <= k <= d.len(),
        all_digits(d),
    ensures
        digits_value(d.subrange(0, k)) <= digits_value(d),
    decreases d.len(),
{
    if k < d.len() {
        assert(d.drop_last() =~= d.subrange(0, d.len() - 1));
        assert(d.subrange(0, d.len() - 1).subrange(0, k) =~= d.subrange(0, k));
        assert(is_digit(d[d.len() - 1]));
        lemma_digits_prefix_le(d.drop_last(), k);
    } else {
        assert(d.subrange(0, k) =~= d);
    }
}

/// Index of the first head terminator in `buf`.
pub fn find_double_crlf(buf: &[u8]) -> (r: Option<usize>)
    ensures
        match r {
            Some(i) => is_first_terminator(buf@, i as int),
            None => no_terminator(buf@),
        },
{
    let n = buf.len();
    if n < 4 {
        return None;
    }
    let mut i: usize = 0;
    while i <= n - 4
        invariant
            n == buf@.len(),
            n >= 4,
            i <= n - 3,
            forall|j: int| 0 <= j < i ==> !terminator_at(buf@, j),
        decreases n - i,
    {
        if buf[i] == 13 && buf[i + 1] == 10 && buf[i + 2] == 13 && buf[i + 3] == 10 {
            return Some(i);
        }
        i = i + 1;
    }
    None
}

/// Appends `b` to `out`.
pub fn append_bytes(out: &mut Vec<u8>, b: &[u8])
    ensures
        final(out)@ == old(out)@ + b@,
{
    let mut k: usize = 0;
    while k < b.len()
        invariant
            k <= b@.len(),
            out@ == old(out)@ + b@.subrange(0, k as int),
        decreases b@.len() - k,
    {
        out.push(b[k]);
        k = k + 1;
        assert(out@ =~= old(out)@ + b@.subrange(0, k as int));
    }
    assert(b@.subrange(0, b@.len() as int) =~= b@);
}

/// The bytes of `s` from `a` to `b`, as a new vector.
pub fn copy_range(s: &[u8], a: usize, b: usize) -> (r: Vec<u8>)
    requires
        a <= b <= s@.len(),
    ensures
        r@ == s@.subrange(a as int, b as int),
{
    let mut r: Vec<u8> = Vec::new();
    let mut k: usize = a;
    while k < b
        invariant
            a <= k <= b,
            b <= s@.len(),
            r@ == s@.subrange(a as int, k as int),
        decreases b - k,
    {
        r.push(s[k]);
        k = k + 1;
        assert(r@ =~= s@.subrange(a as int, k as int));
    }
    r
}

pub fn bytes_eq(a: &[u8], b: &[u8]) -> (r: bool)
    ensures
        r == (a@ == b@),
{
    if a.len() != b.len() {
        return false;
    }
    let mut k: usize = 0;
    while k < a.len()
        invariant
            a@.len() == b@.len(),
            k <= a@.len(),
            forall|j: int| 0 <= j < k ==> a@[j] == b@[j],
        decreases a@.len() - k,
    {
        if a[k] != b[k] {
            return false;
        }
        k = k + 1;
    }
    assert(a@ =~= b@);
    true
}

/// Whether `s` begins with the bytes of `p`.
pub fn starts_with(s: &[u8], p: &[u8]) -> (r: bool)
    ensures
        r == (s@.len() >= p@.len() && s@.subrange(0, p@.len() as int) == p@),
{
    if s.len() < p.len() {
        return false;
    }
    let mut k: usize = 0;
    while k < p.len()
        invariant
            s@.len() >= p@.len(),
            k <= p@.len(),
            forall|j: int| 0 <= j < k ==> s@[j] == p@[j],
        decreases p@.len() - k,
    {
        if s[k] != p[k] {
            assert(s@.subrange(0, p@.len() as int)[k as int] != p@[k as int]);
            return false;
        }
        k = k + 1;
    }
    assert(s@.subrange(0, p@.len() as int) =~= p@);
    true
}

pub fn to_ascii_lower(b: u8) -> (r: u8)
    ensures
        r == ascii_lower(b),
{
    if 65 <= b && b <= 90 {
        b + 32
    } else {
        b
    }
}

/// Whether `s` begins with `pattern`, ignoring ASCII case; `pattern` is lower case.
pub fn starts_with_ignore_case(s: &[u8], pattern: &[u8]) -> (r: bool)
    ensures
        r == starts_with_ci(s@, pattern@),
{
    if s.len() < pattern.len() {
        return false;
    }
    let mut k: usize = 0;
    while k < pattern.len()
        invariant
            s@.len() >= pattern@.len(),
            k <= pattern@.len(),
            forall|j: int| 0 <= j < k ==> #[trigger] ascii_lower(s@[j]) == pattern@[j],
        decreases pattern@.len() - k,
    {
        if to_ascii_lower(s[k]) != pattern[k] {
            return false;
        }
        k = k + 1;
    }
    true
}

/// Whether `s[from..from + len]` encodes a whitespace character.
fn ws_code_at(s: &[u8], from: usize, len: usize) -> (r: bool)
    requires
        1 <= len <= 3,
        from + len <= s@.len(),
    ensures
        r == ws_code(s@.subrange(from as int, from + len)),
{
    let ghost c = s@.subrange(from as int, from + len);
    assert(len >= 1 ==> c[0] == s@[from as int]);
    assert(len >= 2 ==> c[1] == s@[from + 1]);
    assert(len >= 3 ==> c[2] == s@[from + 2]);
    let a = s[from];
    if len == 1 {
        a == 32 || (9 <= a && a <= 13)
    } else if len == 2 {
        let b = s[from + 1];
        a == 0xC2 && (b == 0x85 || b == 0xA0)
    } else {
        let b = s[from + 1];
        let d = s[from + 2];
        (a == 0xE1 && b == 0x9A && d == 0x80) || (a == 0xE2 && b == 0x80 && ((0x80 <= d && d
            <= 0x8A) || d == 0xA8 || d == 0xA9 || d == 0xAF)) || (a == 0xE2 && b == 0x81 && d
            == 0x9F) || (a == 0xE3 && b == 0x80 && d == 0x80)
    }
}

/// The length of the whitespace character at `s[i..]`; 0 if none.
pub fn ws_len_at(s: &[u8], i: usize) -> (r: usize)
    requires
        i <= s@.len(),
    ensures
        r == ws_prefix_len(s@.subrange(i as int, s@.len() as int)),
        i + r <= s@.len(),
{
    let n = s.len();
    let ghost t = s@.subrange(i as int, n as int);
    assert(forall|k: int| 1 <= k <= 3 && i + k <= n ==> #[trigger] t.subrange(0, k)
        =~= s@.subrange(i as int, i + k));
    if n - i >= 1 && ws_code_at(s, i, 1) {
        1
    } else if n - i >= 2 && ws_code_at(s, i, 2) {
        2
    } else if n - i >= 3 && ws_code_at(s, i, 3) {
        3
    } else {
        0
    }
}

/// The length of the whitespace character that ends `s[..j]`; 0 if none.
pub fn ws_len_before(s: &[u8], j: usize) -> (r: usize)
    requires
        j <= s@.len(),
    ensures
        r == ws_suffix_len(s@.subrange(0, j as int)),
        r <= j,
{
    let ghost t = s@.subrange(0, j as int);
    assert(forall|k: int| 1 <= k <= 3 && k <= j ==> #[trigger] t.subrange(j - k, j as int)
        =~= s@.subrange(j - k, j as int));
    if j >= 1 && ws_code_at(s, j - 1, 1) {
        1
    } else if j >= 2 && ws_code_at(s, j - 2, 2) {
        2
    } else if j >= 3 && ws_code_at(s, j - 3, 3) {
        3
    } else {
        0
    }
}

/// The lines of `s` between CRLF separators, in order.
pub fn split_lines(s: &[u8]) -> (r: Vec<Vec<u8>>)
    ensures
        lines_view(r@) == split_crlf(s@),
{
    let n = s.len();
    let mut out: Vec<Vec<u8>> = Vec::new();
    let mut start: usize = 0;
    let mut i: usize = 0;
    assert(s@.subrange(0, n as int) =~= s@);
    while i < n
        invariant
            n == s@.len(),
            start <= i <= n,
            lines_view(out@) + split_crlf(s@.subrange(start as int, n as int)) == split_crlf(s@),
            forall|j: int| start <= j < i ==> !crlf_at(s@, j),
        decreases n - i,
    {
        if i + 1 < n && s[i] == 13 && s[i + 1] == 10 {
            let line = copy_range(s, start, i);
            let ghost sub = s@.subrange(start as int, n as int);
            proof {
                assert(crlf_at(sub, i - start));
                assert forall|j: int| 0 <= j < i - start implies !crlf_at(sub, j) by {
                    assert(!crlf_at(s@, j + start));
                }
                lemma_split_crlf_at(sub, i - start);
                assert(sub.subrange(0, i - start) =~= line@);
                assert(sub.subrange(i - start + 2, sub.len() as int) =~= s@.subrange(
                    i + 2,
                    n as int,
                ));
            }
            let ghost before = out@;
            out.push(line);
            proof {
                assert(lines_view(out@) =~= lines_view(before) + seq![line@]);
                assert(lines_view(out@) + split_crlf(s@.subrange(i + 2, n as int)) =~= lines_view(
                    before,
                ) + split_crlf(sub));
            }
            start = i + 2;
            i = i + 2;
        } else {
            i = i + 1;
        }
    }
    let line = copy_range(s, start, n);
    let ghost sub = s@.subrange(start as int, n as int);
    proof {
        assert forall|j: int| !crlf_at(sub, j) by {
            if 0 <= j && j + 1 < sub.len() {
                assert(!crlf_at(s@, j + start));
            }
        }
        lemma_split_crlf_none(sub);
    }
    let ghost before = out@;
    out.push(line);
    proof {
        assert(lines_view(out@) =~= lines_view(before) + seq![line@]);
    }
    out
}

/// Appends the decimal digits of `n` to `out`.
pub fn push_decimal(out: &mut Vec<u8>, n: u64)
    ensures
        final(out)@ == old(out)@ + decimal(n as nat),
    decreases n,
{
    if n >= 10 {
        push_decimal(out, n / 10);
    }
    out.push((48 + n % 10) as u8);
    assert(final(out)@ =~= old(out)@ + decimal(n as nat));
}

/// The bytes of `s` without leading and trailing whitespace.
pub fn trim_bytes(s: &[u8]) -> (r: Vec<u8>)
    ensures
        r@ == trim(s@),
{
    let n = s.len();
    let mut lo: usize = 0;
    assert(s@.subrange(0, n as int) =~= s@);
    let mut w = ws_len_at(s, lo);
    while w > 0
        invariant
            n == s@.len(),
            lo + w <= n,
            w == ws_prefix_len(s@.subrange(lo as int, n as int)),
            trim_start(s@) == trim_start(s@.subrange(lo as int, n as int)),
        decreases n - lo,
    {
        proof {
            lemma_trim_start_step(s@, lo as int);
        }
        lo = lo + w;
        w = ws_len_at(s, lo);
    }
    let t = copy_range(s, lo, n);
    assert(trim_start(t@) == t@);
    let m = t.len();
    assert(t@.subrange(0, m as int) =~= t@);
    let mut hi: usize = m;
    let mut v = ws_len_before(t.as_slice(), hi);
    while v > 0
        invariant
            m == t@.len(),
            v <= hi <= m,
            v == ws_suffix_len(t@.subrange(0, hi as int)),
            trim_end(t@) == trim_end(t@.subrange(0, hi as int)),
        decreases hi,
    {
        proof {
            lemma_trim_end_step(t@, hi as int);
        }
        hi = hi - v;
        v = ws_len_before(t.as_slice(), hi);
    }
    copy_range(t.as_slice(), 0, hi)
}

/// Where the first token of `s[pos..]` starts and ends.
pub fn next_token(s: &[u8], pos: usize) -> (r: (usize, usize))
    requires
        pos <= s@.len(),
    ensures
        pos <= r.0 <= r.1 <= s@.len(),
        s@.subrange(r.0 as int, r.1 as int) == first_token(s@.subrange(pos as int, s@.len() as int)),
        s@.subrange(r.1 as int, s@.len() as int) == after_first_token(
            s@.subrange(pos as int, s@.len() as int),
        ),
{
    let n = s.len();
    let ghost whole = s@.subrange(pos as int, n as int);
    let mut lo: usize = pos;
    let mut w = ws_len_at(s, lo);
    while w > 0
        invariant
            n == s@.len(),
            pos <= lo,
            lo + w <= n,
            w == ws_prefix_len(s@.subrange(lo as int, n as int)),
            whole == s@.subrange(pos as int, n as int),
            trim_start(whole) == trim_start(s@.subrange(lo as int, n as int)),
        decreases n - lo,
    {
        proof {
            lemma_trim_start_step(s@, lo as int);
        }
        lo = lo + w;
        w = ws_len_at(s, lo);
    }
    let ghost t = s@.subrange(lo as int, n as int);
    assert(trim_start(whole) == t);
    let mut hi: usize = lo;
    while hi < n && ws_len_at(s, hi) == 0
        invariant
            n == s@.len(),
            lo <= hi <= n,
            t == s@.subrange(lo as int, n as int),
            word(t) == s@.subrange(lo as int, hi as int) + word(s@.subrange(hi as int, n as int)),
        decreases n - hi,
    {
        proof {
            lemma_word_step(s@, hi as int);
            assert(s@.subrange(lo as int, hi as int) + seq![s@[hi as int]] =~= s@.subrange(
                lo as int,
                hi + 1,
            ));
            assert(s@.subrange(lo as int, hi as int) + (seq![s@[hi as int]] + word(
                s@.subrange(hi + 1, n as int),
            )) =~= s@.subrange(lo as int, hi + 1) + word(s@.subrange(hi + 1, n as int)));
        }
        hi = hi + 1;
    }
    assert(word(s@.subrange(hi as int, n as int)) =~= Seq::<u8>::empty());
    assert(s@.subrange(lo as int, hi as int) + Seq::<u8>::empty() =~= s@.subrange(
        lo as int,
        hi as int,
    ));
    assert(t.subrange(hi - lo, t.len() as int) =~= s@.subrange(hi as int, n as int));
    (lo, hi)
}

/// Reads `s` as an unsigned decimal integer no larger than `u64::MAX`.
pub fn parse_u64(s: &[u8]) -> (r: Option<u64>)
    ensures
        match r {
            Some(v) => parse_bounded(s@, u64::MAX as nat) == Some(v as nat),
            None => parse_bounded(s@, u64::MAX as nat) is None,
        },
{
    let n = s.len();
    let mut k: usize = 0;
    if n > 0 && s[0] == 43 {
        k = 1;
    }
    let ghost d = if s@.len() > 0 && s@[0] == 43u8 {
        s@.drop_first()
    } else {
        s@
    };
    assert(d =~= s@.subrange(k as int, n as int));
    if k >= n {
        assert(parse_unsigned(s@) is None);
        return None;
    }
    let start = k;
    let mut v: u64 = 0;
    while k < n
        invariant
            n == s@.len(),
            start <= k <= n,
            start < n,
            d == s@.subrange(start as int, n as int),
            d == (if s@.len() > 0 && s@[0] == 43u8 {
                s@.drop_first()
            } else {
                s@
            }),
            all_digits(s@.subrange(start as int, k as int)),
            v as nat == digits_value(s@.subrange(start as int, k as int)),
        decreases n - k,
    {
        let b = s[k];
        if !(48 <= b && b <= 57) {
            assert(!is_digit(d[k - start]));
            assert(!all_digits(d));
            assert(parse_unsigned(s@) is None);
            return None;
        }
        let digit = (b - 48) as u64;
        let ghost pre = s@.subrange(start as int, k + 1);
        assert(pre.drop_last() =~= s@.subrange(start as int, k as int));
        if v > (u64::MAX - digit) / 10 {
            proof {
                assert(all_digits(pre));
                assert(digits_value(pre) == v * 10 + digit);
                assert(digits_value(pre) > u64::MAX) by (nonlinear_arith)
                    requires
                        v > (u64::MAX - digit) / 10,
                        digits_value(pre) == v * 10 + digit,
                        digit <= 9,
                ;
                if all_digits(d) {
                    assert(d.subrange(0, k + 1 - start) =~= pre);
                    lemma_digits_prefix_le(d, k + 1 - start);
                    assert(parse_unsigned(s@) == Some(digits_value(d)));
                }
            }
            return None;
        }
        proof {
            assert(v * 10 + digit <= u64::MAX) by (nonlinear_arith)
                requires
                    v <= (u64::MAX - digit) / 10,
                    digit <= 9,
            ;
        }
        v = v * 10 + digit;
        k = k + 1;
        assert(all_digits(s@.subrange(start as int, k as int)));
    }
    assert(s@.subrange(start as int, k as int) =~= d);
    Some(v)
}

} // verus!
