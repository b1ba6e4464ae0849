//! Byte strings: comparison, search, little-endian fields and decimal numbers.
use vstd::prelude::*;
use vstd::slice::slice_subrange;

verus! {

/// ASCII white space: space, tab, line feed, form feed, carriage return.
pub open spec fn space_byte(c: u8) -> bool {
    c == 32 || c == 9 || c == 10 || c == 12 || c == 13
}

pub fn is_space(c: u8) -> (r: bool)
    ensures
        r == space_byte(c),
{
    c == 32 || c == 9 || c == 10 || c == 12 || c == 13
}

pub open spec fn digit_byte(c: u8) -> bool {
    48 <= c <= 57
}

pub open spec fn alpha_byte(c: u8) -> bool {
    65 <= c <= 90 || 97 <= c <= 122
}

/// A byte that may start a variable name: a letter or `_`.
pub open spec fn name_start_byte(c: u8) -> bool {
    alpha_byte(c) || c == 95
}

/// A byte that may continue a variable name: a letter, a digit or `_`.
pub open spec fn name_byte(c: u8) -> bool {
    name_start_byte(c) || digit_byte(c)
}

pub fn is_digit(c: u8) -> (r: bool)
    ensures
        r == digit_byte(c),
{
    48 <= c && c <= 57
}

pub fn is_name_start(c: u8) -> (r: bool)
    ensures
        r == name_start_byte(c),
{
    (65 <= c && c <= 90) || (97 <= c && c <= 122) || c == 95
}

pub fn is_name_byte(c: u8) -> (r: bool)
    ensures
        r == name_byte(c),
{
    is_name_start(c) || is_digit(c)
}

/// The upper case form of an ASCII letter; every other byte is unchanged.
pub open spec fn upper_byte(c: u8) -> u8 {
    if 97 <= c <= 122 {
        (c - 32) as u8
    } else {
        c
    }
}

pub fn to_upper(c: u8) -> (r: u8)
    ensures
        r == upper_byte(c),
{
    if 97 <= c && c <= 122 {
        c - 32
    } else {
        c
    }
}

pub fn bytes_eq(a: &[u8], b: &[u8]) -> (r: bool)
    ensures
        r == (a@ == b@),
{
    if a.len() != b.len() {
        return false;
    }
    let mut i: usize = 0;
    while i < a.len()
        invariant
            i <= a.len(),
            a.len() == b.len(),
            forall|k: int| 0 <= k < i ==> a@[k] == b@[k],
        decreases a.len() - i,
    {
        if a[i] != b[i] {
            return false;
        }
        i += 1;
    }
    assert(a@ =~= b@);
    true
}

/// `p` is a prefix of `a`.
pub open spec fn has_prefix(a: Seq<u8>, p: Seq<u8>) -> bool {
    p.len() <= a.len() && a.take(p.len() as int) == p
}

pub fn starts_with(a: &[u8], p: &[u8]) -> (r: bool)
    ensures
        r == has_prefix(a@, p@),
{
    if p.len() > a.len() {
        return false;
    }
    bytes_eq(slice_subrange(a, 0, p.len()), p)
}

/// The first index from `i` on at which `c` stands, or the length.
pub open spec fn index_from(b: Seq<u8>, i: int, c: u8) -> int
    decreases b.len() - i,
{
    if i >= b.len() {
        b.len() as int
    } else if b[i] == c {
        i
    } else {
        index_from(b, i + 1, c)
    }
}

pub proof fn lemma_index_from(b: Seq<u8>, i: int, c: u8)
    requires
        0 <= i <= b.len(),
    ensures
        i <= index_from(b, i, c) <= b.len(),
        index_from(b, i, c) < b.len() ==> b[index_from(b, i, c)] == c,
        forall|k: int| i <= k < index_from(b, i, c) ==> b[k] != c,
    decreases b.len() - i,
{
    if i < b.len() && b[i] != c {
        lemma_index_from(b, i + 1, c);
    }
}

/// An index below which `c` does not stand and at which it does (or which is
/// the length) is the first one.
pub proof fn lemma_index_from_unique(b: Seq<u8>, i: int, c: u8, j: int)
    requires
        0 <= i <= j <= b.len(),
        j < b.len() ==> b[j] == c,
        forall|k: int| i <= k < j ==> b[k] != c,
    ensures
        index_from(b, i, c) == j,
    decreases j - i,
{
    if i < j {
        lemma_index_from_unique(b, i + 1, c, j);
    }
}

pub fn find_byte(b: &[u8], from: usize, c: u8) -> (r: usize)
    requires
        from <= b.len(),
    ensures
        r == index_from(b@, from as int, c),
        from <= r <= b.len(),
{
    let mut i: usize = from;
    while i < b.len() && b[i] != c
        invariant
            from <= i <= b.len(),
            forall|k: int| from <= k < i ==> b@[k] != c,
        decreases b.len() - i,
    {
        i += 1;
    }
    proof {
        lemma_index_from_unique(b@, from as int, c, i as int);
    }
    i
}

pub fn append_bytes(v: &mut Vec<u8>, s: &[u8])
    ensures
        final(v)@ == old(v)@ + s@,
{
    let mut i: usize = 0;
    while i < s.len()
        invariant
            i <= s.len(),
            v@ == old(v)@ + s@.take(i as int),
        decreases s.len() - i,
    {
        v.push(s[i]);
        i += 1;
        assert(s@.take(i as int) =~= s@.take(i - 1).push(s@[i - 1]));
    }
    assert(s@.take(s.len() as int) =~= s@);
}

pub fn concat(a: &[u8], b: &[u8]) -> (r: Vec<u8>)
    ensures
        r@ == a@ + b@,
{
    let mut r: Vec<u8> = Vec::new();
    append_bytes(&mut r, a);
    append_bytes(&mut r, b);
    assert(r@ =~= a@ + b@);
    r
}

/// `n` bytes, all equal to `c`.
pub open spec fn filled(c: u8, n: nat) -> Seq<u8> {
    Seq::new(n, |i: int| c)
}

pub fn repeat_byte(c: u8, n: usize) -> (r: Vec<u8>)
    ensures
        r@ == filled(c, n as nat),
{
    let r: Vec<u8> = vec![c; n];
    assert(r@ =~= filled(c, n as nat));
    r
}

/// A byte string copied into a vector.
pub fn copy_of(s: &[u8]) -> (r: Vec<u8>)
    ensures
        r@ == s@,
{
    vstd::slice::slice_to_vec(s)
}

/// The views of a list of byte strings.
pub open spec fn views<T>(v: Seq<Vec<T>>) -> Seq<Seq<T>> {
    Seq::new(v.len(), |i: int| v[i]@)
}

pub broadcast proof fn lemma_views_push<T>(v: Seq<Vec<T>>, w: Vec<T>)
    ensures
        #[trigger] views(v.push(w)) == views(v).push(w@),
{
    assert(views(v.push(w)) =~= views(v).push(w@));
}

// ── Little-endian fields ──

/// The value of the `n` bytes at `off`, least significant first.
pub open spec fn le_value(s: Seq<u8>, off: int, n: nat) -> nat
    decreases n,
{
    if n == 0 {
        0
    } else {
        s[off] as nat + 256 * le_value(s, off + 1, (n - 1) as nat)
    }
}

pub fn read_le16(b: &[u8], off: usize) -> (r: u16)
    requires
        off + 2 <= b.len(),
    ensures
        r == le_value(b@, off as int, 2),
{
    proof {
        reveal_with_fuel(le_value, 3);
    }
    b[off] as u16 + 256 * (b[off + 1] as u16)
}

pub fn read_le32(b: &[u8], off: usize) -> (r: u32)
    requires
        off + 4 <= b.len(),
    ensures
        r == le_value(b@, off as int, 4),
{
    proof {
        reveal_with_fuel(le_value, 5);
    }
    b[off] as u32 + 256 * (b[off + 1] as u32) + 65536 * (b[off + 2] as u32) + 16777216 * (b[off
        + 3] as u32)
}

pub fn read_le64(b: &[u8], off: usize) -> (r: u64)
    requires
        off + 8 <= b.len(),
    ensures
        r == le_value(b@, off as int, 8),
{
    let lo: u32 = read_le32(b, off);
    let hi: u32 = read_le32(b, off + 4);
    proof {
        reveal_with_fuel(le_value, 9);
    }
    lo as u64 + 4294967296 * (hi as u64)
}

/// The `n` bytes that hold `x`, least significant first.
pub open spec fn le_bytes(x: nat, n: nat) -> Seq<u8>
    decreases n,
{
    if n == 0 {
        Seq::empty()
    } else {
        seq![(x % 256) as u8] + le_bytes(x / 256, (n - 1) as nat)
    }
}

pub proof fn lemma_le_bytes_len(x: nat, n: nat)
    ensures
        le_bytes(x, n).len() == n,
    decreases n,
{
    if n > 0 {
        lemma_le_bytes_len(x / 256, (n - 1) as nat);
    }
}

/// Reading a little-endian field gives back the value that was laid out there.
pub proof fn lemma_le_round_trip(s: Seq<u8>, off: int, x: nat, n: nat)
    requires
        0 <= off,
        off + n <= s.len(),
        s.subrange(off, off + n) == le_bytes(x, n),
        x < vstd::arithmetic::power::pow(256, n),
    ensures
        le_value(s, off, n) == x,
    decreases n,
{
    vstd::arithmetic::power::lemma_pow0(256);
    if n > 0 {
        let rest = le_bytes(x / 256, (n - 1) as nat);
        lemma_le_bytes_len(x, n);
        lemma_le_bytes_len(x / 256, (n - 1) as nat);
        assert(s[off] == s.subrange(off, off + n)[0]);
        assert(s.subrange(off + 1, off + n) =~= s.subrange(off, off + n).skip(1));
        assert(le_bytes(x, n).skip(1) =~= rest);
        vstd::arithmetic::power::lemma_pow_adds(256, 1, (n - 1) as nat);
        vstd::arithmetic::power::lemma_pow1(256);
        let p = vstd::arithmetic::power::pow(256, (n - 1) as nat);
        assert(x / 256 < p) by (nonlinear_arith)
            requires
                x < 256 * p,
                x >= 0,
        ;
        lemma_le_round_trip(s, off + 1, x / 256, (n - 1) as nat);
    }
}

/// Appends `x` as `n` bytes, least significant first.
pub fn push_le(v: &mut Vec<u8>, x: u64, n: usize)
    ensures
        final(v)@ == old(v)@ + le_bytes(x as nat, n as nat),
{
    let mut k: usize = 0;
    let mut y: u64 = x;
    while k < n
        invariant
            k <= n,
            old(v)@ + le_bytes(x as nat, n as nat) == v@ + le_bytes(y as nat, (n - k) as nat),
        decreases n - k,
    {
        let ghost before = v@;
        v.push((y % 256) as u8);
        assert(before + le_bytes(y as nat, (n - k) as nat) =~= v@ + le_bytes(
            (y / 256) as nat,
            (n - k - 1) as nat,
        ));
        y = y / 256;
        k += 1;
    }
    assert(v@ + le_bytes(y as nat, 0) =~= v@);
}

// ── Decimal numbers ──

/// The decimal digits of `n`, most significant first.
pub open spec fn decimal(n: nat) -> Seq<u8>
    decreases n,
{
    if n < 10 {
        seq![(48 + n) as u8]
    } else {
        decimal(n / 10).push((48 + n % 10) as u8)
    }
}

/// The value that a string of decimal digits denotes.
pub open spec fn decimal_value(s: Seq<u8>) -> nat
    decreases s.len(),
{
    if s.len() == 0 {
        0
    } else {
        (decimal_value(s.drop_last()) * 10 + (s.last() - 48)) as nat
    }
}

/// Writing a number in decimal and reading the digits back gives the number.
pub proof fn lemma_decimal_round_trip(n: nat)
    ensures
        decimal_value(decimal(n)) == n,
        decimal(n).len() >= 1,
        forall|i: int| 0 <= i < decimal(n).len() ==> digit_byte(#[trigger] decimal(n)[i]),
    decreases n,
{
    if n < 10 {
        assert(decimal(n).drop_last() =~= Seq::<u8>::empty());
        assert(decimal_value(decimal(n).drop_last()) == 0);
    } else {
        lemma_decimal_round_trip(n / 10);
        assert(decimal(n).drop_last() =~= decimal(n / 10));
    }
}

pub open spec fn all_digits(s: Seq<u8>) -> bool {
    forall|i: int| 0 <= i < s.len() ==> digit_byte(#[trigger] s[i])
}

/// The value of a string of digits; `None` if it has none, holds something
/// else or exceeds `max`.
pub fn parse_digits(s: &[u8], max: u64) -> (r: Option<u64>)
    ensures
        r == (if s@.len() > 0 && all_digits(s@) && decimal_value(s@) <= max {
            Some(decimal_value(s@) as u64)
        } else {
            None
        }),
{
    if s.len() == 0 {
        return None;
    }
    let mut v: u64 = 0;
    let mut i: usize = 0;
    let mut over: bool = false;
    while i < s.len()
        invariant
            i <= s@.len(),
            forall|k: int| 0 <= k < i ==> digit_byte(#[trigger] s@[k]),
            over ==> decimal_value(s@.take(i as int)) > max,
            !over ==> v == decimal_value(s@.take(i as int)) && v <= max,
        decreases s@.len() - i,
    {
        if !is_digit(s[i]) {
            return None;
        }
        proof {
            assert(s@.take(i + 1).drop_last() =~= s@.take(i as int));
            assert(s@.take(i + 1).last() == s@[i as int]);
        }
        let d: u64 = (s[i] - 48) as u64;
        if !over {
            match v.checked_mul(10) {
                Some(t) => match t.checked_add(d) {
                    Some(n) => {
                        v = n;
                        over = n > max;
                    },
                    None => {
                        over = true;
                    },
                },
                None => {
                    over = true;
                },
            }
        }
        i += 1;
    }
    assert(s@.take(i as int) =~= s@);
    if over {
        None
    } else {
        Some(v)
    }
}

pub fn has_byte(b: &[u8], c: u8) -> (r: bool)
    ensures
        r == b@.contains(c),
{
    let mut i: usize = 0;
    while i < b.len()
        invariant
            i <= b@.len(),
            forall|k: int| 0 <= k < i ==> #[trigger] b@[k] != c,
        decreases b@.len() - i,
    {
        if b[i] == c {
            return true;
        }
        i += 1;
    }
    false
}

/// The decimal digits of a number.
pub fn fmt_u64(n: u64) -> (r: Vec<u8>)
    ensures
        r@ == decimal(n as nat),
{
    let mut rev: Vec<u8> = Vec::new();
    let mut m: u64 = n;
    while m >= 10
        invariant
            decimal(n as nat) == decimal(m as nat) + rev@.reverse(),
        decreases m,
    {
        let ghost before = rev@;
        rev.push((48 + m % 10) as u8);
        assert(rev@.reverse() =~= seq![(48 + m % 10) as u8] + before.reverse());
        assert(decimal(m as nat) + before.reverse() =~= decimal((m / 10) as nat) + rev@.reverse());
        m = m / 10;
    }
    let ghost before = rev@;
    rev.push((48 + m) as u8);
    assert(decimal(m as nat) + before.reverse() =~= rev@.reverse());
    let mut out: Vec<u8> = Vec::new();
    let mut i: usize = rev.len();
    while i > 0
        invariant
            i <= rev.len(),
            out@ == rev@.reverse().take(rev.len() - i),
        decreases i,
    {
        i -= 1;
        out.push(rev[i]);
        assert(out@ =~= rev@.reverse().take(rev.len() - i));
    }
    assert(out@ =~= rev@.reverse());
    out
}

/// Appends a number in decimal.
pub fn push_u64(v: &mut Vec<u8>, n: u64)
    ensures
        final(v)@ == old(v)@ + decimal(n as nat),
{
    let d: Vec<u8> = fmt_u64(n);
    append_bytes(v, &d);
}

// ── Order ──

/// Byte-wise lexicographic order: `a` comes strictly before `b`.
pub open spec fn bytes_before(a: Seq<u8>, b: Seq<u8>) -> bool
    decreases a.len(),
{
    if b.len() == 0 {
        false
    } else if a.len() == 0 {
        true
    } else if a[0] != b[0] {
        a[0] < b[0]
    } else {
        bytes_before(a.skip(1), b.skip(1))
    }
}

pub fn bytes_lt(a: &[u8], b: &[u8]) -> (r: bool)
    ensures
        r == bytes_before(a@, b@),
{
    let mut i: usize = 0;
    assert(a@.skip(0) =~= a@ && b@.skip(0) =~= b@);
    while i < a.len() && i < b.len()
        invariant
            i <= a.len(),
            i <= b.len(),
            bytes_before(a@, b@) == bytes_before(a@.skip(i as int), b@.skip(i as int)),
        decreases a.len() - i,
    {
        assert(a@.skip(i as int).skip(1) =~= a@.skip(i + 1));
        assert(b@.skip(i as int).skip(1) =~= b@.skip(i + 1));
        if a[i] != b[i] {
            return a[i] < b[i];
        }
        i += 1;
    }
    i < b.len()
}

/// Whether the bytes are well-formed UTF-8: `core::str::from_utf8` accepts
/// exactly the valid encodings.
#[verifier::external_body]
pub(crate) fn is_utf8(b: &[u8]) -> (r: bool)
    ensures
        r == vstd::utf8::valid_utf8(b@),
{
    core::str::from_utf8(b).is_ok()
}

/// A byte string as text: itself when it is well-formed UTF-8, else empty.
pub open spec fn text_of(b: Seq<u8>) -> Seq<u8> {
    if vstd::utf8::valid_utf8(b) {
        b
    } else {
        Seq::empty()
    }
}

pub fn text_or_empty(b: Vec<u8>) -> (r: Vec<u8>)
    ensures
        r@ == text_of(b@),
{
    if is_utf8(&b) {
        b
    } else {
        Vec::new()
    }
}

// ── Fixed texts ──

/// The bytes of a text.
pub open spec fn lit(s: &str) -> Seq<u8> {
    vstd::utf8::encode_utf8(s@)
}

pub fn push_str(v: &mut Vec<u8>, s: &str)
    ensures
        final(v)@ == old(v)@ + lit(s),
{
    append_bytes(v, s.as_bytes());
}

pub fn is_str(b: &[u8], s: &str) -> (r: bool)
    ensures
        r == (b@ == lit(s)),
{
    bytes_eq(b, s.as_bytes())
}

/// A signed number as the unsigned one with the same bits.
pub open spec fn unsigned_of(n: i64) -> nat {
    if n >= 0 {
        n as nat
    } else {
        (n + 0x1_0000_0000_0000_0000) as nat
    }
}

/// Appends a signed number as the unsigned one with the same bits.
pub fn push_bits(v: &mut Vec<u8>, n: i64)
    ensures
        final(v)@ == old(v)@ + decimal(unsigned_of(n)),
{
    let u: u64 = if n >= 0 {
        n as u64
    } else {
        u64::MAX - ((-(n + 1)) as u64)
    };
    push_u64(v, u);
}

} // verus!
