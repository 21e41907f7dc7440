use vstd::prelude::*;

verus! {

/// An IP address as the balancer and the session logic see it: the
/// numeric value of the address, tagged with its family.
#[derive(Clone, Copy, PartialEq, Eq, Structural, Debug)]
pub enum IpAddress {
    V4(u32),
    V6(u128),
}

impl IpAddress {
    pub open spec fn spec_is_v4(&self) -> bool {
        self is V4
    }

    #[verifier::when_used_as_spec(spec_is_v4)]
    pub fn is_v4(&self) -> (r: bool)
        ensures
            r == self.spec_is_v4(),
    {
        matches!(self, IpAddress::V4(_))
    }

    pub open spec fn spec_is_v6(&self) -> bool {
        self is V6
    }

    #[verifier::when_used_as_spec(spec_is_v6)]
    pub fn is_v6(&self) -> (r: bool)
        ensures
            r == self.spec_is_v6(),
    {
        matches!(self, IpAddress::V6(_))
    }
}

/// 256 raised to the power `n`.
pub open spec fn pow256(n: nat) -> int
    decreases n,
{
    if n == 0 {
        1
    } else {
        256 * pow256((n - 1) as nat)
    }
}

/// The `k`-th byte of `x`, counted from the low end.
pub open spec fn byte_at(x: int, k: nat) -> u8 {
    ((x / pow256(k)) % 256) as u8
}

/// Big-endian value of a byte sequence.
pub open spec fn be_value(s: Seq<u8>) -> int
    decreases s.len(),
{
    if s.len() == 0 {
        0
    } else {
        be_value(s.drop_last()) * 256 + s.last()
    }
}

/// The four network-order bytes of an IPv4 address value.
pub open spec fn v4_octets(x: u32) -> Seq<u8> {
    Seq::new(4, |i: int| byte_at(x as int, (3 - i) as nat))
}

/// The sixteen network-order bytes of an IPv6 address value.
pub open spec fn v6_octets(x: u128) -> Seq<u8> {
    Seq::new(16, |i: int| byte_at(x as int, (15 - i) as nat))
}

proof fn lemma_pow256_values()
    ensures
        pow256(0) == 1,
        pow256(1) == 0x100,
        pow256(2) == 0x10000,
        pow256(3) == 0x1000000,
        pow256(4) == 0x100000000,
        pow256(5) == 0x10000000000,
        pow256(6) == 0x1000000000000,
        pow256(7) == 0x100000000000000,
        pow256(8) == 0x10000000000000000,
        pow256(9) == 0x1000000000000000000,
        pow256(10) == 0x100000000000000000000,
        pow256(11) == 0x10000000000000000000000,
        pow256(12) == 0x1000000000000000000000000,
        pow256(13) == 0x100000000000000000000000000,
        pow256(14) == 0x10000000000000000000000000000,
        pow256(15) == 0x1000000000000000000000000000000,
        pow256(16) == 0x100000000000000000000000000000000,
{
    assert(pow256(0) == 1);
    assert(pow256(1) == 0x100);
    assert(pow256(2) == 0x10000);
    assert(pow256(3) == 0x1000000);
    assert(pow256(4) == 0x100000000);
    assert(pow256(5) == 0x10000000000);
    assert(pow256(6) == 0x1000000000000);
    assert(pow256(7) == 0x100000000000000);
    assert(pow256(8) == 0x10000000000000000);
    assert(pow256(9) == 0x1000000000000000000);
    assert(pow256(10) == 0x100000000000000000000);
    assert(pow256(11) == 0x10000000000000000000000);
    assert(pow256(12) == 0x1000000000000000000000000);
    assert(pow256(13) == 0x100000000000000000000000000);
    assert(pow256(14) == 0x10000000000000000000000000000);
    assert(pow256(15) == 0x1000000000000000000000000000000);
    assert(pow256(16) == 0x100000000000000000000000000000000);
}

proof fn lemma_be_value_bound(s: Seq<u8>)
    ensures
        0 <= be_value(s) < pow256(s.len()),
    decreases s.len(),
{
    if s.len() == 0 {
    } else {
        lemma_be_value_bound(s.drop_last());
    }
}

/// Big-endian value of up to sixteen bytes.
fn be_bytes_value(b: &Vec<u8>) -> (r: u128)
    requires
        b@.len() <= 16,
    ensures
        r == be_value(b@),
{
    proof {
        lemma_pow256_values();
    }
    let mut acc: u128 = 0;
    let mut i: usize = 0;
    while i < b.len()
        invariant
            b@.len() <= 16,
            i <= b@.len(),
            acc == be_value(b@.take(i as int)),
            0 <= acc < pow256(i as nat),
            pow256(16) == 0x100000000000000000000000000000000,
        decreases b@.len() - i,
    {
        proof {
            lemma_be_value_bound(b@.take(i as int));
            lemma_pow256_values();
            assert(pow256((i + 1) as nat) == 256 * pow256(i as nat));
            assert(b@.take(i + 1).drop_last() =~= b@.take(i as int));
            assert(b@.take(i + 1).last() == b@[i as int]);
            assert(pow256(i as nat) <= pow256(16)) by {
                lemma_pow256_increases(i as nat, 16);
            }
        }
        acc = acc * 256 + (b[i] as u128);
        i = i + 1;
        proof {
            lemma_be_value_bound(b@.take(i as int));
        }
    }
    proof {
        assert(b@.take(b@.len() as int) =~= b@);
    }
    acc
}

proof fn lemma_pow256_increases(a: nat, b: nat)
    requires
        a <= b,
    ensures
        pow256(a) <= pow256(b),
        pow256(a) >= 1,
    decreases b,
{
    lemma_pow256_pos(a);
    if a < b {
        lemma_pow256_increases(a, (b - 1) as nat);
        lemma_pow256_pos((b - 1) as nat);
    }
}

proof fn lemma_pow256_pos(n: nat)
    ensures
        pow256(n) >= 1,
    decreases n,
{
    if n > 0 {
        lemma_pow256_pos((n - 1) as nat);
    }
}

impl IpAddress {
    /// Reads an IPv4 address from its four network-order bytes.
    pub fn from_v4_octets(b: &Vec<u8>) -> (r: IpAddress)
        requires
            b@.len() == 4,
        ensures
            r == IpAddress::V4((be_value(b@) as u32)),
    {
        proof {
            lemma_be_value_bound(b@);
            lemma_pow256_values();
        }
        let v = be_bytes_value(b);
        IpAddress::V4(v as u32)
    }

    /// Reads an IPv6 address from its sixteen network-order bytes.
    pub fn from_v6_octets(b: &Vec<u8>) -> (r: IpAddress)
        requires
            b@.len() == 16,
        ensures
            r == IpAddress::V6((be_value(b@) as u128)),
    {
        proof {
            lemma_be_value_bound(b@);
            lemma_pow256_values();
        }
        let v = be_bytes_value(b);
        IpAddress::V6(v)
    }

    /// The network-order bytes of the address: four for IPv4, sixteen
    /// for IPv6.
    pub fn octets(&self) -> (r: Vec<u8>)
        ensures
            match self {
                IpAddress::V4(x) => r@ == v4_octets(*x),
                IpAddress::V6(x) => r@ == v6_octets(*x),
            },
    {
        proof {
            lemma_pow256_values();
        }
        let mut r: Vec<u8> = Vec::new();
        match self {
            IpAddress::V4(x) => {
                let x = *x;
                r.push(((x / 0x1000000) % 256) as u8);
                r.push(((x / 0x10000) % 256) as u8);
                r.push(((x / 0x100) % 256) as u8);
                r.push((x % 256) as u8);
                proof {
                    assert(r@ =~= v4_octets(x));
                }
            },
            IpAddress::V6(x) => {
                let x = *x;
                r.push(((x / 0x1000000000000000000000000000000) % 256) as u8);
                r.push(((x / 0x10000000000000000000000000000) % 256) as u8);
                r.push(((x / 0x100000000000000000000000000) % 256) as u8);
                r.push(((x / 0x1000000000000000000000000) % 256) as u8);
                r.push(((x / 0x10000000000000000000000) % 256) as u8);
                r.push(((x / 0x100000000000000000000) % 256) as u8);
                r.push(((x / 0x1000000000000000000) % 256) as u8);
                r.push(((x / 0x10000000000000000) % 256) as u8);
                r.push(((x / 0x100000000000000) % 256) as u8);
                r.push(((x / 0x1000000000000) % 256) as u8);
                r.push(((x / 0x10000000000) % 256) as u8);
                r.push(((x / 0x100000000) % 256) as u8);
                r.push(((x / 0x1000000) % 256) as u8);
                r.push(((x / 0x10000) % 256) as u8);
                r.push(((x / 0x100) % 256) as u8);
                r.push((x % 256) as u8);
                proof {
                    assert(r@ =~= v6_octets(x));
                }
            },
        }
        r
    }
}

/// The sequence of `n` bytes whose big-endian value is `x`.
spec fn value_octets(x: int, n: nat) -> Seq<u8> {
    Seq::new(n, |i: int| byte_at(x, (n - 1 - i) as nat))
}

proof fn lemma_value_octets_round_trip(x: int, n: nat)
    requires
        0 <= x < pow256(n),
    ensures
        be_value(value_octets(x, n)) == x,
    decreases n,
{
    let s = value_octets(x, n);
    if n == 0 {
        assert(s =~= Seq::<u8>::empty());
    } else {
        let m = (n - 1) as nat;
        let x2 = x / 256;
        assert(s.last() == byte_at(x, 0));
        assert(x / pow256(0) == x);
        assert forall|i: int| 0 <= i < m implies s.drop_last()[i] == value_octets(x2, m)[i] by {
            let k = (n - 2 - i) as nat;
            lemma_pow256_pos(k);
            vstd::arithmetic::div_mod::lemma_div_denominator(x, 256, pow256(k));
            assert(pow256((k + 1) as nat) == 256 * pow256(k));
        }
        assert(s.drop_last() =~= value_octets(x2, m));
        lemma_pow256_pos(m);
        vstd::arithmetic::div_mod::lemma_multiply_divide_lt(x, 256, pow256(m));
        vstd::arithmetic::div_mod::lemma_div_pos_is_pos(x, 256);
        lemma_value_octets_round_trip(x2, m);
        vstd::arithmetic::div_mod::lemma_fundamental_div_mod(x, 256);
    }
}

/// Reading an address back from its network-order octets yields the
/// address: the octets carry exactly the address value.
pub proof fn lemma_octets_round_trip(a: IpAddress)
    ensures
        match a {
            IpAddress::V4(x) => be_value(v4_octets(x)) == x,
            IpAddress::V6(x) => be_value(v6_octets(x)) == x,
        },
{
    lemma_pow256_values();
    match a {
        IpAddress::V4(x) => {
            assert(v4_octets(x) =~= value_octets(x as int, 4));
            lemma_value_octets_round_trip(x as int, 4);
        },
        IpAddress::V6(x) => {
            assert(v6_octets(x) =~= value_octets(x as int, 16));
            lemma_value_octets_round_trip(x as int, 16);
        },
    }
}

/// A decimal digit byte.
pub open spec fn is_dec_digit(b: u8) -> bool {
    48 <= b <= 57
}

/// Every byte of the sequence is a decimal digit.
pub open spec fn all_digits(s: Seq<u8>) -> bool {
    forall|i: int| 0 <= i < s.len() ==> is_dec_digit(#[trigger] s[i])
}

/// Value of a sequence of decimal digit bytes.
pub open spec fn digits_value(s: Seq<u8>) -> int
    decreases s.len(),
{
    if s.len() == 0 {
        0
    } else {
        digits_value(s.drop_last()) * 10 + (s.last() - 48)
    }
}

/// The digit part of an unsigned decimal literal: everything after
/// an optional leading plus sign.
pub open spec fn dec_str_digits(s: Seq<u8>) -> Seq<u8> {
    if s.len() > 0 && s[0] == 43u8 {
        s.skip(1)
    } else {
        s
    }
}

/// The shape `usize::from_str` accepts: an optional plus sign, then
/// at least one decimal digit and nothing else.
pub open spec fn dec_str_shape_ok(s: Seq<u8>) -> bool {
    dec_str_digits(s).len() >= 1 && all_digits(dec_str_digits(s))
}

/// Value of an unsigned decimal literal.
pub open spec fn dec_str_value(s: Seq<u8>) -> int {
    digits_value(dec_str_digits(s))
}

proof fn lemma_digits_value_nonneg(s: Seq<u8>)
    requires
        all_digits(s),
    ensures
        digits_value(s) >= 0,
    decreases s.len(),
{
    if s.len() > 0 {
        assert(all_digits(s.drop_last())) by {
            assert(forall|i: int|
                0 <= i < s.len() - 1 ==> #[trigger] s.drop_last()[i] == s[i]);
        }
        lemma_digits_value_nonneg(s.drop_last());
    }
}

proof fn lemma_digits_value_monotone(s: Seq<u8>, i: int)
    requires
        all_digits(s),
        0 <= i <= s.len(),
    ensures
        digits_value(s) >= digits_value(s.take(i)),
    decreases s.len() - i,
{
    if i < s.len() {
        assert(all_digits(s.drop_last())) by {
            assert(forall|j: int|
                0 <= j < s.len() - 1 ==> #[trigger] s.drop_last()[j] == s[j]);
        }
        lemma_digits_value_nonneg(s.drop_last());
        if i == s.len() - 1 {
            assert(s.take(i) =~= s.drop_last());
        } else {
            lemma_digits_value_monotone(s.drop_last(), i);
            assert(s.drop_last().take(i) =~= s.take(i));
        }
    } else {
        assert(s.take(i) =~= s);
    }
}

/// Parses the bytes `start..end` as an unsigned decimal number, as
/// `usize::from_str` would: an optional plus sign, then decimal
/// digits; `None` on any other shape and on overflow.
fn parse_decimal_usize(bytes: &Vec<u8>, start: usize, end: usize) -> (r: Option<usize>)
    requires
        start <= end <= bytes@.len(),
    ensures
        (r is Some) == (dec_str_shape_ok(bytes@.subrange(start as int, end as int))
            && dec_str_value(bytes@.subrange(start as int, end as int)) <= usize::MAX),
        r matches Some(v) ==> v == dec_str_value(bytes@.subrange(start as int, end as int)),
{
    let ghost sub = bytes@.subrange(start as int, end as int);
    let mut i: usize = start;
    if i == end {
        return None;
    }
    if bytes[i] == 43 {
        i = i + 1;
        if i == end {
            return None;
        }
    }
    let ghost dstart = i as int;
    proof {
        assert(bytes@.subrange(dstart, end as int) =~= dec_str_digits(sub));
    }
    let mut acc: usize = 0;
    while i < end
        invariant
            start <= dstart <= i <= end <= bytes@.len(),
            sub == bytes@.subrange(start as int, end as int),
            bytes@.subrange(dstart, end as int) == dec_str_digits(sub),
            dstart < end as int,
            all_digits(bytes@.subrange(dstart, i as int)),
            acc == digits_value(bytes@.subrange(dstart, i as int)),
        decreases end - i,
    {
        let b = bytes[i];
        if b < 48 || b > 57 {
            proof {
                assert(dec_str_digits(sub)[i - dstart] == b);
            }
            return None;
        }
        let d = (b - 48) as usize;
        if acc > (usize::MAX - d) / 10 {
            proof {
                if dec_str_shape_ok(sub) {
                    lemma_digits_value_monotone(dec_str_digits(sub), i - dstart + 1);
                    assert(dec_str_digits(sub).take(i - dstart + 1) =~= bytes@.subrange(
                        dstart,
                        i + 1,
                    ));
                    assert(bytes@.subrange(dstart, i + 1).drop_last() =~= bytes@.subrange(
                        dstart,
                        i as int,
                    ));
                    assert(digits_value(bytes@.subrange(dstart, i + 1)) == acc * 10 + (b
                        - 48));
                }
            }
            return None;
        }
        proof {
            assert(bytes@.subrange(dstart, i + 1).drop_last() =~= bytes@.subrange(
                dstart,
                i as int,
            ));
            assert(bytes@.subrange(dstart, i + 1).last() == b);
        }
        acc = acc * 10 + d;
        i = i + 1;
    }
    proof {
        assert(bytes@.subrange(dstart, i as int) =~= dec_str_digits(sub));
    }
    Some(acc)
}

/// Index of the first at sign at or after `from`, or the length when
/// there is none.
pub open spec fn find_at(s: Seq<u8>, from: int) -> int
    decreases s.len() - from,
    when 0 <= from <= s.len()
{
    if from >= s.len() {
        s.len() as int
    } else if s[from] == 64u8 {
        from
    } else {
        find_at(s, from + 1)
    }
}

proof fn lemma_find_at_char(s: Seq<u8>, from: int)
    requires
        0 <= from <= s.len(),
    ensures
        from <= find_at(s, from) <= s.len(),
        find_at(s, from) < s.len() ==> s[find_at(s, from)] == 64u8,
        forall|i: int| from <= i < find_at(s, from) ==> s[i] != 64u8,
    decreases s.len() - from,
{
    if from < s.len() && s[from] != 64u8 {
        lemma_find_at_char(s, from + 1);
    }
}

fn find_at_from(bytes: &Vec<u8>, from: usize) -> (r: usize)
    requires
        from <= bytes@.len(),
    ensures
        r == find_at(bytes@, from as int),
{
    let mut i: usize = from;
    while i < bytes.len()
        invariant
            from <= i <= bytes@.len(),
            forall|j: int| from <= j < i ==> bytes@[j] != 64u8,
            find_at(bytes@, from as int) == find_at(bytes@, i as int),
        decreases bytes@.len() - i,
    {
        if bytes[i] == 64 {
            return i;
        }
        i = i + 1;
    }
    i
}

/// What can be wrong with an `IP@metric` source specification, apart
/// from the address text itself.
#[derive(Clone, Copy, PartialEq, Eq, Structural, Debug)]
pub enum AddrSpecError {
    /// The metric is not an unsigned decimal number.
    InvalidMetric,
    /// The metric is zero.
    MetricTooSmall,
    /// More than one at sign.
    ExtraAtSign,
}

/// Splits a source specification of the form `IP` or `IP@metric`
/// into the address text and the metric, which defaults to one. The
/// metric must be a decimal number of at least one, and only one at
/// sign is permitted; as in the original command line, the metric is
/// examined before a second at sign is rejected.
pub fn parse_addr_spec(bytes: &Vec<u8>) -> (r: Result<(Vec<u8>, usize), AddrSpecError>)
    ensures
        ({
            let n = bytes@.len() as int;
            let f1 = find_at(bytes@, 0);
            let f2 = if f1 < n {
                find_at(bytes@, f1 + 1)
            } else {
                n
            };
            let ms = bytes@.subrange(f1 + 1, f2);
            if f1 == n {
                r matches Ok(p) && p.0@ == bytes@ && p.1 == 1
            } else if !(dec_str_shape_ok(ms) && dec_str_value(ms) <= usize::MAX) {
                r == Err::<(Vec<u8>, usize), AddrSpecError>(AddrSpecError::InvalidMetric)
            } else if dec_str_value(ms) == 0 {
                r == Err::<(Vec<u8>, usize), AddrSpecError>(AddrSpecError::MetricTooSmall)
            } else if f2 < n {
                r == Err::<(Vec<u8>, usize), AddrSpecError>(AddrSpecError::ExtraAtSign)
            } else {
                r matches Ok(p) && p.0@ == bytes@.take(f1) && p.1 == dec_str_value(ms)
            }
        }),
{
    let n = bytes.len();
    let f1 = find_at_from(bytes, 0);
    proof {
        lemma_find_at_char(bytes@, 0);
    }
    let mut prefix: Vec<u8> = Vec::new();
    let mut i: usize = 0;
    while i < f1
        invariant
            f1 <= bytes@.len(),
            i <= f1,
            prefix@ == bytes@.take(i as int),
        decreases f1 - i,
    {
        proof {
            assert(bytes@.take(i + 1).drop_last() =~= bytes@.take(i as int));
        }
        prefix.push(bytes[i]);
        i = i + 1;
    }
    if f1 == n {
        proof {
            assert(bytes@.take(f1 as int) =~= bytes@);
        }
        return Ok((prefix, 1));
    }
    let f2 = find_at_from(bytes, f1 + 1);
    proof {
        lemma_find_at_char(bytes@, f1 + 1);
    }
    let metric = match parse_decimal_usize(bytes, f1 + 1, f2) {
        None => {
            return Err(AddrSpecError::InvalidMetric);
        },
        Some(v) => v,
    };
    if metric < 1 {
        return Err(AddrSpecError::MetricTooSmall);
    }
    if f2 < n {
        return Err(AddrSpecError::ExtraAtSign);
    }
    Ok((prefix, metric))
}

} // verus!
