//! The compact wire format of signatures, bundles and handshake messages:
//! fields in order, each byte string as its length (unsigned LEB128 varint)
//! followed by its bytes, each `u64` as a varint. This is the encoding that
//! `postcard` gives such structures; decoding accepts what `postcard`'s
//! decoder accepts (varints of at most ten bytes whose tenth byte is at most
//! 1; trailing bytes are ignored).
use vstd::prelude::*;
use crate::packing::p2;
use crate::util::{copy_range, extend_bytes};

verus! {

/// Longest varint of a `u64`.
pub const VARINT_MAX: usize = 10;

/// The minimal unsigned LEB128 encoding of `n`.
pub open spec fn varint(n: u64) -> Seq<u8>
    decreases n,
{
    if n < 128 {
        seq![n as u8]
    } else {
        seq![((n % 128) + 128) as u8] + varint(n / 128)
    }
}

/// Reading a varint at `pos`, `i` bytes in, with the value `acc` so far:
/// the value and the position after it.
pub open spec fn varint_step(s: Seq<u8>, pos: int, i: nat, acc: int) -> Option<(int, int)>
    decreases 10 - i,
{
    if i >= 10 || pos < 0 || pos + i >= s.len() {
        None
    } else {
        let b = s[pos + i];
        let acc2 = acc + (b % 128) * p2(7 * i);
        if b < 128 {
            if i == 9 && b > 1 {
                None
            } else {
                Some((acc2, pos + i + 1))
            }
        } else {
            varint_step(s, pos, i + 1, acc2)
        }
    }
}

/// The varint at `pos`: its value and the position after it.
pub open spec fn parse_varint(s: Seq<u8>, pos: int) -> Option<(u64, int)> {
    match varint_step(s, pos, 0, 0) {
        Some((v, e)) => Some((v as u64, e)),
        None => None,
    }
}

/// The byte string at `pos` (length, then bytes) and the position after it.
pub open spec fn parse_bytes(s: Seq<u8>, pos: int) -> Option<(Seq<u8>, int)> {
    match parse_varint(s, pos) {
        None => None,
        Some((len, p)) => if p + len <= s.len() {
            Some((s.subrange(p, p + len), p + len))
        } else {
            None
        },
    }
}

/// The encoding of a byte string: its length, then its bytes.
pub open spec fn bytes_field(b: Seq<u8>) -> Seq<u8> {
    varint(b.len() as u64) + b
}

/// Appends the varint of `n`.
pub fn push_varint(out: &mut Vec<u8>, n: u64)
    ensures
        final(out)@ == old(out)@ + varint(n),
    decreases n,
{
    if n < 128 {
        out.push(n as u8);
        assert(out@ =~= old(out)@ + varint(n));
    } else {
        out.push(((n % 128) + 128) as u8);
        let ghost mid = out@;
        push_varint(out, n / 128);
        assert(out@ =~= old(out)@ + varint(n));
    }
}

/// Appends a byte string: its length as a varint, then the bytes.
pub fn push_bytes_field(out: &mut Vec<u8>, b: &[u8])
    ensures
        final(out)@ == old(out)@ + bytes_field(b@),
{
    push_varint(out, b.len() as u64);
    extend_bytes(out, b);
    assert(out@ =~= old(out)@ + bytes_field(b@));
}

/// Reads the varint at `pos`, as `postcard` decodes a `u64`.
#[verifier::rlimit(30)]
pub fn read_varint(s: &[u8], pos: usize) -> (r: Option<(u64, usize)>)
    ensures
        match parse_varint(s@, pos as int) {
            Some((v, e)) => r matches Some(x) && x.0 == v && x.1 as int == e,
            None => r is None,
        },
        r matches Some(p) ==> p.1 <= s@.len(),
{
    proof {
        vstd::arithmetic::power2::lemma2_to64();
    }
    let mut acc: u64 = 0;
    let mut i: usize = 0;
    let mut scale: u64 = 1;
    while i < VARINT_MAX
        invariant
            0 <= i <= 10,
            scale == p2(7 * i as nat),
            acc < scale,
            varint_step(s@, pos as int, 0, 0) == varint_step(s@, pos as int, i as nat, acc as int),
        decreases 10 - i,
    {
        if pos >= s.len() || i >= s.len() - pos {
            return None;
        }
        let b = s[pos + i];
        if i == 9 && b > 1 {
            assert(b >= 128 ==> varint_step(s@, pos as int, 10, acc + (b % 128) * p2(63)) is None);
            return None;
        }
        proof {
            vstd::arithmetic::power2::lemma2_to64();
            vstd::arithmetic::power2::lemma2_to64_rest();
            vstd::arithmetic::power2::lemma_pow2_adds(7 * i as nat, 7);
            assert(7 * (i + 1) as nat == 7 * i as nat + 7);
            assert((b % 128) * scale <= 127 * scale) by (nonlinear_arith)
                requires b % 128 <= 127, scale >= 0;
            if i < 9 {
                assert(p2(7 * (i + 1) as nat) == scale * 128);
                assert(p2(7 * (i + 1) as nat) <= p2(63)) by {
                    if 7 * (i + 1) < 63 {
                        vstd::arithmetic::power2::lemma_pow2_strictly_increases(7 * (i + 1) as nat, 63);
                    }
                }
                assert(acc + (b % 128) * scale < p2(63));
            } else {
                assert(scale == p2(63));
                assert((b % 128) * scale <= scale) by (nonlinear_arith)
                    requires b % 128 <= 1, scale >= 0;
                assert(acc + (b % 128) * scale < 2 * p2(63));
            }
        }
        let carry: u64 = (b % 128) as u64;
        assert(carry == b % 128);
        assert(p2(63) == 9223372036854775808u64);
        assert(carry * scale <= 18446744073709551615u64);
        let prod = carry * scale;
        let next = acc + prod;
        if b < 128 {
            return Some((next, pos + i + 1));
        }
        if i == 9 {
            return None;
        }
        acc = next;
        scale = scale * 128;
        i = i + 1;
    }
    None
}

/// Reads the byte string at `pos` (varint length, then bytes).
pub fn read_bytes(s: &[u8], pos: usize) -> (r: Option<(Vec<u8>, usize)>)
    ensures
        match parse_bytes(s@, pos as int) {
            Some((b, e)) => r matches Some(p) && p.0@ == b && p.1 == e,
            None => r is None,
        },
{
    let (len, p) = match read_varint(s, pos) {
        Some(x) => x,
        None => return None,
    };
    assert(p <= s.len());
    if len > (s.len() - p) as u64 {
        return None;
    }
    let end = p + len as usize;
    Some((copy_range(s, p, end), end))
}

// ---------------------------------------------------------------------------
// Reading back what was written
// ---------------------------------------------------------------------------

proof fn lemma_varint_len(m: u64)
    ensures
        varint(m).len() >= 1,
        varint(m)[0] < 128 <==> m < 128,
        m >= 128 ==> varint(m)[0] % 128 == m % 128,
        m < 128 ==> varint(m)[0] == m,
    decreases m,
{
}

#[verifier::rlimit(40)]
proof fn lemma_varint_step(s: Seq<u8>, pos: int, n: u64, i: nat, acc: int, m: u64)
    requires
        0 <= pos,
        i <= 9,
        pos + i + varint(m).len() <= s.len(),
        s.subrange(pos + i, pos + i + varint(m).len()) == varint(m),
        acc + m * p2(7 * i) == n,
        0 <= acc < p2(7 * i),
    ensures
        varint_step(s, pos, i, acc) == Some((n as int, pos + i + varint(m).len())),
    decreases m,
{
    vstd::arithmetic::power2::lemma2_to64();
    vstd::arithmetic::power2::lemma2_to64_rest();
    vstd::arithmetic::power2::lemma_pow2_pos(7 * i);
    lemma_varint_len(m);
    let b = s[pos + i];
    assert(b == varint(m)[0]);
    if i == 9 {
        assert(p2(63) == 9223372036854775808int);
        assert(m * p2(63) <= n) by (nonlinear_arith)
            requires acc + m * p2(63) == n, acc >= 0;
        assert(m <= 1) by (nonlinear_arith)
            requires m * p2(63) <= n, n < 18446744073709551616int, p2(63) == 9223372036854775808int;
    }
    if m >= 128 {
        let m2 = m / 128;
        let rest = varint(m2);
        assert(varint(m) == seq![((m % 128) + 128) as u8] + rest);
        if i == 9 {
            assert(false);
        }
        vstd::arithmetic::power2::lemma_pow2_adds(7 * i, 7);
        assert(7 * (i + 1) == 7 * i + 7);
        let scale = p2(7 * i);
        assert(p2(7 * (i + 1)) == scale * 128);
        let acc2 = acc + (b % 128) * scale;
        assert(acc2 + m2 * p2(7 * (i + 1)) == n) by (nonlinear_arith)
            requires acc2 == acc + (m % 128) * scale, p2(7 * (i + 1)) == scale * 128, acc + m * scale == n, m2 == m / 128;
        assert(acc2 < p2(7 * (i + 1))) by (nonlinear_arith)
            requires acc2 == acc + (m % 128) * scale, p2(7 * (i + 1)) == scale * 128, acc < scale, m % 128 <= 127;
        assert(s.subrange(pos + i + 1, pos + i + 1 + rest.len()) =~= rest) by {
            assert forall|k: int| 0 <= k < rest.len() implies #[trigger] s.subrange(pos + i + 1, pos + i + 1 + rest.len())[k] == rest[k] by {
                assert(s.subrange(pos + i, pos + i + varint(m).len())[k + 1] == varint(m)[k + 1]);
            }
        }
        lemma_varint_step(s, pos, n, i + 1, acc2, m2);
    }
}

/// The varint of `n` reads back as `n`, whatever follows it.
pub proof fn lemma_varint_roundtrip(s: Seq<u8>, pos: int, n: u64)
    requires
        0 <= pos,
        pos + varint(n).len() <= s.len(),
        s.subrange(pos, pos + varint(n).len()) == varint(n),
    ensures
        parse_varint(s, pos) == Some((n, pos + varint(n).len())),
{
    vstd::arithmetic::power2::lemma2_to64();
    assert(p2(7 * 0nat) == 1);
    assert(0 + n * p2(7 * 0nat) == n);
    lemma_varint_step(s, pos, n, 0, 0, n);
}

/// A byte string field reads back as the byte string, whatever follows it.
pub proof fn lemma_bytes_roundtrip(s: Seq<u8>, pos: int, b: Seq<u8>)
    requires
        0 <= pos,
        b.len() <= u64::MAX,
        pos + bytes_field(b).len() <= s.len(),
        s.subrange(pos, pos + bytes_field(b).len()) == bytes_field(b),
    ensures
        parse_bytes(s, pos) == Some((b, pos + bytes_field(b).len())),
{
    let v = varint(b.len() as u64);
    assert(s.subrange(pos, pos + v.len()) =~= v) by {
        assert forall|k: int| 0 <= k < v.len() implies #[trigger] s.subrange(pos, pos + v.len())[k] == v[k] by {
            assert(s.subrange(pos, pos + bytes_field(b).len())[k] == bytes_field(b)[k]);
        }
    }
    lemma_varint_roundtrip(s, pos, b.len() as u64);
    assert(s.subrange(pos + v.len(), pos + v.len() + b.len()) =~= b) by {
        assert forall|k: int| 0 <= k < b.len() implies #[trigger] s.subrange(pos + v.len(), pos + v.len() + b.len())[k] == b[k] by {
            assert(s.subrange(pos, pos + bytes_field(b).len())[v.len() + k] == bytes_field(b)[v.len() + k]);
        }
    }
}

// ---------------------------------------------------------------------------
// Sequences of byte-string fields
// ---------------------------------------------------------------------------

/// The encodings of the byte strings `fs`, one after the other.
pub open spec fn fields_bytes(fs: Seq<Seq<u8>>) -> Seq<u8>
    decreases fs.len(),
{
    if fs.len() == 0 {
        Seq::empty()
    } else {
        fields_bytes(fs.drop_last()) + bytes_field(fs.last())
    }
}

/// `k` byte strings read one after the other from `pos`, and the position
/// after them.
pub open spec fn parse_fields(s: Seq<u8>, pos: int, k: nat) -> Option<(Seq<Seq<u8>>, int)>
    decreases k,
{
    if k == 0 {
        Some((Seq::empty(), pos))
    } else {
        match parse_fields(s, pos, (k - 1) as nat) {
            None => None,
            Some((fs, p)) => match parse_bytes(s, p) {
                None => None,
                Some((b, q)) => Some((fs.push(b), q)),
            },
        }
    }
}

/// Reads `k` byte strings one after the other from `pos`.
pub fn read_fields(s: &[u8], pos: usize, k: usize) -> (r: Option<(Vec<Vec<u8>>, usize)>)
    requires
        pos <= s@.len(),
    ensures
        match parse_fields(s@, pos as int, k as nat) {
            Some((fs, e)) => fs.len() == k && (r matches Some(x) && x.0@.len() == k && (forall|j: int|
                0 <= j < k ==> (#[trigger] x.0@[j])@ == fs[j]) && x.1 as int == e),
            None => r is None,
        },
{
    let mut out: Vec<Vec<u8>> = Vec::new();
    let mut p = pos;
    let mut i: usize = 0;
    while i < k
        invariant
            0 <= i <= k,
            p <= s@.len(),
            parse_fields(s@, pos as int, i as nat) matches Some((fs, e)) && fs.len() == i && out@.len()
                == i && (forall|j: int| 0 <= j < i ==> (#[trigger] out@[j])@ == fs[j]) && p as int == e,
        decreases k - i,
    {
        let ghost prev = out@;
        let ghost fs_old = parse_fields(s@, pos as int, i as nat)->Some_0.0;
        let (b, q) = match read_bytes(s, p) {
            None => {
                proof {
                    lemma_parse_fields_none(s@, pos as int, (i + 1) as nat, k as nat);
                }
                return None;
            },
            Some(x) => x,
        };
        let ghost bv = b@;
        out.push(b);
        p = q;
        i = i + 1;
        proof {
            assert(parse_fields(s@, pos as int, i as nat) == Some((fs_old.push(bv), q as int)));
            assert forall|j: int| 0 <= j < i implies (#[trigger] out@[j])@ == fs_old.push(bv)[j] by {
                if j < i - 1 {
                    assert(out@[j] == prev[j]);
                }
            }
        }
    }
    Some((out, p))
}

/// Once reading fails, reading more fields fails too.
proof fn lemma_parse_fields_none(s: Seq<u8>, pos: int, i: nat, k: nat)
    requires
        i <= k,
        parse_fields(s, pos, i) is None,
    ensures
        parse_fields(s, pos, k) is None,
    decreases k - i,
{
    if i < k {
        lemma_parse_fields_none(s, pos, i + 1, k);
    }
}

/// Encoded fields read back as the fields, whatever follows them.
pub proof fn lemma_fields_roundtrip(s: Seq<u8>, pos: int, fs: Seq<Seq<u8>>)
    requires
        0 <= pos,
        forall|j: int| 0 <= j < fs.len() ==> (#[trigger] fs[j]).len() <= u64::MAX,
        pos + fields_bytes(fs).len() <= s.len(),
        s.subrange(pos, pos + fields_bytes(fs).len()) == fields_bytes(fs),
    ensures
        parse_fields(s, pos, fs.len()) == Some((fs, pos + fields_bytes(fs).len())),
    decreases fs.len(),
{
    if fs.len() == 0 {
        assert(fs =~= Seq::<Seq<u8>>::empty());
    } else {
        let d = fs.drop_last();
        let a = fields_bytes(d);
        let f = bytes_field(fs.last());
        assert(fields_bytes(fs) == a + f);
        assert(s.subrange(pos, pos + a.len()) =~= a) by {
            assert forall|k: int| 0 <= k < a.len() implies #[trigger] s.subrange(pos, pos + a.len())[k] == a[k] by {
                assert(s.subrange(pos, pos + fields_bytes(fs).len())[k] == fields_bytes(fs)[k]);
            }
        }
        lemma_fields_roundtrip(s, pos, d);
        assert(s.subrange(pos + a.len(), pos + a.len() + f.len()) =~= f) by {
            assert forall|k: int| 0 <= k < f.len() implies #[trigger] s.subrange(pos + a.len(), pos + a.len() + f.len())[k] == f[k] by {
                assert(s.subrange(pos, pos + fields_bytes(fs).len())[a.len() + k] == fields_bytes(fs)[a.len() + k]);
            }
        }
        lemma_bytes_roundtrip(s, pos + a.len(), fs.last());
        assert(d.push(fs.last()) =~= fs);
    }
}

} // verus!
