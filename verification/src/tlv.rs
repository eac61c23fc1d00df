//! The DER tag-length-value layer: the byte-level grammar of a single
//! encoded value, as specification functions over byte sequences, together
//! with the executable readers and writers proved against that grammar.
//!
//! Only definite, shortest-form ("canonical") lengths are accepted, and only
//! single-byte tags: that is exactly the subset of the tag-length-value
//! discipline that DER permits for this container.

use vstd::prelude::*;

verus! {

/// The value of a byte string read as a big-endian base-256 number.
pub open spec fn be_val(s: Seq<u8>) -> nat
    decreases s.len(),
{
    if s.len() == 0 {
        0
    } else {
        be_val(s.drop_last()) * 256 + s.last() as nat
    }
}

/// The shortest big-endian base-256 encoding of a number (empty for zero,
/// never a leading zero byte).
pub open spec fn be_bytes(n: nat) -> Seq<u8>
    decreases n,
{
    if n == 0 {
        Seq::<u8>::empty()
    } else {
        be_bytes(n / 256).push((n % 256) as u8)
    }
}

/// 256 raised to the power `k`.
pub open spec fn pow256(k: nat) -> nat
    decreases k,
{
    if k == 0 {
        1
    } else {
        256 * pow256((k - 1) as nat)
    }
}

/// The canonical DER definite-length header for a content length `l`:
/// one byte `l` in short form (`l < 0x80`), otherwise `0x80 + n` followed
/// by the `n`-byte shortest big-endian encoding of `l`.
pub open spec fn len_octets(l: nat) -> Seq<u8> {
    if l < 0x80 {
        seq![l as u8]
    } else {
        seq![(0x80 + be_bytes(l).len()) as u8] + be_bytes(l)
    }
}

/// One complete tag-length-value encoding: the tag byte, the canonical
/// length header for the contents, then the contents.
pub open spec fn tlv_bytes(tag: u8, contents: Seq<u8>) -> Seq<u8> {
    seq![tag] + len_octets(contents.len()) + contents
}

/// Parses a canonical definite-length header at the front of `s`.
/// Returns the encoded length and the number of header bytes consumed, or
/// `None` when the header is absent, truncated, indefinite (`0x80`),
/// reserved (`0xff`), or not in shortest form.
pub open spec fn parse_len(s: Seq<u8>) -> Option<(nat, nat)> {
    if s.len() == 0 {
        None
    } else if s[0] < 0x80 {
        Some((s[0] as nat, 1))
    } else if s[0] == 0x80 || s[0] == 0xff {
        None
    } else {
        let n = (s[0] - 0x80) as nat;
        if s.len() < 1 + n {
            None
        } else if s[1] == 0 || (n == 1 && s[1] < 0x80) {
            None
        } else {
            Some((be_val(s.subrange(1, 1 + n as int)), 1 + n))
        }
    }
}

/// Parses one complete tag-length-value encoding at the front of `s`.
/// Returns the tag, the contents, and the total number of bytes consumed,
/// or `None` when `s` does not start with a well-formed encoding (no tag
/// byte, a multi-byte tag form, a bad length header, or fewer content
/// bytes than the header claims).
pub open spec fn parse_tlv(s: Seq<u8>) -> Option<(u8, Seq<u8>, nat)> {
    if s.len() == 0 {
        None
    } else if s[0] & 0x1f == 0x1f {
        None
    } else {
        match parse_len(s.skip(1)) {
            None => None,
            Some(lh) => {
                let l = lh.0;
                let h = lh.1;
                if s.len() < 1 + h + l {
                    None
                } else {
                    Some((s[0], s.subrange(1 + h as int, 1 + h as int + l as int), 1 + h + l))
                }
            },
        }
    }
}

/// `s` is exactly one well-formed tag-length-value encoding, with nothing
/// before or after it.
pub open spec fn is_tlv(s: Seq<u8>) -> bool {
    match parse_tlv(s) {
        Some(tcn) => tcn.2 == s.len(),
        None => false,
    }
}

/// Reading back the shortest big-endian encoding of `n` yields `n`.
pub proof fn lemma_be_bytes_val(n: nat)
    ensures
        be_val(be_bytes(n)) == n,
    decreases n,
{
    if n != 0 {
        lemma_be_bytes_val(n / 256);
        assert(be_bytes(n) == be_bytes(n / 256).push((n % 256) as u8));
        assert(be_bytes(n).drop_last() =~= be_bytes(n / 256));
    }
}

/// The shortest big-endian encoding of a nonzero number is nonempty and has
/// no leading zero byte.
pub proof fn lemma_be_bytes_first(n: nat)
    requires
        n > 0,
    ensures
        be_bytes(n).len() >= 1,
        be_bytes(n)[0] != 0,
    decreases n,
{
    if n < 256 {
        assert(n / 256 == 0);
        assert(be_bytes(0) =~= Seq::<u8>::empty());
        assert(be_bytes(n) =~= seq![n as u8]);
    } else {
        lemma_be_bytes_first(n / 256);
    }
}

/// A number below `256^k` takes at most `k` bytes.
pub proof fn lemma_be_bytes_len(n: nat, k: nat)
    requires
        n < pow256(k),
    ensures
        be_bytes(n).len() <= k,
    decreases k,
{
    if n != 0 {
        assert(k > 0);
        assert(n < 256 * pow256((k - 1) as nat));
        assert(n / 256 < pow256((k - 1) as nat)) by (nonlinear_arith)
            requires
                n < 256 * pow256((k - 1) as nat),
        ;
        lemma_be_bytes_len(n / 256, (k - 1) as nat);
    }
}

/// A byte string with a nonzero first byte has a big-endian value of at
/// least `256` to the power of one less than its length.
pub proof fn lemma_be_val_lower(s: Seq<u8>)
    requires
        s.len() >= 1,
        s[0] != 0,
    ensures
        be_val(s) >= pow256((s.len() - 1) as nat),
    decreases s.len(),
{
    if s.len() == 1 {
        assert(be_val(s) == be_val(s.drop_last()) * 256 + s.last());
    } else {
        lemma_be_val_lower(s.drop_last());
    }
}

/// `pow256` grows with its exponent.
pub proof fn lemma_pow256_le(i: nat, j: nat)
    requires
        i <= j,
    ensures
        pow256(i) <= pow256(j),
        pow256(i) >= 1,
    decreases j,
{
    if j != 0 {
        if i == j {
            lemma_pow256_le((i - 1) as nat, (j - 1) as nat);
        } else {
            lemma_pow256_le(i, (j - 1) as nat);
        }
    }
}

/// A byte string with a nonzero first byte (or the empty string) is the
/// shortest big-endian encoding of its own value.
pub proof fn lemma_be_bytes_of_val(s: Seq<u8>)
    requires
        s.len() == 0 || s[0] != 0,
    ensures
        be_bytes(be_val(s)) == s,
    decreases s.len(),
{
    if s.len() == 0 {
    } else {
        let d = s.drop_last();
        let v = be_val(s);
        assert(v == be_val(d) * 256 + s.last());
        assert(v / 256 == be_val(d) && v % 256 == s.last()) by (nonlinear_arith)
            requires
                v == be_val(d) * 256 + s.last(),
                0 <= s.last() < 256,
        ;
        if s.len() == 1 {
            assert(d =~= Seq::<u8>::empty());
            assert(v == s.last());
            assert(v != 0);
            assert(be_bytes(v) == be_bytes(v / 256).push((v % 256) as u8));
            assert(be_bytes(v) =~= s);
        } else {
            assert(d[0] == s[0]);
            lemma_be_bytes_of_val(d);
            if v == 0 {
                lemma_be_val_lower(s);
                lemma_pow256_le(0, (s.len() - 1) as nat);
                assert(false);
            }
            assert(be_bytes(v) == be_bytes(be_val(d)).push((v % 256) as u8));
            assert(be_bytes(v) =~= s);
        }
    }
}

/// A length header is read from the bytes it occupies alone: any byte
/// string that agrees with `s1` on those bytes parses to the same header.
pub proof fn lemma_parse_len_prefix(s1: Seq<u8>, s2: Seq<u8>, l: nat, h: nat)
    requires
        parse_len(s1) == Some((l, h)),
        s2.len() >= h,
        s2.take(h as int) == s1.take(h as int),
    ensures
        parse_len(s2) == Some((l, h)),
{
    assert forall|i: int| 0 <= i < h implies s2[i] == #[trigger] s1[i] by {
        assert(s2[i] == s2.take(h as int)[i]);
        assert(s1[i] == s1.take(h as int)[i]);
    }
    assert(s2[0] == s1[0]);
    if s1[0] < 0x80 {
    } else {
        let n = (s1[0] - 0x80) as nat;
        assert(s2[1] == s1[1]);
        assert(s2.subrange(1, 1 + n as int) =~= s1.subrange(1, 1 + n as int));
    }
}

/// A tag-length-value encoding is read from the bytes it occupies alone:
/// any byte string that agrees with `s1` on those `n` bytes parses to the
/// same value.
pub proof fn lemma_parse_tlv_prefix(s1: Seq<u8>, s2: Seq<u8>, t: u8, c: Seq<u8>, n: nat)
    requires
        parse_tlv(s1) == Some((t, c, n)),
        s2.len() >= n,
        s2.take(n as int) == s1.take(n as int),
    ensures
        parse_tlv(s2) == Some((t, c, n)),
{
    let lh = parse_len(s1.skip(1))->Some_0;
    let l = lh.0;
    let h = lh.1;
    assert(n == 1 + h + l);
    assert forall|i: int| 0 <= i < n implies s2[i] == #[trigger] s1[i] by {
        assert(s2[i] == s2.take(n as int)[i]);
        assert(s1[i] == s1.take(n as int)[i]);
    }
    assert(s2[0] == s1[0]);
    assert(s2.skip(1).take(h as int) =~= s1.skip(1).take(h as int));
    lemma_parse_len_prefix(s1.skip(1), s2.skip(1), l, h);
    assert(s2.subrange(1 + h as int, 1 + h as int + l as int) =~= s1.subrange(
        1 + h as int,
        1 + h as int + l as int,
    ));
}

/// The first `n` bytes under a successful parse are themselves exactly one
/// well-formed tag-length-value encoding.
pub proof fn lemma_parse_tlv_take(s: Seq<u8>, t: u8, c: Seq<u8>, n: nat)
    requires
        parse_tlv(s) == Some((t, c, n)),
    ensures
        parse_tlv(s.take(n as int)) == Some((t, c, n)),
        is_tlv(s.take(n as int)),
{
    assert(s.take(n as int).take(n as int) =~= s.take(n as int));
    lemma_parse_tlv_prefix(s, s.take(n as int), t, c, n);
}

/// A length header that parses is the canonical header of the length it
/// encodes: DER admits no other byte form for it.
pub proof fn lemma_parse_len_canonical(s: Seq<u8>, l: nat, h: nat)
    requires
        parse_len(s) == Some((l, h)),
    ensures
        s.take(h as int) == len_octets(l),
        len_octets(l).len() == h,
{
    if s[0] < 0x80 {
        assert(s.take(1) =~= seq![s[0]]);
    } else {
        let n = (s[0] - 0x80) as nat;
        let lb = s.subrange(1, 1 + n as int);
        assert(lb[0] == s[1]);
        lemma_be_bytes_of_val(lb);
        assert(be_bytes(l) == lb);
        if n == 1 {
            assert(lb.drop_last() =~= Seq::<u8>::empty());
            assert(be_val(lb) == be_val(lb.drop_last()) * 256 + lb.last() as nat);
            assert(l == lb[0]);
        } else {
            lemma_be_val_lower(lb);
            lemma_pow256_le(1, (n - 1) as nat);
            assert(pow256(1) == 256) by {
                reveal_with_fuel(pow256, 2);
            }
        }
        assert(!(l < 0x80));
        assert((0x80 + be_bytes(l).len()) as u8 == s[0]);
        assert(s.take(h as int) =~= seq![(0x80 + be_bytes(l).len()) as u8] + be_bytes(l));
    }
}

/// A tag-length-value encoding that parses is the canonical encoding of
/// its tag and contents, byte for byte.
pub proof fn lemma_parse_tlv_canonical(s: Seq<u8>, t: u8, c: Seq<u8>, n: nat)
    requires
        parse_tlv(s) == Some((t, c, n)),
    ensures
        s.take(n as int) == tlv_bytes(t, c),
        tlv_bytes(t, c).len() == n,
{
    let lh = parse_len(s.skip(1))->Some_0;
    let l = lh.0;
    let h = lh.1;
    assert(n == 1 + h + l);
    lemma_parse_len_canonical(s.skip(1), l, h);
    assert(c.len() == l);
    assert(s.skip(1).take(h as int) =~= len_octets(l));
    assert forall|i: int| 0 <= i < h implies len_octets(l)[i] == #[trigger] s[1 + i] by {
        assert(len_octets(l)[i] == s.skip(1).take(h as int)[i]);
        assert(s.skip(1).take(h as int)[i] == s.skip(1)[i]);
    }
    assert(s.take(n as int) =~= seq![t] + len_octets(c.len()) + c);
}

/// The canonical length header parses back to the length it encodes, with
/// anything at all after it.
pub proof fn lemma_parse_len_of_len_octets(l: nat, rest: Seq<u8>)
    requires
        l < pow256(8),
    ensures
        parse_len(len_octets(l) + rest) == Some((l, len_octets(l).len() as nat)),
{
    let s = len_octets(l) + rest;
    if l < 0x80 {
        assert(s[0] == l as u8);
    } else {
        let be = be_bytes(l);
        lemma_be_bytes_first(l);
        lemma_be_bytes_len(l, 8);
        lemma_be_bytes_val(l);
        let nb = be.len();
        assert(s[0] == (0x80 + nb) as u8);
        assert(0x80 < 0x80 + nb < 0xff);
        let n = (s[0] - 0x80) as nat;
        assert(n == nb);
        assert(s.len() >= 1 + n);
        assert(s.subrange(1, 1 + n as int) =~= be);
        assert(s[1] == be[0]);
        if n == 1 {
            assert(be_val(be) == be_val(be.drop_last()) * 256 + be.last() as nat);
            assert(be.drop_last() =~= Seq::<u8>::empty());
            assert(be[0] == l);
        }
    }
}

/// The canonical tag-length-value encoding parses back to its tag and
/// contents, with anything at all after it.
pub proof fn lemma_parse_tlv_of_tlv(t: u8, c: Seq<u8>, rest: Seq<u8>)
    requires
        t & 0x1f != 0x1f,
        c.len() < pow256(8),
    ensures
        parse_tlv(tlv_bytes(t, c) + rest) == Some((t, c, tlv_bytes(t, c).len() as nat)),
{
    let s = tlv_bytes(t, c) + rest;
    assert(s[0] == t);
    assert(s.skip(1) =~= len_octets(c.len()) + (c + rest));
    lemma_parse_len_of_len_octets(c.len(), c + rest);
    let h = len_octets(c.len()).len();
    assert(s.len() >= 1 + h + c.len());
    assert(s.subrange(1 + h as int, 1 + h as int + c.len() as int) =~= c);
}

/// Reads a canonical definite-length header at `pos`. On success, the
/// returned value and header size match `parse_len` on the suffix; on
/// failure, either the header is invalid or the length it encodes exceeds
/// the whole input, so no value could follow it in `bytes` either way.
pub(crate) fn read_len(bytes: &[u8], pos: usize) -> (r: Result<(usize, usize), ()>)
    requires
        pos <= bytes@.len(),
    ensures
        match r {
            Ok(vh) => {
                &&& parse_len(bytes@.skip(pos as int)) == Some((vh.0 as nat, vh.1 as nat))
                &&& pos + vh.1 <= bytes@.len()
                &&& vh.1 >= 1
            },
            Err(()) => match parse_len(bytes@.skip(pos as int)) {
                Some(vh) => vh.0 > bytes@.len(),
                None => true,
            },
        },
{
    let total = bytes.len();
    let ghost s = bytes@.skip(pos as int);
    if pos == total {
        return Err(());
    }
    let b0 = bytes[pos];
    assert(s[0] == b0);
    if b0 < 0x80 {
        return Ok((b0 as usize, 1));
    }
    if b0 == 0x80 || b0 == 0xff {
        return Err(());
    }
    let n: usize = (b0 - 0x80) as usize;
    if total - (pos + 1) < n {
        assert(s.len() < 1 + n);
        return Err(());
    }
    let first = bytes[pos + 1];
    assert(s[1] == first);
    if first == 0 || (n == 1 && first < 0x80) {
        return Err(());
    }
    let ghost lb = s.subrange(1, 1 + n as int);
    proof {
        assert(lb =~= bytes@.subrange(pos + 1, pos + 1 + n as int));
        assert(lb[0] == first);
        assert(parse_len(s) == Some((be_val(lb), (1 + n) as nat)));
    }
    if n > 8 {
        proof {
            lemma_be_val_lower(lb);
            lemma_pow256_le(8, (n - 1) as nat);
            assert(pow256(8) == 0x1_0000_0000_0000_0000) by {
                reveal_with_fuel(pow256, 9);
            }
            assert(be_val(lb) >= pow256(8));
            assert(bytes@.len() <= usize::MAX < pow256(8));
        }
        return Err(());
    }
    let mut v: u64 = 0;
    let mut i: usize = 0;
    proof {
        assert(pow256(8) == 0x1_0000_0000_0000_0000) by {
            reveal_with_fuel(pow256, 9);
        }
    }
    while i < n
        invariant
            i <= n,
            n <= 8,
            pos + 1 + n <= bytes@.len(),
            bytes@.len() <= usize::MAX,
            pow256(8) == 0x1_0000_0000_0000_0000,
            v as nat == be_val(bytes@.subrange(pos + 1, pos + 1 + i as int)),
            (v as nat) < pow256(i as nat),
        decreases n - i,
    {
        proof {
            lemma_pow256_le(i as nat, 7);
            assert(pow256(7) * 256 == pow256(8)) by {
                reveal_with_fuel(pow256, 9);
            }
            let pre = bytes@.subrange(pos + 1, pos + 1 + i as int);
            let ext = bytes@.subrange(pos + 1, pos + 1 + (i + 1) as int);
            assert(ext.drop_last() =~= pre);
            assert(ext.last() == bytes@[pos + 1 + i]);
            assert(be_val(ext) == be_val(pre) * 256 + bytes@[pos + 1 + i]);
        }
        v = v * 256 + (bytes[pos + 1 + i] as u64);
        i = i + 1;
    }
    proof {
        assert(bytes@.subrange(pos + 1, pos + 1 + n as int) =~= lb);
    }
    if v > (usize::MAX as u64) {
        return Err(());
    }
    Ok((v as usize, 1 + n))
}

/// Reads one complete tag-length-value encoding at `pos`. On success the
/// tag, the content range, and the bytes consumed match `parse_tlv` on the
/// suffix; on failure the suffix holds no well-formed encoding.
pub(crate) fn read_tlv(bytes: &[u8], pos: usize) -> (r: Result<(u8, usize, usize), ()>)
    requires
        pos <= bytes@.len(),
    ensures
        match r {
            Ok(tcl) => {
                &&& pos + 2 <= tcl.1
                &&& tcl.1 + tcl.2 <= bytes@.len()
                &&& parse_tlv(bytes@.skip(pos as int)) == Some(
                    (tcl.0, bytes@.subrange(tcl.1 as int, tcl.1 + tcl.2 as int), ((tcl.1 - pos)
                        + tcl.2) as nat),
                )
            },
            Err(()) => parse_tlv(bytes@.skip(pos as int)) is None,
        },
{
    let total = bytes.len();
    let ghost s = bytes@.skip(pos as int);
    if pos == total {
        return Err(());
    }
    let t = bytes[pos];
    assert(s[0] == t);
    if t & 0x1f == 0x1f {
        return Err(());
    }
    proof {
        assert(s.skip(1) =~= bytes@.skip(pos + 1));
    }
    match read_len(bytes, pos + 1) {
        Err(()) => {
            proof {
                if parse_len(s.skip(1)) is Some {
                    let vh = parse_len(s.skip(1)).unwrap();
                    assert(vh.0 > bytes@.len());
                    assert(s.len() < 1 + vh.1 + vh.0);
                }
            }
            Err(())
        },
        Ok((l, h)) => {
            let cs = pos + 1 + h;
            if l > total - cs {
                proof {
                    assert(s.len() < 1 + h + l);
                }
                return Err(());
            }
            proof {
                assert(s.len() >= 1 + h + l);
                assert(s.subrange(1 + h as int, 1 + h as int + l as int) =~= bytes@.subrange(
                    cs as int,
                    cs + l as int,
                ));
            }
            Ok((t, cs, l))
        },
    }
}

/// Emits the shortest big-endian encoding of `l`.
pub(crate) fn be_bytes_exec(l: usize) -> (r: Vec<u8>)
    ensures
        r@ == be_bytes(l as nat),
    decreases l,
{
    if l == 0 {
        let r: Vec<u8> = Vec::new();
        proof {
            assert(r@ =~= be_bytes(0));
        }
        r
    } else {
        let mut r = be_bytes_exec(l / 256);
        r.push((l % 256) as u8);
        proof {
            assert(r@ =~= be_bytes(l as nat));
        }
        r
    }
}

/// Appends a copy of `src` to `out`.
pub(crate) fn append_from(out: Vec<u8>, src: &[u8]) -> (r: Vec<u8>)
    ensures
        r@ == out@ + src@,
{
    let ghost orig = out@;
    let mut o = out;
    let mut i: usize = 0;
    proof {
        assert(o@ =~= orig + src@.take(0));
    }
    while i < src.len()
        invariant
            i <= src@.len(),
            o@ == orig + src@.take(i as int),
        decreases src@.len() - i,
    {
        o.push(src[i]);
        i = i + 1;
        proof {
            assert(orig + src@.take(i as int) =~= (orig + src@.take(i - 1)).push(src@[i - 1]));
        }
    }
    proof {
        assert(orig + src@.take(src@.len() as int) =~= orig + src@);
    }
    o
}

/// The number of bytes in the canonical length header for `l`.
pub(crate) fn len_hdr_size(l: usize) -> (r: usize)
    ensures
        r as nat == len_octets(l as nat).len(),
        1 <= r <= 9,
{
    if l < 0x80 {
        1
    } else {
        proof {
            assert((usize::MAX as nat) < pow256(8)) by {
                reveal_with_fuel(pow256, 9);
            }
            lemma_be_bytes_len(l as nat, 8);
        }
        let b = be_bytes_exec(l);
        1 + b.len()
    }
}

/// Appends the canonical length header for `l` to `out`.
pub(crate) fn append_len(out: Vec<u8>, l: usize) -> (r: Vec<u8>)
    ensures
        r@ == out@ + len_octets(l as nat),
{
    let ghost orig = out@;
    let mut o = out;
    if l < 0x80 {
        o.push(l as u8);
        proof {
            assert(o@ =~= orig + len_octets(l as nat));
        }
        o
    } else {
        proof {
            assert((usize::MAX as nat) < pow256(8)) by {
                reveal_with_fuel(pow256, 9);
            }
            lemma_be_bytes_len(l as nat, 8);
        }
        let b = be_bytes_exec(l);
        let hb: u8 = 0x80 + (b.len() as u8);
        o.push(hb);
        let o2 = append_from(o, b.as_slice());
        proof {
            assert(o2@ =~= orig + len_octets(l as nat));
        }
        o2
    }
}

/// Copies `bytes[start..end]` into a fresh vector.
pub(crate) fn copy_range(bytes: &[u8], start: usize, end: usize) -> (r: Vec<u8>)
    requires
        start <= end <= bytes@.len(),
    ensures
        r@ == bytes@.subrange(start as int, end as int),
{
    let mut out: Vec<u8> = Vec::new();
    let mut i: usize = start;
    while i < end
        invariant
            start <= i <= end <= bytes@.len(),
            out@ == bytes@.subrange(start as int, i as int),
        decreases end - i,
    {
        out.push(bytes[i]);
        i = i + 1;
        proof {
            assert(bytes@.subrange(start as int, i as int) =~= bytes@.subrange(
                start as int,
                i - 1,
            ).push(bytes@[i - 1]));
        }
    }
    proof {
        assert(out@ =~= bytes@.subrange(start as int, end as int));
    }
    out
}

} // verus!
