//! Base-62 codes for link ids.
use vstd::prelude::*;

verus! {

/// The number that big-endian bytes write.
pub open spec fn be_value(b: Seq<u8>) -> nat
    decreases b.len(),
{
    if b.len() == 0 {
        0
    } else {
        be_value(b.drop_last()) * 256 + (b.last() as nat)
    }
}

pub open spec fn pow256(k: nat) -> nat
    decreases k,
{
    if k == 0 {
        1
    } else {
        256 * pow256((k - 1) as nat)
    }
}

/// How many bytes `n` takes once its leading zero bytes are left out.
pub open spec fn byte_len(n: nat) -> nat
    decreases n,
{
    if n == 0 {
        0
    } else {
        1 + byte_len(n / 256)
    }
}

/// Base-62 digits of `v`, least significant first.
pub open spec fn digits62(v: nat) -> Seq<nat>
    decreases v,
{
    if v == 0 {
        Seq::empty()
    } else {
        seq![v % 62].add(digits62(v / 62))
    }
}

/// The character that stands for digit `d`: `0-9`, then `A-Z`, then `a-z`.
pub open spec fn glyph(d: nat) -> char {
    if d < 10 {
        (48 + d) as char
    } else if d < 36 {
        (55 + d) as char
    } else {
        (61 + d) as char
    }
}

/// The text of a value: the glyphs of its digits, least significant first.
pub open spec fn base62_text(v: nat) -> Seq<char> {
    digits62(v).map_values(|d: nat| glyph(d))
}

/// The number that `base_62` reads for id `n`: a `1` byte in front of the
/// significant bytes of `n`.
pub open spec fn framed(n: u32) -> nat {
    pow256(byte_len(n as nat)) + (n as nat)
}

/// The short code of id `n`: its bytes without the leading zero ones, behind
/// a `1` byte, in base 62. The id 0 has no bytes and the empty code.
pub open spec fn code_of(n: u32) -> Seq<char> {
    if n == 0 {
        Seq::empty()
    } else {
        base62_text(framed(n))
    }
}

/// Relies on base_62::encode: an empty input gives the empty text; other
/// bytes, prefixed by a `1` byte, are read as one big-endian number, which is
/// written out in base 62 from the least significant digit on, over the
/// alphabet `0-9`, `A-Z`, `a-z`.
#[verifier::external_body]
fn base62_encode(bytes: &Vec<u8>) -> (r: String)
    ensures
        bytes@.len() == 0 ==> r@.len() == 0,
        bytes@.len() > 0 ==> r@ == base62_text(be_value(seq![1u8].add(bytes@))),
{
    base_62::encode(bytes)
}

/// The big-endian bytes of `n` without its leading zero bytes.
pub fn significant_bytes(n: u32) -> (r: Vec<u8>)
    ensures
        be_value(r@) == n,
        r@.len() == byte_len(n as nat),
{
    let mut out: Vec<u8> = Vec::new();
    let mut v: u32 = n;
    proof {
        assert(pow256(0) == 1);
        assert(be_value(out@) == 0);
    }
    while v > 0
        invariant
            n == v * pow256(out@.len() as nat) + be_value(out@),
            byte_len(n as nat) == out@.len() + byte_len(v as nat),
        decreases v,
    {
        let d = (v % 256) as u8;
        let ghost old_out = out@;
        out.insert(0, d);
        proof {
            lemma_be_concat(seq![d], old_out);
            assert(seq![d].add(old_out) =~= out@);
            reveal_with_fuel(be_value, 2);
            assert(seq![d].drop_last() =~= Seq::<u8>::empty());
            let p = pow256(old_out.len() as nat);
            assert(pow256(out@.len() as nat) == 256 * p);
            assert(v * p == (v / 256) * (256 * p) + d * p) by (nonlinear_arith)
                requires
                    d == v % 256,
                    v >= 0,
            ;
        }
        v = v / 256;
    }
    out
}

/// The short code of id `n`; non-empty for every id but 0.
pub fn encode(n: u32) -> (r: String)
    ensures
        r@ == code_of(n),
        n > 0 ==> r@.len() > 0,
{
    let bytes = significant_bytes(n);
    proof {
        if n > 0 {
            lemma_byte_len_positive(n as nat);
            lemma_be_concat(seq![1u8], bytes@);
            reveal_with_fuel(be_value, 2);
            assert(seq![1u8].drop_last() =~= Seq::<u8>::empty());
            assert(be_value(seq![1u8]) == 1);
            assert(be_value(seq![1u8].add(bytes@)) == framed(n));
            lemma_text_nonempty(framed(n));
        }
    }
    base62_encode(&bytes)
}

/// Bytes written one after the other: the first ones are worth `256` to the
/// power of the length of the second.
pub proof fn lemma_be_concat(a: Seq<u8>, b: Seq<u8>)
    ensures
        be_value(a.add(b)) == be_value(a) * pow256(b.len()) + be_value(b),
    decreases b.len(),
{
    if b.len() == 0 {
        assert(a.add(b) =~= a);
        assert(pow256(0) == 1);
    } else {
        let c = a.add(b);
        assert(c.drop_last() =~= a.add(b.drop_last()));
        assert(c.last() == b.last());
        lemma_be_concat(a, b.drop_last());
        let x = be_value(a);
        let p = pow256(b.drop_last().len());
        assert(pow256(b.len()) == 256 * p);
        assert((x * p + be_value(b.drop_last())) * 256 + b.last() == x * (256 * p) + (be_value(
            b.drop_last(),
        ) * 256 + b.last())) by (nonlinear_arith);
    }
}

proof fn lemma_byte_len_positive(n: nat)
    requires
        n > 0,
    ensures
        byte_len(n) > 0,
{
    reveal_with_fuel(byte_len, 2);
}

/// A value is below `256` to the power of its byte length.
pub proof fn lemma_below_pow(n: nat)
    ensures
        n < pow256(byte_len(n)),
    decreases n,
{
    if n > 0 {
        lemma_below_pow(n / 256);
        assert(pow256(byte_len(n)) == 256 * pow256(byte_len(n / 256)));
        assert(n < 256 * pow256(byte_len(n / 256))) by (nonlinear_arith)
            requires
                n / 256 < pow256(byte_len(n / 256)),
        ;
    }
}

/// `pow256` grows: a larger power is at least 256 times a smaller one.
pub proof fn lemma_pow_grows(j: nat, k: nat)
    requires
        j < k,
    ensures
        256 * pow256(j) <= pow256(k),
    decreases k,
{
    if j + 1 < k {
        lemma_pow_grows(j, (k - 1) as nat);
        lemma_pow_positive((k - 1) as nat);
    }
}

proof fn lemma_pow_positive(k: nat)
    ensures
        pow256(k) >= 1,
    decreases k,
{
    if k > 0 {
        lemma_pow_positive((k - 1) as nat);
    }
}

/// A positive value has a non-empty text.
pub proof fn lemma_text_nonempty(v: nat)
    requires
        v > 0,
    ensures
        base62_text(v).len() > 0,
{
    reveal_with_fuel(digits62, 2);
}

/// Distinct digits have distinct glyphs.
pub proof fn lemma_glyph_injective(d: nat, e: nat)
    requires
        d < 62,
        e < 62,
        glyph(d) == glyph(e),
    ensures
        d == e,
{
    assert(glyph(d) as u32 == glyph(e) as u32);
}

/// Distinct values have distinct texts.
pub proof fn lemma_text_injective(v: nat, w: nat)
    requires
        base62_text(v) == base62_text(w),
    ensures
        v == w,
    decreases v,
{
    reveal_with_fuel(digits62, 2);
    if v != 0 && w != 0 {
        let tv = base62_text(v);
        let tw = base62_text(w);
        assert(tv[0] == glyph(v % 62));
        assert(tw[0] == glyph(w % 62));
        lemma_glyph_injective(v % 62, w % 62);
        assert(base62_text(v / 62) =~= tv.subrange(1, tv.len() as int));
        assert(base62_text(w / 62) =~= tw.subrange(1, tw.len() as int));
        lemma_text_injective(v / 62, w / 62);
    } else if v != 0 {
        assert(base62_text(v).len() > 0);
    } else if w != 0 {
        assert(base62_text(w).len() > 0);
    }
}

/// Two ids share a code only when they are the same id.
pub proof fn lemma_code_injective(a: u32, b: u32)
    requires
        code_of(a) == code_of(b),
    ensures
        a == b,
{
    if a > 0 && b > 0 {
        let ka = byte_len(a as nat);
        let kb = byte_len(b as nat);
        lemma_text_injective(framed(a), framed(b));
        lemma_below_pow(a as nat);
        lemma_below_pow(b as nat);
        if ka < kb {
            lemma_pow_grows(ka, kb);
        } else if kb < ka {
            lemma_pow_grows(kb, ka);
        }
    } else if a > 0 {
        lemma_text_nonempty(framed(a));
    } else if b > 0 {
        lemma_text_nonempty(framed(b));
    }
}

} // verus!
