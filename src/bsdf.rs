//! Surface materials and the energy-conservation check on diffuse albedos.
use vstd::prelude::*;
use vstd::arithmetic::power2::{pow2, lemma_pow2_adds, lemma_pow2_strictly_increases, lemma2_to64, lemma2_to64_rest};
use crate::util::{ColF, Colour, DecodeError, FloatBits, Object, Reader, decoded_as, lemma_piece};

verus! {

/// How a surface scatters or emits light.
#[derive(Clone, Copy, Debug, PartialEq, Eq)]
pub enum BSDF {
    /// A perfect specular reflector.
    Mirror,
    /// A Lambertian reflector with the given albedo.
    Diffuse(ColF),
    /// A light source with the given radiance.
    Emitter(ColF),
}

/// The bits of 1.0.
pub const ONE_BITS: u32 = 0x3F80_0000;

/// The bits of -0.0.
pub const NEG_ZERO_BITS: u32 = 0x8000_0000;

/// Whether the number with bits `f` lies in [0, 1] (either zero counts).
pub open spec fn in_unit_interval(f: FloatBits) -> bool {
    f.0 <= ONE_BITS || f.0 == NEG_ZERO_BITS
}

/// The exact value, times 2^149, of a number in [0, 1]: every such single-precision
/// number is a whole multiple of 2^-149.
pub open spec fn unit_scaled(f: FloatBits) -> nat {
    let exp = (f.0 / 0x80_0000) as nat;
    let frac = (f.0 % 0x80_0000) as nat;
    if f.0 == NEG_ZERO_BITS {
        0
    } else if exp == 0 {
        frac
    } else {
        (frac + 0x80_0000) * pow2((exp - 1) as nat)
    }
}

/// Each component in [0, 1] and the exact sum of the three at most 1.
pub open spec fn albedo_valid(c: ColF) -> bool {
    &&& in_unit_interval(c.0)
    &&& in_unit_interval(c.1)
    &&& in_unit_interval(c.2)
    &&& unit_scaled(c.0) + unit_scaled(c.1) + unit_scaled(c.2) <= pow2(149)
}

/// `m * 2^k`, computed by doubling.
fn shifted(m: u128, k: u32) -> (r: u128)
    requires
        m * pow2(k as nat) <= u128::MAX,
    ensures
        r == m * pow2(k as nat),
{
    let mut r: u128 = m;
    let mut i: u32 = 0;
    proof {
        lemma2_to64();
    }
    while i < k
        invariant
            i <= k,
            r == m * pow2(i as nat),
            m * pow2(k as nat) <= u128::MAX,
        decreases k - i,
    {
        proof {
            lemma_pow2_adds(i as nat, 1);
            lemma2_to64();
            if i + 1 < k {
                lemma_pow2_strictly_increases((i + 1) as nat, k as nat);
            }
            assert(m * pow2((i + 1) as nat) <= m * pow2(k as nat)) by (nonlinear_arith)
                requires
                    pow2((i + 1) as nat) <= pow2(k as nat),
            ;
            assert(r * 2 == m * pow2((i + 1) as nat)) by (nonlinear_arith)
                requires
                    r == m * pow2(i as nat),
                    pow2((i + 1) as nat) == pow2(i as nat) * 2,
            ;
        }
        r = r * 2;
        i = i + 1;
    }
    r
}

/// Splits the scaled value of a number in [0, 1] into a high part and the low 32 bits.
fn unit_split(f: FloatBits) -> (r: (u128, u64))
    requires
        in_unit_interval(f),
    ensures
        r.1 < 0x1_0000_0000,
        r.0 <= 0x40_0000_0000_0000_0000_0000_0000_0000,
        r.0 * 0x1_0000_0000 + r.1 == unit_scaled(f),
{
    if f.0 == NEG_ZERO_BITS {
        return (0, 0);
    }
    let exp: u32 = f.0 / 0x80_0000;
    let frac: u32 = f.0 % 0x80_0000;
    if exp == 0 {
        return (0, frac as u64);
    }
    let mant: u128 = frac as u128 + 0x80_0000;
    let shift: u32 = exp - 1;
    proof {
        lemma2_to64();
        lemma2_to64_rest();
        lemma_pow2_adds(64, 54);
        lemma_pow2_adds(24, 94);
        assert(pow2(118) == 0x40_0000_0000_0000_0000_0000_0000_0000);
        assert(pow2(24) * pow2(94) == 0x40_0000_0000_0000_0000_0000_0000_0000);
    }
    if shift >= 32 {
        proof {
            let s = (shift - 32) as nat;
            if s < 94 {
                lemma_pow2_strictly_increases(s, 94);
            }
            lemma_pow2_adds(s, 32);
            assert(mant * pow2(s) <= pow2(24) * pow2(94)) by (nonlinear_arith)
                requires
                    mant < pow2(24),
                    pow2(s) <= pow2(94),
            ;
            assert(mant * pow2(s) * pow2(32) == mant * pow2(shift as nat)) by (nonlinear_arith)
                requires
                    pow2(shift as nat) == pow2(s) * pow2(32),
            ;
        }
        let hi = shifted(mant, shift - 32);
        (hi, 0)
    } else {
        proof {
            if shift < 32 {
                lemma_pow2_strictly_increases(shift as nat, 32);
            }
            assert(mant * pow2(shift as nat) <= 0x80_0000 * 2 * pow2(32)) by (nonlinear_arith)
                requires
                    mant < 0x80_0000 * 2,
                    pow2(shift as nat) <= pow2(32),
            ;
        }
        let t = shifted(mant, shift);
        let hi: u128 = t / 0x1_0000_0000;
        let lo: u64 = (t % 0x1_0000_0000) as u64;
        (hi, lo)
    }
}

/// Decides `albedo_valid` exactly, without rounding.
pub fn albedo_is_valid(c: &ColF) -> (r: bool)
    ensures
        r == albedo_valid(*c),
{
    if !(c.0.0 <= ONE_BITS || c.0.0 == NEG_ZERO_BITS) || !(c.1.0 <= ONE_BITS || c.1.0
        == NEG_ZERO_BITS) || !(c.2.0 <= ONE_BITS || c.2.0 == NEG_ZERO_BITS) {
        return false;
    }
    let (h0, l0) = unit_split(c.0);
    let (h1, l1) = unit_split(c.1);
    let (h2, l2) = unit_split(c.2);
    let low: u64 = l0 + l1 + l2;
    let hi: u128 = h0 + h1 + h2 + (low / 0x1_0000_0000) as u128;
    let lo: u64 = low % 0x1_0000_0000;
    let limit: u128 = 0x20_0000_0000_0000_0000_0000_0000_0000;
    proof {
        lemma2_to64();
        lemma2_to64_rest();
        lemma_pow2_adds(64, 53);
        lemma_pow2_adds(117, 32);
        assert(pow2(117) == limit);
        assert(pow2(149) == limit * 0x1_0000_0000);
        assert(low == (low / 0x1_0000_0000) * 0x1_0000_0000 + lo);
        assert(hi * 0x1_0000_0000 + lo == unit_scaled(c.0) + unit_scaled(c.1) + unit_scaled(c.2))
            by (nonlinear_arith)
            requires
                hi == h0 + h1 + h2 + low / 0x1_0000_0000,
                low == (low / 0x1_0000_0000) * 0x1_0000_0000 + lo,
                low == l0 + l1 + l2,
                h0 * 0x1_0000_0000 + l0 == unit_scaled(c.0),
                h1 * 0x1_0000_0000 + l1 == unit_scaled(c.1),
                h2 * 0x1_0000_0000 + l2 == unit_scaled(c.2),
        ;
        if hi > limit {
            assert(hi * 0x1_0000_0000 >= (limit + 1) * 0x1_0000_0000) by (nonlinear_arith)
                requires
                    hi >= limit + 1,
            ;
        }
        if hi < limit {
            assert(hi * 0x1_0000_0000 <= (limit - 1) * 0x1_0000_0000) by (nonlinear_arith)
                requires
                    hi <= limit - 1,
            ;
        }
    }
    hi < limit || (hi == limit && lo == 0)
}

/// The record at `at`: a tag byte, then for tags 2 and 3 a colour.
impl Object for BSDF {
    open spec fn decode_at(bytes: Seq<u8>, at: int) -> Result<(BSDF, int), DecodeError> {
        match u8::decode_at(bytes, at) {
            Err(e) => Err(e),
            Ok((tag, p)) => if tag == 1 {
                Ok((BSDF::Mirror, p))
            } else if tag == 2 {
                match ColF::decode_at(bytes, p) {
                    Err(e) => Err(e),
                    Ok((c, q)) => if albedo_valid(c) {
                        Ok((BSDF::Diffuse(c), q))
                    } else {
                        Err(DecodeError::InvalidAlbedo)
                    },
                }
            } else if tag == 3 {
                match ColF::decode_at(bytes, p) {
                    Err(e) => Err(e),
                    Ok((c, q)) => Ok((BSDF::Emitter(c), q)),
                }
            } else {
                Err(DecodeError::InvalidBsdfTag)
            },
        }
    }

    open spec fn encoded(v: BSDF) -> Seq<u8> {
        match v {
            BSDF::Mirror => seq![1u8],
            BSDF::Diffuse(c) => seq![2u8] + ColF::encoded(c),
            BSDF::Emitter(c) => seq![3u8] + ColF::encoded(c),
        }
    }

    open spec fn decodable(v: BSDF) -> bool {
        match v {
            BSDF::Diffuse(c) => albedo_valid(c),
            _ => true,
        }
    }

    proof fn lemma_round_trip(v: BSDF, bytes: Seq<u8>, at: int) {
        let w = Self::encoded(v);
        assert(w.subrange(0, 1) =~= seq![w[0]]);
        lemma_piece(bytes, at, w, 0, seq![w[0]]);
        u8::lemma_round_trip(w[0], bytes, at);
        match v {
            BSDF::Mirror => {},
            BSDF::Diffuse(c) => {
                let e = ColF::encoded(c);
                assert(w.subrange(1, 1 + e.len() as int) =~= e);
                lemma_piece(bytes, at, w, 1, e);
                ColF::lemma_round_trip(c, bytes, at + 1);
            },
            BSDF::Emitter(c) => {
                let e = ColF::encoded(c);
                assert(w.subrange(1, 1 + e.len() as int) =~= e);
                lemma_piece(bytes, at, w, 1, e);
                ColF::lemma_round_trip(c, bytes, at + 1);
            },
        }
    }

    fn serialize(&self, out: &mut Vec<u8>) {
        match self {
            BSDF::Mirror => {
                out.push(1u8);
                assert(out@ =~= old(out)@ + Self::encoded(*self));
            },
            BSDF::Diffuse(c) => {
                out.push(2u8);
                c.serialize(out);
                assert(out@ =~= old(out)@ + Self::encoded(*self));
            },
            BSDF::Emitter(c) => {
                out.push(3u8);
                c.serialize(out);
                assert(out@ =~= old(out)@ + Self::encoded(*self));
            },
        }
    }

    fn deserialize(r: &mut Reader) -> (res: Result<BSDF, DecodeError>) {
        let kind = u8::deserialize(r)?;
        if kind == 1 {
            Ok(BSDF::Mirror)
        } else if kind == 2 {
            let c = ColF::deserialize(r)?;
            if albedo_is_valid(&c) {
                Ok(BSDF::Diffuse(c))
            } else {
                Err(DecodeError::InvalidAlbedo)
            }
        } else if kind == 3 {
            let c = ColF::deserialize(r)?;
            Ok(BSDF::Emitter(c))
        } else {
            Err(DecodeError::InvalidBsdfTag)
        }
    }
}

/// A record whose tag byte is not 1, 2 or 3 never decodes to a material.
pub proof fn lemma_unknown_tag_rejected(bytes: Seq<u8>, at: int)
    requires
        0 <= at < bytes.len(),
        bytes[at] != 1 && bytes[at] != 2 && bytes[at] != 3,
    ensures
        BSDF::decode_at(bytes, at) == Err::<(BSDF, int), DecodeError>(DecodeError::InvalidBsdfTag),
{
}

/// Zero radiance: three +0.0 components.
pub open spec fn black() -> ColF {
    Colour(FloatBits(0), FloatBits(0), FloatBits(0))
}

impl BSDF {
    /// What the material gives off by itself.
    pub open spec fn emission_spec(&self) -> ColF {
        match self {
            BSDF::Emitter(c) => *c,
            _ => black(),
        }
    }

    /// The emitted radiance: the stored value for an emitter, zero otherwise.
    pub fn emission(&self) -> (r: ColF)
        ensures
            r == self.emission_spec(),
    {
        match self {
            BSDF::Emitter(c) => *c,
            _ => Colour(FloatBits(0), FloatBits(0), FloatBits(0)),
        }
    }

    /// Whether a path that reaches this material ends there.
    pub fn is_emitter(&self) -> (r: bool)
        ensures
            r == (self is Emitter),
    {
        match self {
            BSDF::Emitter(_) => true,
            _ => false,
        }
    }
}

} // verus!
