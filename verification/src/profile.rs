//! Parameters of the extension-field encoding: `n` blobs of `k` extension
//! coefficients, Reed-Solomon encoded at rate one half to `m` symbols and cut
//! into cells of `c` consecutive symbols.
use crate::field::{f_from_usize, modp};
use crate::merkle::{is_pow2, log2};
use crate::poly::ilog2;
use crate::{DemoError, DIGEST_LEN, EXT_DEGREE};
use vstd::prelude::*;

verus! {

/// One parameter set of the extension-field encoding.
#[derive(Clone, Copy, Debug, PartialEq, Eq)]
pub struct ExtProfile {
    pub name: &'static str,
    pub n: usize,
    pub m: usize,
    pub k: usize,
    pub c: usize,
    pub whir_log_inv_rate: usize,
}

/// `n` is a power of two (the check of `usize::is_power_of_two`).
pub fn is_power_of_two(n: usize) -> (r: bool)
    ensures
        r == is_pow2(n as nat),
{
    if n == 0 {
        return false;
    }
    let mut x: usize = n;
    while x > 1
        invariant
            x >= 1,
            is_pow2(n as nat) == is_pow2(x as nat),
        decreases x,
    {
        if x % 2 == 1 {
            return false;
        }
        x = x / 2;
    }
    true
}

proof fn lemma_cell_chunks(c: nat)
    ensures
        (c * 5) % 8 == 0 <==> c % 8 == 0,
{
    let q = c / 8;
    let r = c % 8;
    assert(c == 8 * q + r);
    assert(c * 5 == 8 * (5 * q) + 5 * r) by (nonlinear_arith)
        requires
            c == 8 * q + r,
    ;
    vstd::arithmetic::div_mod::lemma_mod_multiples_vanish(5 * q as int, 5 * r as int, 8);
    assert((5 * r) % 8 == 0 <==> r == 0) by {
        assert(r < 8);
        if r == 0 {} else if r == 1 {} else if r == 2 {} else if r == 3 {} else if r == 4 {} else if r == 5 {} else if r == 6 {} else {}
    }
}

/// The profile as one block of base-field elements.
pub open spec fn profile_block_of(p: ExtProfile) -> Seq<u32> {
    seq![
        0x5051_4458u32,
        2u32,
        modp(p.n as int),
        modp(p.m as int),
        modp(p.k as int),
        modp(p.c as int),
        modp((p.m / p.c) as int),
        modp(p.whir_log_inv_rate as int),
    ]
}

/// The domain-separation block that opens every Fiat-Shamir transcript.
pub open spec fn fs_block_of() -> Seq<u32> {
    seq![0x5051_4441u32, 0x532d_4653u32, 1u32, 0u32, 0u32, 0u32, 0u32, 0u32]
}

/// The domain-separation block that opens every Fiat-Shamir transcript.
pub fn fs_block() -> (r: [u32; DIGEST_LEN])
    ensures
        r@ == fs_block_of(),
{
    let r = [0x5051_4441u32, 0x532d_4653u32, 1u32, 0u32, 0u32, 0u32, 0u32, 0u32];
    assert(r@ =~= fs_block_of());
    r
}

impl ExtProfile {
    /// The single-blob profile: 8192 coefficients, cells of 16 symbols.
    pub fn blob_ext_1() -> (r: ExtProfile)
        ensures
            r.n == 1 && r.m == 16384 && r.k == 8192 && r.c == 16 && r.whir_log_inv_rate == 1,
            r.name@ == "blob-ext-1"@,
    {
        ExtProfile { name: "blob-ext-1", n: 1, m: 16384, k: 8192, c: 16, whir_log_inv_rate: 1 }
    }

    /// Fourteen blobs of 8192 coefficients, cells of 16 symbols.
    pub fn blob_ext_14() -> (r: ExtProfile)
        ensures
            r.n == 14 && r.m == 16384 && r.k == 8192 && r.c == 16 && r.whir_log_inv_rate == 1,
            r.name@ == "blob-ext-14"@,
    {
        ExtProfile { name: "blob-ext-14", n: 14, m: 16384, k: 8192, c: 16, whir_log_inv_rate: 1 }
    }

    /// Sixteen blobs of 8192 coefficients, cells of 16 symbols.
    pub fn blob_ext_16() -> (r: ExtProfile)
        ensures
            r.n == 16 && r.m == 16384 && r.k == 8192 && r.c == 16 && r.whir_log_inv_rate == 1,
            r.name@ == "blob-ext-16"@,
    {
        ExtProfile { name: "blob-ext-16", n: 16, m: 16384, k: 8192, c: 16, whir_log_inv_rate: 1 }
    }

    /// The `blob-ext-2x-1` profile: 1 blobs of 16384 coefficients, cells of 32 symbols.
    pub fn blob_ext_2x_1() -> (r: ExtProfile)
        ensures
            r.n == 1 && r.m == 32768 && r.k == 16384 && r.c == 32 && r.whir_log_inv_rate == 1,
            r.name@ == "blob-ext-2x-1"@,
    {
        ExtProfile { name: "blob-ext-2x-1", n: 1, m: 32768, k: 16384, c: 32, whir_log_inv_rate: 1 }
    }

    /// The `blob-ext-2x-2` profile: 2 blobs of 16384 coefficients, cells of 32 symbols.
    pub fn blob_ext_2x_2() -> (r: ExtProfile)
        ensures
            r.n == 2 && r.m == 32768 && r.k == 16384 && r.c == 32 && r.whir_log_inv_rate == 1,
            r.name@ == "blob-ext-2x-2"@,
    {
        ExtProfile { name: "blob-ext-2x-2", n: 2, m: 32768, k: 16384, c: 32, whir_log_inv_rate: 1 }
    }

    /// The `blob-ext-2x-4` profile: 4 blobs of 16384 coefficients, cells of 32 symbols.
    pub fn blob_ext_2x_4() -> (r: ExtProfile)
        ensures
            r.n == 4 && r.m == 32768 && r.k == 16384 && r.c == 32 && r.whir_log_inv_rate == 1,
            r.name@ == "blob-ext-2x-4"@,
    {
        ExtProfile { name: "blob-ext-2x-4", n: 4, m: 32768, k: 16384, c: 32, whir_log_inv_rate: 1 }
    }

    /// The `blob-ext-2x-6` profile: 6 blobs of 16384 coefficients, cells of 32 symbols.
    pub fn blob_ext_2x_6() -> (r: ExtProfile)
        ensures
            r.n == 6 && r.m == 32768 && r.k == 16384 && r.c == 32 && r.whir_log_inv_rate == 1,
            r.name@ == "blob-ext-2x-6"@,
    {
        ExtProfile { name: "blob-ext-2x-6", n: 6, m: 32768, k: 16384, c: 32, whir_log_inv_rate: 1 }
    }

    /// The `blob-ext-2x-8` profile: 8 blobs of 16384 coefficients, cells of 32 symbols.
    pub fn blob_ext_2x_8() -> (r: ExtProfile)
        ensures
            r.n == 8 && r.m == 32768 && r.k == 16384 && r.c == 32 && r.whir_log_inv_rate == 1,
            r.name@ == "blob-ext-2x-8"@,
    {
        ExtProfile { name: "blob-ext-2x-8", n: 8, m: 32768, k: 16384, c: 32, whir_log_inv_rate: 1 }
    }

    /// The `blob-ext-2x-10` profile: 10 blobs of 16384 coefficients, cells of 32 symbols.
    pub fn blob_ext_2x_10() -> (r: ExtProfile)
        ensures
            r.n == 10 && r.m == 32768 && r.k == 16384 && r.c == 32 && r.whir_log_inv_rate == 1,
            r.name@ == "blob-ext-2x-10"@,
    {
        ExtProfile { name: "blob-ext-2x-10", n: 10, m: 32768, k: 16384, c: 32, whir_log_inv_rate: 1 }
    }

    /// The `blob-ext-2x-12` profile: 12 blobs of 16384 coefficients, cells of 32 symbols.
    pub fn blob_ext_2x_12() -> (r: ExtProfile)
        ensures
            r.n == 12 && r.m == 32768 && r.k == 16384 && r.c == 32 && r.whir_log_inv_rate == 1,
            r.name@ == "blob-ext-2x-12"@,
    {
        ExtProfile { name: "blob-ext-2x-12", n: 12, m: 32768, k: 16384, c: 32, whir_log_inv_rate: 1 }
    }

    /// The `blob-ext-2x-14` profile: 14 blobs of 16384 coefficients, cells of 32 symbols.
    pub fn blob_ext_2x_14() -> (r: ExtProfile)
        ensures
            r.n == 14 && r.m == 32768 && r.k == 16384 && r.c == 32 && r.whir_log_inv_rate == 1,
            r.name@ == "blob-ext-2x-14"@,
    {
        ExtProfile { name: "blob-ext-2x-14", n: 14, m: 32768, k: 16384, c: 32, whir_log_inv_rate: 1 }
    }

    /// The `blob-ext-2x-15` profile: 15 blobs of 16384 coefficients, cells of 32 symbols.
    pub fn blob_ext_2x_15() -> (r: ExtProfile)
        ensures
            r.n == 15 && r.m == 32768 && r.k == 16384 && r.c == 32 && r.whir_log_inv_rate == 1,
            r.name@ == "blob-ext-2x-15"@,
    {
        ExtProfile { name: "blob-ext-2x-15", n: 15, m: 32768, k: 16384, c: 32, whir_log_inv_rate: 1 }
    }

    /// The `blob-ext-2x-16` profile: 16 blobs of 16384 coefficients, cells of 32 symbols.
    pub fn blob_ext_2x_16() -> (r: ExtProfile)
        ensures
            r.n == 16 && r.m == 32768 && r.k == 16384 && r.c == 32 && r.whir_log_inv_rate == 1,
            r.name@ == "blob-ext-2x-16"@,
    {
        ExtProfile { name: "blob-ext-2x-16", n: 16, m: 32768, k: 16384, c: 32, whir_log_inv_rate: 1 }
    }

    /// The `blob-ext-2x-18` profile: 18 blobs of 16384 coefficients, cells of 32 symbols.
    pub fn blob_ext_2x_18() -> (r: ExtProfile)
        ensures
            r.n == 18 && r.m == 32768 && r.k == 16384 && r.c == 32 && r.whir_log_inv_rate == 1,
            r.name@ == "blob-ext-2x-18"@,
    {
        ExtProfile { name: "blob-ext-2x-18", n: 18, m: 32768, k: 16384, c: 32, whir_log_inv_rate: 1 }
    }

    /// The `blob-ext-2x-20` profile: 20 blobs of 16384 coefficients, cells of 32 symbols.
    pub fn blob_ext_2x_20() -> (r: ExtProfile)
        ensures
            r.n == 20 && r.m == 32768 && r.k == 16384 && r.c == 32 && r.whir_log_inv_rate == 1,
            r.name@ == "blob-ext-2x-20"@,
    {
        ExtProfile { name: "blob-ext-2x-20", n: 20, m: 32768, k: 16384, c: 32, whir_log_inv_rate: 1 }
    }

    /// The `blob-ext-2x-22` profile: 22 blobs of 16384 coefficients, cells of 32 symbols.
    pub fn blob_ext_2x_22() -> (r: ExtProfile)
        ensures
            r.n == 22 && r.m == 32768 && r.k == 16384 && r.c == 32 && r.whir_log_inv_rate == 1,
            r.name@ == "blob-ext-2x-22"@,
    {
        ExtProfile { name: "blob-ext-2x-22", n: 22, m: 32768, k: 16384, c: 32, whir_log_inv_rate: 1 }
    }

    /// The `blob-ext-2x-24` profile: 24 blobs of 16384 coefficients, cells of 32 symbols.
    pub fn blob_ext_2x_24() -> (r: ExtProfile)
        ensures
            r.n == 24 && r.m == 32768 && r.k == 16384 && r.c == 32 && r.whir_log_inv_rate == 1,
            r.name@ == "blob-ext-2x-24"@,
    {
        ExtProfile { name: "blob-ext-2x-24", n: 24, m: 32768, k: 16384, c: 32, whir_log_inv_rate: 1 }
    }

    /// The `blob-ext-2x-26` profile: 26 blobs of 16384 coefficients, cells of 32 symbols.
    pub fn blob_ext_2x_26() -> (r: ExtProfile)
        ensures
            r.n == 26 && r.m == 32768 && r.k == 16384 && r.c == 32 && r.whir_log_inv_rate == 1,
            r.name@ == "blob-ext-2x-26"@,
    {
        ExtProfile { name: "blob-ext-2x-26", n: 26, m: 32768, k: 16384, c: 32, whir_log_inv_rate: 1 }
    }

    /// The `blob-ext-2x-28` profile: 28 blobs of 16384 coefficients, cells of 32 symbols.
    pub fn blob_ext_2x_28() -> (r: ExtProfile)
        ensures
            r.n == 28 && r.m == 32768 && r.k == 16384 && r.c == 32 && r.whir_log_inv_rate == 1,
            r.name@ == "blob-ext-2x-28"@,
    {
        ExtProfile { name: "blob-ext-2x-28", n: 28, m: 32768, k: 16384, c: 32, whir_log_inv_rate: 1 }
    }

    /// The `blob-ext-2x-30` profile: 30 blobs of 16384 coefficients, cells of 32 symbols.
    pub fn blob_ext_2x_30() -> (r: ExtProfile)
        ensures
            r.n == 30 && r.m == 32768 && r.k == 16384 && r.c == 32 && r.whir_log_inv_rate == 1,
            r.name@ == "blob-ext-2x-30"@,
    {
        ExtProfile { name: "blob-ext-2x-30", n: 30, m: 32768, k: 16384, c: 32, whir_log_inv_rate: 1 }
    }

    /// The `blob-ext-2x-32` profile: 32 blobs of 16384 coefficients, cells of 32 symbols.
    pub fn blob_ext_2x_32() -> (r: ExtProfile)
        ensures
            r.n == 32 && r.m == 32768 && r.k == 16384 && r.c == 32 && r.whir_log_inv_rate == 1,
            r.name@ == "blob-ext-2x-32"@,
    {
        ExtProfile { name: "blob-ext-2x-32", n: 32, m: 32768, k: 16384, c: 32, whir_log_inv_rate: 1 }
    }

    /// The `blob-ext-2x-c16-14` profile: 14 blobs of 16384 coefficients, cells of 16 symbols.
    pub fn blob_ext_2x_c16_14() -> (r: ExtProfile)
        ensures
            r.n == 14 && r.m == 32768 && r.k == 16384 && r.c == 16 && r.whir_log_inv_rate == 1,
            r.name@ == "blob-ext-2x-c16-14"@,
    {
        ExtProfile { name: "blob-ext-2x-c16-14", n: 14, m: 32768, k: 16384, c: 16, whir_log_inv_rate: 1 }
    }

    /// The `blob-ext-2x-c64-1` profile: 1 blobs of 16384 coefficients, cells of 64 symbols.
    pub fn blob_ext_2x_c64_1() -> (r: ExtProfile)
        ensures
            r.n == 1 && r.m == 32768 && r.k == 16384 && r.c == 64 && r.whir_log_inv_rate == 1,
            r.name@ == "blob-ext-2x-c64-1"@,
    {
        ExtProfile { name: "blob-ext-2x-c64-1", n: 1, m: 32768, k: 16384, c: 64, whir_log_inv_rate: 1 }
    }

    /// The `blob-ext-2x-c64-14` profile: 14 blobs of 16384 coefficients, cells of 64 symbols.
    pub fn blob_ext_2x_c64_14() -> (r: ExtProfile)
        ensures
            r.n == 14 && r.m == 32768 && r.k == 16384 && r.c == 64 && r.whir_log_inv_rate == 1,
            r.name@ == "blob-ext-2x-c64-14"@,
    {
        ExtProfile { name: "blob-ext-2x-c64-14", n: 14, m: 32768, k: 16384, c: 64, whir_log_inv_rate: 1 }
    }

    /// The `blob-ext-2x-c64-16` profile: 16 blobs of 16384 coefficients, cells of 64 symbols.
    pub fn blob_ext_2x_c64_16() -> (r: ExtProfile)
        ensures
            r.n == 16 && r.m == 32768 && r.k == 16384 && r.c == 64 && r.whir_log_inv_rate == 1,
            r.name@ == "blob-ext-2x-c64-16"@,
    {
        ExtProfile { name: "blob-ext-2x-c64-16", n: 16, m: 32768, k: 16384, c: 64, whir_log_inv_rate: 1 }
    }

    /// The `blob-ext-2x-c128-1` profile: 1 blobs of 16384 coefficients, cells of 128 symbols.
    pub fn blob_ext_2x_c128_1() -> (r: ExtProfile)
        ensures
            r.n == 1 && r.m == 32768 && r.k == 16384 && r.c == 128 && r.whir_log_inv_rate == 1,
            r.name@ == "blob-ext-2x-c128-1"@,
    {
        ExtProfile { name: "blob-ext-2x-c128-1", n: 1, m: 32768, k: 16384, c: 128, whir_log_inv_rate: 1 }
    }

    /// The `blob-ext-2x-c128-14` profile: 14 blobs of 16384 coefficients, cells of 128 symbols.
    pub fn blob_ext_2x_c128_14() -> (r: ExtProfile)
        ensures
            r.n == 14 && r.m == 32768 && r.k == 16384 && r.c == 128 && r.whir_log_inv_rate == 1,
            r.name@ == "blob-ext-2x-c128-14"@,
    {
        ExtProfile { name: "blob-ext-2x-c128-14", n: 14, m: 32768, k: 16384, c: 128, whir_log_inv_rate: 1 }
    }

    /// The `blob-ext-2x-c128-15` profile: 15 blobs of 16384 coefficients, cells of 128 symbols.
    pub fn blob_ext_2x_c128_15() -> (r: ExtProfile)
        ensures
            r.n == 15 && r.m == 32768 && r.k == 16384 && r.c == 128 && r.whir_log_inv_rate == 1,
            r.name@ == "blob-ext-2x-c128-15"@,
    {
        ExtProfile { name: "blob-ext-2x-c128-15", n: 15, m: 32768, k: 16384, c: 128, whir_log_inv_rate: 1 }
    }

    /// The `blob-ext-2x-c128-16` profile: 16 blobs of 16384 coefficients, cells of 128 symbols.
    pub fn blob_ext_2x_c128_16() -> (r: ExtProfile)
        ensures
            r.n == 16 && r.m == 32768 && r.k == 16384 && r.c == 128 && r.whir_log_inv_rate == 1,
            r.name@ == "blob-ext-2x-c128-16"@,
    {
        ExtProfile { name: "blob-ext-2x-c128-16", n: 16, m: 32768, k: 16384, c: 128, whir_log_inv_rate: 1 }
    }

    /// The `blob-ext-2x-c128-24` profile: 24 blobs of 16384 coefficients, cells of 128 symbols.
    pub fn blob_ext_2x_c128_24() -> (r: ExtProfile)
        ensures
            r.n == 24 && r.m == 32768 && r.k == 16384 && r.c == 128 && r.whir_log_inv_rate == 1,
            r.name@ == "blob-ext-2x-c128-24"@,
    {
        ExtProfile { name: "blob-ext-2x-c128-24", n: 24, m: 32768, k: 16384, c: 128, whir_log_inv_rate: 1 }
    }

    /// The `blob-ext-2x-c128-26` profile: 26 blobs of 16384 coefficients, cells of 128 symbols.
    pub fn blob_ext_2x_c128_26() -> (r: ExtProfile)
        ensures
            r.n == 26 && r.m == 32768 && r.k == 16384 && r.c == 128 && r.whir_log_inv_rate == 1,
            r.name@ == "blob-ext-2x-c128-26"@,
    {
        ExtProfile { name: "blob-ext-2x-c128-26", n: 26, m: 32768, k: 16384, c: 128, whir_log_inv_rate: 1 }
    }

    /// The `blob-ext-2x-c128-28` profile: 28 blobs of 16384 coefficients, cells of 128 symbols.
    pub fn blob_ext_2x_c128_28() -> (r: ExtProfile)
        ensures
            r.n == 28 && r.m == 32768 && r.k == 16384 && r.c == 128 && r.whir_log_inv_rate == 1,
            r.name@ == "blob-ext-2x-c128-28"@,
    {
        ExtProfile { name: "blob-ext-2x-c128-28", n: 28, m: 32768, k: 16384, c: 128, whir_log_inv_rate: 1 }
    }

    /// The `blob-ext-2x-c128-30` profile: 30 blobs of 16384 coefficients, cells of 128 symbols.
    pub fn blob_ext_2x_c128_30() -> (r: ExtProfile)
        ensures
            r.n == 30 && r.m == 32768 && r.k == 16384 && r.c == 128 && r.whir_log_inv_rate == 1,
            r.name@ == "blob-ext-2x-c128-30"@,
    {
        ExtProfile { name: "blob-ext-2x-c128-30", n: 30, m: 32768, k: 16384, c: 128, whir_log_inv_rate: 1 }
    }

    /// The `blob-ext-4x-1` profile: 1 blobs of 32768 coefficients, cells of 64 symbols.
    pub fn blob_ext_4x_1() -> (r: ExtProfile)
        ensures
            r.n == 1 && r.m == 65536 && r.k == 32768 && r.c == 64 && r.whir_log_inv_rate == 1,
            r.name@ == "blob-ext-4x-1"@,
    {
        ExtProfile { name: "blob-ext-4x-1", n: 1, m: 65536, k: 32768, c: 64, whir_log_inv_rate: 1 }
    }

    /// The `blob-ext-4x-2` profile: 2 blobs of 32768 coefficients, cells of 64 symbols.
    pub fn blob_ext_4x_2() -> (r: ExtProfile)
        ensures
            r.n == 2 && r.m == 65536 && r.k == 32768 && r.c == 64 && r.whir_log_inv_rate == 1,
            r.name@ == "blob-ext-4x-2"@,
    {
        ExtProfile { name: "blob-ext-4x-2", n: 2, m: 65536, k: 32768, c: 64, whir_log_inv_rate: 1 }
    }

    /// The `blob-ext-4x-4` profile: 4 blobs of 32768 coefficients, cells of 64 symbols.
    pub fn blob_ext_4x_4() -> (r: ExtProfile)
        ensures
            r.n == 4 && r.m == 65536 && r.k == 32768 && r.c == 64 && r.whir_log_inv_rate == 1,
            r.name@ == "blob-ext-4x-4"@,
    {
        ExtProfile { name: "blob-ext-4x-4", n: 4, m: 65536, k: 32768, c: 64, whir_log_inv_rate: 1 }
    }

    /// The `blob-ext-4x-6` profile: 6 blobs of 32768 coefficients, cells of 64 symbols.
    pub fn blob_ext_4x_6() -> (r: ExtProfile)
        ensures
            r.n == 6 && r.m == 65536 && r.k == 32768 && r.c == 64 && r.whir_log_inv_rate == 1,
            r.name@ == "blob-ext-4x-6"@,
    {
        ExtProfile { name: "blob-ext-4x-6", n: 6, m: 65536, k: 32768, c: 64, whir_log_inv_rate: 1 }
    }

    /// The `blob-ext-4x-8` profile: 8 blobs of 32768 coefficients, cells of 64 symbols.
    pub fn blob_ext_4x_8() -> (r: ExtProfile)
        ensures
            r.n == 8 && r.m == 65536 && r.k == 32768 && r.c == 64 && r.whir_log_inv_rate == 1,
            r.name@ == "blob-ext-4x-8"@,
    {
        ExtProfile { name: "blob-ext-4x-8", n: 8, m: 65536, k: 32768, c: 64, whir_log_inv_rate: 1 }
    }

    /// The `blob-ext-4x-10` profile: 10 blobs of 32768 coefficients, cells of 64 symbols.
    pub fn blob_ext_4x_10() -> (r: ExtProfile)
        ensures
            r.n == 10 && r.m == 65536 && r.k == 32768 && r.c == 64 && r.whir_log_inv_rate == 1,
            r.name@ == "blob-ext-4x-10"@,
    {
        ExtProfile { name: "blob-ext-4x-10", n: 10, m: 65536, k: 32768, c: 64, whir_log_inv_rate: 1 }
    }

    /// The `blob-ext-4x-12` profile: 12 blobs of 32768 coefficients, cells of 64 symbols.
    pub fn blob_ext_4x_12() -> (r: ExtProfile)
        ensures
            r.n == 12 && r.m == 65536 && r.k == 32768 && r.c == 64 && r.whir_log_inv_rate == 1,
            r.name@ == "blob-ext-4x-12"@,
    {
        ExtProfile { name: "blob-ext-4x-12", n: 12, m: 65536, k: 32768, c: 64, whir_log_inv_rate: 1 }
    }

    /// The `blob-ext-4x-14` profile: 14 blobs of 32768 coefficients, cells of 64 symbols.
    pub fn blob_ext_4x_14() -> (r: ExtProfile)
        ensures
            r.n == 14 && r.m == 65536 && r.k == 32768 && r.c == 64 && r.whir_log_inv_rate == 1,
            r.name@ == "blob-ext-4x-14"@,
    {
        ExtProfile { name: "blob-ext-4x-14", n: 14, m: 65536, k: 32768, c: 64, whir_log_inv_rate: 1 }
    }

    /// The `blob-ext-4x-16` profile: 16 blobs of 32768 coefficients, cells of 64 symbols.
    pub fn blob_ext_4x_16() -> (r: ExtProfile)
        ensures
            r.n == 16 && r.m == 65536 && r.k == 32768 && r.c == 64 && r.whir_log_inv_rate == 1,
            r.name@ == "blob-ext-4x-16"@,
    {
        ExtProfile { name: "blob-ext-4x-16", n: 16, m: 65536, k: 32768, c: 64, whir_log_inv_rate: 1 }
    }

    /// The `blob-ext-4x-c16-14` profile: 14 blobs of 32768 coefficients, cells of 16 symbols.
    pub fn blob_ext_4x_c16_14() -> (r: ExtProfile)
        ensures
            r.n == 14 && r.m == 65536 && r.k == 32768 && r.c == 16 && r.whir_log_inv_rate == 1,
            r.name@ == "blob-ext-4x-c16-14"@,
    {
        ExtProfile { name: "blob-ext-4x-c16-14", n: 14, m: 65536, k: 32768, c: 16, whir_log_inv_rate: 1 }
    }

    /// The `blob-ext-4x-c32-1` profile: 1 blobs of 32768 coefficients, cells of 32 symbols.
    pub fn blob_ext_4x_c32_1() -> (r: ExtProfile)
        ensures
            r.n == 1 && r.m == 65536 && r.k == 32768 && r.c == 32 && r.whir_log_inv_rate == 1,
            r.name@ == "blob-ext-4x-c32-1"@,
    {
        ExtProfile { name: "blob-ext-4x-c32-1", n: 1, m: 65536, k: 32768, c: 32, whir_log_inv_rate: 1 }
    }

    /// The `blob-ext-4x-c32-2` profile: 2 blobs of 32768 coefficients, cells of 32 symbols.
    pub fn blob_ext_4x_c32_2() -> (r: ExtProfile)
        ensures
            r.n == 2 && r.m == 65536 && r.k == 32768 && r.c == 32 && r.whir_log_inv_rate == 1,
            r.name@ == "blob-ext-4x-c32-2"@,
    {
        ExtProfile { name: "blob-ext-4x-c32-2", n: 2, m: 65536, k: 32768, c: 32, whir_log_inv_rate: 1 }
    }

    /// The `blob-ext-4x-c32-4` profile: 4 blobs of 32768 coefficients, cells of 32 symbols.
    pub fn blob_ext_4x_c32_4() -> (r: ExtProfile)
        ensures
            r.n == 4 && r.m == 65536 && r.k == 32768 && r.c == 32 && r.whir_log_inv_rate == 1,
            r.name@ == "blob-ext-4x-c32-4"@,
    {
        ExtProfile { name: "blob-ext-4x-c32-4", n: 4, m: 65536, k: 32768, c: 32, whir_log_inv_rate: 1 }
    }

    /// The `blob-ext-4x-c32-6` profile: 6 blobs of 32768 coefficients, cells of 32 symbols.
    pub fn blob_ext_4x_c32_6() -> (r: ExtProfile)
        ensures
            r.n == 6 && r.m == 65536 && r.k == 32768 && r.c == 32 && r.whir_log_inv_rate == 1,
            r.name@ == "blob-ext-4x-c32-6"@,
    {
        ExtProfile { name: "blob-ext-4x-c32-6", n: 6, m: 65536, k: 32768, c: 32, whir_log_inv_rate: 1 }
    }

    /// The `blob-ext-4x-c32-8` profile: 8 blobs of 32768 coefficients, cells of 32 symbols.
    pub fn blob_ext_4x_c32_8() -> (r: ExtProfile)
        ensures
            r.n == 8 && r.m == 65536 && r.k == 32768 && r.c == 32 && r.whir_log_inv_rate == 1,
            r.name@ == "blob-ext-4x-c32-8"@,
    {
        ExtProfile { name: "blob-ext-4x-c32-8", n: 8, m: 65536, k: 32768, c: 32, whir_log_inv_rate: 1 }
    }

    /// The `blob-ext-4x-c32-10` profile: 10 blobs of 32768 coefficients, cells of 32 symbols.
    pub fn blob_ext_4x_c32_10() -> (r: ExtProfile)
        ensures
            r.n == 10 && r.m == 65536 && r.k == 32768 && r.c == 32 && r.whir_log_inv_rate == 1,
            r.name@ == "blob-ext-4x-c32-10"@,
    {
        ExtProfile { name: "blob-ext-4x-c32-10", n: 10, m: 65536, k: 32768, c: 32, whir_log_inv_rate: 1 }
    }

    /// The `blob-ext-4x-c32-12` profile: 12 blobs of 32768 coefficients, cells of 32 symbols.
    pub fn blob_ext_4x_c32_12() -> (r: ExtProfile)
        ensures
            r.n == 12 && r.m == 65536 && r.k == 32768 && r.c == 32 && r.whir_log_inv_rate == 1,
            r.name@ == "blob-ext-4x-c32-12"@,
    {
        ExtProfile { name: "blob-ext-4x-c32-12", n: 12, m: 65536, k: 32768, c: 32, whir_log_inv_rate: 1 }
    }

    /// The `blob-ext-4x-c32-14` profile: 14 blobs of 32768 coefficients, cells of 32 symbols.
    pub fn blob_ext_4x_c32_14() -> (r: ExtProfile)
        ensures
            r.n == 14 && r.m == 65536 && r.k == 32768 && r.c == 32 && r.whir_log_inv_rate == 1,
            r.name@ == "blob-ext-4x-c32-14"@,
    {
        ExtProfile { name: "blob-ext-4x-c32-14", n: 14, m: 65536, k: 32768, c: 32, whir_log_inv_rate: 1 }
    }

    /// The `blob-ext-4x-c32-16` profile: 16 blobs of 32768 coefficients, cells of 32 symbols.
    pub fn blob_ext_4x_c32_16() -> (r: ExtProfile)
        ensures
            r.n == 16 && r.m == 65536 && r.k == 32768 && r.c == 32 && r.whir_log_inv_rate == 1,
            r.name@ == "blob-ext-4x-c32-16"@,
    {
        ExtProfile { name: "blob-ext-4x-c32-16", n: 16, m: 65536, k: 32768, c: 32, whir_log_inv_rate: 1 }
    }

    /// The `blob-ext-4x-c32-18` profile: 18 blobs of 32768 coefficients, cells of 32 symbols.
    pub fn blob_ext_4x_c32_18() -> (r: ExtProfile)
        ensures
            r.n == 18 && r.m == 65536 && r.k == 32768 && r.c == 32 && r.whir_log_inv_rate == 1,
            r.name@ == "blob-ext-4x-c32-18"@,
    {
        ExtProfile { name: "blob-ext-4x-c32-18", n: 18, m: 65536, k: 32768, c: 32, whir_log_inv_rate: 1 }
    }

    /// The `blob-ext-4x-c32-20` profile: 20 blobs of 32768 coefficients, cells of 32 symbols.
    pub fn blob_ext_4x_c32_20() -> (r: ExtProfile)
        ensures
            r.n == 20 && r.m == 65536 && r.k == 32768 && r.c == 32 && r.whir_log_inv_rate == 1,
            r.name@ == "blob-ext-4x-c32-20"@,
    {
        ExtProfile { name: "blob-ext-4x-c32-20", n: 20, m: 65536, k: 32768, c: 32, whir_log_inv_rate: 1 }
    }

    /// The `blob-ext-4x-c32-22` profile: 22 blobs of 32768 coefficients, cells of 32 symbols.
    pub fn blob_ext_4x_c32_22() -> (r: ExtProfile)
        ensures
            r.n == 22 && r.m == 65536 && r.k == 32768 && r.c == 32 && r.whir_log_inv_rate == 1,
            r.name@ == "blob-ext-4x-c32-22"@,
    {
        ExtProfile { name: "blob-ext-4x-c32-22", n: 22, m: 65536, k: 32768, c: 32, whir_log_inv_rate: 1 }
    }

    /// The `blob-ext-4x-c32-24` profile: 24 blobs of 32768 coefficients, cells of 32 symbols.
    pub fn blob_ext_4x_c32_24() -> (r: ExtProfile)
        ensures
            r.n == 24 && r.m == 65536 && r.k == 32768 && r.c == 32 && r.whir_log_inv_rate == 1,
            r.name@ == "blob-ext-4x-c32-24"@,
    {
        ExtProfile { name: "blob-ext-4x-c32-24", n: 24, m: 65536, k: 32768, c: 32, whir_log_inv_rate: 1 }
    }

    /// The `blob-ext-4x-c32-26` profile: 26 blobs of 32768 coefficients, cells of 32 symbols.
    pub fn blob_ext_4x_c32_26() -> (r: ExtProfile)
        ensures
            r.n == 26 && r.m == 65536 && r.k == 32768 && r.c == 32 && r.whir_log_inv_rate == 1,
            r.name@ == "blob-ext-4x-c32-26"@,
    {
        ExtProfile { name: "blob-ext-4x-c32-26", n: 26, m: 65536, k: 32768, c: 32, whir_log_inv_rate: 1 }
    }

    /// The `blob-ext-4x-c32-28` profile: 28 blobs of 32768 coefficients, cells of 32 symbols.
    pub fn blob_ext_4x_c32_28() -> (r: ExtProfile)
        ensures
            r.n == 28 && r.m == 65536 && r.k == 32768 && r.c == 32 && r.whir_log_inv_rate == 1,
            r.name@ == "blob-ext-4x-c32-28"@,
    {
        ExtProfile { name: "blob-ext-4x-c32-28", n: 28, m: 65536, k: 32768, c: 32, whir_log_inv_rate: 1 }
    }

    /// The `blob-ext-4x-c32-30` profile: 30 blobs of 32768 coefficients, cells of 32 symbols.
    pub fn blob_ext_4x_c32_30() -> (r: ExtProfile)
        ensures
            r.n == 30 && r.m == 65536 && r.k == 32768 && r.c == 32 && r.whir_log_inv_rate == 1,
            r.name@ == "blob-ext-4x-c32-30"@,
    {
        ExtProfile { name: "blob-ext-4x-c32-30", n: 30, m: 65536, k: 32768, c: 32, whir_log_inv_rate: 1 }
    }

    /// The `blob-ext-4x-c32-32` profile: 32 blobs of 32768 coefficients, cells of 32 symbols.
    pub fn blob_ext_4x_c32_32() -> (r: ExtProfile)
        ensures
            r.n == 32 && r.m == 65536 && r.k == 32768 && r.c == 32 && r.whir_log_inv_rate == 1,
            r.name@ == "blob-ext-4x-c32-32"@,
    {
        ExtProfile { name: "blob-ext-4x-c32-32", n: 32, m: 65536, k: 32768, c: 32, whir_log_inv_rate: 1 }
    }

    /// The `blob-ext-4x-c128-14` profile: 14 blobs of 32768 coefficients, cells of 128 symbols.
    pub fn blob_ext_4x_c128_14() -> (r: ExtProfile)
        ensures
            r.n == 14 && r.m == 65536 && r.k == 32768 && r.c == 128 && r.whir_log_inv_rate == 1,
            r.name@ == "blob-ext-4x-c128-14"@,
    {
        ExtProfile { name: "blob-ext-4x-c128-14", n: 14, m: 65536, k: 32768, c: 128, whir_log_inv_rate: 1 }
    }

    /// What encoding and erasure decoding need of the shape: a domain of
    /// at most `2^24` points, twice the message length, split into whole
    /// cells whose words fill whole digests.
    pub open spec fn is_decodable(self) -> bool {
        &&& self.n > 0 && self.k > 0 && self.m > 0 && self.c > 0
        &&& is_pow2(self.m as nat) && is_pow2(self.k as nat) && self.m == 2 * self.k
        &&& self.m % self.c == 0
        &&& (self.c * EXT_DEGREE) % (DIGEST_LEN as int) == 0
        &&& log2(self.m as nat) <= 24
    }

    /// The constraints that `validate` checks.
    pub open spec fn is_valid(self) -> bool {
        &&& self.n > 0 && self.k > 0 && self.m > 0 && self.c > 0
        &&& is_pow2(self.m as nat) && is_pow2(self.k as nat) && self.m == 2 * self.k
        &&& self.m % self.c == 0 && is_pow2((self.m / self.c) as nat)
        &&& (self.c * EXT_DEGREE) % (DIGEST_LEN as int) == 0
        &&& 1 <= self.whir_log_inv_rate <= 4 && log2(self.m as nat) <= 24
    }

    /// Number of cell columns in one codeword.
    pub fn n_cells(self) -> (r: usize)
        requires
            self.c > 0,
        ensures
            r == self.m / self.c,
    {
        self.m / self.c
    }

    /// Number of cell columns needed for reconstruction: `k / c` rounded up.
    pub fn reconstruction_threshold_cells(self) -> (r: usize)
        requires
            self.c > 0,
        ensures
            r == (self.k + self.c - 1) / (self.c as int),
    {
        let q = self.k / self.c;
        let rem = self.k % self.c;
        proof {
            let c = self.c as int;
            let k = self.k as int;
            vstd::arithmetic::div_mod::lemma_fundamental_div_mod(k, c);
            assert(k == c * q + rem);
            if rem == 0 {
                assert(k + c - 1 == c * q + (c - 1));
                vstd::arithmetic::div_mod::lemma_div_multiples_vanish_fancy(q as int, c - 1, c);
            } else {
                vstd::arithmetic::mul::lemma_mul_is_distributive_add(c, q as int, 1);
                assert(k + c - 1 == c * (q + 1) + (rem - 1));
                vstd::arithmetic::div_mod::lemma_div_multiples_vanish_fancy(q + 1, rem - 1, c);
                assert(c >= 2);
                vstd::arithmetic::mul::lemma_mul_inequality(2, c, q as int);
                assert(q < self.k);
            }
        }
        if rem == 0 {
            q
        } else {
            q + 1
        }
    }

    /// Spacing of the systematic symbols in the transform domain.
    pub fn systematic_stride(self) -> (r: usize)
        requires
            self.k > 0,
        ensures
            r == self.m / self.k,
    {
        self.m / self.k
    }

    /// Depth of the Merkle tree over the cell columns.
    pub fn merkle_depth(self) -> (r: usize)
        requires
            self.c > 0,
            self.m / self.c >= 1,
        ensures
            r == log2((self.m / self.c) as nat),
    {
        ilog2(self.n_cells())
    }

    /// Checks the constraints of the encoding; every violation is
    /// `InvalidDataShape`.
    pub fn validate(self) -> (r: Result<(), DemoError>)
        ensures
            r is Ok <==> self.is_valid(),
            r matches Err(e) ==> e == DemoError::InvalidDataShape,
    {
        if self.n == 0 || self.k == 0 || self.m == 0 || self.c == 0 {
            return Err(DemoError::InvalidDataShape);
        }
        if !is_power_of_two(self.m) || !is_power_of_two(self.k) || self.m / 2 != self.k || self.m % 2 != 0 {
            return Err(DemoError::InvalidDataShape);
        }
        if self.m % self.c != 0 || !is_power_of_two(self.n_cells()) {
            return Err(DemoError::InvalidDataShape);
        }
        proof {
            lemma_cell_chunks(self.c as nat);
        }
        if self.c % 8 != 0 {
            return Err(DemoError::InvalidDataShape);
        }
        if self.whir_log_inv_rate < 1 || self.whir_log_inv_rate > 4 || ilog2(self.m) > 24 {
            return Err(DemoError::InvalidDataShape);
        }
        Ok(())
    }

    /// The profile as one block of base-field elements, bound into every
    /// Fiat-Shamir transcript.
    pub fn profile_block(self) -> (r: [u32; DIGEST_LEN])
        requires
            self.c > 0,
        ensures
            r@ == profile_block_of(self),
    {
        let r = [
            0x5051_4458u32,
            2u32,
            f_from_usize(self.n),
            f_from_usize(self.m),
            f_from_usize(self.k),
            f_from_usize(self.c),
            f_from_usize(self.n_cells()),
            f_from_usize(self.whir_log_inv_rate),
        ];
        assert(r@ =~= profile_block_of(self));
        r
    }
}

} // verus!
