//! Device memory the engine has to fit into.

use vstd::prelude::*;
use vstd::string::StringExecFns;

use crate::text::{decimal, push_number};

verus! {

/// Bytes a forward pass needs for every input pixel: activations and patch matrices.
/// Together with `FIXED_BYTES` this is a straight line through the peaks measured at
/// 1536x1536, 2048x2048 and 2560x2560.
pub const BYTES_PER_PIXEL: u64 = 1170;

/// Bytes a forward pass needs whatever the input: the weights and the context (343 MiB).
pub const FIXED_BYTES: u64 = 359661568;

/// What a device has to offer.
#[derive(Debug, Clone)]
pub struct DeviceMemory {
    pub free: u64,
    pub total: u64,
    pub name: String,
}

/// The straight line through the measurements.
pub open spec fn estimate(px: nat) -> nat {
    px * BYTES_PER_PIXEL as nat + FIXED_BYTES as nat
}

/// Device memory the engine is expected to need for `px` input pixels.  Absurd sizes
/// saturate rather than wrap around to a small number.
pub fn estimated_bytes(px: u64) -> (bytes: u64)
    ensures
        bytes == if estimate(px as nat) <= u64::MAX {
            estimate(px as nat) as int
        } else {
            u64::MAX as int
        },
{
    assert(px * BYTES_PER_PIXEL <= 0xffff_ffff_ffff_ffff * 1170) by (nonlinear_arith)
        requires
            BYTES_PER_PIXEL == 1170,
            px <= 0xffff_ffff_ffff_ffff,
    ;
    let need: u128 = px as u128 * BYTES_PER_PIXEL as u128 + FIXED_BYTES as u128;
    if need <= u64::MAX as u128 {
        need as u64
    } else {
        u64::MAX
    }
}

/// `a / b` rounded to the nearest whole number, and halfway cases to the even one.
pub open spec fn rounded(a: nat, b: nat) -> nat {
    let q = a / b;
    let r = a % b;
    if 2 * r < b || 2 * r == b && q % 2 == 0 {
        q
    } else {
        q + 1
    }
}

/// The distance between neighbouring double-precision numbers around `n`, for whole
/// numbers that are not below 1.
pub open spec fn double_step(n: nat) -> nat
    decreases n,
{
    if n < 0x20_0000_0000_0000 {
        1
    } else {
        2 * double_step(n / 2)
    }
}

/// The double-precision number nearest to `n`.
pub open spec fn nearest_double(n: nat) -> nat {
    rounded(n, double_step(n)) * double_step(n)
}

/// A number of bytes for human eyes: gigabytes to one decimal place from 1 GiB on, whole
/// megabytes below.
pub open spec fn size_text(bytes: nat) -> Seq<char> {
    if bytes >= 0x4000_0000 {
        let tenths = rounded(nearest_double(bytes) * 10, 0x4000_0000);
        decimal(tenths / 10) + "."@ + decimal(tenths % 10) + " GB"@
    } else {
        decimal(rounded(bytes, 0x10_0000)) + " MB"@
    }
}

/// The complaint about a pass that does not fit.
pub open spec fn too_large(h: nat, w: nat, need: nat, m: DeviceMemory, hint: Seq<char>) -> Seq<
    char,
> {
    "an inference over "@ + decimal(w) + "x"@ + decimal(h) + " needs about "@ + size_text(need)
        + " of device memory, but only "@ + size_text(m.free as nat) + " is free of "@ + size_text(
        m.total as nat,
    ) + " on \""@ + m.name@ + "\".  "@ + hint
}

fn round_div(a: u128, b: u128) -> (q: u128)
    requires
        0 < b <= 0x4000_0000,
        a <= 0x1_0000_0000_0000_0000_0000,
    ensures
        q == rounded(a as nat, b as nat),
{
    let q: u128 = a / b;
    let r: u128 = a % b;
    assert(q <= a) by (nonlinear_arith)
        requires
            q == a / b,
            0 < b,
            0 <= a,
    ;
    if 2 * r < b || 2 * r == b && q % 2 == 0 {
        q
    } else {
        q + 1
    }
}

/// The double-precision number nearest to `n`.
fn to_double(n: u64) -> (d: u128)
    ensures
        d == nearest_double(n as nat),
        d <= 0x2_0000_0000_0000_0000,
{
    let mut left: u64 = n;
    let mut step: u128 = 1;
    while left >= 0x20_0000_0000_0000
        invariant
            1 <= step <= 0x1000,
            step * left <= n,
            step * double_step(left as nat) == double_step(n as nat),
        decreases left,
    {
        proof {
            let half = left / 2;
            assert(2 * half <= left);
            assert(step * 2 * half <= step * left) by (nonlinear_arith)
                requires
                    2 * half <= left,
                    0 <= step,
            ;
            assert((step * 2) * half == step * 2 * half);
            assert(step * (2 * double_step(half as nat)) == step * 2 * double_step(half as nat))
                by (nonlinear_arith);
            assert(step * left >= step * 0x20_0000_0000_0000) by (nonlinear_arith)
                requires
                    left >= 0x20_0000_0000_0000,
                    0 <= step,
            ;
        }
        left = left / 2;
        step = step * 2;
    }
    assert(step == double_step(n as nat)) by {
        assert(double_step(left as nat) == 1);
        assert(step * double_step(left as nat) == step) by (nonlinear_arith)
            requires
                double_step(left as nat) == 1,
        ;
    }
    let q: u128 = round_div(n as u128, step);
    proof {
        assert(q * step <= n + step) by {
            let k = n as int / step as int;
            vstd::arithmetic::div_mod::lemma_fundamental_div_mod(n as int, step as int);
            assert(q * step <= (k + 1) * step) by (nonlinear_arith)
                requires
                    q <= k + 1,
                    0 <= step,
            ;
            assert((k + 1) * step == step * k + step) by (nonlinear_arith);
        }
    }
    q * step
}

/// Bytes as a human string, in GB or MB.
pub fn mib(bytes: u64) -> (s: String)
    ensures
        s@ == size_text(bytes as nat),
{
    let mut s = String::new();
    if bytes >= 0x4000_0000 {
        let tenths: u128 = round_div(to_double(bytes) * 10, 0x4000_0000);
        assert(tenths <= 0x50_0000_0001);
        push_number(&mut s, (tenths / 10) as u64);
        s.append(".");
        push_number(&mut s, (tenths % 10) as u64);
        s.append(" GB");
    } else {
        let whole: u128 = round_div(bytes as u128, 0x10_0000);
        push_number(&mut s, whole as u64);
        s.append(" MB");
    }
    assert(s@ =~= size_text(bytes as nat));
    s
}

/// Refuse a forward pass that the device cannot hold, before anything is allocated.
///
/// A tenth of what is free is left as headroom for fragmentation and whatever else holds
/// the card.  When nothing is known of the device (`None`) the pass is let through.
/// `hint` names what to do instead.
pub fn check_capacity(h: usize, w: usize, hint: &str, memory: &Option<DeviceMemory>) -> (res: Result<
    (),
    String,
>)
    requires
        h * w <= u64::MAX,
    ensures
        match *memory {
            None => res is Ok,
            Some(m) => {
                let need = if estimate((h * w) as nat) <= u64::MAX {
                    estimate((h * w) as nat)
                } else {
                    u64::MAX as nat
                };
                if need <= m.free - m.free / 10 {
                    res is Ok
                } else {
                    res matches Err(e) && e@ == too_large(h as nat, w as nat, need, m, hint@)
                }
            },
        },
{
    let m: &DeviceMemory = match memory {
        None => {
            return Ok(());
        },
        Some(m) => m,
    };
    let need: u64 = estimated_bytes(h as u64 * w as u64);
    if need <= m.free - m.free / 10 {
        return Ok(());
    }
    let mut e: String = "an inference over ".to_owned();
    push_number(&mut e, w as u64);
    e.append("x");
    push_number(&mut e, h as u64);
    e.append(" needs about ");
    e.append(mib(need).as_str());
    e.append(" of device memory, but only ");
    e.append(mib(m.free).as_str());
    e.append(" is free of ");
    e.append(mib(m.total).as_str());
    e.append(" on \"");
    e.append(m.name.as_str());
    e.append("\".  ");
    e.append(hint);
    Err(e)
}

/// The estimate grows with the area.
pub proof fn law_estimate_is_monotone(p: nat, q: nat)
    requires
        p < q,
    ensures
        estimate(p) < estimate(q),
{
}

/// A pass that is let through on a device is let through on any with at least as much
/// memory free.
pub proof fn law_more_memory_never_refuses(need: nat, free: nat, more: nat)
    requires
        need <= free - free / 10,
        free <= more,
    ensures
        need <= more - more / 10,
{
}

} // verus!
