use vstd::prelude::*;

verus! {

/// Spread a 16-bit number over the even bit positions of a 32-bit number:
/// bit `k` of the input lands at bit `2k`, and every odd bit is zero.
pub fn set_even_bits(n: u16) -> (r: u32)
    ensures
        forall|k: u32|
            k < 16 ==> (#[trigger] ((r >> k) >> k) & 1) == ((n as u32) >> k) & 1,
        forall|k: u32| k < 16 ==> (#[trigger] (((r >> k) >> k) >> 1) & 1) == 0,
{
    let x0 = n as u32;
    let x1 = (x0 | x0 << 8) & 0x00ff00ff;
    let x2 = (x1 | x1 << 4) & 0x0f0f0f0f;
    let x3 = (x2 | x2 << 2) & 0x33333333;
    let x4 = (x3 | x3 << 1) & 0x55555555;
    proof {
        assert(forall|k: u32|
            k < 16 ==> (#[trigger] ((x4 >> k) >> k) & 1) == ((x0 >> k) & 1)) by (bit_vector)
            requires
                x1 == (x0 | x0 << 8) & 0x00ff00ff,
                x2 == (x1 | x1 << 4) & 0x0f0f0f0f,
                x3 == (x2 | x2 << 2) & 0x33333333,
                x4 == (x3 | x3 << 1) & 0x55555555,
                x0 < 0x1_0000,
        ;
        assert(forall|k: u32| k < 16 ==> (#[trigger] (((x4 >> k) >> k) >> 1) & 1) == 0)
            by (bit_vector)
            requires
                x1 == (x0 | x0 << 8) & 0x00ff00ff,
                x2 == (x1 | x1 << 4) & 0x0f0f0f0f,
                x3 == (x2 | x2 << 2) & 0x33333333,
                x4 == (x3 | x3 << 1) & 0x55555555,
                x0 < 0x1_0000,
        ;
    }
    x4
}

/// Gather the even bit positions of a 32-bit number into a 16-bit number:
/// bit `k` of the result is bit `2k` of the input.
pub fn get_even_bits(n: u32) -> (r: u16)
    ensures
        forall|k: u32|
            k < 16 ==> (#[trigger] ((r as u32) >> k) & 1) == (((n >> k) >> k) & 1),
{
    let x0 = (n & 0x44444444) >> 1 | (n & 0x11111111);
    let x1 = (x0 & 0x30303030) >> 2 | (x0 & 0x03030303);
    let x2 = (x1 & 0x0f000f00) >> 4 | (x1 & 0x000f000f);
    let x3 = (x2 & 0x00ff0000) >> 8 | (x2 & 0x000000ff);
    proof {
        assert(x3 < 0x1_0000 && forall|k: u32|
            k < 16 ==> (#[trigger] (x3 >> k) & 1) == (((n >> k) >> k) & 1)) by (bit_vector)
            requires
                x0 == (n & 0x44444444) >> 1 | (n & 0x11111111),
                x1 == (x0 & 0x30303030) >> 2 | (x0 & 0x03030303),
                x2 == (x1 & 0x0f000f00) >> 4 | (x1 & 0x000f000f),
                x3 == (x2 & 0x00ff0000) >> 8 | (x2 & 0x000000ff),
        ;
        assert(forall|k: u32|
            k < 16 ==> (#[trigger] ((x3 as u16 as u32) >> k) & 1) == ((x3 >> k) & 1))
            by (bit_vector)
            requires
                x3 < 0x1_0000,
        ;
    }
    x3 as u16
}

} // verus!
