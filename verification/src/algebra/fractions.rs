//! What the partial-fraction scheme rests on: two lies outside every group of
//! roots of unity of two-power order, and the sums of reciprocals over such a group.
use vstd::arithmetic::mul::{lemma_mul_is_commutative, lemma_mul_nonnegative};
use vstd::arithmetic::power::{
    lemma_pow0, lemma_pow1, lemma_pow_adds, lemma_pow_distributes, lemma_pow_multiplies, pow,
};
use vstd::arithmetic::power2::{lemma2_to64, lemma_pow2_pos, lemma_pow2_unfold, pow2};
use vstd::prelude::*;

use crate::algebra::dft::{dft, dft_terms, lemma_sum_ones, lemma_sum_rotate};
use crate::algebra::residue::{
    cong, inv, is_unit, lemma_cong_add, lemma_cong_diff, lemma_cong_mul, lemma_cong_multiple,
    lemma_cong_sub, lemma_inv, lemma_inv_unique, lemma_pow_inverse, lemma_pow_one, lemma_unit_cong,
    lemma_unit_factor, order,
};
use crate::algebra::roots::{
    is_root, lemma_geometric, lemma_orthogonal, lemma_pow_period, lemma_root_difference,
    lemma_root_inverse, lemma_root_period, powers, wide,
};
use crate::algebra::sums::{
    lemma_sum_add, lemma_sum_cong, lemma_sum_ext, lemma_sum_first, lemma_sum_reverse,
    lemma_sum_scale, lemma_sum_shift, lemma_sum_sub, lemma_sum_swap, sum,
};

verus! {

/// One squaring: `value^2` is `next` modulo the order, with quotient `quotient`.
proof fn lemma_square_two(value: int, quotient: int, next: int, level: nat)
    requires
        cong(pow(2, pow2(level)), value),
        value * value == quotient * order() + next,
    ensures
        cong(pow(2, pow2(level + 1)), next),
{
    let power = pow(2, pow2(level));
    lemma_pow2_unfold(level + 1);
    lemma_pow_adds(2, pow2(level), pow2(level));
    lemma_cong_mul(power, value, power, value);
    lemma_cong_multiple(next, quotient);
}

/// The power of two that the largest domain is about.
proof fn lemma_largest_power()
    ensures
        cong(
            pow(2, pow2(32)),
            wide(0x3de0e6addbef0dc00f055b0bd7928cf7, 0xe44ba766041165d1736f82b3d068c2c5),
        ),
{
    reveal(order);
    lemma2_to64();
    lemma_pow1(2);
    assert(wide(0x0, 0x2)
        * wide(0x0, 0x2)
        == wide(0x0, 0x0)
        * wide(0x73eda753299d7d483339d80809a1d805, 0x53bda402fffe5bfeffffffff00000001)
        + wide(0x0, 0x4)) by (nonlinear_arith);
    lemma_square_two(
        wide(0x0, 0x2),
        wide(0x0, 0x0),
        wide(0x0, 0x4),
        0,
    );
    assert(wide(0x0, 0x4)
        * wide(0x0, 0x4)
        == wide(0x0, 0x0)
        * wide(0x73eda753299d7d483339d80809a1d805, 0x53bda402fffe5bfeffffffff00000001)
        + wide(0x0, 0x10)) by (nonlinear_arith);
    lemma_square_two(
        wide(0x0, 0x4),
        wide(0x0, 0x0),
        wide(0x0, 0x10),
        1,
    );
    assert(wide(0x0, 0x10)
        * wide(0x0, 0x10)
        == wide(0x0, 0x0)
        * wide(0x73eda753299d7d483339d80809a1d805, 0x53bda402fffe5bfeffffffff00000001)
        + wide(0x0, 0x100)) by (nonlinear_arith);
    lemma_square_two(
        wide(0x0, 0x10),
        wide(0x0, 0x0),
        wide(0x0, 0x100),
        2,
    );
    assert(wide(0x0, 0x100)
        * wide(0x0, 0x100)
        == wide(0x0, 0x0)
        * wide(0x73eda753299d7d483339d80809a1d805, 0x53bda402fffe5bfeffffffff00000001)
        + wide(0x0, 0x10000)) by (nonlinear_arith);
    lemma_square_two(
        wide(0x0, 0x100),
        wide(0x0, 0x0),
        wide(0x0, 0x10000),
        3,
    );
    assert(wide(0x0, 0x10000)
        * wide(0x0, 0x10000)
        == wide(0x0, 0x0)
        * wide(0x73eda753299d7d483339d80809a1d805, 0x53bda402fffe5bfeffffffff00000001)
        + wide(0x0, 0x100000000)) by (nonlinear_arith);
    lemma_square_two(
        wide(0x0, 0x10000),
        wide(0x0, 0x0),
        wide(0x0, 0x100000000),
        4,
    );
    assert(wide(0x0, 0x100000000)
        * wide(0x0, 0x100000000)
        == wide(0x0, 0x0)
        * wide(0x73eda753299d7d483339d80809a1d805, 0x53bda402fffe5bfeffffffff00000001)
        + wide(0x0, 0x10000000000000000)) by (nonlinear_arith);
    lemma_square_two(
        wide(0x0, 0x100000000),
        wide(0x0, 0x0),
        wide(0x0, 0x10000000000000000),
        5,
    );
    assert(wide(0x0, 0x10000000000000000)
        * wide(0x0, 0x10000000000000000)
        == wide(0x0, 0x0)
        * wide(0x73eda753299d7d483339d80809a1d805, 0x53bda402fffe5bfeffffffff00000001)
        + wide(0x1, 0x0)) by (nonlinear_arith);
    lemma_square_two(
        wide(0x0, 0x10000000000000000),
        wide(0x0, 0x0),
        wide(0x1, 0x0),
        6,
    );
    assert(wide(0x1, 0x0)
        * wide(0x1, 0x0)
        == wide(0x0, 0x2)
        * wide(0x73eda753299d7d483339d80809a1d805, 0x53bda402fffe5bfeffffffff00000001)
        + wide(0x1824b159acc5056f998c4fefecbc4ff5, 0x5884b7fa0003480200000001fffffffe))
            by (nonlinear_arith);
    lemma_square_two(
        wide(0x1, 0x0),
        wide(0x0, 0x2),
        wide(0x1824b159acc5056f998c4fefecbc4ff5, 0x5884b7fa0003480200000001fffffffe),
        7,
    );
    assert(wide(0x1824b159acc5056f998c4fefecbc4ff5, 0x5884b7fa0003480200000001fffffffe)
        * wide(0x1824b159acc5056f998c4fefecbc4ff5, 0x5884b7fa0003480200000001fffffffe)
        == wide(0x507323aa5542c9d059d3cd72e67eee8, 0xb3facec0be451d6d427379fe0c0d6397)
        * wide(0x73eda753299d7d483339d80809a1d805, 0x53bda402fffe5bfeffffffff00000001)
        + wide(0x748d9d99f59ff1105d314967254398f, 0x2b6cedcb87925c23c999e990f3f29c6d))
            by (nonlinear_arith);
    lemma_square_two(
        wide(0x1824b159acc5056f998c4fefecbc4ff5, 0x5884b7fa0003480200000001fffffffe),
        wide(0x507323aa5542c9d059d3cd72e67eee8, 0xb3facec0be451d6d427379fe0c0d6397),
        wide(0x748d9d99f59ff1105d314967254398f, 0x2b6cedcb87925c23c999e990f3f29c6d),
        8,
    );
    assert(wide(0x748d9d99f59ff1105d314967254398f, 0x2b6cedcb87925c23c999e990f3f29c6d)
        * wide(0x748d9d99f59ff1105d314967254398f, 0x2b6cedcb87925c23c999e990f3f29c6d)
        == wide(0x752e7099659d0bac94da71d1956d57, 0x9d9e271b5aa610443df839873b25eb96)
        * wide(0x73eda753299d7d483339d80809a1d805, 0x53bda402fffe5bfeffffffff00000001)
        + wide(0x8a63526916f202cf948ab00b364c750, 0x8fd47d36f830a6c1b9c9191d0831ad3))
            by (nonlinear_arith);
    lemma_square_two(
        wide(0x748d9d99f59ff1105d314967254398f, 0x2b6cedcb87925c23c999e990f3f29c6d),
        wide(0x752e7099659d0bac94da71d1956d57, 0x9d9e271b5aa610443df839873b25eb96),
        wide(0x8a63526916f202cf948ab00b364c750, 0x8fd47d36f830a6c1b9c9191d0831ad3),
        9,
    );
    assert(wide(0x8a63526916f202cf948ab00b364c750, 0x8fd47d36f830a6c1b9c9191d0831ad3)
        * wide(0x8a63526916f202cf948ab00b364c750, 0x8fd47d36f830a6c1b9c9191d0831ad3)
        == wide(0xa532ea5783fe040569af58a6e23d2c, 0xa44aef89ba5b0f1be76c709d9f624516)
        * wide(0x73eda753299d7d483339d80809a1d805, 0x53bda402fffe5bfeffffffff00000001)
        + wide(0x60a83011a974da448338fbec3aa06ed1, 0x8f2739761eed25534dda8c39b75f44d3))
            by (nonlinear_arith);
    lemma_square_two(
        wide(0x8a63526916f202cf948ab00b364c750, 0x8fd47d36f830a6c1b9c9191d0831ad3),
        wide(0xa532ea5783fe040569af58a6e23d2c, 0xa44aef89ba5b0f1be76c709d9f624516),
        wide(0x60a83011a974da448338fbec3aa06ed1, 0x8f2739761eed25534dda8c39b75f44d3),
        10,
    );
    assert(wide(0x60a83011a974da448338fbec3aa06ed1, 0x8f2739761eed25534dda8c39b75f44d3)
        * wide(0x60a83011a974da448338fbec3aa06ed1, 0x8f2739761eed25534dda8c39b75f44d3)
        == wide(0x5096d638b46e19be9e43c37dc111b05a, 0xf1d0adb69eb4f3fc60a87b9840674ec9)
        * wide(0x73eda753299d7d483339d80809a1d805, 0x53bda402fffe5bfeffffffff00000001)
        + wide(0x5319ef23e3a92549b7550b8cd9266194, 0x47c6ed93ab6104726427990090b37720))
            by (nonlinear_arith);
    lemma_square_two(
        wide(0x60a83011a974da448338fbec3aa06ed1, 0x8f2739761eed25534dda8c39b75f44d3),
        wide(0x5096d638b46e19be9e43c37dc111b05a, 0xf1d0adb69eb4f3fc60a87b9840674ec9),
        wide(0x5319ef23e3a92549b7550b8cd9266194, 0x47c6ed93ab6104726427990090b37720),
        11,
    );
    assert(wide(0x5319ef23e3a92549b7550b8cd9266194, 0x47c6ed93ab6104726427990090b37720)
        * wide(0x5319ef23e3a92549b7550b8cd9266194, 0x47c6ed93ab6104726427990090b37720)
        == wide(0x3b91ddfb304adc35e025b32f02bbc50b, 0x5271ed73b24dc789da249c93e5a3990e)
        * wide(0x73eda753299d7d483339d80809a1d805, 0x53bda402fffe5bfeffffffff00000001)
        + wide(0x1ed2a796ecb0113381f3c4843a9dd73a, 0xbba0ed4610e774e2d6da04de88b2af2))
            by (nonlinear_arith);
    lemma_square_two(
        wide(0x5319ef23e3a92549b7550b8cd9266194, 0x47c6ed93ab6104726427990090b37720),
        wide(0x3b91ddfb304adc35e025b32f02bbc50b, 0x5271ed73b24dc789da249c93e5a3990e),
        wide(0x1ed2a796ecb0113381f3c4843a9dd73a, 0xbba0ed4610e774e2d6da04de88b2af2),
        12,
    );
    assert(wide(0x1ed2a796ecb0113381f3c4843a9dd73a, 0xbba0ed4610e774e2d6da04de88b2af2)
        * wide(0x1ed2a796ecb0113381f3c4843a9dd73a, 0xbba0ed4610e774e2d6da04de88b2af2)
        == wide(0x831f4e703a5701de69149ae4abfb1e9, 0x4294ef1e601cf689a47f3c81806cbb8b)
        * wide(0x73eda753299d7d483339d80809a1d805, 0x53bda402fffe5bfeffffffff00000001)
        + wide(0x4ed2ed2b6a2f4501d5a16ba8850a00a9, 0x98bfd18aa02ca2fa2ea45e1bc9939139))
            by (nonlinear_arith);
    lemma_square_two(
        wide(0x1ed2a796ecb0113381f3c4843a9dd73a, 0xbba0ed4610e774e2d6da04de88b2af2),
        wide(0x831f4e703a5701de69149ae4abfb1e9, 0x4294ef1e601cf689a47f3c81806cbb8b),
        wide(0x4ed2ed2b6a2f4501d5a16ba8850a00a9, 0x98bfd18aa02ca2fa2ea45e1bc9939139),
        13,
    );
    assert(wide(0x4ed2ed2b6a2f4501d5a16ba8850a00a9, 0x98bfd18aa02ca2fa2ea45e1bc9939139)
        * wide(0x4ed2ed2b6a2f4501d5a16ba8850a00a9, 0x98bfd18aa02ca2fa2ea45e1bc9939139)
        == wide(0x3598649f0a5fe253970cbafe468dd30c, 0x29c5171740f156771fb18a4b4f84f1a)
        * wide(0x73eda753299d7d483339d80809a1d805, 0x53bda402fffe5bfeffffffff00000001)
        + wide(0x16a619bfcc917e72f32777f967569320, 0xb98258a86aea79fa5284c396e6df4f97))
            by (nonlinear_arith);
    lemma_square_two(
        wide(0x4ed2ed2b6a2f4501d5a16ba8850a00a9, 0x98bfd18aa02ca2fa2ea45e1bc9939139),
        wide(0x3598649f0a5fe253970cbafe468dd30c, 0x29c5171740f156771fb18a4b4f84f1a),
        wide(0x16a619bfcc917e72f32777f967569320, 0xb98258a86aea79fa5284c396e6df4f97),
        14,
    );
    assert(wide(0x16a619bfcc917e72f32777f967569320, 0xb98258a86aea79fa5284c396e6df4f97)
        * wide(0x16a619bfcc917e72f32777f967569320, 0xb98258a86aea79fa5284c396e6df4f97)
        == wide(0x46cc53f26a9ba82a6758221a77ff400, 0x2e4a70fe9f6b97b69a3a8c948011c5d6)
        * wide(0x73eda753299d7d483339d80809a1d805, 0x53bda402fffe5bfeffffffff00000001)
        + wide(0x312aea4feae929a8cd13028fac78855, 0xb3162b5f29d8659246b68e0495bec53b))
            by (nonlinear_arith);
    lemma_square_two(
        wide(0x16a619bfcc917e72f32777f967569320, 0xb98258a86aea79fa5284c396e6df4f97),
        wide(0x46cc53f26a9ba82a6758221a77ff400, 0x2e4a70fe9f6b97b69a3a8c948011c5d6),
        wide(0x312aea4feae929a8cd13028fac78855, 0xb3162b5f29d8659246b68e0495bec53b),
        15,
    );
    assert(wide(0x312aea4feae929a8cd13028fac78855, 0xb3162b5f29d8659246b68e0495bec53b)
        * wide(0x312aea4feae929a8cd13028fac78855, 0xb3162b5f29d8659246b68e0495bec53b)
        == wide(0x14da5feecc46a5557a7c35cf6d3d2a, 0xe564bb859c49338a8c000609c64311a9)
        * wide(0x73eda753299d7d483339d80809a1d805, 0x53bda402fffe5bfeffffffff00000001)
        + wide(0xc51bb2a8a98a8ed07d5c0300b1b4855, 0xb77002798cef02c5968249374344c9f0))
            by (nonlinear_arith);
    lemma_square_two(
        wide(0x312aea4feae929a8cd13028fac78855, 0xb3162b5f29d8659246b68e0495bec53b),
        wide(0x14da5feecc46a5557a7c35cf6d3d2a, 0xe564bb859c49338a8c000609c64311a9),
        wide(0xc51bb2a8a98a8ed07d5c0300b1b4855, 0xb77002798cef02c5968249374344c9f0),
        16,
    );
    assert(wide(0xc51bb2a8a98a8ed07d5c0300b1b4855, 0xb77002798cef02c5968249374344c9f0)
        * wide(0xc51bb2a8a98a8ed07d5c0300b1b4855, 0xb77002798cef02c5968249374344c9f0)
        == wide(0x14f228e4d07810163ab49b5f4f9d9ee, 0x9700ca788239bc592b23453c07c49cb)
        * wide(0x73eda753299d7d483339d80809a1d805, 0x53bda402fffe5bfeffffffff00000001)
        + wide(0x28b45b9293aa9b474f4fc9a5734425fe, 0xebbd3a421127f886b9f0cec6c64e7735))
            by (nonlinear_arith);
    lemma_square_two(
        wide(0xc51bb2a8a98a8ed07d5c0300b1b4855, 0xb77002798cef02c5968249374344c9f0),
        wide(0x14f228e4d07810163ab49b5f4f9d9ee, 0x9700ca788239bc592b23453c07c49cb),
        wide(0x28b45b9293aa9b474f4fc9a5734425fe, 0xebbd3a421127f886b9f0cec6c64e7735),
        17,
    );
    assert(wide(0x28b45b9293aa9b474f4fc9a5734425fe, 0xebbd3a421127f886b9f0cec6c64e7735)
        * wide(0x28b45b9293aa9b474f4fc9a5734425fe, 0xebbd3a421127f886b9f0cec6c64e7735)
        == wide(0xe4ac6611f75d7137d611b73e77e8b92, 0xb47b8e500195c32eaa59580bf29160db)
        * wide(0x73eda753299d7d483339d80809a1d805, 0x53bda402fffe5bfeffffffff00000001)
        + wide(0x25124877d4412ffc1f9ec64f565d2217, 0x56e19110c1d37a1c086f333de53cf01e))
            by (nonlinear_arith);
    lemma_square_two(
        wide(0x28b45b9293aa9b474f4fc9a5734425fe, 0xebbd3a421127f886b9f0cec6c64e7735),
        wide(0xe4ac6611f75d7137d611b73e77e8b92, 0xb47b8e500195c32eaa59580bf29160db),
        wide(0x25124877d4412ffc1f9ec64f565d2217, 0x56e19110c1d37a1c086f333de53cf01e),
        18,
    );
    assert(wide(0x25124877d4412ffc1f9ec64f565d2217, 0x56e19110c1d37a1c086f333de53cf01e)
        * wide(0x25124877d4412ffc1f9ec64f565d2217, 0x56e19110c1d37a1c086f333de53cf01e)
        == wide(0xbdaca77f677fe8c0ccc97eb9e80bb08, 0xff769df997e2bf47d232a039f7b19d5e)
        * wide(0x73eda753299d7d483339d80809a1d805, 0x53bda402fffe5bfeffffffff00000001)
        + wide(0xc6d8779b447a0b2c17bf60f7c6d73aa, 0xaeade79838172707937f73872396a626))
            by (nonlinear_arith);
    lemma_square_two(
        wide(0x25124877d4412ffc1f9ec64f565d2217, 0x56e19110c1d37a1c086f333de53cf01e),
        wide(0xbdaca77f677fe8c0ccc97eb9e80bb08, 0xff769df997e2bf47d232a039f7b19d5e),
        wide(0xc6d8779b447a0b2c17bf60f7c6d73aa, 0xaeade79838172707937f73872396a626),
        19,
    );
    assert(wide(0xc6d8779b447a0b2c17bf60f7c6d73aa, 0xaeade79838172707937f73872396a626)
        * wide(0xc6d8779b447a0b2c17bf60f7c6d73aa, 0xaeade79838172707937f73872396a626)
        == wide(0x15511aae6d4829f45cbb0a1313af64c, 0xc1aa2ead1dd987a07238b60ecd62806a)
        * wide(0x73eda753299d7d483339d80809a1d805, 0x53bda402fffe5bfeffffffff00000001)
        + wide(0x25657002e5af0322878c9ed25a783179, 0xa18639f917374484bff9b484b6facd3a))
            by (nonlinear_arith);
    lemma_square_two(
        wide(0xc6d8779b447a0b2c17bf60f7c6d73aa, 0xaeade79838172707937f73872396a626),
        wide(0x15511aae6d4829f45cbb0a1313af64c, 0xc1aa2ead1dd987a07238b60ecd62806a),
        wide(0x25657002e5af0322878c9ed25a783179, 0xa18639f917374484bff9b484b6facd3a),
        20,
    );
    assert(wide(0x25657002e5af0322878c9ed25a783179, 0xa18639f917374484bff9b484b6facd3a)
        * wide(0x25657002e5af0322878c9ed25a783179, 0xa18639f917374484bff9b484b6facd3a)
        == wide(0xc1034b903ffac5d99f80fe68efe8ab3, 0x1928f79dca353cb173d0f2d3165f1abc)
        * wide(0x73eda753299d7d483339d80809a1d805, 0x53bda402fffe5bfeffffffff00000001)
        + wide(0x66ef487cdbd789afee8307ccbb53dcff, 0x1d7bc0e004eecceb4f68ed3cdb6ed668))
            by (nonlinear_arith);
    lemma_square_two(
        wide(0x25657002e5af0322878c9ed25a783179, 0xa18639f917374484bff9b484b6facd3a),
        wide(0xc1034b903ffac5d99f80fe68efe8ab3, 0x1928f79dca353cb173d0f2d3165f1abc),
        wide(0x66ef487cdbd789afee8307ccbb53dcff, 0x1d7bc0e004eecceb4f68ed3cdb6ed668),
        21,
    );
    assert(wide(0x66ef487cdbd789afee8307ccbb53dcff, 0x1d7bc0e004eecceb4f68ed3cdb6ed668)
        * wide(0x66ef487cdbd789afee8307ccbb53dcff, 0x1d7bc0e004eecceb4f68ed3cdb6ed668)
        == wide(0x5b65be4f6b955477df5feac5448e68fc, 0x4ebbe3bb2e0b96e56afb7677a0aadc40)
        * wide(0x73eda753299d7d483339d80809a1d805, 0x53bda402fffe5bfeffffffff00000001)
        + wide(0x4128d9a07ceaf483329ddbff52963b50, 0x23330024c8418de76b37495b44472e00))
            by (nonlinear_arith);
    lemma_square_two(
        wide(0x66ef487cdbd789afee8307ccbb53dcff, 0x1d7bc0e004eecceb4f68ed3cdb6ed668),
        wide(0x5b65be4f6b955477df5feac5448e68fc, 0x4ebbe3bb2e0b96e56afb7677a0aadc40),
        wide(0x4128d9a07ceaf483329ddbff52963b50, 0x23330024c8418de76b37495b44472e00),
        22,
    );
    assert(wide(0x4128d9a07ceaf483329ddbff52963b50, 0x23330024c8418de76b37495b44472e00)
        * wide(0x4128d9a07ceaf483329ddbff52963b50, 0x23330024c8418de76b37495b44472e00)
        == wide(0x249fc44ebcf68b5312dfc7191033946f, 0x9d0c843143e5e3150a238dea8a4d6c3b)
        * wide(0x73eda753299d7d483339d80809a1d805, 0x53bda402fffe5bfeffffffff00000001)
        + wide(0x733fd96f17c8a0ad4fc3df63c802f153, 0xb98daa38388ceb947936768b01f693c5))
            by (nonlinear_arith);
    lemma_square_two(
        wide(0x4128d9a07ceaf483329ddbff52963b50, 0x23330024c8418de76b37495b44472e00),
        wide(0x249fc44ebcf68b5312dfc7191033946f, 0x9d0c843143e5e3150a238dea8a4d6c3b),
        wide(0x733fd96f17c8a0ad4fc3df63c802f153, 0xb98daa38388ceb947936768b01f693c5),
        23,
    );
    assert(wide(0x733fd96f17c8a0ad4fc3df63c802f153, 0xb98daa38388ceb947936768b01f693c5)
        * wide(0x733fd96f17c8a0ad4fc3df63c802f153, 0xb98daa38388ceb947936768b01f693c5)
        == wide(0x7293101dfe14fd857ddbbde252d138fc, 0x42d9b111ec29bb32e6eb568e845dcbca)
        * wide(0x73eda753299d7d483339d80809a1d805, 0x53bda402fffe5bfeffffffff00000001)
        + wide(0x6ff01b27350e397ca9798e34bbcaeed7, 0xc47f84fdcab9b5eea09063d1598a09cf))
            by (nonlinear_arith);
    lemma_square_two(
        wide(0x733fd96f17c8a0ad4fc3df63c802f153, 0xb98daa38388ceb947936768b01f693c5),
        wide(0x7293101dfe14fd857ddbbde252d138fc, 0x42d9b111ec29bb32e6eb568e845dcbca),
        wide(0x6ff01b27350e397ca9798e34bbcaeed7, 0xc47f84fdcab9b5eea09063d1598a09cf),
        24,
    );
    assert(wide(0x6ff01b27350e397ca9798e34bbcaeed7, 0xc47f84fdcab9b5eea09063d1598a09cf)
        * wide(0x6ff01b27350e397ca9798e34bbcaeed7, 0xc47f84fdcab9b5eea09063d1598a09cf)
        == wide(0x6c15b8be92936aed1a4dbf7084d2a81c, 0x53ce45d00edc11573d799b5691cc207e)
        * wide(0x73eda753299d7d483339d80809a1d805, 0x53bda402fffe5bfeffffffff00000001)
        + wide(0x6001f01b030aad63a1c88eba7606c348, 0xf6b2e0cf4fcc3363337de865efc014e3))
            by (nonlinear_arith);
    lemma_square_two(
        wide(0x6ff01b27350e397ca9798e34bbcaeed7, 0xc47f84fdcab9b5eea09063d1598a09cf),
        wide(0x6c15b8be92936aed1a4dbf7084d2a81c, 0x53ce45d00edc11573d799b5691cc207e),
        wide(0x6001f01b030aad63a1c88eba7606c348, 0xf6b2e0cf4fcc3363337de865efc014e3),
        25,
    );
    assert(wide(0x6001f01b030aad63a1c88eba7606c348, 0xf6b2e0cf4fcc3363337de865efc014e3)
        * wide(0x6001f01b030aad63a1c88eba7606c348, 0xf6b2e0cf4fcc3363337de865efc014e3)
        == wide(0x4f828a9f97f52bc4835fa5606d209939, 0x7ee9e543b224a3fc28b149232cf38298)
        * wide(0x73eda753299d7d483339d80809a1d805, 0x53bda402fffe5bfeffffffff00000001)
        + wide(0x2956313d4475134ad0092039347f1ae6, 0x80cd48d5e477b65b0fe45bb20340beb1))
            by (nonlinear_arith);
    lemma_square_two(
        wide(0x6001f01b030aad63a1c88eba7606c348, 0xf6b2e0cf4fcc3363337de865efc014e3),
        wide(0x4f828a9f97f52bc4835fa5606d209939, 0x7ee9e543b224a3fc28b149232cf38298),
        wide(0x2956313d4475134ad0092039347f1ae6, 0x80cd48d5e477b65b0fe45bb20340beb1),
        26,
    );
    assert(wide(0x2956313d4475134ad0092039347f1ae6, 0x80cd48d5e477b65b0fe45bb20340beb1)
        * wide(0x2956313d4475134ad0092039347f1ae6, 0x80cd48d5e477b65b0fe45bb20340beb1)
        == wide(0xebd4db34550d53767c7ad8b669847a3, 0x17c68e85248152bf6ffb5c3d13ebe1ae)
        * wide(0x73eda753299d7d483339d80809a1d805, 0x53bda402fffe5bfeffffffff00000001)
        + wide(0x31a8a6bcaa4dccdcc3215b136ae37b44, 0x11b950239fb00cc69ade1e6cf89f54b3))
            by (nonlinear_arith);
    lemma_square_two(
        wide(0x2956313d4475134ad0092039347f1ae6, 0x80cd48d5e477b65b0fe45bb20340beb1),
        wide(0xebd4db34550d53767c7ad8b669847a3, 0x17c68e85248152bf6ffb5c3d13ebe1ae),
        wide(0x31a8a6bcaa4dccdcc3215b136ae37b44, 0x11b950239fb00cc69ade1e6cf89f54b3),
        27,
    );
    assert(wide(0x31a8a6bcaa4dccdcc3215b136ae37b44, 0x11b950239fb00cc69ade1e6cf89f54b3)
        * wide(0x31a8a6bcaa4dccdcc3215b136ae37b44, 0x11b950239fb00cc69ade1e6cf89f54b3)
        == wide(0x15458fe0d695dbbcfa6363d0abff1623, 0xba94c49cf8081bb179407064e2baff9f)
        * wide(0x73eda753299d7d483339d80809a1d805, 0x53bda402fffe5bfeffffffff00000001)
        + wide(0x4b627401535848ae88e49e71e6d0d93d, 0x69c7850769989c1cbbad11873fa4f58a))
            by (nonlinear_arith);
    lemma_square_two(
        wide(0x31a8a6bcaa4dccdcc3215b136ae37b44, 0x11b950239fb00cc69ade1e6cf89f54b3),
        wide(0x15458fe0d695dbbcfa6363d0abff1623, 0xba94c49cf8081bb179407064e2baff9f),
        wide(0x4b627401535848ae88e49e71e6d0d93d, 0x69c7850769989c1cbbad11873fa4f58a),
        28,
    );
    assert(wide(0x4b627401535848ae88e49e71e6d0d93d, 0x69c7850769989c1cbbad11873fa4f58a)
        * wide(0x4b627401535848ae88e49e71e6d0d93d, 0x69c7850769989c1cbbad11873fa4f58a)
        == wide(0x31052ebdb5c0bc3ce1977fd968829bbe, 0x2a008a6bad4c755c657cca7c76f7f748)
        * wide(0x73eda753299d7d483339d80809a1d805, 0x53bda402fffe5bfeffffffff00000001)
        + wide(0x3c302d1242473594923fa28ddf7ba73e, 0x97d59162090a942ba269137cf959771c))
            by (nonlinear_arith);
    lemma_square_two(
        wide(0x4b627401535848ae88e49e71e6d0d93d, 0x69c7850769989c1cbbad11873fa4f58a),
        wide(0x31052ebdb5c0bc3ce1977fd968829bbe, 0x2a008a6bad4c755c657cca7c76f7f748),
        wide(0x3c302d1242473594923fa28ddf7ba73e, 0x97d59162090a942ba269137cf959771c),
        29,
    );
    assert(wide(0x3c302d1242473594923fa28ddf7ba73e, 0x97d59162090a942ba269137cf959771c)
        * wide(0x3c302d1242473594923fa28ddf7ba73e, 0x97d59162090a942ba269137cf959771c)
        == wide(0x1f3faf7025845ed2222e1aa45db06d12, 0x8766e1f2dfe88bd849d1b9924658a91c)
        * wide(0x73eda753299d7d483339d80809a1d805, 0x53bda402fffe5bfeffffffff00000001)
        + wide(0x5f24268bfe351837ba3b1c6158c31c1f, 0x6bea5670cb3fba66eab7a3a23a8a61f4))
            by (nonlinear_arith);
    lemma_square_two(
        wide(0x3c302d1242473594923fa28ddf7ba73e, 0x97d59162090a942ba269137cf959771c),
        wide(0x1f3faf7025845ed2222e1aa45db06d12, 0x8766e1f2dfe88bd849d1b9924658a91c),
        wide(0x5f24268bfe351837ba3b1c6158c31c1f, 0x6bea5670cb3fba66eab7a3a23a8a61f4),
        30,
    );
    assert(wide(0x5f24268bfe351837ba3b1c6158c31c1f, 0x6bea5670cb3fba66eab7a3a23a8a61f4)
        * wide(0x5f24268bfe351837ba3b1c6158c31c1f, 0x6bea5670cb3fba66eab7a3a23a8a61f4)
        == wide(0x4e14d8c66074a4b4c88e86ff830baad0, 0x2b136e7ab7c137c584ce3b1780220dcb)
        * wide(0x73eda753299d7d483339d80809a1d805, 0x53bda402fffe5bfeffffffff00000001)
        + wide(0x3de0e6addbef0dc00f055b0bd7928cf7, 0xe44ba766041165d1736f82b3d068c2c5))
            by (nonlinear_arith);
    lemma_square_two(
        wide(0x5f24268bfe351837ba3b1c6158c31c1f, 0x6bea5670cb3fba66eab7a3a23a8a61f4),
        wide(0x4e14d8c66074a4b4c88e86ff830baad0, 0x2b136e7ab7c137c584ce3b1780220dcb),
        wide(0x3de0e6addbef0dc00f055b0bd7928cf7, 0xe44ba766041165d1736f82b3d068c2c5),
        31,
    );
}

/// One minus two to a power of two up to `2^32` is a unit.
pub proof fn lemma_two_power_unit(log: nat)
    requires
        log <= 32,
    ensures
        is_unit(1 - pow(2, pow2(log))),
    decreases 32 - log,
{
    if log == 32 {
        lemma_largest_power();
        let value = wide(0x3de0e6addbef0dc00f055b0bd7928cf7, 0xe44ba766041165d1736f82b3d068c2c5);
        let inverse = wide(0x12db6f7167ccde092282448ee231b9b0, 0x3d9e23f62b64624fc1aa6559e9e5c203);
        let quotient = wide(0xa10b7a56583151cc6803879f6e0257b, 0xadbfbf94bd742207c4756d767226d04d);
        assert((1 - wide(0x3de0e6addbef0dc00f055b0bd7928cf7, 0xe44ba766041165d1736f82b3d068c2c5))
            * wide(0x12db6f7167ccde092282448ee231b9b0, 0x3d9e23f62b64624fc1aa6559e9e5c203)
            == -(wide(0xa10b7a56583151cc6803879f6e0257b, 0xadbfbf94bd742207c4756d767226d04d)
            * wide(0x73eda753299d7d483339d80809a1d805, 0x53bda402fffe5bfeffffffff00000001)) + 1)
                by (nonlinear_arith);
        reveal(order);
        lemma_cong_multiple(1, -quotient);
        assert((-quotient) * order() == -(quotient * order())) by (nonlinear_arith);
        lemma_inv_unique(1 - value, inverse);
        lemma_cong_sub(1, 1, value, pow(2, pow2(32)));
        lemma_unit_cong(1 - value, 1 - pow(2, pow2(32)));
    } else {
        lemma_two_power_unit(log + 1);
        lemma_pow2_unfold(log + 1);
        lemma_pow_adds(2, pow2(log), pow2(log));
        let power = pow(2, pow2(log));
        assert(1 - power * power == (1 - power) * (1 + power)) by (nonlinear_arith);
        lemma_unit_factor(1 - power, 1 + power);
    }
}

/// Two is no root of unity of two-power order up to `2^32`.
pub proof fn lemma_two_is_outside(log: nat)
    requires
        log <= 32,
    ensures
        !cong(pow(2, pow2(log)), 1),
{
    lemma_two_power_unit(log);
    let power = pow(2, pow2(log));
    lemma_inv(1 - power);
    lemma_inv_unique(1 - power, inv(1 - power));
    lemma_cong_diff(1, power);
}

/// Twice a root of unity of two-power order up to `2^32` differs from one by a unit.
pub proof fn lemma_twice_root(z: int, log: nat)
    requires
        log <= 32,
        cong(pow(z, pow2(log)), 1),
    ensures
        is_unit(1 - 2 * z),
{
    let n = pow2(log);
    let u = 2 * z;
    lemma_geometric(u, n as int);
    lemma_pow_distributes(2, z, n);
    let (a, b) = (pow(2, n), pow(z, n));
    lemma_cong_mul(a, a, b, 1);
    lemma_cong_sub(1, 1, a * b, a * 1);
    lemma_two_power_unit(log);
    lemma_unit_cong(1 - a, 1 - a * b);
    lemma_unit_factor(1 - u, sum(powers(u), 0, n as int));
}

/// `k z^k`.
spec fn ramp(z: int) -> spec_fn(int) -> int {
    |k: int| k * pow(z, k as nat)
}

proof fn lemma_ramp(z: int, n: int)
    requires
        1 <= n,
    ensures
        (1 - z) * sum(ramp(z), 0, n) == sum(powers(z), 0, n) - 1 - (n - 1) * pow(z, n as nat),
    decreases n,
{
    reveal(pow);
    if n > 1 {
        lemma_ramp(z, n - 1);
        let (s, g) = (sum(ramp(z), 0, n - 1), sum(powers(z), 0, n - 1));
        let p = pow(z, (n - 1) as nat);
        let k = n - 1;
        assert((1 - z) * (s + k * p) == (1 - z) * s + k * p - k * (z * p)) by (nonlinear_arith);
        assert((k - 1) * p == k * p - p) by (nonlinear_arith);
        assert(sum(ramp(z), 0, n) == s + k * p);
        assert(sum(powers(z), 0, n) == g + p);
        assert((n - 1) * pow(z, n as nat) == k * (z * p));
    } else {
        let f = ramp(z);
        assert(sum(f, 0, 0) == 0);
        assert(sum(f, 0, 1) == f(0));
        assert(f(0) == 0 * pow(z, 0));
        assert(sum(powers(z), 0, 0) == 0);
        assert(sum(powers(z), 0, 1) == powers(z)(0));
        assert((1 - z) * 0 == 0);
        assert(0 * pow(z, 1) == 0);
    }
}

/// `(n - 1 - 2 k) u^k`.
pub open spec fn centered_terms(u: int, n: int) -> spec_fn(int) -> int {
    |k: int| (n - 1 - 2 * k) * pow(u, k as nat)
}

proof fn lemma_centered_ones(m: int, n: int)
    requires
        0 <= n,
    ensures
        sum(|k: int| m - 1 - 2 * k, 0, n) == n * (m - n),
    decreases n,
{
    if n > 0 {
        lemma_centered_ones(m, n - 1);
        let k = n - 1;
        assert(k * (m - k) + (m - 1 - 2 * k) == n * (m - n)) by (nonlinear_arith)
            requires
                k == n - 1,
        ;
    } else {
        assert(0 * (m - 0) == 0);
    }
}

/// The reciprocal of `1 - v^d`, and nothing where `d` is a multiple of `n`.
pub open spec fn reciprocal(v: int, n: int, d: int) -> int {
    if d % n == 0 {
        0
    } else {
        inv(1 - pow(v, (d % n) as nat))
    }
}

/// The transform of `n - 1 - 2 k` holds the reciprocals.
proof fn lemma_centered(v: int, log: nat, d: int)
    requires
        is_root(v, pow2(log) as int),
        0 <= d < pow2(log),
    ensures
        cong(
            sum(centered_terms(pow(v, d as nat), pow2(log) as int), 0, pow2(log) as int),
            (2 * pow2(log)) * reciprocal(v, pow2(log) as int, d),
        ),
{
    let n = pow2(log) as int;
    lemma_pow2_pos(log);
    let u = pow(v, d as nat);
    let f = centered_terms(u, n);
    vstd::arithmetic::div_mod::lemma_small_mod(d as nat, n as nat);
    if d == 0 {
        lemma_pow0(v);
        let g = |k: int| n - 1 - 2 * k;
        assert forall|k: int| 0 <= k < n implies #[trigger] f(k) == g(k) by {
            lemma_pow_one(k as nat);
            assert((n - 1 - 2 * k) * 1 == n - 1 - 2 * k);
        }
        lemma_sum_ext(f, g, 0, n);
        lemma_centered_ones(n, n);
        assert(n * (n - n) == 0);
        assert((2 * n) * 0 == 0);
    } else {
        let (g, r) = (powers(u), ramp(u));
        let scaled = |k: int| (n - 1) * g(k);
        let doubled = |k: int| 2 * r(k);
        assert forall|k: int| 0 <= k < n implies #[trigger] f(k) == scaled(k) - doubled(k) by {
            let p = pow(u, k as nat);
            assert((n - 1 - 2 * k) * p == (n - 1) * p - 2 * (k * p)) by (nonlinear_arith);
        }
        lemma_sum_sub(scaled, doubled, f, 0, n);
        lemma_sum_scale(n - 1, g, scaled, 0, n);
        lemma_sum_scale(2, r, doubled, 0, n);
        lemma_orthogonal(v, log, d);
        lemma_ramp(u, n);
        // u^n == 1
        lemma_pow_multiplies(v, d as nat, n as nat);
        lemma_pow_period(v, n, 0, d as nat);
        lemma_pow0(v);
        assert(0 + n * d == d * n) by (nonlinear_arith);
        let (gs, rs) = (sum(g, 0, n), sum(r, 0, n));
        let p = pow(u, n as nat);
        lemma_cong_mul(n - 1, n - 1, p, 1);
        lemma_cong_add(1, 1, (n - 1) * p, (n - 1) * 1);
        lemma_cong_sub(gs, 0, 1 + (n - 1) * p, 1 + (n - 1) * 1);
        assert(cong((1 - u) * rs, -n));
        // (1 - u) times the sum is 2 n
        let t = (n - 1) * gs - 2 * rs;
        assert((1 - u) * t == ((1 - u) * (n - 1)) * gs - 2 * ((1 - u) * rs)) by (nonlinear_arith)
            requires
                t == (n - 1) * gs - 2 * rs,
        ;
        let w = (1 - u) * (n - 1);
        lemma_cong_mul(w, w, gs, 0);
        lemma_cong_mul(2, 2, (1 - u) * rs, -n);
        lemma_cong_sub(w * gs, w * 0, 2 * ((1 - u) * rs), 2 * (-n));
        assert(w * 0 == 0);
        lemma_root_difference(v, log, d);
        lemma_inv(1 - u);
        let i = inv(1 - u);
        // t == (i (1 - u)) t == i (2 n)
        lemma_cong_mul(i, i, (1 - u) * t, 2 * n);
        lemma_cong_mul(i * (1 - u), 1, t, t);
        assert(i * ((1 - u) * t) == (i * (1 - u)) * t) by (nonlinear_arith);
        assert(1 * t == t);
        assert(i * (2 * n) == (2 * n) * i) by (nonlinear_arith);
    }
}

pub open spec fn reciprocal_terms(v: int, n: int, a: Seq<int>, j: int) -> spec_fn(int) -> int {
    |i: int| a[i] * reciprocal(v, n, j - i)
}

/// The sum of the items, each over one minus the root to the power of its
/// distance from place `j`; the item at `j` is left out.
pub open spec fn reciprocal_sum(v: int, n: int, a: Seq<int>, j: int) -> int {
    sum(reciprocal_terms(v, n, a, j), 0, n)
}

pub open spec fn spectrum_terms(a: Seq<int>, w: int, v: int, j: int) -> spec_fn(int) -> int {
    |k: int| ((a.len() - 1 - 2 * k) * dft(a, w, k)) * pow(v, (k * j) as nat)
}

/// The inverse transform of the spectrum, whose items are weighted with
/// `n - 1 - 2 k`, is twice the size times the sums of reciprocals.
proof fn lemma_spectrum(a: Seq<int>, w: int, v: int, log: nat, j: int)
    requires
        a.len() == pow2(log),
        is_root(w, pow2(log) as int),
        cong(w * v, 1),
        0 <= j < a.len(),
    ensures
        cong(
            sum(spectrum_terms(a, w, v, j), 0, a.len() as int),
            (2 * a.len()) * reciprocal_sum(v, a.len() as int, a, j),
        ),
{
    let n = a.len() as int;
    lemma_root_inverse(w, v, n);
    let t = |k: int, i: int|
        ((n - 1 - 2 * k) * (a[i] * pow(w, (i * k) as nat))) * pow(v, (k * j) as nat);
    let outer = spectrum_terms(a, w, v, j);
    let rows = |k: int| sum(|i: int| t(k, i), 0, n);
    let columns = |i: int| sum(|k: int| t(k, i), 0, n);
    assert forall|k: int| 0 <= k < n implies #[trigger] outer(k) == rows(k) by {
        let row = |i: int| t(k, i);
        let (e, p) = (n - 1 - 2 * k, pow(v, (k * j) as nat));
        let c = e * p;
        assert forall|i: int| 0 <= i < n implies #[trigger] row(i) == c * dft_terms(a, w, k)(i) by {
            let x = a[i] * pow(w, (i * k) as nat);
            assert((e * x) * p == (e * p) * x) by (nonlinear_arith);
        }
        lemma_sum_scale(c, dft_terms(a, w, k), row, 0, n);
        let x = dft(a, w, k);
        assert((e * x) * p == (e * p) * x) by (nonlinear_arith);
    }
    lemma_sum_ext(outer, rows, 0, n);
    lemma_sum_swap(t, n, n);
    let terms = reciprocal_terms(v, n, a, j);
    let target = |i: int| (2 * n) * terms(i);
    assert forall|i: int| 0 <= i < n implies cong(#[trigger] columns(i), target(i)) by {
        let d = (j - i) % n;
        vstd::arithmetic::div_mod::lemma_mod_bound(j - i, n);
        let u = pow(v, d as nat);
        let column = |k: int| t(k, i);
        let scaled = |k: int| a[i] * centered_terms(u, n)(k);
        assert forall|k: int| 0 <= k < n implies cong(#[trigger] column(k), scaled(k)) by {
            crate::algebra::dft::lemma_middle_exponents(w, v, n, j, i, k);
            lemma_pow_multiplies(v, d as nat, k as nat);
            lemma_mul_is_commutative(k, d);
            let (e, x, y, z) = (
                n - 1 - 2 * k,
                a[i],
                pow(w, (i * k) as nat),
                pow(v, (k * j) as nat),
            );
            let p = pow(u, k as nat);
            lemma_cong_mul(e * x, e * x, y * z, p);
            assert((e * (x * y)) * z == (e * x) * (y * z)) by (nonlinear_arith);
            assert((e * x) * p == x * (e * p)) by (nonlinear_arith);
        }
        lemma_sum_cong(column, scaled, 0, n);
        lemma_sum_scale(a[i], centered_terms(u, n), scaled, 0, n);
        lemma_centered(v, log, d);
        let s = sum(centered_terms(u, n), 0, n);
        let r = reciprocal(v, n, d);
        vstd::arithmetic::div_mod::lemma_small_mod(d as nat, n as nat);
        assert(r == reciprocal(v, n, j - i));
        lemma_cong_mul(a[i], a[i], s, (2 * n) * r);
        let x = a[i];
        assert(x * ((2 * n) * r) == (2 * n) * (x * r)) by (nonlinear_arith);
        assert(columns(i) == sum(column, 0, n));
    }
    lemma_sum_cong(columns, target, 0, n);
    lemma_sum_scale(2 * n, terms, target, 0, n);
}

/// Moving the spectrum by one place multiplies its inverse transform by the root.
proof fn lemma_moved_spectrum(s: Seq<int>, w: int, v: int, j: int)
    requires
        s.len() > 0,
        is_root(w, s.len() as int),
        cong(w * v, 1),
        0 <= j,
    ensures
        cong(
            sum(
                |k: int| s[(k + 1) % (s.len() as int)] * pow(v, (k * j) as nat),
                0,
                s.len() as int,
            ),
            pow(w, j as nat) * sum(
                |k: int| s[k] * pow(v, (k * j) as nat),
                0,
                s.len() as int,
            ),
        ),
{
    let n = s.len() as int;
    lemma_root_inverse(w, v, n);
    let g = |k: int| s[(k + 1) % n] * pow(v, (k * j) as nat);
    let base = |k: int| s[k] * pow(v, (k * j) as nat);
    let c = pow(w, j as nat);
    let f = |k: int| c * base(k);
    let step: int = if n == 1 {
        0
    } else {
        1
    };
    let moved = |k: int| f((k + step) % n);
    lemma_pow_inverse(w, v, j as nat);
    assert forall|k: int| 0 <= k < n implies cong(#[trigger] g(k), moved(k)) by {
        lemma_mul_nonnegative(k, j);
        let p = pow(v, (k * j) as nat);
        let q = pow(v, j as nat);
        if k + 1 < n {
            vstd::arithmetic::div_mod::lemma_small_mod((k + 1) as nat, n as nat);
            lemma_pow_adds(v, (k * j) as nat, j as nat);
            assert((k + 1) * j == k * j + j) by (nonlinear_arith);
            let x = s[k + 1];
            lemma_cong_mul(x * p, x * p, c * q, 1);
            assert(c * (x * (p * q)) == (x * p) * (c * q)) by (nonlinear_arith);
            assert((x * p) * 1 == x * p);
        } else {
            // v^((n - 1) j) == w^j
            assert((k + 1) % n == 0 && (k + step) % n == 0) by {
                vstd::arithmetic::div_mod::lemma_mod_self_0(n);
            }
            lemma_pow0(v);
            lemma_pow_adds(v, (k * j) as nat, j as nat);
            assert(k * j + j == n * j) by (nonlinear_arith)
                requires
                    k + 1 == n,
            ;
            lemma_pow_period(v, n, 0, j as nat);
            assert(0 + n * j == n * j);
            assert(0 * j == 0);
            let x = s[0];
            // p == p (q c) == (p q) c == c
            lemma_cong_mul(p, p, c * q, 1);
            lemma_cong_mul(p * q, 1, c, c);
            assert(p * (c * q) == (p * q) * c) by (nonlinear_arith);
            assert(p * 1 == p && 1 * c == c);
            lemma_cong_mul(x, x, p, c);
            assert(c * (x * 1) == x * c) by (nonlinear_arith);
        }
    }
    lemma_sum_cong(g, moved, 0, n);
    lemma_sum_rotate(f, moved, n, step);
    lemma_sum_scale(c, base, f, 0, n);
}

/// The weighted convolution: transforming, weighting with `n - 1 - 2 k`, taking
/// `c` times the next item without each item, and transforming back gives
/// `2 n (c w^j - 1)` times the sums of reciprocals.
pub proof fn lemma_weighted_convolution(
    a: Seq<int>,
    remapped: Seq<int>,
    w: int,
    v: int,
    c: int,
    log: nat,
    j: int,
)
    requires
        a.len() == pow2(log),
        is_root(w, pow2(log) as int),
        cong(w * v, 1),
        0 <= j < a.len(),
        remapped.len() == a.len(),
        forall|k: int|
            0 <= k < a.len() ==> cong(
                #[trigger] remapped[k],
                c * weighted_item(a, w, (k + 1) % (a.len() as int)) - weighted_item(a, w, k),
            ),
    ensures
        cong(
            dft(remapped, v, j),
            (2 * a.len()) * ((c * pow(w, j as nat) - 1) * reciprocal_sum(
                v,
                a.len() as int,
                a,
                j,
            )),
        ),
{
    let n = a.len() as int;
    lemma_pow2_pos(log);
    let s = Seq::new(n as nat, |k: int| weighted_item(a, w, k));
    let next = |k: int| s[(k + 1) % n] * pow(v, (k * j) as nat);
    let here = |k: int| s[k] * pow(v, (k * j) as nat);
    let scaled = |k: int| c * next(k);
    let target = |k: int| scaled(k) - here(k);
    let f = dft_terms(remapped, v, j);
    assert forall|k: int| 0 <= k < n implies cong(#[trigger] f(k), target(k)) by {
        vstd::arithmetic::div_mod::lemma_mod_bound(k + 1, n);
        let (x, y, p) = (s[(k + 1) % n], s[k], pow(v, (k * j) as nat));
        lemma_cong_mul(remapped[k], c * x - y, p, p);
        assert((c * x - y) * p == c * (x * p) - y * p) by (nonlinear_arith);
    }
    lemma_sum_cong(f, target, 0, n);
    lemma_sum_sub(scaled, here, target, 0, n);
    lemma_sum_scale(c, next, scaled, 0, n);
    lemma_moved_spectrum(s, w, v, j);
    lemma_spectrum(a, w, v, log, j);
    assert forall|k: int| 0 <= k < n implies #[trigger] here(k) == spectrum_terms(a, w, v, j)(
        k,
    ) by {}
    lemma_sum_ext(here, spectrum_terms(a, w, v, j), 0, n);
    let u = sum(here, 0, n);
    let r = (2 * n) * reciprocal_sum(v, n, a, j);
    let m = pow(w, j as nat);
    // c (m u) - u == (c m - 1) u == (c m - 1) r
    lemma_cong_mul(c, c, sum(next, 0, n), m * u);
    lemma_cong_sub(c * sum(next, 0, n), c * (m * u), u, u);
    assert(c * (m * u) - u == (c * m - 1) * u) by (nonlinear_arith);
    lemma_cong_mul(c * m - 1, c * m - 1, u, r);
    let (q, x) = (c * m - 1, reciprocal_sum(v, n, a, j));
    assert(q * ((2 * n) * x) == (2 * n) * (q * x)) by (nonlinear_arith);
}

/// An item of the transform, weighted with `n - 1 - 2 k`.
pub open spec fn weighted_item(a: Seq<int>, w: int, k: int) -> int {
    (a.len() - 1 - 2 * k) * dft(a, w, k)
}

/// Twice the sum of the reciprocals over all other places is one less than the size.
pub proof fn lemma_reciprocal_total(v: int, log: nat, j: int)
    requires
        is_root(v, pow2(log) as int),
        0 <= j < pow2(log),
    ensures
        cong(
            2 * sum(|i: int| reciprocal(v, pow2(log) as int, j - i), 0, pow2(log) as int),
            pow2(log) - 1,
        ),
{
    let n = pow2(log) as int;
    lemma_pow2_pos(log);
    let g = |i: int| reciprocal(v, n, j - i);
    let h = |d: int| reciprocal(v, n, d);
    // in the order of the distance
    let back = |i: int| g(n - 1 - i);
    assert forall|i: int| 0 <= i < n implies #[trigger] back(i) == g(n - 1 - i) by {}
    lemma_sum_reverse(g, back, n);
    let s = (j + 1) % n;
    vstd::arithmetic::div_mod::lemma_mod_bound(j + 1, n);
    assert forall|i: int| 0 <= i < n implies #[trigger] back(i) == h((i + s) % n) by {
        let e = j - (n - 1 - i);
        assert(e % n == (i + s) % n) by {
            vstd::arithmetic::div_mod::lemma_add_mod_noop_right(i, j + 1, n);
            vstd::arithmetic::div_mod::lemma_mod_sub_multiples_vanish(i + j + 1, n);
            assert(e == (i + j + 1) - n);
            assert(i + (j + 1) == i + j + 1);
        }
        vstd::arithmetic::div_mod::lemma_mod_twice(i + s, n);
        assert(((i + s) % n) % n == e % n);
    }
    lemma_sum_rotate(h, back, n, s);
    // a distance and its complement
    lemma_sum_first(h, 0, n);
    assert(h(0) == 0) by {
        vstd::arithmetic::div_mod::lemma_small_mod(0, n as nat);
    }
    let forward = |k: int| h(k + 1);
    lemma_sum_shift(h, forward, 0, n - 1, 1);
    let backward = |k: int| forward(n - 2 - k);
    if n > 1 {
        assert forall|k: int| 0 <= k < n - 1 implies #[trigger] backward(k) == forward(
            (n - 1) - 1 - k,
        ) by {}
        lemma_sum_reverse(forward, backward, n - 1);
        let both = |k: int| forward(k) + backward(k);
        lemma_sum_add(forward, backward, both, 0, n - 1);
        let ones = |k: int| 1int;
        assert forall|k: int| 0 <= k < n - 1 implies cong(#[trigger] both(k), ones(k)) by {
            lemma_complement(v, log, k + 1);
            assert(n - 2 - k + 1 == n - (k + 1));
        }
        lemma_sum_cong(both, ones, 0, n - 1);
        lemma_sum_ones(ones, n - 1);
    }
}

proof fn lemma_complement(v: int, log: nat, d: int)
    requires
        is_root(v, pow2(log) as int),
        0 < d < pow2(log),
    ensures
        cong(
            reciprocal(v, pow2(log) as int, d) + reciprocal(v, pow2(log) as int, pow2(log) - d),
            1,
        ),
{
    let n = pow2(log) as int;
    let (x, y) = (pow(v, d as nat), pow(v, (n - d) as nat));
    vstd::arithmetic::div_mod::lemma_small_mod(d as nat, n as nat);
    vstd::arithmetic::div_mod::lemma_small_mod((n - d) as nat, n as nat);
    lemma_pow_adds(v, d as nat, (n - d) as nat);
    lemma_root_period(v, n);
    assert(cong(x * y, 1));
    lemma_root_difference(v, log, d);
    lemma_inv(1 - x);
    let i = inv(1 - x);
    // (1 - y) (-x i) == -x i + (x y) i == (1 - x) i == 1
    lemma_cong_mul(x * y, 1, i, i);
    lemma_cong_add(-(x * i), -(x * i), (x * y) * i, 1 * i);
    assert((1 - y) * (-(x * i)) == -(x * i) + (x * y) * i) by (nonlinear_arith);
    assert(-(x * i) + 1 * i == (1 - x) * i) by (nonlinear_arith);
    lemma_inv_unique(1 - y, -(x * i));
    lemma_cong_add(i, i, inv(1 - y), -(x * i));
    assert(i + -(x * i) == (1 - x) * i) by (nonlinear_arith);
}

} // verus!
