//! Roots of unity of two-power order.
use vstd::arithmetic::power::{lemma_pow1, lemma_pow_adds, lemma_pow_multiplies, pow};
use vstd::arithmetic::power2::{
    lemma2_to64, lemma_pow2_adds, lemma_pow2_pos, lemma_pow2_unfold, pow2,
};
use vstd::prelude::*;

use crate::algebra::residue::{
    cong, is_unit, lemma_cancel, lemma_cong_mul, lemma_cong_multiple, lemma_cong_neg,
    lemma_cong_pow, lemma_cong_sub, lemma_inv_unique, lemma_order, lemma_pow_inverse, lemma_pow_one,
    lemma_reduce, lemma_unit_cong, lemma_unit_factor, lemma_unit_mul, order,
};
use crate::algebra::sums::sum;
use crate::curve::root_of_unity;

verus! {

/// The integer with the given upper and lower 128 bits.
pub open spec fn wide(high: int, low: int) -> int {
    high * 0x10000000000000000 * 0x10000000000000000 + low
}

/// One squaring: `value^2` is `next` modulo the order, with quotient `quotient`.
proof fn lemma_square(value: int, quotient: int, next: int, level: nat)
    requires
        cong(pow(root_of_unity(), pow2(level)), value),
        value * value == quotient * order() + next,
    ensures
        cong(pow(root_of_unity(), pow2(level + 1)), next),
{
    let power = pow(root_of_unity(), pow2(level));
    lemma_pow2_unfold(level + 1);
    lemma_pow_adds(root_of_unity(), pow2(level), pow2(level));
    lemma_cong_mul(power, value, power, value);
    lemma_cong_multiple(next, quotient);
}

/// The root of unity has order `2^32`: its power `2^31` is minus one.
pub proof fn lemma_root_of_unity()
    ensures
        cong(pow(root_of_unity(), pow2(31)), -1),
        0 <= root_of_unity() < order(),
{
    reveal(order);
    lemma2_to64();
    lemma_pow1(root_of_unity());
    assert(cong(pow(root_of_unity(), pow2(0)), root_of_unity()));
    assert(wide(0x16a2a19edfe81f20d09b681922c813b4, 0xb63683508c2280b93829971f439f0d2b)
        * wide(0x16a2a19edfe81f20d09b681922c813b4, 0xb63683508c2280b93829971f439f0d2b)
        == wide(0x46b6a531156833f2ec469fcaf1ad016, 0xc0ac8ff8fe9b35ff8ee05ed0d7179bfa)
        * wide(0x73eda753299d7d483339d80809a1d805, 0x53bda402fffe5bfeffffffff00000001)
        + wide(0x4b5371495990693fad1715b02e5713b5, 0xf070bb00e28a193d63e7cb4906ffc93f))
            by (nonlinear_arith);
    lemma_square(
        wide(0x16a2a19edfe81f20d09b681922c813b4, 0xb63683508c2280b93829971f439f0d2b),
        wide(0x46b6a531156833f2ec469fcaf1ad016, 0xc0ac8ff8fe9b35ff8ee05ed0d7179bfa),
        wide(0x4b5371495990693fad1715b02e5713b5, 0xf070bb00e28a193d63e7cb4906ffc93f),
        0,
    );
    assert(wide(0x4b5371495990693fad1715b02e5713b5, 0xf070bb00e28a193d63e7cb4906ffc93f)
        * wide(0x4b5371495990693fad1715b02e5713b5, 0xf070bb00e28a193d63e7cb4906ffc93f)
        == wide(0x30f1ab1595c2d2f989fb50964a7330fc, 0xa73e88614457bfab9c968b2474ec202b)
        * wide(0x73eda753299d7d483339d80809a1d805, 0x53bda402fffe5bfeffffffff00000001)
        + wide(0x2c6d4e4511657e1e1339a815da8b398f, 0xed3a181fabb30adc694341f608c9dd56))
            by (nonlinear_arith);
    lemma_square(
        wide(0x4b5371495990693fad1715b02e5713b5, 0xf070bb00e28a193d63e7cb4906ffc93f),
        wide(0x30f1ab1595c2d2f989fb50964a7330fc, 0xa73e88614457bfab9c968b2474ec202b),
        wide(0x2c6d4e4511657e1e1339a815da8b398f, 0xed3a181fabb30adc694341f608c9dd56),
        1,
    );
    assert(wide(0x2c6d4e4511657e1e1339a815da8b398f, 0xed3a181fabb30adc694341f608c9dd56)
        * wide(0x2c6d4e4511657e1e1339a815da8b398f, 0xed3a181fabb30adc694341f608c9dd56)
        == wide(0x110691833f37afdebb20c8e046d2b3e6, 0xdecaddee100e33d6994171de12db77c9)
        * wide(0x73eda753299d7d483339d80809a1d805, 0x53bda402fffe5bfeffffffff00000001)
        + wide(0xc83ea7744bf1bee8da40c1ef2bb4598, 0x84d37b826214abc6474650359d8e211b))
            by (nonlinear_arith);
    lemma_square(
        wide(0x2c6d4e4511657e1e1339a815da8b398f, 0xed3a181fabb30adc694341f608c9dd56),
        wide(0x110691833f37afdebb20c8e046d2b3e6, 0xdecaddee100e33d6994171de12db77c9),
        wide(0xc83ea7744bf1bee8da40c1ef2bb4598, 0x84d37b826214abc6474650359d8e211b),
        2,
    );
    assert(wide(0xc83ea7744bf1bee8da40c1ef2bb4598, 0x84d37b826214abc6474650359d8e211b)
        * wide(0xc83ea7744bf1bee8da40c1ef2bb4598, 0x84d37b826214abc6474650359d8e211b)
        == wide(0x159e2bf6a5370d130211f45b03eac73, 0x87e0a96213c5fb1b817c887ed1ecd850)
        * wide(0x73eda753299d7d483339d80809a1d805, 0x53bda402fffe5bfeffffffff00000001)
        + wide(0x52dd465e2f09425699e276b571905a7d, 0x6558e9e3f6ac7b41d7b688830a4f2089))
            by (nonlinear_arith);
    lemma_square(
        wide(0xc83ea7744bf1bee8da40c1ef2bb4598, 0x84d37b826214abc6474650359d8e211b),
        wide(0x159e2bf6a5370d130211f45b03eac73, 0x87e0a96213c5fb1b817c887ed1ecd850),
        wide(0x52dd465e2f09425699e276b571905a7d, 0x6558e9e3f6ac7b41d7b688830a4f2089),
        3,
    );
    assert(wide(0x52dd465e2f09425699e276b571905a7d, 0x6558e9e3f6ac7b41d7b688830a4f2089)
        * wide(0x52dd465e2f09425699e276b571905a7d, 0x6558e9e3f6ac7b41d7b688830a4f2089)
        == wide(0x3b3b06a28b2a02bf5a5e6c922e12eda9, 0x76394d9d1a2eff104b9feb132dad6f64)
        * wide(0x73eda753299d7d483339d80809a1d805, 0x53bda402fffe5bfeffffffff00000001)
        + wide(0x23397a9300f8f98bece8ea224f31d25d, 0xb94f1101b1d7a628e2d0a7869f0319ed))
            by (nonlinear_arith);
    lemma_square(
        wide(0x52dd465e2f09425699e276b571905a7d, 0x6558e9e3f6ac7b41d7b688830a4f2089),
        wide(0x3b3b06a28b2a02bf5a5e6c922e12eda9, 0x76394d9d1a2eff104b9feb132dad6f64),
        wide(0x23397a9300f8f98bece8ea224f31d25d, 0xb94f1101b1d7a628e2d0a7869f0319ed),
        4,
    );
    assert(wide(0x23397a9300f8f98bece8ea224f31d25d, 0xb94f1101b1d7a628e2d0a7869f0319ed)
        * wide(0x23397a9300f8f98bece8ea224f31d25d, 0xb94f1101b1d7a628e2d0a7869f0319ed)
        == wide(0xab3f0119626603c452151d90394c5fe, 0x5f63d733517d87cc5933f6a03156d3e7)
        * wide(0x73eda753299d7d483339d80809a1d805, 0x53bda402fffe5bfeffffffff00000001)
        + wide(0xa0a77a3b1980c0d116168bffbedc11d, 0x2c8118402867ddc531a11a0d2d75182))
            by (nonlinear_arith);
    lemma_square(
        wide(0x23397a9300f8f98bece8ea224f31d25d, 0xb94f1101b1d7a628e2d0a7869f0319ed),
        wide(0xab3f0119626603c452151d90394c5fe, 0x5f63d733517d87cc5933f6a03156d3e7),
        wide(0xa0a77a3b1980c0d116168bffbedc11d, 0x2c8118402867ddc531a11a0d2d75182),
        5,
    );
    assert(wide(0xa0a77a3b1980c0d116168bffbedc11d, 0x2c8118402867ddc531a11a0d2d75182)
        * wide(0xa0a77a3b1980c0d116168bffbedc11d, 0x2c8118402867ddc531a11a0d2d75182)
        == wide(0xdea2b6fae4c13adeb5ceea0db4ad43, 0x4f85d64802013a04dc120eb4fc3de0e6)
        * wide(0x73eda753299d7d483339d80809a1d805, 0x53bda402fffe5bfeffffffff00000001)
        + wide(0x19fe632fd3287390454dc1edc61a1a3, 0xc0ba12bb3da64ca5ce32ef844e11a51e))
            by (nonlinear_arith);
    lemma_square(
        wide(0xa0a77a3b1980c0d116168bffbedc11d, 0x2c8118402867ddc531a11a0d2d75182),
        wide(0xdea2b6fae4c13adeb5ceea0db4ad43, 0x4f85d64802013a04dc120eb4fc3de0e6),
        wide(0x19fe632fd3287390454dc1edc61a1a3, 0xc0ba12bb3da64ca5ce32ef844e11a51e),
        6,
    );
    assert(wide(0x19fe632fd3287390454dc1edc61a1a3, 0xc0ba12bb3da64ca5ce32ef844e11a51e)
        * wide(0x19fe632fd3287390454dc1edc61a1a3, 0xc0ba12bb3da64ca5ce32ef844e11a51e)
        == wide(0x5d40fa3da1bdb3e982d8325993408, 0xe8d10daae5d0d25fe9f5f6c228be37e8)
        * wide(0x73eda753299d7d483339d80809a1d805, 0x53bda402fffe5bfeffffffff00000001)
        + wide(0x291cf6d68823e6876e0bcd91ee762730, 0x72cf6a8029b7d7bc92cf4deb77bd779c))
            by (nonlinear_arith);
    lemma_square(
        wide(0x19fe632fd3287390454dc1edc61a1a3, 0xc0ba12bb3da64ca5ce32ef844e11a51e),
        wide(0x5d40fa3da1bdb3e982d8325993408, 0xe8d10daae5d0d25fe9f5f6c228be37e8),
        wide(0x291cf6d68823e6876e0bcd91ee762730, 0x72cf6a8029b7d7bc92cf4deb77bd779c),
        7,
    );
    assert(wide(0x291cf6d68823e6876e0bcd91ee762730, 0x72cf6a8029b7d7bc92cf4deb77bd779c)
        * wide(0x291cf6d68823e6876e0bcd91ee762730, 0x72cf6a8029b7d7bc92cf4deb77bd779c)
        == wide(0xe949a21ffecedd8a6ebeda0253d2477, 0xc6475e7105136d20b4e24b8fb4dc862)
        * wide(0x73eda753299d7d483339d80809a1d805, 0x53bda402fffe5bfeffffffff00000001)
        + wide(0x73560252aa0655b25121af06a3b51e3c, 0xc631ffb2585a72db5616c57de0ec9eae))
            by (nonlinear_arith);
    lemma_square(
        wide(0x291cf6d68823e6876e0bcd91ee762730, 0x72cf6a8029b7d7bc92cf4deb77bd779c),
        wide(0xe949a21ffecedd8a6ebeda0253d2477, 0xc6475e7105136d20b4e24b8fb4dc862),
        wide(0x73560252aa0655b25121af06a3b51e3c, 0xc631ffb2585a72db5616c57de0ec9eae),
        8,
    );
    assert(wide(0x73560252aa0655b25121af06a3b51e3c, 0xc631ffb2585a72db5616c57de0ec9eae)
        * wide(0x73560252aa0655b25121af06a3b51e3c, 0xc631ffb2585a72db5616c57de0ec9eae)
        == wide(0x72bf23af7a589fbb742d2d81ca321502, 0x55935a678663bc32c2871632c29d0ae1)
        * wide(0x73eda753299d7d483339d80809a1d805, 0x53bda402fffe5bfeffffffff00000001)
        + wide(0xabe6a5e5abcaa32f2d38f10fbb8d1bb, 0xe08fec7c86389beec6e7a6ffb08e3363))
            by (nonlinear_arith);
    lemma_square(
        wide(0x73560252aa0655b25121af06a3b51e3c, 0xc631ffb2585a72db5616c57de0ec9eae),
        wide(0x72bf23af7a589fbb742d2d81ca321502, 0x55935a678663bc32c2871632c29d0ae1),
        wide(0xabe6a5e5abcaa32f2d38f10fbb8d1bb, 0xe08fec7c86389beec6e7a6ffb08e3363),
        9,
    );
    assert(wide(0xabe6a5e5abcaa32f2d38f10fbb8d1bb, 0xe08fec7c86389beec6e7a6ffb08e3363)
        * wide(0xabe6a5e5abcaa32f2d38f10fbb8d1bb, 0xe08fec7c86389beec6e7a6ffb08e3363)
        == wide(0xfee5fb5d0ea236f1b501ec83e593c8, 0x7e931ac7e47af231b20917dbfee5f80f)
        * wide(0x73eda753299d7d483339d80809a1d805, 0x53bda402fffe5bfeffffffff00000001)
        + wide(0x47c8b5817018af4fc70d0874b0691d4e, 0x46b3105f04db5844cd3979122d3ea03a))
            by (nonlinear_arith);
    lemma_square(
        wide(0xabe6a5e5abcaa32f2d38f10fbb8d1bb, 0xe08fec7c86389beec6e7a6ffb08e3363),
        wide(0xfee5fb5d0ea236f1b501ec83e593c8, 0x7e931ac7e47af231b20917dbfee5f80f),
        wide(0x47c8b5817018af4fc70d0874b0691d4e, 0x46b3105f04db5844cd3979122d3ea03a),
        10,
    );
    assert(wide(0x47c8b5817018af4fc70d0874b0691d4e, 0x46b3105f04db5844cd3979122d3ea03a)
        * wide(0x47c8b5817018af4fc70d0874b0691d4e, 0x46b3105f04db5844cd3979122d3ea03a)
        == wide(0x2c730c3140a37a7f3f53fcbdea18424e, 0x87b457e70cd38cf80220f1992ad6ffd9)
        * wide(0x73eda753299d7d483339d80809a1d805, 0x53bda402fffe5bfeffffffff00000001)
        + wide(0x3e1c54bcb947035a57a6e07cb98de4a, 0x2f69e02d265e09d9fece7e0e39898d4b))
            by (nonlinear_arith);
    lemma_square(
        wide(0x47c8b5817018af4fc70d0874b0691d4e, 0x46b3105f04db5844cd3979122d3ea03a),
        wide(0x2c730c3140a37a7f3f53fcbdea18424e, 0x87b457e70cd38cf80220f1992ad6ffd9),
        wide(0x3e1c54bcb947035a57a6e07cb98de4a, 0x2f69e02d265e09d9fece7e0e39898d4b),
        11,
    );
    assert(wide(0x3e1c54bcb947035a57a6e07cb98de4a, 0x2f69e02d265e09d9fece7e0e39898d4b)
        * wide(0x3e1c54bcb947035a57a6e07cb98de4a, 0x2f69e02d265e09d9fece7e0e39898d4b)
        == wide(0x2146e2a0b8e0de7288868eee118eaa, 0xab19d42369bf1a60e0036d01018e265c)
        * wide(0x73eda753299d7d483339d80809a1d805, 0x53bda402fffe5bfeffffffff00000001)
        + wide(0x520e587a724a6955df625e80d0adef90, 0xad8e16e84419c750194e8c62ecb38d9d))
            by (nonlinear_arith);
    lemma_square(
        wide(0x3e1c54bcb947035a57a6e07cb98de4a, 0x2f69e02d265e09d9fece7e0e39898d4b),
        wide(0x2146e2a0b8e0de7288868eee118eaa, 0xab19d42369bf1a60e0036d01018e265c),
        wide(0x520e587a724a6955df625e80d0adef90, 0xad8e16e84419c750194e8c62ecb38d9d),
        12,
    );
    assert(wide(0x520e587a724a6955df625e80d0adef90, 0xad8e16e84419c750194e8c62ecb38d9d)
        * wide(0x520e587a724a6955df625e80d0adef90, 0xad8e16e84419c750194e8c62ecb38d9d)
        == wide(0x3a14a5a3be2166a2bb8b08bf05a97855, 0x21e83cee04f46af3e8f720d40eddd4e)
        * wide(0x73eda753299d7d483339d80809a1d805, 0x53bda402fffe5bfeffffffff00000001)
        + wide(0x2d3056a530794f01652f717ae1c34bb0, 0xbb97a3bf30ce40fd6f421a7d8ef674fb))
            by (nonlinear_arith);
    lemma_square(
        wide(0x520e587a724a6955df625e80d0adef90, 0xad8e16e84419c750194e8c62ecb38d9d),
        wide(0x3a14a5a3be2166a2bb8b08bf05a97855, 0x21e83cee04f46af3e8f720d40eddd4e),
        wide(0x2d3056a530794f01652f717ae1c34bb0, 0xbb97a3bf30ce40fd6f421a7d8ef674fb),
        13,
    );
    assert(wide(0x2d3056a530794f01652f717ae1c34bb0, 0xbb97a3bf30ce40fd6f421a7d8ef674fb)
        * wide(0x2d3056a530794f01652f717ae1c34bb0, 0xbb97a3bf30ce40fd6f421a7d8ef674fb)
        == wide(0x119d5585e49aad5f9259d189b881bf07, 0xe02bc04bae10b9fb776bcb2c88215f09)
        * wide(0x73eda753299d7d483339d80809a1d805, 0x53bda402fffe5bfeffffffff00000001)
        + wide(0x224262332d8acbf4473a2eef772c33d6, 0xcd7f2bd6d0711b7d08692405f3b70f10))
            by (nonlinear_arith);
    lemma_square(
        wide(0x2d3056a530794f01652f717ae1c34bb0, 0xbb97a3bf30ce40fd6f421a7d8ef674fb),
        wide(0x119d5585e49aad5f9259d189b881bf07, 0xe02bc04bae10b9fb776bcb2c88215f09),
        wide(0x224262332d8acbf4473a2eef772c33d6, 0xcd7f2bd6d0711b7d08692405f3b70f10),
        14,
    );
    assert(wide(0x224262332d8acbf4473a2eef772c33d6, 0xcd7f2bd6d0711b7d08692405f3b70f10)
        * wide(0x224262332d8acbf4473a2eef772c33d6, 0xcd7f2bd6d0711b7d08692405f3b70f10)
        == wide(0xa1fd62a66e50b750997f40fc9e83eea, 0x500b811d36d501789a2b8ec1c2c2853)
        * wide(0x73eda753299d7d483339d80809a1d805, 0x53bda402fffe5bfeffffffff00000001)
        + wide(0x2155379d12180caa88f39a78f1aeb578, 0x67a665ae1fcadc91d7118f85cd96b8ad))
            by (nonlinear_arith);
    lemma_square(
        wide(0x224262332d8acbf4473a2eef772c33d6, 0xcd7f2bd6d0711b7d08692405f3b70f10),
        wide(0xa1fd62a66e50b750997f40fc9e83eea, 0x500b811d36d501789a2b8ec1c2c2853),
        wide(0x2155379d12180caa88f39a78f1aeb578, 0x67a665ae1fcadc91d7118f85cd96b8ad),
        15,
    );
    assert(wide(0x2155379d12180caa88f39a78f1aeb578, 0x67a665ae1fcadc91d7118f85cd96b8ad)
        * wide(0x2155379d12180caa88f39a78f1aeb578, 0x67a665ae1fcadc91d7118f85cd96b8ad)
        == wide(0x9958e6f287860573c01eaa556834299, 0x8d1392b9d3fcdc8db6ad07ddef7b697b)
        * wide(0x73eda753299d7d483339d80809a1d805, 0x53bda402fffe5bfeffffffff00000001)
        + wide(0x3291357ee558b50d483405417a0cbe39, 0xc8d5f51db3f32699fbd047e11279bb6e))
            by (nonlinear_arith);
    lemma_square(
        wide(0x2155379d12180caa88f39a78f1aeb578, 0x67a665ae1fcadc91d7118f85cd96b8ad),
        wide(0x9958e6f287860573c01eaa556834299, 0x8d1392b9d3fcdc8db6ad07ddef7b697b),
        wide(0x3291357ee558b50d483405417a0cbe39, 0xc8d5f51db3f32699fbd047e11279bb6e),
        16,
    );
    assert(wide(0x3291357ee558b50d483405417a0cbe39, 0xc8d5f51db3f32699fbd047e11279bb6e)
        * wide(0x3291357ee558b50d483405417a0cbe39, 0xc8d5f51db3f32699fbd047e11279bb6e)
        == wide(0x160e9ebe700aee0e8574c66da309cd89, 0xd6ed44211ce409304995ad0b04db0963)
        * wide(0x73eda753299d7d483339d80809a1d805, 0x53bda402fffe5bfeffffffff00000001)
        + wide(0x56624634b500a166dc86b01c0d477fa6, 0xae4622f6a9152435034d2ff22a5ad9e1))
            by (nonlinear_arith);
    lemma_square(
        wide(0x3291357ee558b50d483405417a0cbe39, 0xc8d5f51db3f32699fbd047e11279bb6e),
        wide(0x160e9ebe700aee0e8574c66da309cd89, 0xd6ed44211ce409304995ad0b04db0963),
        wide(0x56624634b500a166dc86b01c0d477fa6, 0xae4622f6a9152435034d2ff22a5ad9e1),
        17,
    );
    assert(wide(0x56624634b500a166dc86b01c0d477fa6, 0xae4622f6a9152435034d2ff22a5ad9e1)
        * wide(0x56624634b500a166dc86b01c0d477fa6, 0xae4622f6a9152435034d2ff22a5ad9e1)
        == wide(0x405e6df92310b5afd19ea62edd2f1b3f, 0xc5abdf7db6a963f5565a28b9f816ae5a)
        * wide(0x73eda753299d7d483339d80809a1d805, 0x53bda402fffe5bfeffffffff00000001)
        + wide(0x485d512737b1da3d2ccddea2972e89ed, 0x146b58bc434906ac6fdd00bfc78c8967))
            by (nonlinear_arith);
    lemma_square(
        wide(0x56624634b500a166dc86b01c0d477fa6, 0xae4622f6a9152435034d2ff22a5ad9e1),
        wide(0x405e6df92310b5afd19ea62edd2f1b3f, 0xc5abdf7db6a963f5565a28b9f816ae5a),
        wide(0x485d512737b1da3d2ccddea2972e89ed, 0x146b58bc434906ac6fdd00bfc78c8967),
        18,
    );
    assert(wide(0x485d512737b1da3d2ccddea2972e89ed, 0x146b58bc434906ac6fdd00bfc78c8967)
        * wide(0x485d512737b1da3d2ccddea2972e89ed, 0x146b58bc434906ac6fdd00bfc78c8967)
        == wide(0x2d2bd4bacd6e3f84defbd926f073f958, 0xe1d4245c641a3b8419a3fcd00e94046b)
        * wide(0x73eda753299d7d483339d80809a1d805, 0x53bda402fffe5bfeffffffff00000001)
        + wide(0x564c0a11a0f704f4fc3e8acfe0f8245f, 0xad1347b378fbf96e206da11a5d36306))
            by (nonlinear_arith);
    lemma_square(
        wide(0x485d512737b1da3d2ccddea2972e89ed, 0x146b58bc434906ac6fdd00bfc78c8967),
        wide(0x2d2bd4bacd6e3f84defbd926f073f958, 0xe1d4245c641a3b8419a3fcd00e94046b),
        wide(0x564c0a11a0f704f4fc3e8acfe0f8245f, 0xad1347b378fbf96e206da11a5d36306),
        19,
    );
    assert(wide(0x564c0a11a0f704f4fc3e8acfe0f8245f, 0xad1347b378fbf96e206da11a5d36306)
        * wide(0x564c0a11a0f704f4fc3e8acfe0f8245f, 0xad1347b378fbf96e206da11a5d36306)
        == wide(0x403d4f41dc6a8cda3cf38f8e270787fd, 0xc5640c7098f15d5c2c4c29dfc4642a3f)
        * wide(0x73eda753299d7d483339d80809a1d805, 0x53bda402fffe5bfeffffffff00000001)
        + wide(0x6d031f1b5c49c83409f1ca610a08f166, 0x55ea6811be9c622d4a838b5d59cd79e5))
            by (nonlinear_arith);
    lemma_square(
        wide(0x564c0a11a0f704f4fc3e8acfe0f8245f, 0xad1347b378fbf96e206da11a5d36306),
        wide(0x403d4f41dc6a8cda3cf38f8e270787fd, 0xc5640c7098f15d5c2c4c29dfc4642a3f),
        wide(0x6d031f1b5c49c83409f1ca610a08f166, 0x55ea6811be9c622d4a838b5d59cd79e5),
        20,
    );
    assert(wide(0x6d031f1b5c49c83409f1ca610a08f166, 0x55ea6811be9c622d4a838b5d59cd79e5)
        * wide(0x6d031f1b5c49c83409f1ca610a08f166, 0x55ea6811be9c622d4a838b5d59cd79e5)
        == wide(0x668237981ad07340e3bec76b2e667c1f, 0x236eb1410dc3572970685a2e07096e85)
        * wide(0x73eda753299d7d483339d80809a1d805, 0x53bda402fffe5bfeffffffff00000001)
        + wide(0x325db5c3debf77a18f4de02c0f776af3, 0xea437f9626fc085e3c28d666a5c2d854))
            by (nonlinear_arith);
    lemma_square(
        wide(0x6d031f1b5c49c83409f1ca610a08f166, 0x55ea6811be9c622d4a838b5d59cd79e5),
        wide(0x668237981ad07340e3bec76b2e667c1f, 0x236eb1410dc3572970685a2e07096e85),
        wide(0x325db5c3debf77a18f4de02c0f776af3, 0xea437f9626fc085e3c28d666a5c2d854),
        21,
    );
    assert(wide(0x325db5c3debf77a18f4de02c0f776af3, 0xea437f9626fc085e3c28d666a5c2d854)
        * wide(0x325db5c3debf77a18f4de02c0f776af3, 0xea437f9626fc085e3c28d666a5c2d854)
        == wide(0x15e1c84c3f26c9b1e00eae02d90a05e7, 0x542a1f75ba7e56e4a881715baf3d9842)
        * wide(0x73eda753299d7d483339d80809a1d805, 0x53bda402fffe5bfeffffffff00000001)
        + wide(0x95166525526a65439feec240d80689f, 0xd697168a3a6000fe4541b8ff2ee0434e))
            by (nonlinear_arith);
    lemma_square(
        wide(0x325db5c3debf77a18f4de02c0f776af3, 0xea437f9626fc085e3c28d666a5c2d854),
        wide(0x15e1c84c3f26c9b1e00eae02d90a05e7, 0x542a1f75ba7e56e4a881715baf3d9842),
        wide(0x95166525526a65439feec240d80689f, 0xd697168a3a6000fe4541b8ff2ee0434e),
        22,
    );
    assert(wide(0x95166525526a65439feec240d80689f, 0xd697168a3a6000fe4541b8ff2ee0434e)
        * wide(0x95166525526a65439feec240d80689f, 0xd697168a3a6000fe4541b8ff2ee0434e)
        == wide(0xbfbb2ef2ee09fe34f8f27564be4b57, 0x4bb19a28a01c91801d34575360b28279)
        * wide(0x73eda753299d7d483339d80809a1d805, 0x53bda402fffe5bfeffffffff00000001)
        + wide(0x4f9b4098e2e9f12e6b368121ac0cf4ad, 0xa0865a899e8deff4935bd2f817f694b))
            by (nonlinear_arith);
    lemma_square(
        wide(0x95166525526a65439feec240d80689f, 0xd697168a3a6000fe4541b8ff2ee0434e),
        wide(0xbfbb2ef2ee09fe34f8f27564be4b57, 0x4bb19a28a01c91801d34575360b28279),
        wide(0x4f9b4098e2e9f12e6b368121ac0cf4ad, 0xa0865a899e8deff4935bd2f817f694b),
        23,
    );
    assert(wide(0x4f9b4098e2e9f12e6b368121ac0cf4ad, 0xa0865a899e8deff4935bd2f817f694b)
        * wide(0x4f9b4098e2e9f12e6b368121ac0cf4ad, 0xa0865a899e8deff4935bd2f817f694b)
        == wide(0x36aa29c22b40321ba61b5f8d4f77795c, 0x110acbf388c9e1c8d157c28ad3b7763b)
        * wide(0x73eda753299d7d483339d80809a1d805, 0x53bda402fffe5bfeffffffff00000001)
        + wide(0x6898111413588742b7c68b4d7fdd60d0, 0x98d0caac87f5713c5130c2c1660125be))
            by (nonlinear_arith);
    lemma_square(
        wide(0x4f9b4098e2e9f12e6b368121ac0cf4ad, 0xa0865a899e8deff4935bd2f817f694b),
        wide(0x36aa29c22b40321ba61b5f8d4f77795c, 0x110acbf388c9e1c8d157c28ad3b7763b),
        wide(0x6898111413588742b7c68b4d7fdd60d0, 0x98d0caac87f5713c5130c2c1660125be),
        24,
    );
    assert(wide(0x6898111413588742b7c68b4d7fdd60d0, 0x98d0caac87f5713c5130c2c1660125be)
        * wide(0x6898111413588742b7c68b4d7fdd60d0, 0x98d0caac87f5713c5130c2c1660125be)
        == wide(0x5e5e2b110231c03083ccd5493c04a498, 0xead16b7e63ad3a7f5df5850ec8628ab1)
        * wide(0x73eda753299d7d483339d80809a1d805, 0x53bda402fffe5bfeffffffff00000001)
        + wide(0x45af6345ec055e4d14a1e27164d8fdbd, 0x2d967f4be2f951558140d032f0a9ee53))
            by (nonlinear_arith);
    lemma_square(
        wide(0x6898111413588742b7c68b4d7fdd60d0, 0x98d0caac87f5713c5130c2c1660125be),
        wide(0x5e5e2b110231c03083ccd5493c04a498, 0xead16b7e63ad3a7f5df5850ec8628ab1),
        wide(0x45af6345ec055e4d14a1e27164d8fdbd, 0x2d967f4be2f951558140d032f0a9ee53),
        25,
    );
    assert(wide(0x45af6345ec055e4d14a1e27164d8fdbd, 0x2d967f4be2f951558140d032f0a9ee53)
        * wide(0x45af6345ec055e4d14a1e27164d8fdbd, 0x2d967f4be2f951558140d032f0a9ee53)
        == wide(0x29e358a60746b7fbcb35f71de474d145, 0x4e6ba9a6ad4648a255653715b40a8f9b)
        * wide(0x73eda753299d7d483339d80809a1d805, 0x53bda402fffe5bfeffffffff00000001)
        + wide(0x50e0903a157988bab4bcd40e22f55448, 0xbf6e88fb4c38fb8a360c60997369df4e))
            by (nonlinear_arith);
    lemma_square(
        wide(0x45af6345ec055e4d14a1e27164d8fdbd, 0x2d967f4be2f951558140d032f0a9ee53),
        wide(0x29e358a60746b7fbcb35f71de474d145, 0x4e6ba9a6ad4648a255653715b40a8f9b),
        wide(0x50e0903a157988bab4bcd40e22f55448, 0xbf6e88fb4c38fb8a360c60997369df4e),
        26,
    );
    assert(wide(0x50e0903a157988bab4bcd40e22f55448, 0xbf6e88fb4c38fb8a360c60997369df4e)
        * wide(0x50e0903a157988bab4bcd40e22f55448, 0xbf6e88fb4c38fb8a360c60997369df4e)
        == wide(0x386c80aaeff17f5277bec07697315a92, 0x56acbcf5e7689d06a0f792c28d823ef6)
        * wide(0x73eda753299d7d483339d80809a1d805, 0x53bda402fffe5bfeffffffff00000001)
        + wide(0x20b1ce9140267af9dd1c0af834cec32c, 0x17beb312f20b6f7653ea61d87742bcce))
            by (nonlinear_arith);
    lemma_square(
        wide(0x50e0903a157988bab4bcd40e22f55448, 0xbf6e88fb4c38fb8a360c60997369df4e),
        wide(0x386c80aaeff17f5277bec07697315a92, 0x56acbcf5e7689d06a0f792c28d823ef6),
        wide(0x20b1ce9140267af9dd1c0af834cec32c, 0x17beb312f20b6f7653ea61d87742bcce),
        27,
    );
    assert(wide(0x20b1ce9140267af9dd1c0af834cec32c, 0x17beb312f20b6f7653ea61d87742bcce)
        * wide(0x20b1ce9140267af9dd1c0af834cec32c, 0x17beb312f20b6f7653ea61d87742bcce)
        == wide(0x9387c422d7cefe2c20eb21442545c86, 0x38ea24eb341e34ae27b3cda3d202f64a)
        * wide(0x73eda753299d7d483339d80809a1d805, 0x53bda402fffe5bfeffffffff00000001)
        + wide(0x345766f603fa66e78c0625cd70d77ce2, 0xb38b21c28713b7007228fd3397743f7a))
            by (nonlinear_arith);
    lemma_square(
        wide(0x20b1ce9140267af9dd1c0af834cec32c, 0x17beb312f20b6f7653ea61d87742bcce),
        wide(0x9387c422d7cefe2c20eb21442545c86, 0x38ea24eb341e34ae27b3cda3d202f64a),
        wide(0x345766f603fa66e78c0625cd70d77ce2, 0xb38b21c28713b7007228fd3397743f7a),
        28,
    );
    assert(wide(0x345766f603fa66e78c0625cd70d77ce2, 0xb38b21c28713b7007228fd3397743f7a)
        * wide(0x345766f603fa66e78c0625cd70d77ce2, 0xb38b21c28713b7007228fd3397743f7a)
        == wide(0x17a1cdc048cdb1278454e23dc04aaf59, 0x3e9344a7a37aaf2d77cf0c6b824d4624)
        * wide(0x73eda753299d7d483339d80809a1d805, 0x53bda402fffe5bfeffffffff00000001)
        + wide(0x8d51ccce760304d0, 0xec030002760300000001000000000000)) by (nonlinear_arith);
    lemma_square(
        wide(0x345766f603fa66e78c0625cd70d77ce2, 0xb38b21c28713b7007228fd3397743f7a),
        wide(0x17a1cdc048cdb1278454e23dc04aaf59, 0x3e9344a7a37aaf2d77cf0c6b824d4624),
        wide(0x8d51ccce760304d0, 0xec030002760300000001000000000000),
        29,
    );
    assert(wide(0x8d51ccce760304d0, 0xec030002760300000001000000000000)
        * wide(0x8d51ccce760304d0, 0xec030002760300000001000000000000)
        == wide(0x0, 0xac45a4010001a4020000000100000000)
        * wide(0x73eda753299d7d483339d80809a1d805, 0x53bda402fffe5bfeffffffff00000001)
        + wide(0x73eda753299d7d483339d80809a1d805, 0x53bda402fffe5bfeffffffff00000000))
            by (nonlinear_arith);
    lemma_square(
        wide(0x8d51ccce760304d0, 0xec030002760300000001000000000000),
        wide(0x0, 0xac45a4010001a4020000000100000000),
        wide(0x73eda753299d7d483339d80809a1d805, 0x53bda402fffe5bfeffffffff00000000),
        30,
    );
    assert(order() == wide(0x73eda753299d7d483339d80809a1d805, 0x53bda402fffe5bfeffffffff00000001));
    lemma_cong_multiple(-1, 1);
}

/// The root of unity of order `2^log` that the transforms use.
pub open spec fn domain_root(log: nat) -> int {
    pow(root_of_unity(), pow2((32 - log) as nat)) % order()
}

/// Whether `w` generates the roots of unity of order `n`, a power of two.
pub open spec fn is_root(w: int, n: int) -> bool {
    if n <= 1 {
        n == 1 && cong(w, 1)
    } else {
        n % 2 == 0 && cong(pow(w, (n / 2) as nat), -1)
    }
}

pub open spec fn is_power_of_two(n: int) -> bool {
    exists|log: nat| n == pow2(log)
}

pub proof fn lemma_domain_root(log: nat)
    requires
        log <= 32,
    ensures
        is_root(domain_root(log), pow2(log) as int),
        0 <= domain_root(log) < order(),
{
    let base = root_of_unity();
    let exponent = pow2((32 - log) as nat);
    let power = pow(base, exponent);
    lemma_root_of_unity();
    lemma_reduce(power);
    lemma2_to64();
    if log == 0 {
        lemma_pow2_unfold(32);
        lemma_pow_adds(base, pow2(31), pow2(31));
        lemma_cong_mul(pow(base, pow2(31)), -1, pow(base, pow2(31)), -1);
    } else {
        lemma_pow2_unfold(log);
        lemma_pow2_pos((log - 1) as nat);
        lemma_cong_pow(domain_root(log), power, pow2((log - 1) as nat));
        lemma_pow_multiplies(base, exponent, pow2((log - 1) as nat));
        lemma_pow2_adds((32 - log) as nat, (log - 1) as nat);
    }
}

/// The powers of a root of unity repeat after `n`.
pub proof fn lemma_root_period(w: int, n: int)
    requires
        is_root(w, n),
    ensures
        cong(pow(w, n as nat), 1),
{
    if n == 1 {
        lemma_pow1(w);
    } else {
        let half = (n / 2) as nat;
        lemma_pow_adds(w, half, half);
        lemma_cong_mul(pow(w, half), -1, pow(w, half), -1);
    }
}

pub proof fn lemma_pow_period(w: int, n: int, exponent: nat, k: nat)
    requires
        is_root(w, n),
    ensures
        cong(pow(w, (exponent + n * k) as nat), pow(w, exponent)),
{
    lemma_root_period(w, n);
    assert(n * k >= 0) by (nonlinear_arith)
        requires
            n >= 0,
            k >= 0,
    ;
    lemma_pow_adds(w, exponent, (n * k) as nat);
    lemma_pow_multiplies(w, n as nat, k);
    lemma_cong_pow(pow(w, n as nat), 1, k);
    lemma_pow_one(k);
    lemma_cong_mul(pow(w, exponent), pow(w, exponent), pow(w, (n * k) as nat), 1);
    assert(pow(w, exponent) * 1 == pow(w, exponent));
}

/// The inverse of a root of unity is one of the same order.
pub proof fn lemma_root_inverse(w: int, v: int, n: int)
    requires
        is_root(w, n),
        cong(w * v, 1),
    ensures
        is_root(v, n),
{
    if n == 1 {
        lemma_cong_mul(w, 1, v, v);
    } else {
        let half = (n / 2) as nat;
        lemma_pow_inverse(w, v, half);
        lemma_cong_mul(pow(w, half), -1, pow(v, half), pow(v, half));
        lemma_cong_neg((-1) * pow(v, half), 1);
    }
}

/// A root of unity is a unit.
pub proof fn lemma_root_unit(w: int, n: int)
    requires
        is_root(w, n),
    ensures
        is_unit(w),
{
    lemma_root_period(w, n);
    reveal(pow);
    assert(cong(w * pow(w, (n - 1) as nat), 1));
}

pub proof fn lemma_two_unit()
    ensures
        is_unit(2),
{
    lemma_order();
    let half = (order() + 1) / 2;
    lemma_cong_multiple(1, 1);
    assert(2 * half == 1 + 1 * order());
    assert(cong(2 * half, 1));
}

/// Where `z^m` is minus one for a power of two `m`, one minus `z` is a unit.
proof fn lemma_one_minus_unit(z: int, log: nat)
    requires
        cong(pow(z, pow2(log)), -1),
    ensures
        is_unit(1 - z),
    decreases log,
{
    if log == 0 {
        lemma2_to64();
        lemma_pow1(z);
        lemma_two_unit();
        lemma_cong_sub(1, 1, -1, z);
        lemma_unit_cong(2, 1 - z);
    } else {
        lemma_pow2_unfold(log);
        lemma_pow2_pos((log - 1) as nat);
        lemma_pow_adds(z, 1, 1);
        lemma_pow1(z);
        lemma_pow_multiplies(z, 2, pow2((log - 1) as nat));
        lemma_one_minus_unit(z * z, (log - 1) as nat);
        assert(1 - z * z == (1 - z) * (1 + z)) by (nonlinear_arith);
        lemma_unit_factor(1 - z, 1 + z);
    }
}

/// Distinct powers below the order differ by a unit.
pub proof fn lemma_root_difference(w: int, log: nat, d: int)
    requires
        is_root(w, pow2(log) as int),
        0 < d < pow2(log),
    ensures
        is_unit(1 - pow(w, d as nat)),
    decreases log,
{
    let n = pow2(log) as int;
    lemma2_to64();
    assert(log > 0);
    lemma_pow2_unfold(log);
    lemma_pow2_pos((log - 1) as nat);
    let half = pow2((log - 1) as nat);
    if d % 2 == 1 {
        let z = pow(w, d as nat);
        lemma_pow_multiplies(w, d as nat, half);
        lemma_pow_multiplies(w, half, d as nat);
        assert(d * half == half * d) by (nonlinear_arith);
        lemma_cong_pow(pow(w, half), -1, d as nat);
        lemma_pow_minus_one(d as nat);
        lemma_one_minus_unit(z, (log - 1) as nat);
    } else {
        let v = w * w;
        lemma_pow_adds(w, 1, 1);
        lemma_pow1(w);
        lemma_pow_multiplies(w, 2, (d / 2) as nat);
        if half > 1 {
            assert(log - 1 > 0) by {
                if log == 1 {
                    assert(half == 1);
                }
            }
            lemma_pow2_unfold((log - 1) as nat);
            lemma_pow2_pos((log - 2) as nat);
            lemma_pow_multiplies(w, 2, (half / 2) as nat);
            assert(is_root(v, half as int));
            lemma_root_difference(v, (log - 1) as nat, d / 2);
        }
    }
}

proof fn lemma_pow_minus_one(e: nat)
    ensures
        pow(-1, e) == (if e % 2 == 0 { 1int } else { -1int }),
    decreases e,
{
    reveal(pow);
    if e > 0 {
        lemma_pow_minus_one((e - 1) as nat);
    }
}

/// The powers of `z`, whose sum is geometric.
pub open spec fn powers(z: int) -> spec_fn(int) -> int {
    |j: int| pow(z, j as nat)
}

pub proof fn lemma_geometric(z: int, n: int)
    requires
        0 <= n,
    ensures
        (1 - z) * sum(powers(z), 0, n) == 1 - pow(z, n as nat),
    decreases n,
{
    reveal(pow);
    if n > 0 {
        lemma_geometric(z, n - 1);
        let (s, p) = (sum(powers(z), 0, n - 1), pow(z, (n - 1) as nat));
        assert((1 - z) * (s + p) == (1 - z) * s + p - z * p) by (nonlinear_arith);
    } else {
        assert((1 - z) * 0 == 0);
    }
}

/// The powers of `w^d` over a full period cancel unless `d` is a multiple of the period.
pub proof fn lemma_orthogonal(w: int, log: nat, d: int)
    requires
        is_root(w, pow2(log) as int),
        0 < d < pow2(log),
    ensures
        cong(sum(powers(pow(w, d as nat)), 0, pow2(log) as int), 0),
{
    let n = pow2(log) as int;
    let z = pow(w, d as nat);
    lemma_geometric(z, n);
    lemma_root_difference(w, log, d);
    lemma_pow_multiplies(w, d as nat, n as nat);
    lemma_pow_period(w, n, 0, d as nat);
    vstd::arithmetic::power::lemma_pow0(w);
    assert(0 + n * d == d * n) by (nonlinear_arith);
    lemma_cong_sub(1, 1, pow(z, n as nat), 1);
    assert((1 - z) * 0 == 0);
    lemma_cancel(1 - z, sum(powers(z), 0, n), 0);
}

/// A power of two is a unit.
pub proof fn lemma_size_unit(log: nat)
    ensures
        is_unit(pow2(log) as int),
    decreases log,
{
    if log == 0 {
        lemma2_to64();
        lemma_inv_unique(1, 1);
    } else {
        lemma_size_unit((log - 1) as nat);
        lemma_pow2_unfold(log);
        lemma_two_unit();
        lemma_unit_mul(2, pow2((log - 1) as nat) as int);
    }
}

} // verus!
