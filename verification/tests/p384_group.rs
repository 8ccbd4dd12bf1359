use graviola::p384_group::p384_montjadd;

#[test]
fn montjadd_generator_plus_its_double() {
    // G and 2G with Z = 1; the sum is 3G in the coordinates that the chord
    // formulas give
    let g: [u64; 18] = [
        0x3dd0756649c0b528, 0x20e378e2a0d6ce38, 0x879c3afc541b4d6e,
        0x6454868459a30eff, 0x812ff723614ede2b, 0x4d3aadc2299e1513,
        0x23043dad4b03a4fe, 0xa1bfa8bf7bb4a9ac, 0x8bade7562e83b050,
        0xc6c3521968f4ffd9, 0xdd8002263969a840, 0x2b78abc25a15c5e9,
        0xffffffff00000001, 0x00000000ffffffff, 0x0000000000000001,
        0x0000000000000000, 0x0000000000000000, 0x0000000000000000,
    ];
    let g2: [u64; 18] = [
        0xc8229e55783dde91, 0x8e6c8f2e022b53f0, 0x3504e6f0ff9d48a1,
        0xda821495f0687f50, 0x9c90a4fd2de4b506, 0xdb93b776427460c3,
        0x42ea84633140bfda, 0xe8e8e4a8c2aaccd8, 0x15e4f18bdc588258,
        0x09f1fe415172bad9, 0x070d430900b0e684, 0xe34947f7123df0c2,
        0xffffffff00000001, 0x00000000ffffffff, 0x0000000000000001,
        0x0000000000000000, 0x0000000000000000, 0x0000000000000000,
    ];
    let expected: [u64; 18] = [
        0x5359e9e00838a8bb, 0x9c0b2d6ffc76445d, 0xf0070bd992a8974b,
        0xcf7bfaa51d70d11d, 0x17274cf40f94f012, 0x08320a0848183081,
        0xcde9101728f7963e, 0xc68da2c1be7e4b8e, 0x47598d71f75d45e3,
        0x989f30565ff623f8, 0xab6ef823146ee260, 0x27ef9ec0c34b685c,
        0x8a5228ef2e7d2969, 0x6d89164b615485b8, 0xad68abf4ab81fb33,
        0x762d8e1196c57050, 0x1b60add9cc95d6db, 0x8e5909b418d64bb0,
    ];
    let mut sum = [0u64; 18];
    p384_montjadd(&mut sum, &g, &g2);
    assert_eq!(sum, expected);
}

#[test]
fn montjadd_with_general_z_coordinates() {
    // 2G and 3G, each scaled to a Z coordinate other than 1; the sum is 5G
    let a: [u64; 18] = [
        0x6c659425931b0a39, 0x66238ecbd59a9f7e, 0xcfea9e42266ebadf,
        0x68234c81ad767c30, 0x78b3327c0e3f45a0, 0x8f9766ac3786f61c,
        0xa80d25bacc2e4860, 0x04d12941d8c48590, 0xdd7cf8be2a1a1865,
        0xe3672ef3ed6e5400, 0xeb0eb763d5c4a7ec, 0x77cb132561f1e721,
        0xf82456360a62ce64, 0x419869f6880fa825, 0xd52364a741436fbc,
        0xdace80d2875cb28a, 0x52f2639cf86f7abf, 0x3965f9cee24ab52f,
    ];
    let b: [u64; 18] = [
        0x541c4e8b824a3263, 0xe6b3c12dd6c6945c, 0x1930595cabcf8a31,
        0xb8767b3cf9f96ffd, 0x6cd7959a8a66f188, 0x8a390fb1e685839d,
        0x862f49e2db09c3fd, 0x326a7a4704f59c0a, 0xf6bcc9b9936b14da,
        0x29c024ba4032870d, 0xe1a7c6b3ad254adc, 0x065216f8ec8661fd,
        0xaa357e68a8810483, 0xdca289f66ddc951a, 0x810f0d006772e577,
        0xa1c799eef2300668, 0x598b257a2fad8878, 0xb454782688e15d2d,
    ];
    let expected: [u64; 18] = [
        0x16a93ae312b04937, 0xb5bd196a6ad23299, 0xbd90ff5f623b1de0,
        0x5ef37f45717626c9, 0x1c38a68b9e845239, 0xd37382289c15924e,
        0xd679504419f20261, 0xf923b78febae4e8d, 0x413b007cbcd2b80e,
        0x23ed66fc85476b72, 0x3c5596ef33697374, 0xd5ee02d37a977365,
        0xe393125b9eb64880, 0x2286ef79aa68ffc1, 0x42d9de190f8e5cce,
        0xf8dfa7574815f7ca, 0x6c816da3a48b4fdf, 0x87f90b9e38bfdc04,
    ];
    let mut sum = [0u64; 18];
    p384_montjadd(&mut sum, &a, &b);
    assert_eq!(sum, expected);
}

#[test]
fn montjadd_identity_on_the_right_returns_the_left() {
    let a: [u64; 18] = [
        0x6c659425931b0a39, 0x66238ecbd59a9f7e, 0xcfea9e42266ebadf,
        0x68234c81ad767c30, 0x78b3327c0e3f45a0, 0x8f9766ac3786f61c,
        0xa80d25bacc2e4860, 0x04d12941d8c48590, 0xdd7cf8be2a1a1865,
        0xe3672ef3ed6e5400, 0xeb0eb763d5c4a7ec, 0x77cb132561f1e721,
        0xf82456360a62ce64, 0x419869f6880fa825, 0xd52364a741436fbc,
        0xdace80d2875cb28a, 0x52f2639cf86f7abf, 0x3965f9cee24ab52f,
    ];
    let o: [u64; 18] = [
        0x8657f20aaa9bcaaf, 0xf28d191a85811c53, 0xe4cebd81f04e2256,
        0xc064bbbafc9eb31a, 0x34b3cfcf50acfcba, 0x3b4e2d565f77038f,
        0xca3303eb993cf4cc, 0xa6a70fed5770efc3, 0xbdd9e3a01da79178,
        0x4ab6059a318eae19, 0x0ea8a9db531504f3, 0x81ae403b078824c2,
        0x0000000000000000, 0x0000000000000000, 0x0000000000000000,
        0x0000000000000000, 0x0000000000000000, 0x0000000000000000,
    ];
    let mut sum = [0u64; 18];
    p384_montjadd(&mut sum, &a, &o);
    assert_eq!(sum, a);
}

#[test]
fn montjadd_identity_on_the_left_returns_the_right() {
    let a: [u64; 18] = [
        0x541c4e8b824a3263, 0xe6b3c12dd6c6945c, 0x1930595cabcf8a31,
        0xb8767b3cf9f96ffd, 0x6cd7959a8a66f188, 0x8a390fb1e685839d,
        0x862f49e2db09c3fd, 0x326a7a4704f59c0a, 0xf6bcc9b9936b14da,
        0x29c024ba4032870d, 0xe1a7c6b3ad254adc, 0x065216f8ec8661fd,
        0xaa357e68a8810483, 0xdca289f66ddc951a, 0x810f0d006772e577,
        0xa1c799eef2300668, 0x598b257a2fad8878, 0xb454782688e15d2d,
    ];
    let o: [u64; 18] = [
        0x8657f20aaa9bcaaf, 0xf28d191a85811c53, 0xe4cebd81f04e2256,
        0xc064bbbafc9eb31a, 0x34b3cfcf50acfcba, 0x3b4e2d565f77038f,
        0xca3303eb993cf4cc, 0xa6a70fed5770efc3, 0xbdd9e3a01da79178,
        0x4ab6059a318eae19, 0x0ea8a9db531504f3, 0x81ae403b078824c2,
        0x0000000000000000, 0x0000000000000000, 0x0000000000000000,
        0x0000000000000000, 0x0000000000000000, 0x0000000000000000,
    ];
    let mut sum = [0u64; 18];
    p384_montjadd(&mut sum, &o, &a);
    assert_eq!(sum, a);
}

#[test]
fn montjadd_of_two_identities_is_the_identity() {
    let o1: [u64; 18] = [
        0x8657f20aaa9bcaaf, 0xf28d191a85811c53, 0xe4cebd81f04e2256,
        0xc064bbbafc9eb31a, 0x34b3cfcf50acfcba, 0x3b4e2d565f77038f,
        0xca3303eb993cf4cc, 0xa6a70fed5770efc3, 0xbdd9e3a01da79178,
        0x4ab6059a318eae19, 0x0ea8a9db531504f3, 0x81ae403b078824c2,
        0x0000000000000000, 0x0000000000000000, 0x0000000000000000,
        0x0000000000000000, 0x0000000000000000, 0x0000000000000000,
    ];
    let o2: [u64; 18] = [
        0xfffffffb00000005, 0x00000004ffffffff, 0x0000000000000005,
        0x0000000000000000, 0x0000000000000000, 0x0000000000000000,
        0xfffffff900000007, 0x00000006ffffffff, 0x0000000000000007,
        0x0000000000000000, 0x0000000000000000, 0x0000000000000000,
        0x0000000000000000, 0x0000000000000000, 0x0000000000000000,
        0x0000000000000000, 0x0000000000000000, 0x0000000000000000,
    ];
    let mut sum = [1u64; 18];
    p384_montjadd(&mut sum, &o1, &o2);
    assert_eq!(&sum[12..], &[0u64; 6]);
}

#[test]
fn montjadd_of_a_point_and_its_negative_is_the_identity() {
    let a: [u64; 18] = [
        0x6c659425931b0a39, 0x66238ecbd59a9f7e, 0xcfea9e42266ebadf,
        0x68234c81ad767c30, 0x78b3327c0e3f45a0, 0x8f9766ac3786f61c,
        0xa80d25bacc2e4860, 0x04d12941d8c48590, 0xdd7cf8be2a1a1865,
        0xe3672ef3ed6e5400, 0xeb0eb763d5c4a7ec, 0x77cb132561f1e721,
        0xf82456360a62ce64, 0x419869f6880fa825, 0xd52364a741436fbc,
        0xdace80d2875cb28a, 0x52f2639cf86f7abf, 0x3965f9cee24ab52f,
    ];
    let b: [u64; 18] = [
        0xa39f30927f0f54a3, 0x8aedcbe418953b47, 0xef2bb6ee99d1a6ac,
        0x5bfa5639171f8f78, 0x0ea5c72dec8b7ddb, 0xf762e3b9094f4241,
        0xc6ffd11fc75cc3aa, 0xf18b3a7c3d208399, 0x70778600ffc3a1dc,
        0x956ef7b13bb51e5a, 0xbd1f8be15b0b6c50, 0xcbab592e2c2a7e3b,
        0xaa357e68a8810483, 0xdca289f66ddc951a, 0x810f0d006772e577,
        0xa1c799eef2300668, 0x598b257a2fad8878, 0xb454782688e15d2d,
    ];
    let mut sum = [1u64; 18];
    p384_montjadd(&mut sum, &a, &b);
    assert_eq!(&sum[12..], &[0u64; 6]);
}

#[test]
fn montjadd_of_a_point_and_itself_is_its_double() {
    // the base point added to itself, limb for limb the same operand
    let g: [u64; 18] = [
        0x3dd0756649c0b528, 0x20e378e2a0d6ce38, 0x879c3afc541b4d6e,
        0x6454868459a30eff, 0x812ff723614ede2b, 0x4d3aadc2299e1513,
        0x23043dad4b03a4fe, 0xa1bfa8bf7bb4a9ac, 0x8bade7562e83b050,
        0xc6c3521968f4ffd9, 0xdd8002263969a840, 0x2b78abc25a15c5e9,
        0xffffffff00000001, 0x00000000ffffffff, 0x0000000000000001,
        0x0000000000000000, 0x0000000000000000, 0x0000000000000000,
    ];
    let expected: [u64; 18] = [
        0x1775f419171377ce, 0x8f8dcaccf02dd53f, 0x108eafd957721602,
        0x2bfbb6c63049e16e, 0xc2aaeeb12630cb3a, 0x18e5fd62e82fa916,
        0xd9962e22eff819e0, 0x05acb8f8ef83f274, 0x6b7f49320aa3a6d6,
        0xf5330ad438f6d02f, 0x1b0f5f11e8de0342, 0x49ef8462f3ea4828,
        0x46087b5a960749fc, 0x437f517ef7695358, 0x175bceac5d0760a1,
        0x8d86a432d1e9ffb3, 0xbb00044c72d35081, 0x56f15784b42b8bd3,
    ];
    let mut sum = [0u64; 18];
    p384_montjadd(&mut sum, &g, &g);
    assert_eq!(sum, expected);
    assert_ne!(&sum[12..], &[0u64; 6]);
    // 2G with a Z coordinate other than 1, added to itself
    let a: [u64; 18] = [
        0x6c659425931b0a39, 0x66238ecbd59a9f7e, 0xcfea9e42266ebadf,
        0x68234c81ad767c30, 0x78b3327c0e3f45a0, 0x8f9766ac3786f61c,
        0xa80d25bacc2e4860, 0x04d12941d8c48590, 0xdd7cf8be2a1a1865,
        0xe3672ef3ed6e5400, 0xeb0eb763d5c4a7ec, 0x77cb132561f1e721,
        0xf82456360a62ce64, 0x419869f6880fa825, 0xd52364a741436fbc,
        0xdace80d2875cb28a, 0x52f2639cf86f7abf, 0x3965f9cee24ab52f,
    ];
    let expected: [u64; 18] = [
        0xab049c5f314e6a8f, 0x91c1f1c721abdad9, 0x8d2fceebf9d48af3,
        0x922f0385007566d7, 0x39c70b8e6f62025e, 0x2ec5dae6192259fb,
        0xe54491252d0176ff, 0x137b85e1710ddc2a, 0x53ce915be685a807,
        0xc26410decc572b2d, 0xddc42a76d20b0b7d, 0x87296be3cde92ac8,
        0xd14f643d2f833eaf, 0x61e0f81a3ade5efc, 0x3d280aae32007f6e,
        0x6036ea860d55f359, 0xcb6577dbbe7938f4, 0x805b78c71c7c6d61,
    ];
    p384_montjadd(&mut sum, &a, &a);
    assert_eq!(sum, expected);
}

#[test]
fn montjadd_of_one_point_in_two_sets_of_coordinates_is_its_double() {
    // 2G scaled by two different Z coordinates: the same point, other limbs
    let a: [u64; 18] = [
        0x6c659425931b0a39, 0x66238ecbd59a9f7e, 0xcfea9e42266ebadf,
        0x68234c81ad767c30, 0x78b3327c0e3f45a0, 0x8f9766ac3786f61c,
        0xa80d25bacc2e4860, 0x04d12941d8c48590, 0xdd7cf8be2a1a1865,
        0xe3672ef3ed6e5400, 0xeb0eb763d5c4a7ec, 0x77cb132561f1e721,
        0xf82456360a62ce64, 0x419869f6880fa825, 0xd52364a741436fbc,
        0xdace80d2875cb28a, 0x52f2639cf86f7abf, 0x3965f9cee24ab52f,
    ];
    let b: [u64; 18] = [
        0xa39f30927f0f54a3, 0x8aedcbe418953b47, 0xef2bb6ee99d1a6ac,
        0x5bfa5639171f8f78, 0x0ea5c72dec8b7ddb, 0xf762e3b9094f4241,
        0x39002ee138a33c55, 0x0e74c582c2df7c66, 0x8f8879ff003c5e22,
        0x6a91084ec44ae1a5, 0x42e0741ea4f493af, 0x3454a6d1d3d581c4,
        0xaa357e68a8810483, 0xdca289f66ddc951a, 0x810f0d006772e577,
        0xa1c799eef2300668, 0x598b257a2fad8878, 0xb454782688e15d2d,
    ];
    let expected: [u64; 18] = [
        0xab049c5f314e6a8f, 0x91c1f1c721abdad9, 0x8d2fceebf9d48af3,
        0x922f0385007566d7, 0x39c70b8e6f62025e, 0x2ec5dae6192259fb,
        0xe54491252d0176ff, 0x137b85e1710ddc2a, 0x53ce915be685a807,
        0xc26410decc572b2d, 0xddc42a76d20b0b7d, 0x87296be3cde92ac8,
        0xd14f643d2f833eaf, 0x61e0f81a3ade5efc, 0x3d280aae32007f6e,
        0x6036ea860d55f359, 0xcb6577dbbe7938f4, 0x805b78c71c7c6d61,
    ];
    let mut sum = [0u64; 18];
    p384_montjadd(&mut sum, &a, &b);
    assert_eq!(sum, expected);
    assert_ne!(&sum[12..], &[0u64; 6]);
}

#[test]
fn montjadd_all_zero_limbs_is_the_identity() {
    let a: [u64; 18] = [
        0x541c4e8b824a3263, 0xe6b3c12dd6c6945c, 0x1930595cabcf8a31,
        0xb8767b3cf9f96ffd, 0x6cd7959a8a66f188, 0x8a390fb1e685839d,
        0x862f49e2db09c3fd, 0x326a7a4704f59c0a, 0xf6bcc9b9936b14da,
        0x29c024ba4032870d, 0xe1a7c6b3ad254adc, 0x065216f8ec8661fd,
        0xaa357e68a8810483, 0xdca289f66ddc951a, 0x810f0d006772e577,
        0xa1c799eef2300668, 0x598b257a2fad8878, 0xb454782688e15d2d,
    ];
    let o = [0u64; 18];
    let mut sum = [1u64; 18];
    p384_montjadd(&mut sum, &o, &a);
    assert_eq!(sum, a);
    p384_montjadd(&mut sum, &o, &o);
    assert_eq!(sum, o);
}
