use std::collections::BTreeSet;
use midencrypto::felt::Felt;
use midencrypto::rescue::digest::RpoDigest;
use midencrypto::rescue::rpx_digest::RpxDigest;
use midencrypto::rescue::rpo::Rpo256;
use midencrypto::rescue::rpx::Rpx256;
use midencrypto::rescue::{apply_inv_sbox, apply_sbox, ALPHA, BINARY_CHUNK_SIZE, DIGEST_BYTES, INV_ALPHA, RATE_WIDTH, STATE_WIDTH};
use midencrypto::blake::Blake3_256;
use midencrypto::rescue::mds::add_with_carry;
use midencrypto::utils::bytes::SliceReader;

const EXPECTED: [[u64; 4]; 19] = [
        [
            18_126_731_724_905_382_595,
            7_388_557_040_857_728_717,
            14_290_750_514_634_285_295,
            7_852_282_086_160_480_146,
        ],
        [
            10_139_303_045_932_500_183,
            2_293_916_558_361_785_533,
            15_496_361_415_980_502_047,
            17_904_948_502_382_283_940,
        ],
        [
            17_457_546_260_239_634_015,
            803_990_662_839_494_686,
            10_386_005_777_401_424_878,
            18_168_807_883_298_448_638,
        ],
        [
            13_072_499_238_647_455_740,
            10_174_350_003_422_057_273,
            9_201_651_627_651_151_113,
            6_872_461_887_313_298_746,
        ],
        [
            2_903_803_350_580_990_546,
            1_838_870_750_730_563_299,
            4_258_619_137_315_479_708,
            17_334_260_395_129_062_936,
        ],
        [
            8_571_221_005_243_425_262,
            3_016_595_589_318_175_865,
            13_933_674_291_329_928_438,
            678_640_375_034_313_072,
        ],
        [
            16_314_113_978_986_502_310,
            14_587_622_368_743_051_587,
            2_808_708_361_436_818_462,
            10_660_517_522_478_329_440,
        ],
        [
            2_242_391_899_857_912_644,
            12_689_382_052_053_305_418,
            235_236_990_017_815_546,
            5_046_143_039_268_215_739,
        ],
        [
            5_218_076_004_221_736_204,
            17_169_400_568_680_971_304,
            8_840_075_572_473_868_990,
            12_382_372_614_369_863_623,
        ],
        [
            9_783_834_557_155_203_486,
            12_317_263_104_955_018_849,
            3_933_748_931_816_109_604,
            1_843_043_029_836_917_214,
        ],
        [
            14_498_234_468_286_984_551,
            16_837_257_669_834_682_387,
            6_664_141_123_711_355_107,
            4_590_460_158_294_697_186,
        ],
        [
            4_661_800_562_479_916_067,
            11_794_407_552_792_839_953,
            9_037_742_258_721_863_712,
            6_287_820_818_064_278_819,
        ],
        [
            7_752_693_085_194_633_729,
            7_379_857_372_245_835_536,
            9_270_229_380_648_024_178,
            10_638_301_488_452_560_378,
        ],
        [
            11_542_686_762_698_783_357,
            15_570_714_990_728_449_027,
            7_518_801_014_067_819_501,
            12_706_437_751_337_583_515,
        ],
        [
            9_553_923_701_032_839_042,
            7_281_190_920_209_838_818,
            2_488_477_917_448_393_955,
            5_088_955_350_303_368_837,
        ],
        [
            4_935_426_252_518_736_883,
            12_584_230_452_580_950_419,
            8_762_518_969_632_303_998,
            18_159_875_708_229_758_073,
        ],
        [
            12_795_429_638_314_178_838,
            14_360_248_269_767_567_855,
            3_819_563_852_436_765_058,
            10_859_123_583_999_067_291,
        ],
        [
            2_695_742_617_679_420_093,
            9_151_515_850_666_059_759,
            15_855_828_029_180_595_485,
            17_190_029_785_471_463_210,
        ],
        [
            13_205_273_108_219_124_830,
            2_524_898_486_192_849_221,
            14_618_764_355_375_283_547,
            10_615_614_265_042_186_874,
        ],
    ];

/// Deterministic stand-ins for random field elements.
fn pseudo_random_array<const N: usize>(seed: u64) -> [Felt; N] {
    let mut x = seed.wrapping_mul(6364136223846793005).wrapping_add(1442695040888963407);
    core::array::from_fn(|_| {
        x ^= x << 13;
        x ^= x >> 7;
        x ^= x << 17;
        Felt::new(x)
    })
}

fn exp(base: Felt, mut power: u64) -> Felt {
    let mut result = Felt::one();
    let mut b = base;
    while power > 0 {
        if power & 1 == 1 {
            result = result.mul(b);
        }
        b = b.square();
        power >>= 1;
    }
    result
}

fn halves(elements: &[Felt; 8]) -> ([Felt; 4], [Felt; 4]) {
    (elements[..4].try_into().unwrap(), elements[4..].try_into().unwrap())
}

#[test]
fn sbox() {
    let state: [Felt; STATE_WIDTH] = pseudo_random_array(1);
    let mut expected = state;
    expected.iter_mut().for_each(|v| *v = exp(*v, ALPHA));
    let mut actual = state;
    apply_sbox(&mut actual);
    assert_eq!(expected, actual);
}

#[test]
fn inv_sbox() {
    let state: [Felt; STATE_WIDTH] = pseudo_random_array(2);
    let mut expected = state;
    expected.iter_mut().for_each(|v| *v = exp(*v, INV_ALPHA));
    let mut actual = state;
    apply_inv_sbox(&mut actual);
    assert_eq!(expected, actual);
}

#[test]
fn mod_hash_elements_vs_merge() {
    let elements = pseudo_random_array::<8>(3);
    let (a, b) = halves(&elements);
    let m_result = Rpo256::merge(&[RpoDigest::new(a), RpoDigest::new(b)]);
    let h_result = Rpo256::hash_elements(&elements);
    assert_eq!(m_result, h_result);

    let m_result = Rpx256::merge(&[RpxDigest::new(a), RpxDigest::new(b)]);
    let h_result = Rpx256::hash_elements(&elements);
    assert_eq!(m_result, h_result);
}

#[test]
fn mod_merge_vs_merge_in_domain() {
    let elements = pseudo_random_array::<8>(4);
    let (a, b) = halves(&elements);
    let digests = [RpoDigest::new(a), RpoDigest::new(b)];
    let merge_result = Rpo256::merge(&digests);
    assert_eq!(merge_result, Rpo256::merge_in_domain(&digests, Felt::zero()));
    assert_ne!(merge_result, Rpo256::merge_in_domain(&digests, Felt::one()));

    let digests = [RpxDigest::new(a), RpxDigest::new(b)];
    let merge_result = Rpx256::merge(&digests);
    assert_eq!(merge_result, Rpx256::merge_in_domain(&digests, Felt::zero()));
    assert_ne!(merge_result, Rpx256::merge_in_domain(&digests, Felt::one()));
}

#[test]
fn mod_hash_elements_vs_merge_with_int() {
    let tmp = pseudo_random_array::<4>(5);
    let val = pseudo_random_array::<1>(6)[0];

    let seed = RpoDigest::new(tmp);
    let m_result = Rpo256::merge_with_int(seed, val.as_int());
    let mut elements = seed.as_elements().to_vec();
    elements.push(val);
    assert_eq!(m_result, Rpo256::hash_elements(&elements));
    let big = Felt::MODULUS + 2;
    let m_result = Rpo256::merge_with_int(seed, big);
    let mut elements = seed.as_elements().to_vec();
    elements.extend([Felt::new(big), Felt::one()]);
    assert_eq!(m_result, Rpo256::hash_elements(&elements));

    let seed = RpxDigest::new(tmp);
    let m_result = Rpx256::merge_with_int(seed, val.as_int());
    let mut elements = seed.as_elements().to_vec();
    elements.push(val);
    assert_eq!(m_result, Rpx256::hash_elements(&elements));
    let m_result = Rpx256::merge_with_int(seed, big);
    let mut elements = seed.as_elements().to_vec();
    elements.extend([Felt::new(big), Felt::one()]);
    assert_eq!(m_result, Rpx256::hash_elements(&elements));
}

#[test]
fn mod_hash_padding() {
    let cases: [(&[u8], &[u8]); 4] = [
        (&[1, 2, 3], &[1, 2, 3, 0]),
        (&[1, 2, 3, 4, 5, 6], &[1, 2, 3, 4, 5, 6, 0]),
        (&[1, 2, 3, 4, 5, 6, 7], &[1, 2, 3, 4, 5, 6, 7, 0]),
        (&[1, 2, 3, 4, 5, 6, 7, 0, 0], &[1, 2, 3, 4, 5, 6, 7, 0, 0, 0, 0]),
    ];
    for (a, b) in cases {
        assert_ne!(Rpo256::hash(a), Rpo256::hash(b));
        assert_ne!(Rpx256::hash(a), Rpx256::hash(b));
    }
}

#[test]
fn hash_padding_no_extra_permutation_call() {
    let num_bytes = BINARY_CHUNK_SIZE * RATE_WIDTH;
    let mut buffer = vec![0u8; num_bytes];
    *buffer.last_mut().unwrap() = 97;
    let r1 = Rpo256::hash(&buffer);

    let final_chunk = [0u8, 0, 0, 0, 0, 0, 97, 1];
    let mut state = [Felt::zero(); STATE_WIDTH];
    state[0] = Felt::new(RATE_WIDTH as u64);
    *state.last_mut().unwrap() = Felt::new(u64::from_le_bytes(final_chunk));
    Rpo256::apply_permutation(&mut state);

    assert_eq!(r1.as_elements(), &state[4..8]);
}

#[test]
fn mod_hash_elements_padding() {
    let e1 = pseudo_random_array::<2>(7);
    let e2 = [e1[0], e1[1], Felt::zero()];
    assert_ne!(Rpo256::hash_elements(&e1), Rpo256::hash_elements(&e2));
    assert_ne!(Rpx256::hash_elements(&e1), Rpx256::hash_elements(&e2));
}

#[test]
fn hash_elements() {
    let elements = core::array::from_fn::<Felt, 8, _>(|i| Felt::new(i as u64));
    let (a, b) = halves(&elements);
    let m_result = Rpo256::merge(&[RpoDigest::new(a), RpoDigest::new(b)]);
    assert_eq!(m_result, Rpo256::hash_elements(&elements));
    let m_result = Rpx256::merge(&[RpxDigest::new(a), RpxDigest::new(b)]);
    assert_eq!(m_result, Rpx256::hash_elements(&elements));
}

#[test]
fn mod_hash_empty() {
    let elements: [Felt; 0] = [];
    assert_eq!(Rpo256::hash_elements(&elements), RpoDigest::default());
    assert_eq!(Rpx256::hash_elements(&elements), RpxDigest::default());
}

#[test]
fn mod_hash_empty_bytes() {
    assert_eq!(Rpo256::hash(&[]), RpoDigest::default());
    assert_eq!(Rpx256::hash(&[]), RpxDigest::default());
}

#[test]
fn hash_test_vectors() {
    let elements = core::array::from_fn::<Felt, 19, _>(|i| Felt::new(i as u64));
    for i in 0..elements.len() {
        let expected = RpoDigest::new(EXPECTED[i].map(Felt::new));
        let result = Rpo256::hash_elements(&elements[..=i]);
        assert_eq!(result, expected);
    }
}

#[test]
fn mod_sponge_bytes_with_remainder_length_wont_panic() {
    _ = Rpo256::hash(&[0; 113]);
    _ = Rpx256::hash(&[0; 113]);
}

#[test]
fn mod_sponge_collision_for_wrapped_field_element() {
    assert_ne!(Rpo256::hash(&[0; 8]), Rpo256::hash(&Felt::MODULUS.to_le_bytes()));
    assert_ne!(Rpx256::hash(&[0; 8]), Rpx256::hash(&Felt::MODULUS.to_le_bytes()));
}

#[test]
fn mod_sponge_zero_collision() {
    let mut zeroes = Vec::with_capacity(255);
    let mut rpo = BTreeSet::new();
    let mut rpx = BTreeSet::new();
    for _ in 0..255 {
        assert!(rpo.insert(Rpo256::hash(&zeroes).as_bytes()));
        assert!(rpx.insert(Rpx256::hash(&zeroes).as_bytes()));
        zeroes.push(0);
    }
}

fn some_rpx_digest() -> RpxDigest {
    RpxDigest::new(pseudo_random_array::<4>(11))
}

#[test]
fn digest_serialization() {
    let d1 = some_rpx_digest();
    let mut bytes = Vec::new();
    d1.write_into(&mut bytes);
    assert_eq!(bytes.len(), DIGEST_BYTES);
    assert_eq!(bytes.len(), d1.get_size_hint());
    let mut reader = SliceReader::new(&bytes);
    let d2 = RpxDigest::read_from(&mut reader).unwrap();
    assert_eq!(d1, d2);
}

#[test]
fn digest_encoding() {
    let digest = some_rpx_digest();
    let string: String = digest.to_hex();
    let round_trip = RpxDigest::try_from_hex(&string).unwrap();
    assert_eq!(digest, round_trip);
}

#[test]
fn conversions() {
    let digest = some_rpx_digest();

    let v = [true, false, true, true];
    assert_eq!(v, RpxDigest::from_bools(v).to_bools().unwrap());
    let v = [0u8, 1, 2, 3];
    assert_eq!(v, RpxDigest::from_u8s(v).to_u8s().unwrap());
    let v = [0u16, 1, 2, 3];
    assert_eq!(v, RpxDigest::from_u16s(v).to_u16s().unwrap());
    let v = [0u32, 1, 2, 3];
    assert_eq!(v, RpxDigest::from_u32s(v).to_u32s().unwrap());

    let v = digest.to_u64s();
    assert_eq!(digest, RpxDigest::try_from_u64s(v).unwrap());
    let v = digest.to_felts();
    assert_eq!(digest, RpxDigest::new(v));
    let v = digest.as_bytes();
    assert_eq!(digest, RpxDigest::try_from_bytes(v).unwrap());
    let v = digest.to_hex();
    assert_eq!(digest, RpxDigest::try_from_hex(&v).unwrap());
}

fn compute_expected_element_hash(elements: &[Felt]) -> [u8; 32] {
    let mut bytes = Vec::new();
    for element in elements {
        bytes.extend_from_slice(&element.as_int().to_le_bytes());
    }
    *blake3::hash(&bytes).as_bytes()
}

#[test]
fn blake3_hash_elements() {
    let elements = pseudo_random_array::<16>(21);
    let expected = compute_expected_element_hash(&elements);
    let actual: [u8; 32] = Blake3_256::hash_elements(&elements).as_bytes();
    assert_eq!(expected, actual);

    let elements = pseudo_random_array::<17>(22);
    let expected = compute_expected_element_hash(&elements);
    let actual: [u8; 32] = Blake3_256::hash_elements(&elements).as_bytes();
    assert_eq!(expected, actual);
}

#[test]
fn add_with_carry_wraps_and_reports() {
    assert_eq!(add_with_carry(1, 2), (3, false));
    assert_eq!(add_with_carry(u64::MAX, 1), (0, true));
    assert_eq!(add_with_carry(u64::MAX, u64::MAX), (u64::MAX - 1, true));
    assert_eq!(add_with_carry(u64::MAX - 5, 5), (u64::MAX, false));
}
