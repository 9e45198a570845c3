use meeko::board::Board;
use meeko::legalmoves::{generate_legal_moves, make_move, perft, unmake_move};

const POSITION_2: &str = "r3k2r/p1ppqpb1/bn2pnp1/3PN3/1p2P3/2N2Q1p/PPPBBPPP/R3K2R w KQkq - ";
const POSITION_5: &str = "rnbq1k1r/pp1Pbppp/2p5/8/2B5/8/PPP1NnPP/RNBQK2R w KQ - 1 8  ";
const POSITION_6: &str = "r4rk1/1pp1qppp/p1np1n2/2b1p1B1/2B1P1b1/P1NP1N2/1PP1QPPP/R4RK1 w - - 0 10";

/// Depth-4 leaf counts below each root move of position 2, in generation
/// order; their sum is the depth-5 count.
const DIVIDE_2: [u64; 48] = [
    3835265, 4727437, 4387586, 4627439, 3768824, 3338154,
    3472039, 3819456, 3827454, 3814203, 3568344, 3685756,
    3989454, 3967365, 4370915, 3941257, 4407041, 3793390,
    3553501, 4032348, 4182989, 4066966, 3074219, 4095479,
    3559113, 3377351, 4404043, 4164923, 4083458, 3949417,
    3494887, 3415992, 3288812, 4317482, 4628497, 3996171,
    3995761, 3975992, 5271134, 4743335, 4327936, 4514010,
    3949570, 4477772, 4669768, 5067173, 4119629, 3551583,
];

/// Depth-4 leaf counts below each root move of position 5, in generation
/// order; their sum is the depth-5 count.
const DIVIDE_5: [u64; 44] = [
    2106366, 2712122, 1628284, 2522065, 2101105, 1936679,
    1990854, 1904400, 2090166, 1830854, 1779903, 2015932,
    1926608, 1911413, 1781002, 1817665, 1644109, 2079471,
    1832566, 1934045, 1686064, 1672391, 1748274, 2042591,
    2380374, 2484771, 1894062, 1043007, 1667505, 2154511,
    2353001, 2274063, 2465011, 2302529, 2032466, 1777712,
    2191455, 1450852, 2229266, 2742654, 2920749, 2792521,
    2109913, 1979843,
];

/// Depth-4 leaf counts below each root move of position 6, in generation
/// order; their sum is the depth-5 count.
const DIVIDE_6: [u64; 46] = [
    3878463, 4380579, 3711088, 3419939, 3878092, 3743675,
    4197369, 3183971, 3453891, 3303169, 3169502, 2889902,
    3488438, 3629003, 3788187, 3778886, 3337594, 3822473,
    4338859, 3278233, 4005372, 3717908, 3146201, 322511,
    3526986, 3933073, 3445927, 3466775, 3453971, 3449599,
    4392620, 3665630, 3699930, 3477406, 3313599, 2773444,
    2638406, 5187884, 4645393, 3800952, 3640148, 2861872,
    4096975, 3941010, 3324203, 3476443,
];

fn run_perft_test(fen: &str, expected_results: &[(u32, u64)]) {
    let mut board = Board::new(Some(fen));
    for (depth, expected) in expected_results {
        let result = perft(&mut board, *depth);
        if result != *expected {
            panic!("Perft test failed at depth {}: {} instead of {}", depth, result, expected);
        }
    }
}

/// Checks the depth-4 counts below the root moves `first..first + expected.len()`.
fn check_divide(fen: &str, first: usize, expected: &[u64]) {
    let mut board = Board::new(Some(fen));
    let moves = generate_legal_moves(&mut board);
    for (k, count) in expected.iter().enumerate() {
        let m = moves[first + k];
        make_move(&mut board, &m, true);
        let result = perft(&mut board, 4);
        unmake_move(&mut board, &m, true);
        assert_eq!(result, *count, "below root move {} ({})", first + k, m.alg_move());
    }
}

/// The depth-5 count of a position, as the sum of its divide table, whose
/// entries the chunk tests check one by one.
fn check_depth_5_total(fen: &str, divide: &[u64], expected: u64) {
    let mut board = Board::new(Some(fen));
    assert_eq!(generate_legal_moves(&mut board).len(), divide.len());
    assert_eq!(divide.iter().sum::<u64>(), expected);
}

#[test]
fn perft_test_1() {
    run_perft_test(
        "rnbqkbnr/pppppppp/8/8/8/8/PPPPPPPP/RNBQKBNR w KQkq -",
        &[(1, 20), (2, 400), (3, 8902), (4, 197_281), (5, 4_865_609)],
    );
}

#[test]
fn perft_test_2() {
    run_perft_test(POSITION_2, &[(1, 48), (2, 2039), (3, 97_862), (4, 4_085_603)]);
    check_depth_5_total(POSITION_2, &DIVIDE_2, 193_690_690);
}

#[test]
fn perft_test_3() {
    run_perft_test(
        "8/2p5/3p4/KP5r/1R3p1k/8/4P1P1/8 w - -  ",
        &[(1, 14), (2, 191), (3, 2812), (4, 43_238), (5, 674_624)],
    );
}

#[test]
fn perft_test_4() {
    run_perft_test(
        "r3k2r/Pppp1ppp/1b3nbN/nP6/BBP1P3/q4N2/Pp1P2PP/R2Q1RK1 w kq - 0 1",
        &[(1, 6), (2, 264), (3, 9467), (4, 422_333)],
    );
}

#[test]
fn perft_position_4_depth_5() {
    run_perft_test(
        "r3k2r/Pppp1ppp/1b3nbN/nP6/BBP1P3/q4N2/Pp1P2PP/R2Q1RK1 w kq - 0 1",
        &[(5, 15_833_292)],
    );
}

#[test]
fn perft_test_5() {
    run_perft_test(POSITION_5, &[(1, 44), (2, 1486), (3, 62_379), (4, 2_103_487)]);
    check_depth_5_total(POSITION_5, &DIVIDE_5, 89_941_194);
}

#[test]
fn perft_test_6() {
    run_perft_test(POSITION_6, &[(1, 46), (2, 2079), (3, 89_890), (4, 3_894_594)]);
    check_depth_5_total(POSITION_6, &DIVIDE_6, 164_075_551);
}

#[test]
fn perft_position_2_depth_5_root_moves_0_to_4() {
    check_divide(POSITION_2, 0, &DIVIDE_2[0..5]);
}

#[test]
fn perft_position_2_depth_5_root_moves_5_to_9() {
    check_divide(POSITION_2, 5, &DIVIDE_2[5..10]);
}

#[test]
fn perft_position_2_depth_5_root_moves_10_to_14() {
    check_divide(POSITION_2, 10, &DIVIDE_2[10..15]);
}

#[test]
fn perft_position_2_depth_5_root_moves_15_to_19() {
    check_divide(POSITION_2, 15, &DIVIDE_2[15..20]);
}

#[test]
fn perft_position_2_depth_5_root_moves_20_to_24() {
    check_divide(POSITION_2, 20, &DIVIDE_2[20..25]);
}

#[test]
fn perft_position_2_depth_5_root_moves_25_to_29() {
    check_divide(POSITION_2, 25, &DIVIDE_2[25..30]);
}

#[test]
fn perft_position_2_depth_5_root_moves_30_to_34() {
    check_divide(POSITION_2, 30, &DIVIDE_2[30..35]);
}

#[test]
fn perft_position_2_depth_5_root_moves_35_to_39() {
    check_divide(POSITION_2, 35, &DIVIDE_2[35..40]);
}

#[test]
fn perft_position_2_depth_5_root_moves_40_to_44() {
    check_divide(POSITION_2, 40, &DIVIDE_2[40..45]);
}

#[test]
fn perft_position_2_depth_5_root_moves_45_to_47() {
    check_divide(POSITION_2, 45, &DIVIDE_2[45..48]);
}

#[test]
fn perft_position_5_depth_5_root_moves_0_to_7() {
    check_divide(POSITION_5, 0, &DIVIDE_5[0..8]);
}

#[test]
fn perft_position_5_depth_5_root_moves_8_to_15() {
    check_divide(POSITION_5, 8, &DIVIDE_5[8..16]);
}

#[test]
fn perft_position_5_depth_5_root_moves_16_to_23() {
    check_divide(POSITION_5, 16, &DIVIDE_5[16..24]);
}

#[test]
fn perft_position_5_depth_5_root_moves_24_to_31() {
    check_divide(POSITION_5, 24, &DIVIDE_5[24..32]);
}

#[test]
fn perft_position_5_depth_5_root_moves_32_to_39() {
    check_divide(POSITION_5, 32, &DIVIDE_5[32..40]);
}

#[test]
fn perft_position_5_depth_5_root_moves_40_to_43() {
    check_divide(POSITION_5, 40, &DIVIDE_5[40..44]);
}

#[test]
fn perft_position_6_depth_5_root_moves_0_to_5() {
    check_divide(POSITION_6, 0, &DIVIDE_6[0..6]);
}

#[test]
fn perft_position_6_depth_5_root_moves_6_to_11() {
    check_divide(POSITION_6, 6, &DIVIDE_6[6..12]);
}

#[test]
fn perft_position_6_depth_5_root_moves_12_to_17() {
    check_divide(POSITION_6, 12, &DIVIDE_6[12..18]);
}

#[test]
fn perft_position_6_depth_5_root_moves_18_to_23() {
    check_divide(POSITION_6, 18, &DIVIDE_6[18..24]);
}

#[test]
fn perft_position_6_depth_5_root_moves_24_to_29() {
    check_divide(POSITION_6, 24, &DIVIDE_6[24..30]);
}

#[test]
fn perft_position_6_depth_5_root_moves_30_to_35() {
    check_divide(POSITION_6, 30, &DIVIDE_6[30..36]);
}

#[test]
fn perft_position_6_depth_5_root_moves_36_to_41() {
    check_divide(POSITION_6, 36, &DIVIDE_6[36..42]);
}

#[test]
fn perft_position_6_depth_5_root_moves_42_to_45() {
    check_divide(POSITION_6, 42, &DIVIDE_6[42..46]);
}
