//! Drawing a random set of ucids: initials are drawn from weighted tables of first-name
//! and last-name initials, tallied per pair of initials, and numbered within each pair.
use vstd::prelude::*;
use rand::distributions::{Distribution, WeightedError, WeightedIndex};
use rand::rngs::ThreadRng;
use vstd::string::StringSliceAdditionalSpecFns;
use crate::tally::{
    CELLS, cell_count, count_sum, initial_byte, initial_indices, initial_value, is_tally,
    lemma_ucid_list, tally_draws, ucid_list, ucids_from_tally,
};
use crate::ucid::{is_ucid, ucid_value};

verus! {

/// Number of ucids drawn.
pub const NUMSTUDENTS: u32 = 12000;

/// A weighted table of indices (rand's `WeightedIndex` over `u32` weights), from which
/// indices are drawn at random in proportion to their weights.
#[verifier::external_body]
pub struct WeightedTable {
    dist: WeightedIndex<u32>,
}

#[verifier::external_type_specification]
#[verifier::external_body]
pub struct ExWeightedError(WeightedError);

#[verifier::external_type_specification]
#[verifier::external_body]
pub struct ExThreadRng(ThreadRng);

/// The weights that a weighted table holds, one per index it can draw.
pub uninterp spec fn weights_of(table: WeightedTable) -> Seq<u32>;

/// The sum of a sequence of weights.
pub open spec fn weight_sum(w: Seq<u32>) -> int
    decreases w.len(),
{
    if w.len() == 0 {
        0
    } else {
        weight_sum(w.drop_last()) + w.last()
    }
}

/// `WeightedIndex::new` from rand, kept in a `WeightedTable`. Its source sums the
/// weights in a `u32` (a sum above `u32::MAX` overflows, which this leaves out), fails
/// with `NoItem` on no weights and with `AllWeightsZero` when they sum to 0 (a `u32`
/// weight is never invalid), and otherwise holds the weights given.
#[verifier::external_body]
fn weighted_table(weights: Vec<u32>) -> (r: Result<WeightedTable, WeightedError>)
    requires
        weight_sum(weights@) <= u32::MAX,
    ensures
        r is Ok <==> (weights@.len() > 0 && weight_sum(weights@) > 0),
        r matches Ok(table) ==> weights_of(table) == weights@,
{
    match WeightedIndex::new(weights) {
        Ok(dist) => Ok(WeightedTable { dist }),
        Err(e) => Err(e),
    }
}

/// `Distribution::sample` of rand's `WeightedIndex`: a random index, below the number of
/// weights and with a weight above 0. Which index comes out is left to chance.
#[verifier::external_body]
fn sample_index(table: &WeightedTable, rng: &mut ThreadRng) -> (r: usize)
    ensures
        r < weights_of(*table).len(),
        weights_of(*table)[r as int] > 0,
{
    table.dist.sample(rng)
}

/// `rand::thread_rng`: the thread's random number generator. Nothing is stated of its
/// state; the crate panics if the operating system's random source cannot seed it.
#[verifier::external_body]
fn thread_rng_handle() -> ThreadRng {
    rand::thread_rng()
}

/// The sum of the weights, or `None` when it does not fit in a `u32`.
fn weights_total(w: &Vec<u32>) -> (r: Option<u32>)
    ensures
        match r {
            Some(t) => t == weight_sum(w@),
            None => weight_sum(w@) > u32::MAX,
        },
{
    let mut total: u32 = 0;
    let mut i: usize = 0;
    while i < w.len()
        invariant
            i <= w.len(),
            total == weight_sum(w@.take(i as int)),
        decreases w.len() - i,
    {
        assert(w@.take(i + 1).drop_last() =~= w@.take(i as int));
        match total.checked_add(w[i]) {
            Some(t) => {
                total = t;
            },
            None => {
                proof {
                    lemma_weight_sum_prefix(w@, i + 1);
                }
                return None;
            },
        }
        i = i + 1;
    }
    assert(w@.take(w.len() as int) =~= w@);
    Some(total)
}

/// A prefix of the weights sums to at most the whole.
proof fn lemma_weight_sum_prefix(w: Seq<u32>, k: int)
    requires
        0 <= k <= w.len(),
    ensures
        weight_sum(w.take(k)) <= weight_sum(w),
    decreases w.len() - k,
{
    if k < w.len() {
        lemma_weight_sum_prefix(w, k + 1);
        assert(w.take(k + 1).drop_last() =~= w.take(k));
    } else {
        assert(w.take(k) =~= w);
    }
}

/// The initials of the most common first names, one per name.
pub const FIRST_NAME_INITIALS: &'static str = "meminojeasrscadjakjmjjjnaadvjgjbkstabgwatljechrrjazadabkjnsaakejkgbmgajmsalssspr\
    ctemesjmadejipbhjecjnbakaacglcrdscactavjlmgsjfiklmjapmlmoljmncjkmksvxmamjjngbhcl\
    asejszjdjiaadmhrpacanmjcdsjajbkjcjfemagamemonirsjaaedkcmjsajjsaadgknjjjajgtbwvca\
    betadajleranjabmjkrhzgsakjlacabsgkssjsemeschpjatbrcagllmemneamlesmlbrgnpacjkakjj\
    vdidjaofsmlmxaaciajdjccmnmsrdctjjljvejpgascjmzanpjjajmajgbjmbanaakdaocjkmmkacdga\
    memiraaojsnmcadsjeajjsaadkjmtjjgwgbnjbkecajvjatndaeragrhjazlbkbsgksaeacajjselsjh\
    kmnbjsealjatnlcggsembmarpjlcaradleslsmimcmopjcafvkraiglmjjxctvjknmckmcmmpdjjeajc\
    daajjiamgcpmjnjesjckssczadiknsjemkggjmvamimadejsaorsnacmjmasjjaedajktgjgjbjabakv\
    cjwajgdhantaseesjnbkrajlgezslkjablshnraclmebajkmealagmcsbjnrjmsrigekaljmvaamcmjm\
    oasjatlgnsxpcedfpjlkcdrdpkivjjmaccanjjjcajcjjsgctiajhkcmnadmjmmmjasaizjaeaedkcme";

/// How common each of those first names is, in the same order.
pub const FIRST_NAME_WEIGHTS: [u32; 800] = [
        1340, 818, 1226, 564, 1030, 563, 925, 540, 887, 508, 878, 502, 858, 498, 852, 471, 758, 470, 695, 439,
        664, 434, 656, 403, 588, 394, 583, 392, 556, 379, 514, 375, 512, 361, 507, 359, 499, 352, 497, 324,
        496, 324, 461, 322, 452, 314, 443, 312, 433, 277, 431, 275, 428, 275, 423, 270, 415, 253, 415, 251,
        399, 250, 349, 249, 336, 248, 332, 238, 297, 237, 280, 236, 280, 235, 264, 231, 256, 206, 254, 203,
        246, 201, 240, 196, 240, 186, 237, 183, 235, 181, 234, 181, 214, 180, 210, 171, 208, 170, 204, 169,
        202, 167, 199, 162, 195, 158, 194, 157, 193, 156, 192, 156, 190, 154, 189, 152, 189, 151, 189, 151,
        178, 150, 173, 150, 169, 147, 164, 145, 164, 145, 162, 137, 161, 137, 159, 135, 159, 134, 156, 133,
        155, 123, 153, 119, 153, 119, 150, 118, 149, 117, 148, 112, 148, 111, 143, 109, 142, 109, 141, 109,
        134, 107, 134, 107, 133, 106, 127, 105, 126, 104, 126, 104, 126, 104, 126, 104, 126, 103, 120, 103,
        111, 103, 110, 101, 109, 100, 108, 99, 107, 99, 106, 96, 104, 96, 103, 95, 103, 92, 102, 90,
        1217, 780, 1092, 569, 987, 564, 939, 555, 931, 539, 810, 508, 805, 482, 799, 480, 678, 461, 658, 427,
        642, 420, 607, 376, 579, 371, 539, 366, 536, 363, 527, 357, 501, 351, 501, 346, 498, 331, 496, 314,
        474, 296, 467, 285, 424, 285, 420, 278, 409, 270, 403, 256, 388, 248, 382, 246, 380, 243, 370, 240,
        366, 238, 356, 236, 318, 222, 313, 217, 311, 215, 305, 212, 283, 201, 283, 198, 265, 198, 255, 185,
        242, 185, 236, 184, 236, 184, 233, 180, 228, 178, 219, 177, 216, 176, 216, 175, 214, 174, 210, 171,
        209, 165, 207, 160, 201, 160, 200, 156, 199, 154, 198, 154, 197, 151, 193, 149, 188, 144, 187, 143,
        184, 142, 180, 140, 179, 138, 176, 138, 166, 138, 165, 137, 163, 134, 156, 133, 155, 132, 155, 132,
        155, 131, 153, 128, 153, 127, 150, 125, 142, 123, 141, 119, 137, 119, 137, 116, 134, 112, 134, 111,
        133, 108, 132, 106, 131, 106, 125, 105, 123, 104, 119, 103, 118, 103, 114, 102, 113, 101, 111, 100,
        107, 99, 107, 99, 105, 99, 105, 97, 104, 95, 103, 95, 103, 93, 99, 89, 98, 89, 98, 88,
        1085, 702, 972, 559, 920, 548, 866, 503, 852, 493, 817, 491, 782, 476, 760, 471, 690, 463, 638, 429,
        630, 410, 609, 374, 557, 362, 521, 344, 519, 343, 489, 342, 484, 340, 477, 300, 473, 298, 458, 283,
        445, 280, 440, 278, 432, 277, 427, 277, 424, 272, 408, 272, 374, 266, 361, 251, 342, 248, 328, 235,
        325, 230, 324, 227, 321, 224, 319, 218, 305, 206, 283, 206, 279, 193, 275, 183, 267, 179, 258, 176,
        255, 170, 248, 168, 238, 168, 236, 166, 232, 164, 222, 164, 218, 160, 211, 158, 211, 158, 209, 153,
        208, 151, 207, 148, 207, 147, 203, 146, 199, 145, 195, 143, 193, 143, 192, 143, 190, 142, 187, 138,
        183, 137, 182, 137, 181, 132, 174, 132, 164, 130, 162, 127, 161, 123, 160, 122, 156, 120, 154, 119,
        149, 119, 147, 118, 146, 118, 145, 117, 143, 111, 140, 110, 139, 108, 137, 108, 133, 106, 133, 104,
        132, 102, 131, 100, 131, 99, 127, 99, 126, 96, 124, 96, 121, 94, 119, 91, 119, 91, 115, 91,
        115, 91, 114, 91, 112, 89, 112, 89, 111, 89, 109, 88, 108, 88, 105, 87, 105, 87, 104, 86,
        1029, 652, 901, 640, 794, 618, 789, 494, 783, 481, 752, 466, 749, 450, 723, 440, 649, 410, 607, 410,
        569, 409, 554, 408, 502, 382, 477, 377, 466, 359, 464, 335, 453, 327, 452, 285, 444, 285, 429, 283,
        422, 264, 422, 260, 420, 260, 415, 255, 406, 251, 394, 241, 361, 236, 351, 236, 346, 234, 344, 233,
        335, 220, 329, 219, 304, 217, 301, 213, 300, 204, 294, 197, 291, 196, 286, 195, 277, 187, 268, 181,
        260, 178, 258, 167, 257, 167, 247, 166, 242, 162, 239, 161, 234, 158, 232, 158, 227, 156, 222, 156,
        216, 154, 216, 150, 211, 143, 203, 143, 201, 143, 200, 141, 194, 139, 193, 139, 190, 138, 190, 136,
        190, 134, 187, 134, 178, 134, 178, 133, 178, 130, 176, 125, 175, 117, 174, 118, 174, 114, 171, 114,
        167, 113, 162, 112, 148, 112, 145, 112, 144, 111, 144, 109, 143, 109, 141, 109, 139, 108, 137, 105,
        136, 105, 135, 105, 134, 103, 130, 102, 124, 99, 123, 96, 122, 96, 119, 96, 119, 95, 118, 95,
        113, 95, 113, 95, 112, 93, 112, 92, 111, 92, 108, 91, 105, 91, 105, 91, 103, 89, 100, 88,
    ];

/// The initials of the most common last names, one per name.
pub const LAST_NAME_INITIALS: &'static str = "svplbcbklnmsrlmcgkskphdsmltdhcldwhmmcjchtbbdsmrnszlhmbhcdrmfswmpsfmmwhmpcscksssa\
    omjaflpnhfmdkghhhpcimdhzcmgpmmfmcwmrjgqrpirmjwmpnwrdcnearraclitfmhlnsgfwpmpscmfb\
    lnsjarhccmhgvbeyscwmjaesabkwgcldtbbhrgngcbdhcbmtcndhbbsvynsbrmggmbmhnaskvfkcmysf\
    rvecptlgpgwkhjnlbascghaohesmfpbvbgtdgabcjkcmcwzdmppbpmdiwdtcdewohkmvgcplmffhrskm\
    dmmaphcpccmdhacarjodpcmthmccsbcfvbddcocapmwiardbgbchhamtvpprhfmpscncllpcccdmlbsk\
    dmcmbmcraybbsmrblalpbhcbhcsmembowgwzcschbrlmrtvshfkcgsgfrevgtmgcltfkmmsrfgqbbfmm\
    ofkmpmasrdkrmdbwsswmcbhdnmlhbdbmspmapcmlmpccackjmtccwcfcjcknghbrdsswclvasiimcdbg\
    wcslashgohpmbwmdmlfmmmlggnnesbthbbsdhdabgchamgmembmrtscvbccrnarlgmdwdabfaffeokhc\
    clddwwfsplglmdwfcjsgektmakrabamgnrmssnbybsfwwepidkhkkebrloescclghfbhkymsmlqgmffl\
    dhsdshhmfphcblbpmrfbsvdlrsvdmgjwcwlcmbkdcqytcmrhafpgdmvrvhcgfmccamfrrscndkgeamss\
    lgrebnpbfpwabdwhrpoldefcvtpswrlvmcmwaspaphpbavbbpddahshgpsdcgdbdhtlnygrtbtbdaero\
    smcmirrmxplrmjrrhrhgbrcfkmshramlwhmlmcbbscsfmwomuhmmbmhrmmpgmkvebdmadtamkschkbsd\
    fmtmgblwabbafalddbbhdgcowmdrtbbtpdcddwep";

/// How common each of those last names is, in the same order.
pub const LAST_NAME_WEIGHTS: [u32; 1000] = [
        10935, 1174, 770, 603, 10077, 1173, 769, 602, 9803, 1173, 769, 602, 9803, 1173, 769, 601, 9152, 1168, 767, 601,
        6422, 1165, 764, 601, 6394, 1163, 764, 600, 6123, 1159, 764, 600, 5825, 1153, 763, 600, 5603, 1149, 763, 600,
        5127, 1148, 762, 600, 5023, 1147, 761, 5999, 4971, 1145, 761, 599, 4902, 1144, 760, 599, 4745, 1143, 756, 598,
        4651, 1143, 756, 598, 4569, 1139, 756, 597, 4030, 1137, 755, 597, 3980, 1133, 755, 597, 3942, 1132, 755, 596,
        3915, 1131, 755, 596, 3909, 1129, 754, 596, 3795, 1129, 754, 596, 3664, 1129, 754, 596, 3660, 1123, 754, 595,
        3628, 1122, 750, 594, 3596, 1119, 750, 594, 3548, 1117, 750, 593, 3537, 1116, 749, 592, 3499, 1116, 749, 591,
        3436, 1115, 746, 590, 3370, 1110, 746, 589, 3232, 1102, 746, 589, 3206, 1100, 745, 589, 3098, 1099, 745, 589,
        3034, 1094, 744, 589, 3020, 1093, 744, 588, 2988, 1092, 742, 587, 2987, 1087, 742, 587, 2917, 1079, 741, 587,
        2902, 1067, 741, 586, 2882, 1065, 741, 585, 2819, 1064, 740, 584, 2814, 1063, 739, 584, 2788, 1062, 739, 583,
        2788, 1061, 737, 583, 2779, 1059, 737, 5582, 2775, 1054, 735, 581, 2774, 1054, 734, 579, 2763, 1053, 733, 578,
        2722, 1046, 733, 577, 2707, 1045, 732, 577, 2684, 1045, 732, 577, 2622, 1042, 732, 577, 2618, 1042, 731, 576,
        2540, 1042, 731, 575, 2540, 1042, 729, 575, 2516, 1041, 729, 575, 2512, 1041, 729, 575, 2486, 1040, 727, 574,
        2422, 1039, 727, 573, 2421, 1036, 726, 572, 2421, 1033, 725, 572, 2413, 1033, 725, 572, 2392, 1032, 723, 571,
        2391, 1031, 722, 571, 2379, 1030, 720, 571, 2367, 1028, 719, 570, 2363, 1026, 719, 570, 2355, 1025, 718, 570,
        2336, 1023, 716, 569, 2331, 1023, 716, 569, 2322, 1021, 716, 569, 2296, 1020, 715, 568, 2295, 1019, 714, 567,
        2285, 1019, 714, 566, 2281, 1018, 713, 566, 2277, 1014, 712, 564, 2277, 1014, 712, 564, 2261, 1004, 712, 564,
        2258, 1002, 709, 564, 2228, 1001, 708, 563, 2104, 997, 708, 563, 2102, 995, 706, 562, 2096, 991, 704, 561,
        2086, 991, 703, 561, 2084, 989, 702, 561, 2082, 989, 702, 561, 2081, 988, 702, 561, 2073, 987, 700, 559,
        2069, 986, 699, 559, 2064, 984, 698, 559, 2035, 971, 698, 559, 2033, 969, 698, 558, 2010, 968, 697, 558,
        1998, 966, 693, 558, 1992, 964, 692, 556, 1947, 962, 692, 555, 1930, 961, 692, 555, 1922, 957, 692, 555,
        1921, 1921, 1920, 1911, 1892, 1859, 1848, 1846, 1833, 1828, 1827, 1823, 1814, 1796, 1792, 1764, 1761, 1754, 1752, 1743,
        955, 955, 953, 953, 949, 948, 948, 947, 943, 942, 941, 941, 941, 940, 937, 935, 933, 931, 931, 923,
        690, 690, 689, 689, 688, 687, 686, 685, 684, 684, 684, 683, 683, 681, 680, 680, 680, 679, 679, 679,
        554, 554, 554, 554, 553, 553, 553, 553, 553, 551, 550, 550, 549, 547, 547, 546, 546, 546, 545, 544,
        1738, 1706, 1704, 1702, 1701, 1697, 1686, 1678, 1668, 1660, 1660, 1652, 1643, 1624, 1620, 1620, 1614, 1614, 1608, 1603,
        923, 921, 917, 913, 911, 910, 910, 908, 907, 904, 903, 902, 902, 902, 901, 896, 894, 893, 893, 891,
        678, 677, 676, 675, 674, 674, 674, 671, 669, 667, 666, 666, 666, 665, 665, 664, 664, 664, 664, 663,
        544, 544, 544, 543, 543, 542, 541, 541, 541, 541, 540, 540, 539, 539, 539, 539, 538, 537, 537, 536,
        1602, 1596, 1584, 1582, 1581, 1573, 1567, 1559, 1559, 1555, 1544, 1535, 1533, 1533, 1525, 1524, 1517, 1516, 1515, 1514,
        889, 889, 887, 885, 884, 884, 883, 881, 880, 880, 878, 878, 877, 875, 875, 875, 875, 875, 874, 874,
        662, 662, 661, 658, 658, 658, 657, 656, 656, 655, 655, 654, 653, 653, 653, 652, 652, 652, 651, 650,
        536, 534, 534, 533, 533, 533, 532, 532, 531, 531, 531, 531, 531, 530, 530, 529, 528, 528, 528, 527,
        1496, 1495, 1495, 1494, 1493, 1472, 1468, 1464, 1455, 1455, 1453, 1437, 1435, 1434, 1428, 1426, 1410, 1405, 1405, 1403,
        873, 873, 872, 871, 870, 869, 869, 869, 868, 865, 865, 865, 864, 863, 863, 861, 859, 859, 858, 857,
        648, 647, 646, 646, 646, 646, 645, 645, 643, 643, 642, 642, 641, 641, 641, 641, 639, 639, 639, 638,
        527, 527, 527, 527, 526, 526, 525, 525, 524, 524, 524, 523, 523, 522, 522, 522, 522, 521, 520, 520,
        1401, 1398, 1395, 1395, 1391, 1391, 1384, 1383, 1380, 1377, 1377, 1369, 1367, 1363, 1363, 1354, 1350, 1350, 1348, 1345,
        856, 856, 856, 855, 855, 853, 853, 848, 848, 847, 847, 846, 845, 843, 840, 839, 836, 836, 834, 834,
        638, 637, 636, 635, 635, 634, 634, 632, 631, 630, 630, 630, 630, 630, 630, 629, 628, 627, 626, 626,
        520, 520, 519, 519, 518, 517, 517, 517, 517, 517, 516, 516, 516, 516, 515, 515, 514, 513, 513, 513,
        1341, 1335, 1330, 1327, 1325, 1324, 1319, 1316, 1303, 1303, 1303, 1300, 1294, 1291, 1284, 1283, 1279, 1276, 1273, 1270,
        834, 834, 831, 831, 829, 829, 827, 827, 824, 824, 823, 820, 814, 814, 812, 812, 812, 808, 808, 808,
        626, 626, 626, 624, 623, 623, 623, 623, 623, 623, 622, 622, 621, 621, 621, 620, 620, 620, 619, 618,
        513, 513, 513, 512, 512, 512, 512, 512, 511, 511, 511, 510, 510, 510, 510, 510, 510, 509, 509, 508,
        1270, 1261, 1260, 1258, 1256, 1255, 1244, 1244, 1241, 1240, 1238, 1235, 1233, 1228, 1224, 1222, 1218, 1207, 1204, 1203,
        806, 806, 805, 801, 800, 799, 799, 798, 796, 794, 794, 790, 786, 786, 785, 784, 783, 783, 783, 781,
        618, 617, 617, 617, 615, 615, 614, 614, 614, 614, 613, 613, 612, 612, 611, 611, 611, 611, 610, 609,
        508, 507, 506, 504, 504, 503, 503, 502, 502, 501, 501, 500, 500, 500, 500, 499, 499, 499, 499, 499,
        1202, 1197, 1196, 1194, 1192, 1191, 1183, 1181, 1177, 1174, 781, 780, 780, 779, 778, 778, 777, 777, 776, 771,
        608, 608, 608, 607, 607, 607, 607, 606, 604, 604, 498, 498, 498, 498, 497, 496, 496, 495, 495, 494,
    ];

/// Largest weight in either table.
pub const MAX_WEIGHT: u32 = 11000;

/// A lowercase ASCII letter.
pub open spec fn lowercase(c: char) -> bool {
    'a' <= c && c <= 'z'
}

/// Every weight is at least 1 and at most `MAX_WEIGHT`.
pub open spec fn weights_in_range(w: Seq<u32>) -> bool {
    forall|i: int| 0 <= i < w.len() ==> 1 <= #[trigger] w[i] <= MAX_WEIGHT
}

/// The first-name initials: 800 lowercase letters.
pub proof fn lemma_first_name_initials()
    ensures
        FIRST_NAME_INITIALS@.len() == 800,
        forall|i: int| 0 <= i < 800 ==> lowercase(#[trigger] FIRST_NAME_INITIALS@[i]),
{
    reveal_strlit("meminojeasrscadjakjmjjjnaadvjgjbkstabgwatljechrrjazadabkjnsaakejkgbmgajmsalssspr\
        ctemesjmadejipbhjecjnbakaacglcrdscactavjlmgsjfiklmjapmlmoljmncjkmksvxmamjjngbhcl\
        asejszjdjiaadmhrpacanmjcdsjajbkjcjfemagamemonirsjaaedkcmjsajjsaadgknjjjajgtbwvca\
        betadajleranjabmjkrhzgsakjlacabsgkssjsemeschpjatbrcagllmemneamlesmlbrgnpacjkakjj\
        vdidjaofsmlmxaaciajdjccmnmsrdctjjljvejpgascjmzanpjjajmajgbjmbanaakdaocjkmmkacdga\
        memiraaojsnmcadsjeajjsaadkjmtjjgwgbnjbkecajvjatndaeragrhjazlbkbsgksaeacajjselsjh\
        kmnbjsealjatnlcggsembmarpjlcaradleslsmimcmopjcafvkraiglmjjxctvjknmckmcmmpdjjeajc\
        daajjiamgcpmjnjesjckssczadiknsjemkggjmvamimadejsaorsnacmjmasjjaedajktgjgjbjabakv\
        cjwajgdhantaseesjnbkrajlgezslkjablshnraclmebajkmealagmcsbjnrjmsrigekaljmvaamcmjm\
        oasjatlgnsxpcedfpjlkcdrdpkivjjmaccanjjjcajcjjsgctiajhkcmnadmjmmmjasaizjaeaedkcme");
}

/// The last-name initials: 1000 lowercase letters.
pub proof fn lemma_last_name_initials()
    ensures
        LAST_NAME_INITIALS@.len() == 1000,
        forall|i: int| 0 <= i < 1000 ==> lowercase(#[trigger] LAST_NAME_INITIALS@[i]),
{
    reveal_strlit("svplbcbklnmsrlmcgkskphdsmltdhcldwhmmcjchtbbdsmrnszlhmbhcdrmfswmpsfmmwhmpcscksssa\
        omjaflpnhfmdkghhhpcimdhzcmgpmmfmcwmrjgqrpirmjwmpnwrdcnearraclitfmhlnsgfwpmpscmfb\
        lnsjarhccmhgvbeyscwmjaesabkwgcldtbbhrgngcbdhcbmtcndhbbsvynsbrmggmbmhnaskvfkcmysf\
        rvecptlgpgwkhjnlbascghaohesmfpbvbgtdgabcjkcmcwzdmppbpmdiwdtcdewohkmvgcplmffhrskm\
        dmmaphcpccmdhacarjodpcmthmccsbcfvbddcocapmwiardbgbchhamtvpprhfmpscncllpcccdmlbsk\
        dmcmbmcraybbsmrblalpbhcbhcsmembowgwzcschbrlmrtvshfkcgsgfrevgtmgcltfkmmsrfgqbbfmm\
        ofkmpmasrdkrmdbwsswmcbhdnmlhbdbmspmapcmlmpccackjmtccwcfcjcknghbrdsswclvasiimcdbg\
        wcslashgohpmbwmdmlfmmmlggnnesbthbbsdhdabgchamgmembmrtscvbccrnarlgmdwdabfaffeokhc\
        clddwwfsplglmdwfcjsgektmakrabamgnrmssnbybsfwwepidkhkkebrloescclghfbhkymsmlqgmffl\
        dhsdshhmfphcblbpmrfbsvdlrsvdmgjwcwlcmbkdcqytcmrhafpgdmvrvhcgfmccamfrrscndkgeamss\
        lgrebnpbfpwabdwhrpoldefcvtpswrlvmcmwaspaphpbavbbpddahshgpsdcgdbdhtlnygrtbtbdaero\
        smcmirrmxplrmjrrhrhgbrcfkmshramlwhmlmcbbscsfmwomuhmmbmhrmmpgmkvebdmadtamkschkbsd\
        fmtmgblwabbafalddbbhdgcowmdrtbbtpdcddwep");
}

/// The first-name weights: 800 of them, each from 1 to `MAX_WEIGHT`.
pub proof fn lemma_first_name_weights()
    ensures
        FIRST_NAME_WEIGHTS@.len() == 800,
        weights_in_range(FIRST_NAME_WEIGHTS@),
{
}

/// The last-name weights: 1000 of them, each from 1 to `MAX_WEIGHT`.
pub proof fn lemma_last_name_weights()
    ensures
        LAST_NAME_WEIGHTS@.len() == 1000,
        weights_in_range(LAST_NAME_WEIGHTS@),
{
}

/// The initials of the most common first names, one per name.
fn first_name_initials() -> (r: &'static str)
    ensures
        r@ == FIRST_NAME_INITIALS@,
{
    FIRST_NAME_INITIALS
}

/// How common each of those first names is, in the same order.
fn first_name_weights() -> (r: Vec<u32>)
    ensures
        r@ == FIRST_NAME_WEIGHTS@,
{
    vstd::slice::slice_to_vec(FIRST_NAME_WEIGHTS.as_slice())
}

/// The initials of the most common last names, one per name.
fn last_name_initials() -> (r: &'static str)
    ensures
        r@ == LAST_NAME_INITIALS@,
{
    LAST_NAME_INITIALS
}

/// How common each of those last names is, in the same order.
fn last_name_weights() -> (r: Vec<u32>)
    ensures
        r@ == LAST_NAME_WEIGHTS@,
{
    vstd::slice::slice_to_vec(LAST_NAME_WEIGHTS.as_slice())
}

/// Draws `n` pairs of indices, in turn one from `first` and one from `last`: every first
/// draw is an index of `first` with a weight above 0, and every last draw one of `last`.
fn draw_pairs(first: &WeightedTable, last: &WeightedTable, rng: &mut ThreadRng, n: u32) -> (r: (
    Vec<usize>,
    Vec<usize>,
))
    ensures
        r.0@.len() == n,
        r.1@.len() == n,
        forall|k: int|
            0 <= k < n ==> {
                &&& #[trigger] r.0@[k] < weights_of(*first).len()
                &&& weights_of(*first)[r.0@[k] as int] > 0
                &&& r.1@[k] < weights_of(*last).len()
                &&& weights_of(*last)[r.1@[k] as int] > 0
            },
{
    let mut first_draws: Vec<usize> = Vec::new();
    let mut last_draws: Vec<usize> = Vec::new();
    let mut drawn: u32 = 0;
    while drawn < n
        invariant
            drawn <= n,
            first_draws@.len() == drawn,
            last_draws@.len() == drawn,
            forall|k: int|
                0 <= k < drawn ==> {
                    &&& #[trigger] first_draws@[k] < weights_of(*first).len()
                    &&& weights_of(*first)[first_draws@[k] as int] > 0
                    &&& last_draws@[k] < weights_of(*last).len()
                    &&& weights_of(*last)[last_draws@[k] as int] > 0
                },
        decreases n - drawn,
    {
        let f = sample_index(first, rng);
        let l = sample_index(last, rng);
        first_draws.push(f);
        last_draws.push(l);
        drawn = drawn + 1;
    }
    (first_draws, last_draws)
}

/// The letter indices of a table of initials (see `initial_value`).
pub open spec fn name_letters(s: Seq<char>) -> Seq<u32> {
    Seq::new(s.len(), |i: int| initial_value(s[i] as u8) as u32)
}

/// `counts` tallies the pairs of initials of the draws `first_draws` and `last_draws`
/// (`NUMSTUDENTS` of each) from the name tables, each draw an index whose weight is
/// above 0.
pub open spec fn tally_of_draws(
    counts: Seq<u32>,
    first_draws: Seq<usize>,
    last_draws: Seq<usize>,
) -> bool {
    &&& first_draws.len() == NUMSTUDENTS
    &&& last_draws.len() == NUMSTUDENTS
    &&& forall|k: int|
        0 <= k < NUMSTUDENTS ==> {
            &&& #[trigger] first_draws[k] < FIRST_NAME_WEIGHTS@.len()
            &&& FIRST_NAME_WEIGHTS@[first_draws[k] as int] > 0
            &&& last_draws[k] < LAST_NAME_WEIGHTS@.len()
            &&& LAST_NAME_WEIGHTS@[last_draws[k] as int] > 0
        }
    &&& counts.len() == CELLS
    &&& count_sum(counts, CELLS as int) == NUMSTUDENTS
    &&& forall|c: int|
        0 <= c < CELLS ==> #[trigger] counts[c] == cell_count(
            name_letters(FIRST_NAME_INITIALS@),
            name_letters(LAST_NAME_INITIALS@),
            first_draws,
            last_draws,
            NUMSTUDENTS as int,
            c,
        )
}

/// A string of lowercase letters is ASCII: its bytes are its letters, one each.
proof fn lemma_lowercase_bytes(s: &str)
    requires
        forall|i: int| 0 <= i < s@.len() ==> lowercase(#[trigger] s@[i]),
    ensures
        s.spec_bytes().len() == s@.len(),
        forall|i: int|
            0 <= i < s@.len() ==> #[trigger] s.spec_bytes()[i] == s@[i] as u8 && initial_byte(
                s.spec_bytes()[i],
            ),
{
    assert(vstd::string::is_ascii(s)) by {
        assert forall|i: int| 0 <= i < s@.len() implies '\0' <= #[trigger] s@[i] <= '\u{7f}' by {
            assert(lowercase(s@[i]));
        }
    }
    vstd::string::is_ascii_spec_bytes(s);
    assert forall|i: int| 0 <= i < s@.len() implies #[trigger] s.spec_bytes()[i] == s@[i] as u8
        && initial_byte(s.spec_bytes()[i]) by {
        assert(lowercase(s@[i]));
    }
}

/// Weights each from 1 to `MAX_WEIGHT` sum to at least their number and at most
/// `MAX_WEIGHT` times it.
proof fn lemma_weight_sum_range(w: Seq<u32>)
    requires
        weights_in_range(w),
    ensures
        w.len() <= weight_sum(w) <= MAX_WEIGHT * w.len(),
    decreases w.len(),
{
    if w.len() > 0 {
        assert(weights_in_range(w.drop_last())) by {
            assert forall|i: int| 0 <= i < w.drop_last().len() implies 1 <= #[trigger] w.drop_last()[i] <= MAX_WEIGHT by {
                assert(w.drop_last()[i] == w[i]);
            }
        }
        lemma_weight_sum_range(w.drop_last());
        assert(1 <= w.last() <= MAX_WEIGHT);
    }
}

/// Draws `NUMSTUDENTS` pairs of initials (a first-name initial and a last-name initial,
/// each from its weighted table, in turn), tallies them, and numbers the ucids within each
/// pair from 1 (see `ucids_from_tally`). `None` exactly where a pair is drawn more than
/// `MAX_SERIAL` times.
pub fn gen_ucids() -> (r: Option<Vec<String>>)
    ensures
        match r {
            Some(v) => {
                &&& v@.len() == NUMSTUDENTS
                &&& v.deep_view().no_duplicates()
                &&& forall|k: int| 0 <= k < v@.len() ==> is_ucid(#[trigger] v.deep_view()[k])
                &&& forall|i: int, j: int|
                    0 <= i < v@.len() && 0 <= j < v@.len() && i != j ==> ucid_value(
                        #[trigger] v.deep_view()[i],
                    ) != ucid_value(#[trigger] v.deep_view()[j])
                &&& exists|counts: Seq<u32>, first_draws: Seq<usize>, last_draws: Seq<usize>|
                    {
                        &&& #[trigger] tally_of_draws(counts, first_draws, last_draws)
                        &&& is_tally(counts)
                        &&& v.deep_view() == ucid_list(counts, CELLS as int)
                    }
            },
            None => exists|counts: Seq<u32>, first_draws: Seq<usize>, last_draws: Seq<usize>|
                {
                    &&& #[trigger] tally_of_draws(counts, first_draws, last_draws)
                    &&& !is_tally(counts)
                },
        },
{
    proof {
        lemma_first_name_initials();
        lemma_last_name_initials();
        lemma_first_name_weights();
        lemma_last_name_weights();
        lemma_weight_sum_range(FIRST_NAME_WEIGHTS@);
        lemma_weight_sum_range(LAST_NAME_WEIGHTS@);
        lemma_lowercase_bytes(FIRST_NAME_INITIALS);
        lemma_lowercase_bytes(LAST_NAME_INITIALS);
    }
    let first_bytes = first_name_initials().as_bytes();
    let last_bytes = last_name_initials().as_bytes();
    let firstnames = match initial_indices(first_bytes) {
        Some(v) => v,
        None => {
            return None;
        },
    };
    let lastnames = match initial_indices(last_bytes) {
        Some(v) => v,
        None => {
            return None;
        },
    };
    assert(firstnames@ =~= name_letters(FIRST_NAME_INITIALS@));
    assert(lastnames@ =~= name_letters(LAST_NAME_INITIALS@));
    let first_weights = first_name_weights();
    let last_weights = last_name_weights();
    if weights_total(&first_weights).is_none() || weights_total(&last_weights).is_none() {
        return None;
    }
    let first_dist = match weighted_table(first_weights) {
        Ok(d) => d,
        Err(_) => {
            return None;
        },
    };
    let last_dist = match weighted_table(last_weights) {
        Ok(d) => d,
        Err(_) => {
            return None;
        },
    };
    let mut rng = thread_rng_handle();
    let (first_draws, last_draws) = draw_pairs(&first_dist, &last_dist, &mut rng, NUMSTUDENTS);
    let counts = match tally_draws(&firstnames, &lastnames, &first_draws, &last_draws) {
        Some(c) => c,
        None => {
            return None;
        },
    };
    assert(tally_of_draws(counts@, first_draws@, last_draws@));
    let r = ucids_from_tally(&counts);
    proof {
        if r is Some {
            lemma_ucid_list(counts@, CELLS as int);
        }
    }
    r
}

} // verus!
