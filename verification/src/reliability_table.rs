//! The published reliability order of the positions of polar codes up to
//! length 1024, and the weights that extend it.

use vstd::arithmetic::power2::{lemma2_to64, pow2};
use vstd::prelude::*;

verus! {

/// Positions of a code of length 1024, the least reliable first.
pub const RELIABILITY_SEQ: [u16; 1024] = [
    0, 1, 2, 4, 8, 16, 32, 3, 5, 64, 9, 6, 17, 10, 18, 128, 12, 33, 65, 20, 256, 34, 24, 36, 7,
    129, 66, 512, 11, 40, 68, 130, 19, 13, 48, 14, 72, 257, 21, 132, 35, 258, 26, 513, 80, 37, 25,
    22, 136, 260, 264, 38, 514, 96, 67, 41, 144, 28, 69, 42, 516, 49, 74, 272, 160, 520, 288, 528,
    192, 544, 70, 44, 131, 81, 50, 73, 15, 320, 133, 52, 23, 134, 384, 76, 137, 82, 56, 27, 97, 39,
    259, 84, 138, 145, 261, 29, 43, 98, 515, 88, 140, 30, 146, 71, 262, 265, 161, 576, 45, 100,
    640, 51, 148, 46, 75, 266, 273, 517, 104, 162, 53, 193, 152, 77, 164, 768, 268, 274, 518, 54,
    83, 57, 521, 112, 135, 78, 289, 194, 85, 276, 522, 58, 168, 139, 99, 86, 60, 280, 89, 290, 529,
    524, 196, 141, 101, 147, 176, 142, 530, 321, 31, 200, 90, 545, 292, 322, 532, 263, 149, 102,
    105, 304, 296, 163, 92, 47, 267, 385, 546, 324, 208, 386, 150, 153, 165, 106, 55, 328, 536,
    577, 548, 113, 154, 79, 269, 108, 578, 224, 166, 519, 552, 195, 270, 641, 523, 275, 580, 291,
    59, 169, 560, 114, 277, 156, 87, 197, 116, 170, 61, 531, 525, 642, 281, 278, 526, 177, 293,
    388, 91, 584, 769, 198, 172, 120, 201, 336, 62, 282, 143, 103, 178, 294, 93, 644, 202, 592,
    323, 392, 297, 770, 107, 180, 151, 209, 284, 648, 94, 204, 298, 400, 608, 352, 325, 533, 155,
    210, 305, 547, 300, 109, 184, 534, 537, 115, 167, 225, 326, 306, 772, 157, 656, 329, 110, 117,
    212, 171, 776, 330, 226, 549, 538, 387, 308, 216, 416, 271, 279, 158, 337, 550, 672, 118, 332,
    579, 540, 389, 173, 121, 553, 199, 784, 179, 228, 338, 312, 704, 390, 174, 554, 581, 393, 283,
    122, 448, 353, 561, 203, 63, 340, 394, 527, 582, 556, 181, 295, 285, 232, 124, 205, 182, 643,
    562, 286, 585, 299, 354, 211, 401, 185, 396, 344, 586, 645, 593, 535, 240, 206, 95, 327, 564,
    800, 402, 356, 307, 301, 417, 213, 568, 832, 588, 186, 646, 404, 227, 896, 594, 418, 302, 649,
    771, 360, 539, 111, 331, 214, 309, 188, 449, 217, 408, 609, 596, 551, 650, 229, 159, 420, 310,
    541, 773, 610, 657, 333, 119, 600, 339, 218, 368, 652, 230, 391, 313, 450, 542, 334, 233, 555,
    774, 175, 123, 658, 612, 341, 777, 220, 314, 424, 395, 673, 583, 355, 287, 183, 234, 125, 557,
    660, 616, 342, 316, 241, 778, 563, 345, 452, 397, 403, 207, 674, 558, 785, 432, 357, 187, 236,
    664, 624, 587, 780, 705, 126, 242, 565, 398, 346, 456, 358, 405, 303, 569, 244, 595, 189, 566,
    676, 361, 706, 589, 215, 786, 647, 348, 419, 406, 464, 680, 801, 362, 590, 409, 570, 788, 597,
    572, 219, 311, 708, 598, 601, 651, 421, 792, 802, 611, 602, 410, 231, 688, 653, 248, 369, 190,
    364, 654, 659, 335, 480, 315, 221, 370, 613, 422, 425, 451, 614, 543, 235, 412, 343, 372, 775,
    317, 222, 426, 453, 237, 559, 833, 804, 712, 834, 661, 808, 779, 617, 604, 433, 720, 816, 836,
    347, 897, 243, 662, 454, 318, 675, 618, 898, 781, 376, 428, 665, 736, 567, 840, 625, 238, 359,
    457, 399, 787, 591, 678, 434, 677, 349, 245, 458, 666, 620, 363, 127, 191, 782, 407, 436, 626,
    571, 465, 681, 246, 707, 350, 599, 668, 790, 460, 249, 682, 573, 411, 803, 789, 709, 365, 440,
    628, 689, 374, 423, 466, 793, 250, 371, 481, 574, 413, 603, 366, 468, 655, 900, 805, 615, 684,
    710, 429, 794, 252, 373, 605, 848, 690, 713, 632, 482, 806, 427, 904, 414, 223, 663, 692, 835,
    619, 472, 455, 796, 809, 714, 721, 837, 716, 864, 810, 606, 912, 722, 696, 377, 435, 817, 319,
    621, 812, 484, 430, 838, 667, 488, 239, 378, 459, 622, 627, 437, 380, 818, 461, 496, 669, 679,
    724, 841, 629, 351, 467, 438, 737, 251, 462, 442, 441, 469, 247, 683, 842, 738, 899, 670, 783,
    849, 820, 728, 928, 791, 367, 901, 630, 685, 844, 633, 711, 253, 691, 824, 902, 686, 740, 850,
    375, 444, 470, 483, 415, 485, 905, 795, 473, 634, 744, 852, 960, 865, 693, 797, 906, 715, 807,
    474, 636, 694, 254, 717, 575, 913, 798, 811, 379, 697, 431, 607, 489, 866, 723, 486, 908, 718,
    813, 476, 856, 839, 725, 698, 914, 752, 868, 819, 814, 439, 929, 490, 623, 671, 739, 916, 463,
    843, 381, 497, 930, 821, 726, 961, 872, 492, 631, 729, 700, 443, 741, 845, 920, 382, 822, 851,
    730, 498, 880, 742, 445, 471, 635, 932, 687, 903, 825, 500, 846, 745, 826, 732, 446, 962, 936,
    475, 853, 867, 637, 907, 487, 695, 746, 828, 753, 854, 857, 504, 799, 255, 964, 909, 719, 477,
    915, 638, 748, 944, 869, 491, 699, 754, 858, 478, 968, 383, 910, 815, 976, 870, 917, 727, 493,
    873, 701, 931, 756, 860, 499, 731, 823, 922, 874, 918, 502, 933, 743, 760, 881, 494, 702, 921,
    501, 876, 847, 992, 447, 733, 827, 934, 882, 937, 963, 747, 505, 855, 924, 734, 829, 965, 938,
    884, 506, 749, 945, 966, 755, 859, 940, 830, 911, 871, 639, 888, 479, 946, 750, 969, 508, 861,
    757, 970, 919, 875, 862, 758, 948, 977, 923, 972, 761, 877, 952, 495, 703, 935, 978, 883, 762,
    503, 925, 878, 735, 993, 885, 939, 994, 980, 926, 764, 941, 967, 886, 831, 947, 507, 889, 984,
    751, 942, 996, 971, 890, 509, 949, 973, 1000, 892, 950, 863, 759, 1008, 510, 979, 953, 763,
    974, 954, 879, 981, 982, 927, 995, 765, 956, 887, 985, 997, 986, 943, 891, 998, 766, 511, 988,
    1001, 951, 1002, 893, 975, 894, 1009, 955, 1004, 1010, 957, 983, 958, 987, 1012, 999, 1016,
    767, 989, 1003, 990, 1005, 959, 1011, 1013, 895, 1006, 1014, 1017, 1018, 991, 1020, 1007, 1015,
    1019, 1021, 1022, 1023,
];

/// Where each position stands in the order.
pub const RELIABILITY_RANK: [u16; 1024] = [
    0, 1, 2, 7, 3, 8, 11, 24, 4, 10, 13, 28, 16, 33, 35, 76, 5, 12, 14, 32, 19, 38, 47, 80, 22, 46,
    42, 87, 57, 95, 101, 160, 6, 17, 21, 40, 23, 45, 51, 89, 29, 55, 59, 96, 71, 108, 113, 175, 34,
    61, 74, 111, 79, 120, 129, 186, 86, 131, 141, 208, 146, 218, 236, 327, 9, 18, 26, 54, 30, 58,
    70, 103, 36, 75, 62, 114, 83, 123, 135, 193, 44, 73, 85, 130, 91, 138, 145, 214, 99, 148, 162,
    228, 174, 242, 256, 357, 53, 88, 97, 144, 109, 154, 169, 239, 118, 170, 185, 250, 195, 269,
    282, 382, 133, 191, 211, 273, 216, 283, 301, 403, 233, 307, 322, 419, 337, 434, 460, 582, 15,
    25, 31, 72, 39, 78, 81, 134, 48, 84, 92, 143, 100, 153, 157, 238, 56, 93, 102, 155, 112, 168,
    182, 252, 122, 183, 192, 264, 213, 279, 297, 395, 64, 106, 119, 173, 124, 184, 198, 274, 142,
    209, 217, 285, 232, 306, 317, 418, 156, 225, 240, 311, 251, 333, 339, 432, 270, 348, 370, 453,
    386, 472, 511, 583, 68, 121, 137, 201, 152, 215, 231, 309, 161, 234, 244, 326, 257, 338, 356,
    447, 180, 253, 265, 346, 284, 366, 384, 478, 293, 388, 406, 494, 424, 518, 532, 641, 197, 275,
    288, 373, 312, 394, 409, 506, 336, 415, 433, 526, 454, 535, 567, 671, 355, 440, 461, 552, 470,
    577, 591, 695, 509, 598, 613, 690, 629, 714, 743, 830, 20, 37, 41, 90, 49, 94, 104, 167, 50,
    105, 115, 176, 126, 194, 202, 295, 63, 116, 127, 205, 139, 212, 223, 296, 147, 222, 237, 321,
    254, 335, 342, 431, 66, 136, 149, 207, 164, 226, 241, 334, 172, 248, 258, 344, 268, 364, 377,
    468, 171, 266, 277, 363, 292, 385, 397, 495, 314, 411, 425, 517, 439, 531, 555, 663, 77, 159,
    165, 246, 179, 262, 276, 358, 187, 281, 287, 383, 302, 402, 414, 515, 235, 298, 313, 405, 328,
    422, 438, 528, 350, 443, 464, 550, 481, 576, 593, 686, 261, 324, 345, 430, 362, 452, 466, 568,
    380, 475, 487, 581, 512, 605, 619, 707, 407, 510, 519, 614, 529, 630, 609, 721, 560, 660, 672,
    749, 677, 779, 794, 846, 82, 177, 181, 291, 227, 305, 316, 410, 247, 320, 329, 427, 349, 445,
    463, 570, 259, 347, 361, 446, 372, 467, 483, 585, 389, 489, 505, 601, 527, 617, 640, 725, 294,
    365, 376, 482, 396, 500, 521, 610, 426, 522, 533, 638, 561, 627, 667, 751, 451, 546, 574, 661,
    586, 676, 688, 770, 606, 693, 692, 790, 722, 801, 813, 877, 323, 387, 412, 523, 444, 534, 554,
    647, 465, 569, 578, 673, 597, 679, 691, 777, 484, 589, 611, 687, 620, 694, 723, 802, 646, 729,
    740, 816, 760, 834, 844, 905, 516, 615, 636, 724, 666, 726, 756, 821, 670, 753, 772, 840, 786,
    853, 870, 924, 680, 780, 798, 859, 808, 873, 865, 930, 828, 885, 893, 946, 909, 954, 963, 984,
    27, 43, 52, 98, 60, 117, 128, 199, 65, 132, 140, 204, 151, 220, 224, 330, 67, 150, 158, 219,
    166, 263, 271, 354, 188, 272, 290, 381, 304, 398, 413, 525, 69, 163, 178, 267, 190, 289, 299,
    392, 200, 308, 318, 416, 332, 435, 449, 536, 210, 325, 341, 442, 359, 462, 473, 564, 367, 469,
    490, 588, 493, 600, 616, 745, 107, 189, 196, 303, 206, 319, 331, 429, 229, 343, 351, 457, 369,
    477, 488, 572, 245, 353, 375, 471, 391, 492, 497, 594, 404, 498, 504, 618, 545, 631, 656, 752,
    260, 390, 400, 503, 421, 520, 524, 624, 437, 544, 557, 645, 580, 664, 674, 773, 456, 566, 587,
    675, 607, 685, 709, 787, 635, 712, 730, 803, 741, 819, 836, 903, 110, 203, 221, 340, 243, 352,
    371, 480, 255, 378, 393, 499, 408, 508, 513, 621, 280, 401, 420, 514, 436, 541, 553, 642, 455,
    562, 579, 669, 595, 681, 700, 774, 300, 428, 448, 556, 474, 575, 573, 682, 485, 590, 599, 696,
    625, 710, 718, 805, 507, 608, 633, 715, 643, 735, 742, 822, 659, 750, 764, 841, 789, 855, 871,
    925, 315, 459, 476, 592, 496, 604, 626, 713, 539, 634, 650, 738, 653, 744, 758, 833, 547, 651,
    658, 755, 683, 763, 783, 852, 704, 788, 797, 860, 812, 878, 888, 933, 563, 689, 698, 775, 719,
    791, 800, 867, 731, 810, 823, 884, 837, 894, 907, 949, 766, 825, 842, 897, 857, 911, 916, 961,
    868, 921, 929, 966, 940, 974, 983, 1003, 125, 230, 249, 379, 278, 399, 417, 530, 286, 423, 441,
    543, 458, 559, 584, 701, 310, 450, 479, 571, 491, 603, 596, 706, 501, 612, 628, 728, 648, 736,
    747, 829, 360, 486, 502, 602, 538, 623, 637, 739, 542, 649, 655, 748, 665, 759, 769, 848, 548,
    662, 678, 768, 703, 782, 795, 861, 716, 807, 811, 879, 824, 889, 900, 944, 368, 537, 540, 644,
    549, 652, 668, 762, 565, 684, 697, 778, 711, 792, 809, 875, 632, 702, 720, 796, 732, 817, 826,
    886, 761, 827, 843, 898, 858, 910, 915, 960, 654, 734, 754, 818, 767, 839, 850, 902, 785, 854,
    863, 914, 874, 922, 932, 969, 799, 869, 881, 928, 892, 935, 943, 976, 904, 947, 953, 981, 958,
    989, 991, 1011, 374, 551, 558, 699, 622, 708, 717, 806, 639, 727, 737, 820, 757, 832, 847, 901,
    657, 746, 765, 835, 776, 851, 864, 913, 793, 872, 862, 919, 887, 931, 939, 972, 705, 771, 781,
    856, 804, 866, 880, 926, 815, 882, 891, 936, 899, 941, 950, 980, 838, 895, 906, 945, 917, 955,
    959, 987, 923, 965, 968, 993, 975, 996, 998, 1008, 733, 784, 814, 883, 831, 890, 896, 942, 845,
    908, 912, 952, 920, 956, 967, 990, 849, 918, 927, 964, 938, 970, 971, 997, 948, 977, 979, 999,
    985, 1004, 1006, 1016, 876, 934, 937, 973, 951, 978, 982, 1001, 957, 986, 988, 1005, 994, 1007,
    1012, 1018, 962, 992, 995, 1009, 1000, 1010, 1013, 1019, 1002, 1014, 1015, 1020, 1017, 1021,
    1022, 1023,
];

/// Position `i` of the order and its rank agree, both ways.
spec fn matches_at(i: int) -> bool {
    RELIABILITY_RANK@[RELIABILITY_SEQ@[i] as int] == i && RELIABILITY_SEQ@[RELIABILITY_RANK@[i] as int]
        == i && RELIABILITY_SEQ@[i] < 1024 && RELIABILITY_RANK@[i] < 1024
}

spec fn matches_below(n: int) -> bool
    decreases n,
{
    n <= 0 || (matches_below(n - 1) && matches_at(n - 1))
}

#[verifier::rlimit(100)]
proof fn lemma_matches()
    ensures
        matches_below(1024),
{
    reveal_with_fuel(matches_below, 33);
    assert(matches_below(32));
    assert(matches_below(64));
    assert(matches_below(96));
    assert(matches_below(128));
    assert(matches_below(160));
    assert(matches_below(192));
    assert(matches_below(224));
    assert(matches_below(256));
    assert(matches_below(288));
    assert(matches_below(320));
    assert(matches_below(352));
    assert(matches_below(384));
    assert(matches_below(416));
    assert(matches_below(448));
    assert(matches_below(480));
    assert(matches_below(512));
    assert(matches_below(544));
    assert(matches_below(576));
    assert(matches_below(608));
    assert(matches_below(640));
    assert(matches_below(672));
    assert(matches_below(704));
    assert(matches_below(736));
    assert(matches_below(768));
    assert(matches_below(800));
    assert(matches_below(832));
    assert(matches_below(864));
    assert(matches_below(896));
    assert(matches_below(928));
    assert(matches_below(960));
    assert(matches_below(992));
    assert(matches_below(1024));
}

/// Entry `i` of the order.
#[verifier::opaque]
pub open spec fn entry_of(i: int) -> int {
    RELIABILITY_SEQ@[i] as int
}

/// Rank of position `p` in the order.
#[verifier::opaque]
pub open spec fn rank_of(p: int) -> int {
    RELIABILITY_RANK@[p] as int
}

/// The order and the ranks are inverse to each other.
pub proof fn lemma_rank(i: int)
    requires
        0 <= i < 1024,
    ensures
        0 <= entry_of(i) < 1024,
        0 <= rank_of(i) < 1024,
        rank_of(entry_of(i)) == i,
        entry_of(rank_of(i)) == i,
{
    reveal(entry_of);
    reveal(rank_of);
    lemma_matches();
    lemma_matches_at(1024, i);
}

proof fn lemma_matches_at(n: int, i: int)
    requires
        matches_below(n),
        0 <= i < n,
    ensures
        matches_at(i),
    decreases n,
{
    if i < n - 1 {
        lemma_matches_at(n - 1, i);
    }
}

/// The smallest position that may follow rank `r`: after the rank of the last
/// position of a code of length `n`, only positions from `n` on do.
pub open spec fn level_of(r: int) -> int {
    if r > 984 {
        512
    } else if r > 830 {
        256
    } else if r > 582 {
        128
    } else if r > 327 {
        64
    } else if r > 160 {
        32
    } else if r > 76 {
        16
    } else if r > 24 {
        8
    } else if r > 7 {
        4
    } else if r > 1 {
        2
    } else if r > 0 {
        1
    } else {
        0
    }
}

spec fn late_at(i: int) -> bool {
    RELIABILITY_SEQ@[i] >= level_of(i)
}

spec fn late_below(n: int) -> bool
    decreases n,
{
    n <= 0 || (late_below(n - 1) && late_at(n - 1))
}

#[verifier::rlimit(100)]
proof fn lemma_late()
    ensures
        late_below(1024),
{
    reveal_with_fuel(late_below, 33);
    assert(late_below(32));
    assert(late_below(64));
    assert(late_below(96));
    assert(late_below(128));
    assert(late_below(160));
    assert(late_below(192));
    assert(late_below(224));
    assert(late_below(256));
    assert(late_below(288));
    assert(late_below(320));
    assert(late_below(352));
    assert(late_below(384));
    assert(late_below(416));
    assert(late_below(448));
    assert(late_below(480));
    assert(late_below(512));
    assert(late_below(544));
    assert(late_below(576));
    assert(late_below(608));
    assert(late_below(640));
    assert(late_below(672));
    assert(late_below(704));
    assert(late_below(736));
    assert(late_below(768));
    assert(late_below(800));
    assert(late_below(832));
    assert(late_below(864));
    assert(late_below(896));
    assert(late_below(928));
    assert(late_below(960));
    assert(late_below(992));
    assert(late_below(1024));
}

proof fn lemma_late_at(n: int, i: int)
    requires
        late_below(n),
        0 <= i < n,
    ensures
        late_at(i),
    decreases n,
{
    if i < n - 1 {
        lemma_late_at(n - 1, i);
    }
}

/// In the table, the last position of every code is its most reliable one.
pub proof fn lemma_last_rank(n: int, q: int)
    requires
        n == 1 || n == 2 || n == 4 || n == 8 || n == 16 || n == 32 || n == 64 || n == 128 || n == 256
            || n == 512 || n == 1024,
        0 <= q < n,
    ensures
        rank_of(q) <= rank_of(n - 1),
{
    let r = rank_of(q);
    lemma_rank(q);
    lemma_late();
    lemma_late_at(1024, r);
    reveal(entry_of);
    assert(entry_of(r) >= level_of(r));
    assert(rank_of(n - 1) == (if n == 1 {
        0int
    } else if n == 2 {
        1
    } else if n == 4 {
        7
    } else if n == 8 {
        24
    } else if n == 16 {
        76
    } else if n == 32 {
        160
    } else if n == 64 {
        327
    } else if n == 128 {
        582
    } else if n == 256 {
        830
    } else if n == 512 {
        984
    } else {
        1023
    })) by {
        reveal(rank_of);
    }
}

/// Entry `b` is `2^(b/4)`, scaled by `2^48`.
pub const POLARIZATION: [u64; 64] = [
    281474976710656, 334732044999537, 398065729532861, 473382597799227, 562949953421312,
    669464089999075, 796131459065722, 946765195598454, 1125899906842624, 1338928179998149,
    1592262918131443, 1893530391196907, 2251799813685248, 2677856359996299, 3184525836262886,
    3787060782393815, 4503599627370496, 5355712719992597, 6369051672525773, 7574121564787629,
    9007199254740992, 10711425439985194, 12738103345051545, 15148243129575259, 18014398509481984,
    21422850879970389, 25476206690103090, 30296486259150517, 36028797018963968, 42845701759940777,
    50952413380206181, 60592972518301035, 72057594037927936, 85691403519881555, 101904826760412361,
    121185945036602070, 144115188075855872, 171382807039763110, 203809653520824722,
    242371890073204140, 288230376151711744, 342765614079526219, 407619307041649444,
    484743780146408280, 576460752303423488, 685531228159052439, 815238614083298888,
    969487560292816559, 1152921504606846976, 1371062456318104878, 1630477228166597777,
    1938975120585633119, 2305843009213693952, 2742124912636209756, 3260954456333195553,
    3877950241171266237, 4611686018427387904, 5484249825272419512, 6521908912666391106,
    7755900482342532474, 9223372036854775808, 10968499650544839023, 13043817825332782212,
    15511800964685064948,
];

/// `2^(b/4)`, scaled by `2^48`.
#[verifier::opaque]
pub open spec fn scaled_root(b: int) -> nat {
    POLARIZATION@[b] as nat
}

/// Entry `i` of the order.
pub fn reliability_entry(i: usize) -> (p: usize)
    requires
        i < 1024,
    ensures
        p == entry_of(i as int),
{
    reveal(entry_of);
    RELIABILITY_SEQ[i] as usize
}

/// `2^(b/4)`, scaled by `2^48`.
pub fn polarization(b: usize) -> (w: u64)
    requires
        b < 64,
    ensures
        w == scaled_root(b as int),
{
    reveal(scaled_root);
    POLARIZATION[b]
}

/// The fourth power of a number.
pub open spec fn fourth(x: int) -> int {
    (x * x) * (x * x)
}

/// Two roots four apart differ by a doubling, up to their rounding.
pub open spec fn doubles(b: int) -> bool {
    -1 <= scaled_root(b + 4) - 2 * scaled_root(b) <= 1
}

spec fn doubles_below(n: int) -> bool
    decreases n,
{
    n > 0 ==> doubles(n - 1) && doubles_below(n - 1)
}

proof fn lemma_doubles()
    ensures
        doubles_below(60),
{
    reveal(scaled_root);
    reveal_with_fuel(doubles_below, 61);
}

proof fn lemma_doubles_at(n: int, b: int)
    requires
        0 <= b < n,
        doubles_below(n),
    ensures
        doubles(b),
    decreases n,
{
    if b < n - 1 {
        lemma_doubles_at(n - 1, b);
    }
}

proof fn lemma_first_root(r: int, low: int, high: int, power: int)
    requires
        low == (2 * r - 1) * (2 * r - 1),
        high == (2 * r + 1) * (2 * r + 1),
        low * low < power < high * high,
    ensures
        fourth(2 * r - 1) < power < fourth(2 * r + 1),
{
}

/// What the weights are: the fourth roots of the powers of two, scaled by
/// `2^48`. The first four are the nearest whole numbers, and four places on
/// every root is twice as large, up to the rounding.
pub proof fn lemma_scaled_root(b: int)
    requires
        0 <= b < 60,
    ensures
        -1 <= scaled_root(b + 4) - 2 * scaled_root(b) <= 1,
        b < 4 ==> fourth(2 * scaled_root(b) - 1) < fourth(0x2_0000_0000_0000) * pow2(b as nat)
            < fourth(2 * scaled_root(b) as int + 1),
{
    lemma_doubles();
    lemma_doubles_at(60, b);
    lemma2_to64();
    assert(0x2_0000_0000_0000int * 0x2_0000_0000_0000int == 0x4_0000_0000_0000_0000_0000_0000int);
    assert(0x4_0000_0000_0000_0000_0000_0000int * 0x4_0000_0000_0000_0000_0000_0000int
        == 100433627766186892221372630771322662657637687111424552206336int) by (nonlinear_arith);
    assert(fourth(0x2_0000_0000_0000)
        == 100433627766186892221372630771322662657637687111424552206336int);
    if b < 4 {
        reveal(scaled_root);
        if b == 0 {
            assert({
                &&& 562949953421311int * 562949953421311int == 316912650057056224474268958721int
                &&& 562949953421313int * 562949953421313int == 316912650057058476274082643969int
                &&& 316912650057056224474268958721int * 316912650057056224474268958721int
                    < 100433627766186892221372630771322662657637687111424552206336int
                &&& 100433627766186892221372630771322662657637687111424552206336int
                    < 316912650057058476274082643969int * 316912650057058476274082643969int
            }) by (nonlinear_arith);
            lemma_first_root(
                281474976710656,
                316912650057056224474268958721int,
                316912650057058476274082643969int,
                100433627766186892221372630771322662657637687111424552206336int,
            );
        }
        if b == 1 {
            assert({
                &&& 669464089999073int * 669464089999073int == 448182167798286913577140859329int
                &&& 669464089999075int * 669464089999075int == 448182167798289591433500855625int
                &&& 448182167798286913577140859329int * 448182167798286913577140859329int
                    < 200867255532373784442745261542645325315275374222849104412672int
                &&& 200867255532373784442745261542645325315275374222849104412672int
                    < 448182167798289591433500855625int * 448182167798289591433500855625int
            }) by (nonlinear_arith);
            lemma_first_root(
                334732044999537,
                448182167798286913577140859329int,
                448182167798289591433500855625int,
                200867255532373784442745261542645325315275374222849104412672int,
            );
        }
        if b == 2 {
            assert({
                &&& 796131459065721int * 796131459065721int == 633825300114113792238197249841int
                &&& 796131459065723int * 796131459065723int == 633825300114116976764033512729int
                &&& 633825300114113792238197249841int * 633825300114113792238197249841int
                    < 401734511064747568885490523085290650630550748445698208825344int
                &&& 401734511064747568885490523085290650630550748445698208825344int
                    < 633825300114116976764033512729int * 633825300114116976764033512729int
            }) by (nonlinear_arith);
            lemma_first_root(
                398065729532861,
                633825300114113792238197249841int,
                633825300114116976764033512729int,
                401734511064747568885490523085290650630550748445698208825344int,
            );
        }
        if b == 3 {
            assert({
                &&& 946765195598453int * 946765195598453int == 896364335596576967844815993209int
                &&& 946765195598455int * 946765195598455int == 896364335596580754905598387025int
                &&& 896364335596576967844815993209int * 896364335596576967844815993209int
                    < 803469022129495137770981046170581301261101496891396417650688int
                &&& 803469022129495137770981046170581301261101496891396417650688int
                    < 896364335596580754905598387025int * 896364335596580754905598387025int
            }) by (nonlinear_arith);
            lemma_first_root(
                473382597799227,
                896364335596576967844815993209int,
                896364335596580754905598387025int,
                803469022129495137770981046170581301261101496891396417650688int,
            );
        }
    }
}

/// Every root weighs something.
pub proof fn lemma_root_positive(b: int)
    requires
        0 <= b < 64,
    ensures
        scaled_root(b) >= 2,
    decreases b,
{
    if b < 4 {
        reveal(scaled_root);
    } else {
        lemma_root_positive(b - 4);
        lemma_scaled_root(b - 4);
    }
}

} // verus!
