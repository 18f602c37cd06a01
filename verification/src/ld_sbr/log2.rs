//! Binary logarithms of small numbers.

use vstd::prelude::*;

verus! {

/// Binary logarithms of one to 255, rounded to twenty-five fractional bits; the
/// entry of zero is unused.
pub const LOG2_Q25: [i64; 256] = [
    0, 0, 33554432, 53182516, 67108864, 77910978, 86736948, 94199200,
    100663296, 106365033, 111465410, 116079263, 120291380, 124166153, 127753632, 131093495,
    134217728, 137152494, 139919465, 142536795, 145019842, 147381716, 149633695, 151785552,
    153845812, 155821957, 157720585, 159547549, 161308064, 163006793, 164647927, 166235243,
    167772160, 169261779, 170706926, 172110178, 173473897, 174800249, 176091227, 177348669,
    178574274, 179769614, 180936148, 182075232, 183188127, 184276011, 185339984, 186381074,
    187400244, 188398400, 189376389, 190335010, 191275017, 192197117, 193101981, 193990241,
    194862496, 195719311, 196561225, 197388746, 198202359, 199002523, 199789675, 200564233,
    201326592, 202077131, 202816211, 203544177, 204261358, 204968069, 205664610, 206351272,
    207028329, 207696047, 208354681, 209004473, 209645659, 210278463, 210903101, 211519782,
    212128706, 212730066, 213324046, 213910827, 214490580, 215063472, 215629664, 216189309,
    216742559, 217289557, 217830443, 218365353, 218894416, 219417760, 219935506, 220447773,
    220954676, 221456327, 221952832, 222444296, 222930821, 223412504, 223889442, 224361727,
    224829449, 225292695, 225751549, 226206096, 226656413, 227102581, 227544673, 227982765,
    228416928, 228847231, 229273743, 229696530, 230115657, 230531186, 230943178, 231351694,
    231756791, 232158526, 232556955, 232952131, 233344107, 233732935, 234118665, 234501345,
    234881024, 235257748, 235631563, 236002514, 236370643, 236735995, 237098609, 237458528,
    237815790, 238170435, 238522501, 238872024, 239219042, 239563590, 239905704, 240245416,
    240582761, 240917771, 241250479, 241580916, 241909113, 242235099, 242558905, 242880560,
    243200091, 243517527, 243832895, 244146222, 244457533, 244766856, 245074214, 245379634,
    245683138, 245984752, 246284498, 246582399, 246878478, 247172758, 247465259, 247756004,
    248045012, 248332306, 248617904, 248901828, 249184096, 249464727, 249743741, 250021157,
    250296991, 250571263, 250843989, 251115188, 251384875, 251653069, 251919785, 252185039,
    252448848, 252711227, 252972192, 253231757, 253489938, 253746749, 254002205, 254256320,
    254509108, 254760583, 255010759, 255259648, 255507264, 255753619, 255998728, 256242602,
    256485253, 256726694, 256966936, 257205993, 257443874, 257680593, 257916159, 258150585,
    258383881, 258616058, 258847127, 259077098, 259305981, 259533788, 259760528, 259986210,
    260210845, 260434443, 260657013, 260878564, 261099105, 261318647, 261537197, 261754765,
    261971360, 262186990, 262401663, 262615389, 262828175, 263040030, 263250962, 263460979,
    263670089, 263878299, 264085618, 264292052, 264497610, 264702299, 264906126, 265109098,
    265311223, 265512507, 265712958, 265912582, 266111387, 266309378, 266506563, 266702948,
    266898539, 267093344, 267287367, 267480616, 267673097, 267864815, 268055777, 268245989,
];

/// The binary logarithm of a small number in twenty-five fractional bits.
pub closed spec fn log2_q25(value: u8) -> int {
    LOG2_Q25@[value as int] as int
}

/// Where the logarithms of small numbers stand.
pub proof fn lemma_log2_q25(value: u8)
    ensures
        log2_q25(value) == LOG2_Q25@[value as int],
{
}

spec fn rising(from: int, to: int) -> bool
    decreases to - from,
{
    if from >= to {
        true
    } else {
        0 <= LOG2_Q25@[from] < LOG2_Q25@[from + 1] < 0x1000_0000 && rising(from + 1, to)
    }
}

proof fn lemma_rising_1()
    ensures
        rising(1, 33),
{
    reveal_with_fuel(rising, 33);
}

proof fn lemma_rising_33()
    ensures
        rising(33, 65),
{
    reveal_with_fuel(rising, 33);
}

proof fn lemma_rising_65()
    ensures
        rising(65, 97),
{
    reveal_with_fuel(rising, 33);
}

proof fn lemma_rising_97()
    ensures
        rising(97, 129),
{
    reveal_with_fuel(rising, 33);
}

proof fn lemma_rising_129()
    ensures
        rising(129, 161),
{
    reveal_with_fuel(rising, 33);
}

proof fn lemma_rising_161()
    ensures
        rising(161, 193),
{
    reveal_with_fuel(rising, 33);
}

proof fn lemma_rising_193()
    ensures
        rising(193, 225),
{
    reveal_with_fuel(rising, 33);
}

proof fn lemma_rising_225()
    ensures
        rising(225, 255),
{
    reveal_with_fuel(rising, 31);
}

proof fn lemma_rising_in(from: int, to: int, i: int)
    requires
        rising(from, to),
        from <= i < to,
    ensures
        0 <= LOG2_Q25@[i] < LOG2_Q25@[i + 1] < 0x1000_0000,
    decreases to - from,
{
    if i > from {
        lemma_rising_in(from + 1, to, i);
    }
}

proof fn lemma_step(i: int)
    requires
        1 <= i < 255,
    ensures
        0 <= LOG2_Q25@[i] < LOG2_Q25@[i + 1] < 0x1000_0000,
{
    if i < 33 {
        lemma_rising_1();
        lemma_rising_in(1, 33, i);
    } else if i < 65 {
        lemma_rising_33();
        lemma_rising_in(33, 65, i);
    } else if i < 97 {
        lemma_rising_65();
        lemma_rising_in(65, 97, i);
    } else if i < 129 {
        lemma_rising_97();
        lemma_rising_in(97, 129, i);
    } else if i < 161 {
        lemma_rising_129();
        lemma_rising_in(129, 161, i);
    } else if i < 193 {
        lemma_rising_161();
        lemma_rising_in(161, 193, i);
    } else if i < 225 {
        lemma_rising_193();
        lemma_rising_in(193, 225, i);
    } else {
        lemma_rising_225();
        lemma_rising_in(225, 255, i);
    }
}

/// The logarithm grows with the number.
pub proof fn lemma_log2_monotone(low: u8, high: u8)
    requires
        1 <= low <= high,
    ensures
        0 <= log2_q25(low) <= log2_q25(high) <= 0x1000_0000,
    decreases high - low,
{
    if low < high {
        lemma_log2_monotone(low, (high - 1) as u8);
        lemma_step(high - 1);
    } else if low < 255 {
        lemma_step(low as int);
    } else {
        lemma_step(254);
    }
}

/// The unused entry.
pub proof fn lemma_log2_zero()
    ensures
        log2_q25(0) == 0,
{
}

/// The binary logarithm of a small number in twenty-five fractional bits.
pub fn log2_of(value: u8) -> (logarithm: i64)
    ensures
        logarithm == log2_q25(value),
{
    LOG2_Q25[value as usize]
}

} // verus!
