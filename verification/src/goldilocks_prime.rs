//! The Goldilocks prime is prime: the residue 7 has multiplicative order
//! `p - 1` (Lucas's criterion, with `p - 1 = 2^32 * 3 * 5 * 17 * 257 * 65537`),
//! so every nonzero residue is a power of 7. Hence the field has no zero
//! divisors and `v^(p-2)` is the inverse of every nonzero `v`.

use vstd::prelude::*;
use vstd::arithmetic::div_mod::*;
use vstd::arithmetic::power::{pow, lemma_pow1, lemma_pow_multiplies, lemma_pow_mod_noop, lemma1_pow, lemma0_pow, lemma_pow_adds};
use crate::primality::{no_proper_divisor, lemma_pow_double, lemma_pow_incr, lemma_euclid, lemma_euclid_pow, lemma_gcd_divides, lemma_pow_gcd_one};
use crate::poseidon::gcd_spec;
use crate::field::{Field, fm, inverses_correct, pow_mod};
use crate::fft::no_zero_divisors;
use crate::goldilocks::Goldilocks;
use vstd::set_lib::{set_int_range, lemma_int_range, lemma_map_size, lemma_subset_equality};
use vstd::relations::injective_on;

verus! {

/// `2` is prime.
proof fn lemma_two_prime()
    ensures
        no_proper_divisor(2),
{
    assert forall|d: int| 1 < d < 2 implies #[trigger] (2int % d) != 0 by {}
}

/// `3` is prime.
proof fn lemma_three_prime()
    ensures
        no_proper_divisor(3),
{
    assert forall|d: int| 1 < d < 3 implies #[trigger] (3int % d) != 0 by {
        if d == 2 {
        }
    }
}

/// `5` is prime.
proof fn lemma_five_prime()
    ensures
        no_proper_divisor(5),
{
    assert forall|d: int| 1 < d < 5 implies #[trigger] (5int % d) != 0 by {
        if d == 2 {
        } else if d == 3 {
        } else if d == 4 {
        }
    }
}

/// `17` is prime.
proof fn lemma_seventeen_prime()
    ensures
        no_proper_divisor(17),
{
    assert forall|d: int| 1 < d < 17 implies #[trigger] (17int % d) != 0 by {
        if d == 2 {
        } else if d == 3 {
        } else if d == 4 {
        } else if d == 5 {
        } else if d == 6 {
        } else if d == 7 {
        } else if d == 8 {
        } else if d == 9 {
        } else if d == 10 {
        } else if d == 11 {
        } else if d == 12 {
        } else if d == 13 {
        } else if d == 14 {
        } else if d == 15 {
        } else if d == 16 {
        }
    }
}

/// `257` has no divisor from 2 to 16.
proof fn lemma_no_small_divisor_257(d: int)
    requires
        2 <= d <= 16,
    ensures
        257int % d != 0,
{
    if d == 2 {
    } else if d == 3 {
    } else if d == 4 {
    } else if d == 5 {
    } else if d == 6 {
    } else if d == 7 {
    } else if d == 8 {
    } else if d == 9 {
    } else if d == 10 {
    } else if d == 11 {
    } else if d == 12 {
    } else if d == 13 {
    } else if d == 14 {
    } else if d == 15 {
    } else if d == 16 {
    }
}

/// `257` is prime: a divisor above 16 would have a cofactor below it.
proof fn lemma_257_prime()
    ensures
        no_proper_divisor(257),
{
    assert forall|d: int| 1 < d < 257 implies #[trigger] (257int % d) != 0 by {
        if d <= 16 {
            lemma_no_small_divisor_257(d);
        } else if 257int % d == 0 {
            lemma_fundamental_div_mod(257int, d);
            let e = 257int / d;
            assert(257 == d * e);
            assert(e > 0 && e <= 16) by (nonlinear_arith)
                requires
                    257 == d * e,
                    d > 16;
            if e == 1 {
                assert(d * e == d) by (nonlinear_arith)
                    requires
                        e == 1;
            }
            lemma_mod_multiples_basic(d, e);
            assert(d * e == e * d) by (nonlinear_arith);
            lemma_no_small_divisor_257(e);
        }
    }
}

/// `65537` has no divisor from 2 to 256.
proof fn lemma_no_small_divisor_65537(d: int)
    requires
        2 <= d <= 256,
    ensures
        65537int % d != 0,
{
    if d == 2 {
    } else if d == 3 {
    } else if d == 4 {
    } else if d == 5 {
    } else if d == 6 {
    } else if d == 7 {
    } else if d == 8 {
    } else if d == 9 {
    } else if d == 10 {
    } else if d == 11 {
    } else if d == 12 {
    } else if d == 13 {
    } else if d == 14 {
    } else if d == 15 {
    } else if d == 16 {
    } else if d == 17 {
    } else if d == 18 {
    } else if d == 19 {
    } else if d == 20 {
    } else if d == 21 {
    } else if d == 22 {
    } else if d == 23 {
    } else if d == 24 {
    } else if d == 25 {
    } else if d == 26 {
    } else if d == 27 {
    } else if d == 28 {
    } else if d == 29 {
    } else if d == 30 {
    } else if d == 31 {
    } else if d == 32 {
    } else if d == 33 {
    } else if d == 34 {
    } else if d == 35 {
    } else if d == 36 {
    } else if d == 37 {
    } else if d == 38 {
    } else if d == 39 {
    } else if d == 40 {
    } else if d == 41 {
    } else if d == 42 {
    } else if d == 43 {
    } else if d == 44 {
    } else if d == 45 {
    } else if d == 46 {
    } else if d == 47 {
    } else if d == 48 {
    } else if d == 49 {
    } else if d == 50 {
    } else if d == 51 {
    } else if d == 52 {
    } else if d == 53 {
    } else if d == 54 {
    } else if d == 55 {
    } else if d == 56 {
    } else if d == 57 {
    } else if d == 58 {
    } else if d == 59 {
    } else if d == 60 {
    } else if d == 61 {
    } else if d == 62 {
    } else if d == 63 {
    } else if d == 64 {
    } else if d == 65 {
    } else if d == 66 {
    } else if d == 67 {
    } else if d == 68 {
    } else if d == 69 {
    } else if d == 70 {
    } else if d == 71 {
    } else if d == 72 {
    } else if d == 73 {
    } else if d == 74 {
    } else if d == 75 {
    } else if d == 76 {
    } else if d == 77 {
    } else if d == 78 {
    } else if d == 79 {
    } else if d == 80 {
    } else if d == 81 {
    } else if d == 82 {
    } else if d == 83 {
    } else if d == 84 {
    } else if d == 85 {
    } else if d == 86 {
    } else if d == 87 {
    } else if d == 88 {
    } else if d == 89 {
    } else if d == 90 {
    } else if d == 91 {
    } else if d == 92 {
    } else if d == 93 {
    } else if d == 94 {
    } else if d == 95 {
    } else if d == 96 {
    } else if d == 97 {
    } else if d == 98 {
    } else if d == 99 {
    } else if d == 100 {
    } else if d == 101 {
    } else if d == 102 {
    } else if d == 103 {
    } else if d == 104 {
    } else if d == 105 {
    } else if d == 106 {
    } else if d == 107 {
    } else if d == 108 {
    } else if d == 109 {
    } else if d == 110 {
    } else if d == 111 {
    } else if d == 112 {
    } else if d == 113 {
    } else if d == 114 {
    } else if d == 115 {
    } else if d == 116 {
    } else if d == 117 {
    } else if d == 118 {
    } else if d == 119 {
    } else if d == 120 {
    } else if d == 121 {
    } else if d == 122 {
    } else if d == 123 {
    } else if d == 124 {
    } else if d == 125 {
    } else if d == 126 {
    } else if d == 127 {
    } else if d == 128 {
    } else if d == 129 {
    } else if d == 130 {
    } else if d == 131 {
    } else if d == 132 {
    } else if d == 133 {
    } else if d == 134 {
    } else if d == 135 {
    } else if d == 136 {
    } else if d == 137 {
    } else if d == 138 {
    } else if d == 139 {
    } else if d == 140 {
    } else if d == 141 {
    } else if d == 142 {
    } else if d == 143 {
    } else if d == 144 {
    } else if d == 145 {
    } else if d == 146 {
    } else if d == 147 {
    } else if d == 148 {
    } else if d == 149 {
    } else if d == 150 {
    } else if d == 151 {
    } else if d == 152 {
    } else if d == 153 {
    } else if d == 154 {
    } else if d == 155 {
    } else if d == 156 {
    } else if d == 157 {
    } else if d == 158 {
    } else if d == 159 {
    } else if d == 160 {
    } else if d == 161 {
    } else if d == 162 {
    } else if d == 163 {
    } else if d == 164 {
    } else if d == 165 {
    } else if d == 166 {
    } else if d == 167 {
    } else if d == 168 {
    } else if d == 169 {
    } else if d == 170 {
    } else if d == 171 {
    } else if d == 172 {
    } else if d == 173 {
    } else if d == 174 {
    } else if d == 175 {
    } else if d == 176 {
    } else if d == 177 {
    } else if d == 178 {
    } else if d == 179 {
    } else if d == 180 {
    } else if d == 181 {
    } else if d == 182 {
    } else if d == 183 {
    } else if d == 184 {
    } else if d == 185 {
    } else if d == 186 {
    } else if d == 187 {
    } else if d == 188 {
    } else if d == 189 {
    } else if d == 190 {
    } else if d == 191 {
    } else if d == 192 {
    } else if d == 193 {
    } else if d == 194 {
    } else if d == 195 {
    } else if d == 196 {
    } else if d == 197 {
    } else if d == 198 {
    } else if d == 199 {
    } else if d == 200 {
    } else if d == 201 {
    } else if d == 202 {
    } else if d == 203 {
    } else if d == 204 {
    } else if d == 205 {
    } else if d == 206 {
    } else if d == 207 {
    } else if d == 208 {
    } else if d == 209 {
    } else if d == 210 {
    } else if d == 211 {
    } else if d == 212 {
    } else if d == 213 {
    } else if d == 214 {
    } else if d == 215 {
    } else if d == 216 {
    } else if d == 217 {
    } else if d == 218 {
    } else if d == 219 {
    } else if d == 220 {
    } else if d == 221 {
    } else if d == 222 {
    } else if d == 223 {
    } else if d == 224 {
    } else if d == 225 {
    } else if d == 226 {
    } else if d == 227 {
    } else if d == 228 {
    } else if d == 229 {
    } else if d == 230 {
    } else if d == 231 {
    } else if d == 232 {
    } else if d == 233 {
    } else if d == 234 {
    } else if d == 235 {
    } else if d == 236 {
    } else if d == 237 {
    } else if d == 238 {
    } else if d == 239 {
    } else if d == 240 {
    } else if d == 241 {
    } else if d == 242 {
    } else if d == 243 {
    } else if d == 244 {
    } else if d == 245 {
    } else if d == 246 {
    } else if d == 247 {
    } else if d == 248 {
    } else if d == 249 {
    } else if d == 250 {
    } else if d == 251 {
    } else if d == 252 {
    } else if d == 253 {
    } else if d == 254 {
    } else if d == 255 {
    } else if d == 256 {
    }
}

/// `65537` is prime: a divisor above 256 would have a cofactor below it.
proof fn lemma_65537_prime()
    ensures
        no_proper_divisor(65537),
{
    assert forall|d: int| 1 < d < 65537 implies #[trigger] (65537int % d) != 0 by {
        if d <= 256 {
            lemma_no_small_divisor_65537(d);
        } else if 65537int % d == 0 {
            lemma_fundamental_div_mod(65537int, d);
            let e = 65537int / d;
            assert(65537 == d * e);
            assert(e > 0 && e <= 256) by (nonlinear_arith)
                requires
                    65537 == d * e,
                    d > 256;
            if e == 1 {
                assert(d * e == d) by (nonlinear_arith)
                    requires
                        e == 1;
            }
            lemma_mod_multiples_basic(d, e);
            assert(d * e == e * d) by (nonlinear_arith);
            lemma_no_small_divisor_65537(e);
        }
    }
}

/// `7^(p-1)` is one modulo the Goldilocks prime.
proof fn lemma_seven_pow_n()
    ensures
        pow_mod(7, 18446744069414584320, 0xFFFF_FFFF_0000_0001) == 1,
{
    let p: int = 0xFFFF_FFFF_0000_0001;
    lemma_pow1(7);
    lemma_small_mod(7, p as nat);
    lemma_pow_double(7, 1, 7, 49, p);
    lemma_pow_incr(7, 2, 49, 343, p);
    lemma_pow_double(7, 3, 343, 117649, p);
    lemma_pow_incr(7, 6, 117649, 823543, p);
    lemma_pow_double(7, 7, 823543, 678223072849, p);
    lemma_pow_incr(7, 14, 678223072849, 4747561509943, p);
    lemma_pow_double(7, 15, 4747561509943, 1582037354089406189, p);
    lemma_pow_incr(7, 30, 1582037354089406189, 11074261478625843323, p);
    lemma_pow_double(7, 31, 11074261478625843323, 14911712358349047125, p);
    lemma_pow_incr(7, 62, 14911712358349047125, 12148266161370408270, p);
    lemma_pow_double(7, 63, 12148266161370408270, 14177331716484271384, p);
    lemma_pow_incr(7, 126, 14177331716484271384, 7007601668316978083, p);
    lemma_pow_double(7, 127, 7007601668316978083, 1160753142525841411, p);
    lemma_pow_incr(7, 254, 1160753142525841411, 8125271997680889877, p);
    lemma_pow_double(7, 255, 8125271997680889877, 10915923311382173605, p);
    lemma_pow_incr(7, 510, 10915923311382173605, 2624486902016877951, p);
    lemma_pow_double(7, 511, 2624486902016877951, 1179017105118043277, p);
    lemma_pow_incr(7, 1022, 1179017105118043277, 8253119735826302939, p);
    lemma_pow_double(7, 1023, 8253119735826302939, 13682469552810377440, p);
    lemma_pow_incr(7, 2046, 13682469552810377440, 3543566522599720475, p);
    lemma_pow_double(7, 2047, 3543566522599720475, 12252646851770615269, p);
    lemma_pow_incr(7, 4094, 12252646851770615269, 11981551684735969599, p);
    lemma_pow_double(7, 4095, 11981551684735969599, 9343193256669382154, p);
    lemma_pow_incr(7, 8190, 9343193256669382154, 10062120588441922115, p);
    lemma_pow_double(7, 8191, 10062120588441922115, 4133221502128927102, p);
    lemma_pow_incr(7, 16382, 4133221502128927102, 10485806445487905393, p);
    lemma_pow_double(7, 16383, 10485806445487905393, 5861853314594190514, p);
    lemma_pow_incr(7, 32766, 5861853314594190514, 4139485063330164956, p);
    lemma_pow_double(7, 32767, 4139485063330164956, 7004045467739516513, p);
    lemma_pow_incr(7, 65534, 7004045467739516513, 12134830135347446949, p);
    lemma_pow_double(7, 65535, 12134830135347446949, 618113109518621269, p);
    lemma_pow_incr(7, 131070, 618113109518621269, 4326791766630348883, p);
    lemma_pow_double(7, 131071, 4326791766630348883, 13205783127219969319, p);
    lemma_pow_incr(7, 262142, 13205783127219969319, 206761543466863628, p);
    lemma_pow_double(7, 262143, 206761543466863628, 14617186517222294718, p);
    lemma_pow_incr(7, 524286, 14617186517222294718, 10086585273483141421, p);
    lemma_pow_double(7, 524287, 10086585273483141421, 5535602650859329748, p);
    lemma_pow_incr(7, 1048574, 5535602650859329748, 1855730417186139594, p);
    lemma_pow_double(7, 1048575, 1855730417186139594, 3724741596018185032, p);
    lemma_pow_incr(7, 2097150, 3724741596018185032, 7626447102712710903, p);
    lemma_pow_double(7, 2097151, 7626447102712710903, 11653985196031332500, p);
    lemma_pow_incr(7, 4194302, 11653985196031332500, 7790920094560990216, p);
    lemma_pow_double(7, 4194303, 7790920094560990216, 16654626667483233145, p);
    lemma_pow_incr(7, 8388606, 16654626667483233145, 5901922255895126089, p);
    lemma_pow_double(7, 8388607, 5901922255895126089, 9182212999444825067, p);
    lemma_pow_incr(7, 16777214, 9182212999444825067, 8935258787870022506, p);
    lemma_pow_double(7, 16777215, 8935258787870022506, 17682034324931514088, p);
    lemma_pow_incr(7, 33554430, 17682034324931514088, 13093775858033092690, p);
    lemma_pow_double(7, 33554431, 13093775858033092690, 9511995656157268947, p);
    lemma_pow_incr(7, 67108862, 9511995656157268947, 11243737384857129666, p);
    lemma_pow_double(7, 67108863, 11243737384857129666, 16106297366990222687, p);
    lemma_pow_incr(7, 134217726, 16106297366990222687, 2063617152444052883, p);
    lemma_pow_double(7, 134217727, 2063617152444052883, 4501656151559876649, p);
    lemma_pow_incr(7, 268435454, 4501656151559876649, 13064848991504552222, p);
    lemma_pow_double(7, 268435455, 13064848991504552222, 2370486178716065012, p);
    lemma_pow_incr(7, 536870910, 2370486178716065012, 16593403251012455084, p);
    lemma_pow_double(7, 536870911, 16593403251012455084, 14013264900002007546, p);
    lemma_pow_incr(7, 1073741822, 14013264900002007546, 5859133952941131217, p);
    lemma_pow_double(7, 1073741823, 5859133952941131217, 10142762553374040318, p);
    lemma_pow_incr(7, 2147483646, 10142762553374040318, 15659105665374529263, p);
    lemma_pow_double(7, 2147483647, 15659105665374529263, 16062014221418238814, p);
    lemma_pow_incr(7, 4294967294, 16062014221418238814, 1753635133440165772, p);
    lemma_pow_double(7, 4294967295, 1753635133440165772, 4614640910117430873, p);
    lemma_pow_double(7, 8589934590, 4614640910117430873, 9123114210336311365, p);
    lemma_pow_double(7, 17179869180, 9123114210336311365, 16116352524544190054, p);
    lemma_pow_double(7, 34359738360, 16116352524544190054, 6414415596519834757, p);
    lemma_pow_double(7, 68719476720, 6414415596519834757, 1213594585890690845, p);
    lemma_pow_double(7, 137438953440, 1213594585890690845, 17096174751763063430, p);
    lemma_pow_double(7, 274877906880, 17096174751763063430, 5456943929260765144, p);
    lemma_pow_double(7, 549755813760, 5456943929260765144, 9713644485405565297, p);
    lemma_pow_double(7, 1099511627520, 9713644485405565297, 16905767614792059275, p);
    lemma_pow_double(7, 2199023255040, 16905767614792059275, 5416168637041100469, p);
    lemma_pow_double(7, 4398046510080, 5416168637041100469, 17654865857378133588, p);
    lemma_pow_double(7, 8796093020160, 17654865857378133588, 3511170319078647661, p);
    lemma_pow_double(7, 17592186040320, 3511170319078647661, 18146160046829613826, p);
    lemma_pow_double(7, 35184372080640, 18146160046829613826, 9306717745644682924, p);
    lemma_pow_double(7, 70368744161280, 9306717745644682924, 12380578893860276750, p);
    lemma_pow_double(7, 140737488322560, 12380578893860276750, 6115771955107415310, p);
    lemma_pow_double(7, 281474976645120, 6115771955107415310, 17776499369601055404, p);
    lemma_pow_double(7, 562949953290240, 17776499369601055404, 16207902636198568418, p);
    lemma_pow_double(7, 1125899906580480, 16207902636198568418, 1532612707718625687, p);
    lemma_pow_double(7, 2251799813160960, 1532612707718625687, 17492915097719143606, p);
    lemma_pow_double(7, 4503599626321920, 17492915097719143606, 455906449640507599, p);
    lemma_pow_double(7, 9007199252643840, 455906449640507599, 11353340290879379826, p);
    lemma_pow_double(7, 18014398505287680, 11353340290879379826, 1803076106186727246, p);
    lemma_pow_double(7, 36028797010575360, 1803076106186727246, 13797081185216407910, p);
    lemma_pow_double(7, 72057594021150720, 13797081185216407910, 17870292113338400769, p);
    lemma_pow_double(7, 144115188042301440, 17870292113338400769, 549755813888, p);
    lemma_pow_double(7, 288230376084602880, 549755813888, 70368744161280, p);
    lemma_pow_double(7, 576460752169205760, 70368744161280, 17293822564807737345, p);
    lemma_pow_double(7, 1152921504338411520, 17293822564807737345, 18446744069397807105, p);
    lemma_pow_double(7, 2305843008676823040, 18446744069397807105, 281474976710656, p);
    lemma_pow_double(7, 4611686017353646080, 281474976710656, 18446744069414584320, p);
    lemma_pow_double(7, 9223372034707292160, 18446744069414584320, 1, p);
}

/// `7^((p-1)/2)` modulo the Goldilocks prime.
proof fn lemma_seven_pow_n_over_2()
    ensures
        pow_mod(7, 9223372034707292160, 0xFFFF_FFFF_0000_0001) == 18446744069414584320,
{
    let p: int = 0xFFFF_FFFF_0000_0001;
    lemma_pow1(7);
    lemma_small_mod(7, p as nat);
    lemma_pow_double(7, 1, 7, 49, p);
    lemma_pow_incr(7, 2, 49, 343, p);
    lemma_pow_double(7, 3, 343, 117649, p);
    lemma_pow_incr(7, 6, 117649, 823543, p);
    lemma_pow_double(7, 7, 823543, 678223072849, p);
    lemma_pow_incr(7, 14, 678223072849, 4747561509943, p);
    lemma_pow_double(7, 15, 4747561509943, 1582037354089406189, p);
    lemma_pow_incr(7, 30, 1582037354089406189, 11074261478625843323, p);
    lemma_pow_double(7, 31, 11074261478625843323, 14911712358349047125, p);
    lemma_pow_incr(7, 62, 14911712358349047125, 12148266161370408270, p);
    lemma_pow_double(7, 63, 12148266161370408270, 14177331716484271384, p);
    lemma_pow_incr(7, 126, 14177331716484271384, 7007601668316978083, p);
    lemma_pow_double(7, 127, 7007601668316978083, 1160753142525841411, p);
    lemma_pow_incr(7, 254, 1160753142525841411, 8125271997680889877, p);
    lemma_pow_double(7, 255, 8125271997680889877, 10915923311382173605, p);
    lemma_pow_incr(7, 510, 10915923311382173605, 2624486902016877951, p);
    lemma_pow_double(7, 511, 2624486902016877951, 1179017105118043277, p);
    lemma_pow_incr(7, 1022, 1179017105118043277, 8253119735826302939, p);
    lemma_pow_double(7, 1023, 8253119735826302939, 13682469552810377440, p);
    lemma_pow_incr(7, 2046, 13682469552810377440, 3543566522599720475, p);
    lemma_pow_double(7, 2047, 3543566522599720475, 12252646851770615269, p);
    lemma_pow_incr(7, 4094, 12252646851770615269, 11981551684735969599, p);
    lemma_pow_double(7, 4095, 11981551684735969599, 9343193256669382154, p);
    lemma_pow_incr(7, 8190, 9343193256669382154, 10062120588441922115, p);
    lemma_pow_double(7, 8191, 10062120588441922115, 4133221502128927102, p);
    lemma_pow_incr(7, 16382, 4133221502128927102, 10485806445487905393, p);
    lemma_pow_double(7, 16383, 10485806445487905393, 5861853314594190514, p);
    lemma_pow_incr(7, 32766, 5861853314594190514, 4139485063330164956, p);
    lemma_pow_double(7, 32767, 4139485063330164956, 7004045467739516513, p);
    lemma_pow_incr(7, 65534, 7004045467739516513, 12134830135347446949, p);
    lemma_pow_double(7, 65535, 12134830135347446949, 618113109518621269, p);
    lemma_pow_incr(7, 131070, 618113109518621269, 4326791766630348883, p);
    lemma_pow_double(7, 131071, 4326791766630348883, 13205783127219969319, p);
    lemma_pow_incr(7, 262142, 13205783127219969319, 206761543466863628, p);
    lemma_pow_double(7, 262143, 206761543466863628, 14617186517222294718, p);
    lemma_pow_incr(7, 524286, 14617186517222294718, 10086585273483141421, p);
    lemma_pow_double(7, 524287, 10086585273483141421, 5535602650859329748, p);
    lemma_pow_incr(7, 1048574, 5535602650859329748, 1855730417186139594, p);
    lemma_pow_double(7, 1048575, 1855730417186139594, 3724741596018185032, p);
    lemma_pow_incr(7, 2097150, 3724741596018185032, 7626447102712710903, p);
    lemma_pow_double(7, 2097151, 7626447102712710903, 11653985196031332500, p);
    lemma_pow_incr(7, 4194302, 11653985196031332500, 7790920094560990216, p);
    lemma_pow_double(7, 4194303, 7790920094560990216, 16654626667483233145, p);
    lemma_pow_incr(7, 8388606, 16654626667483233145, 5901922255895126089, p);
    lemma_pow_double(7, 8388607, 5901922255895126089, 9182212999444825067, p);
    lemma_pow_incr(7, 16777214, 9182212999444825067, 8935258787870022506, p);
    lemma_pow_double(7, 16777215, 8935258787870022506, 17682034324931514088, p);
    lemma_pow_incr(7, 33554430, 17682034324931514088, 13093775858033092690, p);
    lemma_pow_double(7, 33554431, 13093775858033092690, 9511995656157268947, p);
    lemma_pow_incr(7, 67108862, 9511995656157268947, 11243737384857129666, p);
    lemma_pow_double(7, 67108863, 11243737384857129666, 16106297366990222687, p);
    lemma_pow_incr(7, 134217726, 16106297366990222687, 2063617152444052883, p);
    lemma_pow_double(7, 134217727, 2063617152444052883, 4501656151559876649, p);
    lemma_pow_incr(7, 268435454, 4501656151559876649, 13064848991504552222, p);
    lemma_pow_double(7, 268435455, 13064848991504552222, 2370486178716065012, p);
    lemma_pow_incr(7, 536870910, 2370486178716065012, 16593403251012455084, p);
    lemma_pow_double(7, 536870911, 16593403251012455084, 14013264900002007546, p);
    lemma_pow_incr(7, 1073741822, 14013264900002007546, 5859133952941131217, p);
    lemma_pow_double(7, 1073741823, 5859133952941131217, 10142762553374040318, p);
    lemma_pow_incr(7, 2147483646, 10142762553374040318, 15659105665374529263, p);
    lemma_pow_double(7, 2147483647, 15659105665374529263, 16062014221418238814, p);
    lemma_pow_incr(7, 4294967294, 16062014221418238814, 1753635133440165772, p);
    lemma_pow_double(7, 4294967295, 1753635133440165772, 4614640910117430873, p);
    lemma_pow_double(7, 8589934590, 4614640910117430873, 9123114210336311365, p);
    lemma_pow_double(7, 17179869180, 9123114210336311365, 16116352524544190054, p);
    lemma_pow_double(7, 34359738360, 16116352524544190054, 6414415596519834757, p);
    lemma_pow_double(7, 68719476720, 6414415596519834757, 1213594585890690845, p);
    lemma_pow_double(7, 137438953440, 1213594585890690845, 17096174751763063430, p);
    lemma_pow_double(7, 274877906880, 17096174751763063430, 5456943929260765144, p);
    lemma_pow_double(7, 549755813760, 5456943929260765144, 9713644485405565297, p);
    lemma_pow_double(7, 1099511627520, 9713644485405565297, 16905767614792059275, p);
    lemma_pow_double(7, 2199023255040, 16905767614792059275, 5416168637041100469, p);
    lemma_pow_double(7, 4398046510080, 5416168637041100469, 17654865857378133588, p);
    lemma_pow_double(7, 8796093020160, 17654865857378133588, 3511170319078647661, p);
    lemma_pow_double(7, 17592186040320, 3511170319078647661, 18146160046829613826, p);
    lemma_pow_double(7, 35184372080640, 18146160046829613826, 9306717745644682924, p);
    lemma_pow_double(7, 70368744161280, 9306717745644682924, 12380578893860276750, p);
    lemma_pow_double(7, 140737488322560, 12380578893860276750, 6115771955107415310, p);
    lemma_pow_double(7, 281474976645120, 6115771955107415310, 17776499369601055404, p);
    lemma_pow_double(7, 562949953290240, 17776499369601055404, 16207902636198568418, p);
    lemma_pow_double(7, 1125899906580480, 16207902636198568418, 1532612707718625687, p);
    lemma_pow_double(7, 2251799813160960, 1532612707718625687, 17492915097719143606, p);
    lemma_pow_double(7, 4503599626321920, 17492915097719143606, 455906449640507599, p);
    lemma_pow_double(7, 9007199252643840, 455906449640507599, 11353340290879379826, p);
    lemma_pow_double(7, 18014398505287680, 11353340290879379826, 1803076106186727246, p);
    lemma_pow_double(7, 36028797010575360, 1803076106186727246, 13797081185216407910, p);
    lemma_pow_double(7, 72057594021150720, 13797081185216407910, 17870292113338400769, p);
    lemma_pow_double(7, 144115188042301440, 17870292113338400769, 549755813888, p);
    lemma_pow_double(7, 288230376084602880, 549755813888, 70368744161280, p);
    lemma_pow_double(7, 576460752169205760, 70368744161280, 17293822564807737345, p);
    lemma_pow_double(7, 1152921504338411520, 17293822564807737345, 18446744069397807105, p);
    lemma_pow_double(7, 2305843008676823040, 18446744069397807105, 281474976710656, p);
    lemma_pow_double(7, 4611686017353646080, 281474976710656, 18446744069414584320, p);
}

/// `7^((p-1)/3)` modulo the Goldilocks prime.
proof fn lemma_seven_pow_n_over_3()
    ensures
        pow_mod(7, 6148914689804861440, 0xFFFF_FFFF_0000_0001) == 18446744065119617025,
{
    let p: int = 0xFFFF_FFFF_0000_0001;
    lemma_pow1(7);
    lemma_small_mod(7, p as nat);
    lemma_pow_double(7, 1, 7, 49, p);
    lemma_pow_double(7, 2, 49, 2401, p);
    lemma_pow_incr(7, 4, 2401, 16807, p);
    lemma_pow_double(7, 5, 16807, 282475249, p);
    lemma_pow_double(7, 10, 282475249, 79792266297612001, p);
    lemma_pow_incr(7, 20, 79792266297612001, 558545864083284007, p);
    lemma_pow_double(7, 21, 558545864083284007, 8022122801911579307, p);
    lemma_pow_double(7, 42, 8022122801911579307, 4463956420510902100, p);
    lemma_pow_incr(7, 84, 4463956420510902100, 12800950874161730379, p);
    lemma_pow_double(7, 85, 12800950874161730379, 14271156885488964304, p);
    lemma_pow_double(7, 170, 14271156885488964304, 6640181542876171230, p);
    lemma_pow_incr(7, 340, 6640181542876171230, 9587782661304029968, p);
    lemma_pow_double(7, 341, 9587782661304029968, 10276868313419320864, p);
    lemma_pow_double(7, 682, 10276868313419320864, 12692611838971331761, p);
    lemma_pow_incr(7, 1364, 12692611838971331761, 15061306595140985043, p);
    lemma_pow_double(7, 1365, 15061306595140985043, 10087193495066827832, p);
    lemma_pow_double(7, 2730, 10087193495066827832, 17666492521142301186, p);
    lemma_pow_incr(7, 5460, 17666492521142301186, 12984983231508602376, p);
    lemma_pow_double(7, 5461, 12984983231508602376, 1362657970957379548, p);
    lemma_pow_double(7, 10922, 1362657970957379548, 14866894507972756995, p);
    lemma_pow_incr(7, 21844, 14866894507972756995, 11834541208736377360, p);
    lemma_pow_double(7, 21845, 11834541208736377360, 15486580570079272365, p);
    lemma_pow_double(7, 43690, 15486580570079272365, 8219357140934485557, p);
    lemma_pow_incr(7, 87380, 8219357140934485557, 2195267778297645936, p);
    lemma_pow_double(7, 87381, 2195267778297645936, 12545318111885672966, p);
    lemma_pow_double(7, 174762, 12545318111885672966, 16274283408395477026, p);
    lemma_pow_incr(7, 349524, 16274283408395477026, 3239519442280833256, p);
    lemma_pow_double(7, 349525, 3239519442280833256, 11109814195885452171, p);
    lemma_pow_double(7, 699050, 11109814195885452171, 8592128779201082244, p);
    lemma_pow_incr(7, 1398100, 8592128779201082244, 4804669246163822745, p);
    lemma_pow_double(7, 1398101, 4804669246163822745, 438903447396483212, p);
    lemma_pow_double(7, 2796202, 438903447396483212, 16528309341332431468, p);
    lemma_pow_incr(7, 5592404, 16528309341332431468, 5017700972839514350, p);
    lemma_pow_double(7, 5592405, 5017700972839514350, 7499557959359525151, p);
    lemma_pow_double(7, 11184810, 7499557959359525151, 6501481669499740747, p);
    lemma_pow_incr(7, 22369620, 6501481669499740747, 8616883547669016587, p);
    lemma_pow_double(7, 22369621, 8616883547669016587, 458110968676413213, p);
    lemma_pow_double(7, 44739242, 458110968676413213, 1678842135369159008, p);
    lemma_pow_incr(7, 89478484, 1678842135369159008, 11751894947584113056, p);
    lemma_pow_double(7, 89478485, 11751894947584113056, 525895266577965633, p);
    lemma_pow_double(7, 178956970, 525895266577965633, 8359630718448719682, p);
    lemma_pow_incr(7, 357913940, 8359630718448719682, 3177182820897284811, p);
    lemma_pow_double(7, 357913941, 3177182820897284811, 7964267603545906836, p);
    lemma_pow_double(7, 715827882, 7964267603545906836, 17834245605091780246, p);
    lemma_pow_incr(7, 1431655764, 17834245605091780246, 14159254819154955796, p);
    lemma_pow_double(7, 1431655765, 14159254819154955796, 998724450546658713, p);
    lemma_pow_double(7, 2863311530, 998724450546658713, 1811047956385014016, p);
    lemma_pow_double(7, 5726623060, 1811047956385014016, 2957134717709447844, p);
    lemma_pow_double(7, 11453246120, 2957134717709447844, 8418656202527058970, p);
    lemma_pow_double(7, 22906492240, 8418656202527058970, 9344165103595421707, p);
    lemma_pow_double(7, 45812984480, 9344165103595421707, 12398472707942400981, p);
    lemma_pow_double(7, 91625968960, 12398472707942400981, 10977358340789161543, p);
    lemma_pow_double(7, 183251937920, 10977358340789161543, 14519574879452399500, p);
    lemma_pow_double(7, 366503875840, 14519574879452399500, 3056692624244734627, p);
    lemma_pow_double(7, 733007751680, 3056692624244734627, 17973258314804772181, p);
    lemma_pow_double(7, 1466015503360, 17973258314804772181, 15462695660743809749, p);
    lemma_pow_double(7, 2932031006720, 15462695660743809749, 18046908317468628738, p);
    lemma_pow_double(7, 5864062013440, 18046908317468628738, 9144605907772536802, p);
    lemma_pow_double(7, 11728124026880, 9144605907772536802, 8796482344486648840, p);
    lemma_pow_double(7, 23456248053760, 8796482344486648840, 3596945015050375886, p);
    lemma_pow_double(7, 46912496107520, 3596945015050375886, 4201997653601256896, p);
    lemma_pow_double(7, 93824992215040, 4201997653601256896, 6905479200839918232, p);
    lemma_pow_double(7, 187649984430080, 6905479200839918232, 1725491680989254570, p);
    lemma_pow_double(7, 375299968860160, 1725491680989254570, 12370230134295797906, p);
    lemma_pow_double(7, 750599937720320, 12370230134295797906, 3734230229149707555, p);
    lemma_pow_double(7, 1501199875440640, 3734230229149707555, 16496341184493220914, p);
    lemma_pow_double(7, 3002399750881280, 16496341184493220914, 15331777707844533717, p);
    lemma_pow_double(7, 6004799501762560, 15331777707844533717, 11895029263313522992, p);
    lemma_pow_double(7, 12009599003525120, 11895029263313522992, 11373273867503537004, p);
    lemma_pow_double(7, 24019198007050240, 11373273867503537004, 13835058050987180033, p);
    lemma_pow_double(7, 48038396014100480, 13835058050987180033, 35184372080640, p);
    lemma_pow_double(7, 96076792028200960, 35184372080640, 18158513693262872577, p);
    lemma_pow_double(7, 192153584056401920, 18158513693262872577, 18446744069413535745, p);
    lemma_pow_double(7, 384307168112803840, 18446744069413535745, 1099511627776, p);
    lemma_pow_double(7, 768614336225607680, 1099511627776, 281474976645120, p);
    lemma_pow_double(7, 1537228672451215360, 281474976645120, 18446744065119617026, p);
    lemma_pow_double(7, 3074457344902430720, 18446744065119617026, 18446744065119617025, p);
}

/// `7^((p-1)/5)` modulo the Goldilocks prime.
proof fn lemma_seven_pow_n_over_5()
    ensures
        pow_mod(7, 3689348813882916864, 0xFFFF_FFFF_0000_0001) == 1373043270956696022,
{
    let p: int = 0xFFFF_FFFF_0000_0001;
    lemma_pow1(7);
    lemma_small_mod(7, p as nat);
    lemma_pow_double(7, 1, 7, 49, p);
    lemma_pow_incr(7, 2, 49, 343, p);
    lemma_pow_double(7, 3, 343, 117649, p);
    lemma_pow_double(7, 6, 117649, 13841287201, p);
    lemma_pow_double(7, 12, 13841287201, 7113790686420571191, p);
    lemma_pow_incr(7, 24, 7113790686420571191, 12903046666114829695, p);
    lemma_pow_double(7, 25, 12903046666114829695, 9508792519651578870, p);
    lemma_pow_incr(7, 50, 9508792519651578870, 11221315429317299127, p);
    lemma_pow_double(7, 51, 11221315429317299127, 3745031562215636174, p);
    lemma_pow_double(7, 102, 3745031562215636174, 14721374862152863140, p);
    lemma_pow_double(7, 204, 14721374862152863140, 8580336748508171574, p);
    lemma_pow_incr(7, 408, 8580336748508171574, 4722125031313448055, p);
    lemma_pow_double(7, 409, 4722125031313448055, 1883594833244407474, p);
    lemma_pow_incr(7, 818, 1883594833244407474, 13185163832710852318, p);
    lemma_pow_double(7, 819, 13185163832710852318, 2814030611640221029, p);
    lemma_pow_double(7, 1638, 2814030611640221029, 15305242945550478579, p);
    lemma_pow_double(7, 3276, 15305242945550478579, 16390917471927504135, p);
    lemma_pow_incr(7, 6552, 16390917471927504135, 4055957887005023019, p);
    lemma_pow_double(7, 6553, 4055957887005023019, 2270837492942628639, p);
    lemma_pow_incr(7, 13106, 2270837492942628639, 15895862450598400473, p);
    lemma_pow_double(7, 13107, 15895862450598400473, 15907429390595540903, p);
    lemma_pow_double(7, 26214, 15907429390595540903, 9571849187322067488, p);
    lemma_pow_double(7, 52428, 9571849187322067488, 4541341506473167947, p);
    lemma_pow_incr(7, 104856, 4541341506473167947, 13342646475897591308, p);
    lemma_pow_double(7, 104857, 13342646475897591308, 6980271831054868468, p);
    lemma_pow_incr(7, 209714, 6980271831054868468, 11968414678554910634, p);
    lemma_pow_double(7, 209715, 11968414678554910634, 9815939365277946145, p);
    lemma_pow_double(7, 419430, 9815939365277946145, 15620185229717233314, p);
    lemma_pow_double(7, 838860, 15620185229717233314, 10616950601403447294, p);
    lemma_pow_incr(7, 1677720, 10616950601403447294, 531677932165793774, p);
    lemma_pow_double(7, 1677721, 531677932165793774, 16662824208101097746, p);
    lemma_pow_incr(7, 3355442, 16662824208101097746, 5959305040220178296, p);
    lemma_pow_double(7, 3355443, 5959305040220178296, 6422988881738978288, p);
    lemma_pow_double(7, 6710886, 6422988881738978288, 6417963550187649822, p);
    lemma_pow_double(7, 13421772, 6417963550187649822, 14252887398442191467, p);
    lemma_pow_incr(7, 26843544, 14252887398442191467, 7536491442022418664, p);
    lemma_pow_double(7, 26843545, 7536491442022418664, 11420510904403074233, p);
    lemma_pow_incr(7, 53687090, 11420510904403074233, 6156600053163182347, p);
    lemma_pow_double(7, 53687091, 6156600053163182347, 774671493430776042, p);
    lemma_pow_double(7, 107374182, 774671493430776042, 5396215078887381364, p);
    lemma_pow_double(7, 214748364, 5396215078887381364, 12728759107003177926, p);
    lemma_pow_incr(7, 429496728, 12728759107003177926, 15314337471363908198, p);
    lemma_pow_double(7, 429496729, 15314337471363908198, 5793645042898913638, p);
    lemma_pow_incr(7, 858993458, 5793645042898913638, 3662027161463226824, p);
    lemma_pow_double(7, 858993459, 3662027161463226824, 11820361339200135398, p);
    lemma_pow_double(7, 1717986918, 11820361339200135398, 10563623981652513853, p);
    lemma_pow_double(7, 3435973836, 10563623981652513853, 11556889392494533434, p);
    lemma_pow_double(7, 6871947672, 11556889392494533434, 5123117391711505057, p);
    lemma_pow_double(7, 13743895344, 5123117391711505057, 18163573378392062736, p);
    lemma_pow_double(7, 27487790688, 18163573378392062736, 17372647198866510400, p);
    lemma_pow_double(7, 54975581376, 17372647198866510400, 1220884775256242639, p);
    lemma_pow_double(7, 109951162752, 1220884775256242639, 1436240010618898855, p);
    lemma_pow_double(7, 219902325504, 1436240010618898855, 968157462317130011, p);
    lemma_pow_double(7, 439804651008, 968157462317130011, 993397133647309316, p);
    lemma_pow_double(7, 879609302016, 993397133647309316, 14359758886168776598, p);
    lemma_pow_double(7, 1759218604032, 14359758886168776598, 11469785989846425790, p);
    lemma_pow_double(7, 3518437208064, 11469785989846425790, 7202858824453247222, p);
    lemma_pow_double(7, 7036874416128, 7202858824453247222, 8980223327998268287, p);
    lemma_pow_double(7, 14073748832256, 8980223327998268287, 2898061628613144896, p);
    lemma_pow_double(7, 28147497664512, 2898061628613144896, 5148563552100513047, p);
    lemma_pow_double(7, 56294995329024, 5148563552100513047, 10405746850183322052, p);
    lemma_pow_double(7, 112589990658048, 10405746850183322052, 8376609452955824527, p);
    lemma_pow_double(7, 225179981316096, 8376609452955824527, 17819501121686609562, p);
    lemma_pow_double(7, 450359962632192, 17819501121686609562, 12701195747762323519, p);
    lemma_pow_double(7, 900719925264384, 12701195747762323519, 16093963071722629223, p);
    lemma_pow_double(7, 1801439850528768, 16093963071722629223, 18098504255140688579, p);
    lemma_pow_double(7, 3602879701057536, 18098504255140688579, 3705545293506004500, p);
    lemma_pow_double(7, 7205759402115072, 3705545293506004500, 12143967077249500439, p);
    lemma_pow_double(7, 14411518804230144, 12143967077249500439, 8898934198923663040, p);
    lemma_pow_double(7, 28823037608460288, 8898934198923663040, 14017153681711143730, p);
    lemma_pow_double(7, 57646075216920576, 14017153681711143730, 13369903252519103517, p);
    lemma_pow_double(7, 115292150433841152, 13369903252519103517, 2271703332821311793, p);
    lemma_pow_double(7, 230584300867682304, 2271703332821311793, 14026992134716723275, p);
    lemma_pow_double(7, 461168601735364608, 14026992134716723275, 2281812832982421726, p);
    lemma_pow_double(7, 922337203470729216, 2281812832982421726, 2625919085333925275, p);
    lemma_pow_double(7, 1844674406941458432, 2625919085333925275, 1373043270956696022, p);
}

/// `7^((p-1)/17)` modulo the Goldilocks prime.
proof fn lemma_seven_pow_n_over_17()
    ensures
        pow_mod(7, 1085102592318504960, 0xFFFF_FFFF_0000_0001) == 16301593560560007290,
{
    let p: int = 0xFFFF_FFFF_0000_0001;
    lemma_pow1(7);
    lemma_small_mod(7, p as nat);
    lemma_pow_double(7, 1, 7, 49, p);
    lemma_pow_incr(7, 2, 49, 343, p);
    lemma_pow_double(7, 3, 343, 117649, p);
    lemma_pow_incr(7, 6, 117649, 823543, p);
    lemma_pow_double(7, 7, 823543, 678223072849, p);
    lemma_pow_incr(7, 14, 678223072849, 4747561509943, p);
    lemma_pow_double(7, 15, 4747561509943, 1582037354089406189, p);
    lemma_pow_double(7, 30, 1582037354089406189, 6704211459967285318, p);
    lemma_pow_double(7, 60, 6704211459967285318, 12536486945555764682, p);
    lemma_pow_double(7, 120, 12536486945555764682, 8329639379454877396, p);
    lemma_pow_double(7, 240, 8329639379454877396, 9634757967695347772, p);
    lemma_pow_incr(7, 480, 9634757967695347772, 12103073565623681441, p);
    lemma_pow_double(7, 481, 12103073565623681441, 7391097021356298215, p);
    lemma_pow_incr(7, 962, 7391097021356298215, 14844191010664918863, p);
    lemma_pow_double(7, 963, 14844191010664918863, 12415576456582165859, p);
    lemma_pow_incr(7, 1926, 12415576456582165859, 13122058918416823729, p);
    lemma_pow_double(7, 1927, 13122058918416823729, 7897896591338819743, p);
    lemma_pow_incr(7, 3854, 7897896591338819743, 18391788000542569559, p);
    lemma_pow_double(7, 3855, 18391788000542569559, 5815952681263863745, p);
    lemma_pow_double(7, 7710, 5815952681263863745, 15534263258852221519, p);
    lemma_pow_double(7, 15420, 15534263258852221519, 9621442331152125603, p);
    lemma_pow_double(7, 30840, 9621442331152125603, 13847347385863248794, p);
    lemma_pow_double(7, 61680, 13847347385863248794, 17205675455212639060, p);
    lemma_pow_incr(7, 123360, 17205675455212639060, 9759263770000967494, p);
    lemma_pow_double(7, 123361, 9759263770000967494, 14407346328610363633, p);
    lemma_pow_incr(7, 246722, 14407346328610363633, 8617703953199623826, p);
    lemma_pow_double(7, 246723, 8617703953199623826, 18431779654498809450, p);
    lemma_pow_incr(7, 493446, 18431779654498809450, 18341993165004160224, p);
    lemma_pow_double(7, 493447, 18341993165004160224, 18143715114932847758, p);
    lemma_pow_incr(7, 986894, 18143715114932847758, 16325541388042428380, p);
    lemma_pow_double(7, 986895, 16325541388042428380, 87681681590930466, p);
    lemma_pow_double(7, 1973790, 87681681590930466, 1247600097974775228, p);
    lemma_pow_double(7, 3947580, 1247600097974775228, 263672500424845310, p);
    lemma_pow_double(7, 7895160, 263672500424845310, 14075661776324224620, p);
    lemma_pow_double(7, 15790320, 14075661776324224620, 1097754007496414739, p);
    lemma_pow_incr(7, 31580640, 1097754007496414739, 7684278052474903173, p);
    lemma_pow_double(7, 31580641, 7684278052474903173, 16912746553351552869, p);
    lemma_pow_incr(7, 63161282, 16912746553351552869, 7708761456973364157, p);
    lemma_pow_double(7, 63161283, 7708761456973364157, 7915739019813757092, p);
    lemma_pow_incr(7, 126322566, 7915739019813757092, 69940930452546681, p);
    lemma_pow_double(7, 126322567, 69940930452546681, 10242565372168891076, p);
    lemma_pow_incr(7, 252645134, 10242565372168891076, 16357725396938484569, p);
    lemma_pow_double(7, 252645135, 16357725396938484569, 9635924811972810304, p);
    lemma_pow_double(7, 505290270, 9635924811972810304, 17792655913659759447, p);
    lemma_pow_double(7, 1010580540, 17792655913659759447, 757864979510442991, p);
    lemma_pow_double(7, 2021161080, 757864979510442991, 5359388630104522475, p);
    lemma_pow_double(7, 4042322160, 5359388630104522475, 16844089689671372755, p);
    lemma_pow_double(7, 8084644320, 16844089689671372755, 3416859319420511225, p);
    lemma_pow_double(7, 16169288640, 3416859319420511225, 13225002848613916298, p);
    lemma_pow_double(7, 32338577280, 13225002848613916298, 3046446182183887513, p);
    lemma_pow_double(7, 64677154560, 3046446182183887513, 8471950025145571556, p);
    lemma_pow_double(7, 129354309120, 8471950025145571556, 14240312891968862088, p);
    lemma_pow_double(7, 258708618240, 14240312891968862088, 14284159170854690980, p);
    lemma_pow_double(7, 517417236480, 14284159170854690980, 2140736107784648890, p);
    lemma_pow_double(7, 1034834472960, 2140736107784648890, 720221585272617730, p);
    lemma_pow_double(7, 2069668945920, 720221585272617730, 14933742682021830494, p);
    lemma_pow_double(7, 4139337891840, 14933742682021830494, 16866753830962059859, p);
    lemma_pow_double(7, 8278675783680, 16866753830962059859, 4185523320037657098, p);
    lemma_pow_double(7, 16557351567360, 4185523320037657098, 17086191566025186696, p);
    lemma_pow_double(7, 33114703134720, 17086191566025186696, 1098680059505421076, p);
    lemma_pow_double(7, 66229406269440, 1098680059505421076, 16940429312545755789, p);
    lemma_pow_double(7, 132458812538880, 16940429312545755789, 16945016486212160087, p);
    lemma_pow_double(7, 264917625077760, 16945016486212160087, 18171560771947831624, p);
    lemma_pow_double(7, 529835250155520, 18171560771947831624, 14884189242943664099, p);
    lemma_pow_double(7, 1059670500311040, 14884189242943664099, 7182983899389742773, p);
    lemma_pow_double(7, 2119341000622080, 7182983899389742773, 7794706010606133772, p);
    lemma_pow_double(7, 4238682001244160, 7794706010606133772, 5944394147430185930, p);
    lemma_pow_double(7, 8477364002488320, 5944394147430185930, 11638363544692747458, p);
    lemma_pow_double(7, 16954728004976640, 11638363544692747458, 8942909788274506390, p);
    lemma_pow_double(7, 33909456009953280, 8942909788274506390, 10254463118692560346, p);
    lemma_pow_double(7, 67818912019906560, 10254463118692560346, 6509392022269312871, p);
    lemma_pow_double(7, 135637824039813120, 6509392022269312871, 3060481852759670200, p);
    lemma_pow_double(7, 271275648079626240, 3060481852759670200, 9492362781570530732, p);
    lemma_pow_double(7, 542551296159252480, 9492362781570530732, 16301593560560007290, p);
}

/// `7^((p-1)/257)` modulo the Goldilocks prime.
proof fn lemma_seven_pow_n_over_257()
    ensures
        pow_mod(7, 71777214277877760, 0xFFFF_FFFF_0000_0001) == 995085315851368103,
{
    let p: int = 0xFFFF_FFFF_0000_0001;
    lemma_pow1(7);
    lemma_small_mod(7, p as nat);
    lemma_pow_double(7, 1, 7, 49, p);
    lemma_pow_incr(7, 2, 49, 343, p);
    lemma_pow_double(7, 3, 343, 117649, p);
    lemma_pow_incr(7, 6, 117649, 823543, p);
    lemma_pow_double(7, 7, 823543, 678223072849, p);
    lemma_pow_incr(7, 14, 678223072849, 4747561509943, p);
    lemma_pow_double(7, 15, 4747561509943, 1582037354089406189, p);
    lemma_pow_incr(7, 30, 1582037354089406189, 11074261478625843323, p);
    lemma_pow_double(7, 31, 11074261478625843323, 14911712358349047125, p);
    lemma_pow_incr(7, 62, 14911712358349047125, 12148266161370408270, p);
    lemma_pow_double(7, 63, 12148266161370408270, 14177331716484271384, p);
    lemma_pow_incr(7, 126, 14177331716484271384, 7007601668316978083, p);
    lemma_pow_double(7, 127, 7007601668316978083, 1160753142525841411, p);
    lemma_pow_incr(7, 254, 1160753142525841411, 8125271997680889877, p);
    lemma_pow_double(7, 255, 8125271997680889877, 10915923311382173605, p);
    lemma_pow_double(7, 510, 10915923311382173605, 8682737361258234340, p);
    lemma_pow_double(7, 1020, 8682737361258234340, 13168992710278412212, p);
    lemma_pow_double(7, 2040, 13168992710278412212, 3615243740316660512, p);
    lemma_pow_double(7, 4080, 3615243740316660512, 9701552052102210316, p);
    lemma_pow_double(7, 8160, 9701552052102210316, 12082995573853045936, p);
    lemma_pow_double(7, 16320, 12082995573853045936, 2592469405483382171, p);
    lemma_pow_double(7, 32640, 2592469405483382171, 8929377406043347353, p);
    lemma_pow_double(7, 65280, 8929377406043347353, 9795840452586307152, p);
    lemma_pow_incr(7, 130560, 9795840452586307152, 13230650959860397101, p);
    lemma_pow_double(7, 130561, 13230650959860397101, 13828748494014249279, p);
    lemma_pow_incr(7, 261122, 13828748494014249279, 4567519111026823348, p);
    lemma_pow_double(7, 261123, 4567519111026823348, 9911383694283361932, p);
    lemma_pow_incr(7, 522246, 9911383694283361932, 14039453651739780561, p);
    lemma_pow_double(7, 522247, 14039453651739780561, 6677584045842437523, p);
    lemma_pow_incr(7, 1044494, 6677584045842437523, 9849600182067894019, p);
    lemma_pow_double(7, 1044495, 9849600182067894019, 10583023550344909108, p);
    lemma_pow_incr(7, 2088990, 10583023550344909108, 294188574756026472, p);
    lemma_pow_double(7, 2088991, 294188574756026472, 7184320642221521177, p);
    lemma_pow_incr(7, 4177982, 7184320642221521177, 13396756356721479597, p);
    lemma_pow_double(7, 4177983, 13396756356721479597, 5302980850127352725, p);
    lemma_pow_incr(7, 8355966, 5302980850127352725, 227377812062300433, p);
    lemma_pow_double(7, 8355967, 227377812062300433, 8373948673660040785, p);
    lemma_pow_incr(7, 16711934, 8373948673660040785, 3277408507376532532, p);
    lemma_pow_double(7, 16711935, 3277408507376532532, 10187910960120918295, p);
    lemma_pow_double(7, 33423870, 10187910960120918295, 1234511965033452377, p);
    lemma_pow_double(7, 66847740, 1234511965033452377, 15363200638052948867, p);
    lemma_pow_double(7, 133695480, 15363200638052948867, 1236027695563809108, p);
    lemma_pow_double(7, 267390960, 1236027695563809108, 12002353154524589429, p);
    lemma_pow_double(7, 534781920, 12002353154524589429, 14027517171084490203, p);
    lemma_pow_double(7, 1069563840, 14027517171084490203, 2711851439569513933, p);
    lemma_pow_double(7, 2139127680, 2711851439569513933, 80652374890911913, p);
    lemma_pow_double(7, 4278255360, 80652374890911913, 5283607704788425345, p);
    lemma_pow_double(7, 8556510720, 5283607704788425345, 15514810852250684057, p);
    lemma_pow_double(7, 17113021440, 15514810852250684057, 13397417830393806946, p);
    lemma_pow_double(7, 34226042880, 13397417830393806946, 16359729400225625612, p);
    lemma_pow_double(7, 68452085760, 16359729400225625612, 8019533974815212444, p);
    lemma_pow_double(7, 136904171520, 8019533974815212444, 9655755660440986855, p);
    lemma_pow_double(7, 273808343040, 9655755660440986855, 3604536941271117731, p);
    lemma_pow_double(7, 547616686080, 3604536941271117731, 17307879323250707139, p);
    lemma_pow_double(7, 1095233372160, 17307879323250707139, 16869139653157226251, p);
    lemma_pow_double(7, 2190466744320, 16869139653157226251, 6953284473670099805, p);
    lemma_pow_double(7, 4380933488640, 6953284473670099805, 18224581395058808609, p);
    lemma_pow_double(7, 8761866977280, 18224581395058808609, 12317229062629230801, p);
    lemma_pow_double(7, 17523733954560, 12317229062629230801, 8521080430804482018, p);
    lemma_pow_double(7, 35047467909120, 8521080430804482018, 1553296775282575040, p);
    lemma_pow_double(7, 70094935818240, 1553296775282575040, 13200482976866298980, p);
    lemma_pow_double(7, 140189871636480, 13200482976866298980, 14925891398157497804, p);
    lemma_pow_double(7, 280379743272960, 14925891398157497804, 15678887058344505597, p);
    lemma_pow_double(7, 560759486545920, 15678887058344505597, 14658776698600081839, p);
    lemma_pow_double(7, 1121518973091840, 14658776698600081839, 16565152875265738852, p);
    lemma_pow_double(7, 2243037946183680, 16565152875265738852, 5984943436188102888, p);
    lemma_pow_double(7, 4486075892367360, 5984943436188102888, 14921717924877542342, p);
    lemma_pow_double(7, 8972151784734720, 14921717924877542342, 1654982787239893223, p);
    lemma_pow_double(7, 17944303569469440, 1654982787239893223, 18353445258623017512, p);
    lemma_pow_double(7, 35888607138938880, 18353445258623017512, 995085315851368103, p);
}

/// `7^((p-1)/65537)` modulo the Goldilocks prime.
proof fn lemma_seven_pow_n_over_65537()
    ensures
        pow_mod(7, 281470681743360, 0xFFFF_FFFF_0000_0001) == 8478886009461009681,
{
    let p: int = 0xFFFF_FFFF_0000_0001;
    lemma_pow1(7);
    lemma_small_mod(7, p as nat);
    lemma_pow_double(7, 1, 7, 49, p);
    lemma_pow_incr(7, 2, 49, 343, p);
    lemma_pow_double(7, 3, 343, 117649, p);
    lemma_pow_incr(7, 6, 117649, 823543, p);
    lemma_pow_double(7, 7, 823543, 678223072849, p);
    lemma_pow_incr(7, 14, 678223072849, 4747561509943, p);
    lemma_pow_double(7, 15, 4747561509943, 1582037354089406189, p);
    lemma_pow_incr(7, 30, 1582037354089406189, 11074261478625843323, p);
    lemma_pow_double(7, 31, 11074261478625843323, 14911712358349047125, p);
    lemma_pow_incr(7, 62, 14911712358349047125, 12148266161370408270, p);
    lemma_pow_double(7, 63, 12148266161370408270, 14177331716484271384, p);
    lemma_pow_incr(7, 126, 14177331716484271384, 7007601668316978083, p);
    lemma_pow_double(7, 127, 7007601668316978083, 1160753142525841411, p);
    lemma_pow_incr(7, 254, 1160753142525841411, 8125271997680889877, p);
    lemma_pow_double(7, 255, 8125271997680889877, 10915923311382173605, p);
    lemma_pow_incr(7, 510, 10915923311382173605, 2624486902016877951, p);
    lemma_pow_double(7, 511, 2624486902016877951, 1179017105118043277, p);
    lemma_pow_incr(7, 1022, 1179017105118043277, 8253119735826302939, p);
    lemma_pow_double(7, 1023, 8253119735826302939, 13682469552810377440, p);
    lemma_pow_incr(7, 2046, 13682469552810377440, 3543566522599720475, p);
    lemma_pow_double(7, 2047, 3543566522599720475, 12252646851770615269, p);
    lemma_pow_incr(7, 4094, 12252646851770615269, 11981551684735969599, p);
    lemma_pow_double(7, 4095, 11981551684735969599, 9343193256669382154, p);
    lemma_pow_incr(7, 8190, 9343193256669382154, 10062120588441922115, p);
    lemma_pow_double(7, 8191, 10062120588441922115, 4133221502128927102, p);
    lemma_pow_incr(7, 16382, 4133221502128927102, 10485806445487905393, p);
    lemma_pow_double(7, 16383, 10485806445487905393, 5861853314594190514, p);
    lemma_pow_incr(7, 32766, 5861853314594190514, 4139485063330164956, p);
    lemma_pow_double(7, 32767, 4139485063330164956, 7004045467739516513, p);
    lemma_pow_incr(7, 65534, 7004045467739516513, 12134830135347446949, p);
    lemma_pow_double(7, 65535, 12134830135347446949, 618113109518621269, p);
    lemma_pow_double(7, 131070, 618113109518621269, 10057574059836717585, p);
    lemma_pow_double(7, 262140, 10057574059836717585, 11436575600859740313, p);
    lemma_pow_double(7, 524280, 11436575600859740313, 2460531272136303351, p);
    lemma_pow_double(7, 1048560, 2460531272136303351, 5287351674330089703, p);
    lemma_pow_double(7, 2097120, 5287351674330089703, 2729558173611838869, p);
    lemma_pow_double(7, 4194240, 2729558173611838869, 5809869834850305452, p);
    lemma_pow_double(7, 8388480, 5809869834850305452, 4380238239217790048, p);
    lemma_pow_double(7, 16776960, 4380238239217790048, 10313688370767105378, p);
    lemma_pow_double(7, 33553920, 10313688370767105378, 1116132233887293652, p);
    lemma_pow_double(7, 67107840, 1116132233887293652, 8201916556687100419, p);
    lemma_pow_double(7, 134215680, 8201916556687100419, 9569002298025400893, p);
    lemma_pow_double(7, 268431360, 9569002298025400893, 3860342023949954178, p);
    lemma_pow_double(7, 536862720, 3860342023949954178, 2518827640559301834, p);
    lemma_pow_double(7, 1073725440, 2518827640559301834, 4408381949760333744, p);
    lemma_pow_double(7, 2147450880, 4408381949760333744, 5214785644524920463, p);
    lemma_pow_double(7, 4294901760, 5214785644524920463, 16359673064222316581, p);
    lemma_pow_double(7, 8589803520, 16359673064222316581, 7241809583754189836, p);
    lemma_pow_double(7, 17179607040, 7241809583754189836, 12639803007403283714, p);
    lemma_pow_double(7, 34359214080, 12639803007403283714, 12324653451830581392, p);
    lemma_pow_double(7, 68718428160, 12324653451830581392, 3248773168955372845, p);
    lemma_pow_double(7, 137436856320, 3248773168955372845, 11622038198969340988, p);
    lemma_pow_double(7, 274873712640, 11622038198969340988, 13512512774593501075, p);
    lemma_pow_double(7, 549747425280, 13512512774593501075, 7628844061018354094, p);
    lemma_pow_double(7, 1099494850560, 7628844061018354094, 10832619856158324041, p);
    lemma_pow_double(7, 2198989701120, 10832619856158324041, 6522121551337605094, p);
    lemma_pow_double(7, 4397979402240, 6522121551337605094, 4924686556790045269, p);
    lemma_pow_double(7, 8795958804480, 4924686556790045269, 8233486007872169718, p);
    lemma_pow_double(7, 17591917608960, 8233486007872169718, 6861851865518519982, p);
    lemma_pow_double(7, 35183835217920, 6861851865518519982, 16452032933035937120, p);
    lemma_pow_double(7, 70367670435840, 16452032933035937120, 7318164361609642178, p);
    lemma_pow_double(7, 140735340871680, 7318164361609642178, 8478886009461009681, p);
}

/// A divisor above one of `p - 1 = 2^32 * 3 * 5 * 17 * 257 * 65537` is
/// divisible by one of the primes 2, 3, 5, 17, 257, 65537.
proof fn lemma_divisor_has_prime_factor(m: int)
    requires
        m > 1,
        18446744069414584320int % m == 0,
    ensures
        m % 2 == 0 || m % 3 == 0 || m % 5 == 0 || m % 17 == 0 || m % 257 == 0 || m % 65537 == 0,
{
    if !(m % 2 == 0 || m % 3 == 0 || m % 5 == 0 || m % 17 == 0 || m % 257 == 0 || m % 65537 == 0) {
        lemma_two_prime();
        lemma_three_prime();
        lemma_five_prime();
        lemma_seventeen_prime();
        lemma_257_prime();
        lemma_65537_prime();
        vstd::arithmetic::power2::lemma2_to64();
        vstd::arithmetic::power2::lemma_pow2(32);
        assert(pow(2, 32) == 4294967296);
        assert(pow(2, 32) * 4294967295 == 18446744069414584320int);
        lemma_euclid_pow(m, 2, 32, 4294967295);
        assert(3 * 1431655765 == 4294967295int);
        lemma_euclid(m, 3, 1431655765);
        assert(5 * 286331153 == 1431655765int);
        lemma_euclid(m, 5, 286331153);
        assert(17 * 16843009 == 286331153int);
        lemma_euclid(m, 17, 16843009);
        assert(257 * 65537 == 16843009int);
        lemma_euclid(m, 257, 65537);
        assert(65537 * 1 == 65537int);
        lemma_euclid(m, 65537, 1);
        lemma_small_mod(1, m as nat);
    }
}

/// `7^(g t)` is one when `7^g` is.
proof fn lemma_power_of_one(g: nat, t: nat)
    requires
        pow_mod(7, g, 0xFFFF_FFFF_0000_0001) == 1,
    ensures
        pow_mod(7, g * t, 0xFFFF_FFFF_0000_0001) == 1,
{
    let p: int = 0xFFFF_FFFF_0000_0001;
    lemma_pow_multiplies(7, g, t);
    lemma_pow_mod_noop(pow(7, g), t, p);
    lemma1_pow(t);
    lemma_small_mod(1, p as nat);
}

/// 7 has order `p - 1`: no smaller positive power of it is one.
pub proof fn lemma_seven_order(d: nat)
    requires
        0 < d < 18446744069414584320,
    ensures
        pow_mod(7, d, 0xFFFF_FFFF_0000_0001) != 1,
{
    let p: int = 0xFFFF_FFFF_0000_0001;
    let n: nat = 18446744069414584320;
    if pow_mod(7, d, p) == 1 {
        lemma_seven_pow_n();
        lemma_gcd_divides(n, d);
        let g = gcd_spec(n, d);
        if g > d {
            lemma_small_mod(d, g);
        }
        lemma_pow_gcd_one(7, n, d, p);
        lemma_fundamental_div_mod(n as int, g as int);
        let m = n as int / g as int;
        assert(n == g * m);
        assert(m > 1) by (nonlinear_arith)
            requires
                n == g * m,
                0 < g <= d,
                d < n;
        lemma_mod_multiples_basic(g as int, m);
        assert(g * m == m * g) by (nonlinear_arith);
        lemma_divisor_has_prime_factor(m);
        lemma_seven_pow_n_over_2();
        lemma_seven_pow_n_over_3();
        lemma_seven_pow_n_over_5();
        lemma_seven_pow_n_over_17();
        lemma_seven_pow_n_over_257();
        lemma_seven_pow_n_over_65537();
        let q: int = if m % 2 == 0 {
            2
        } else if m % 3 == 0 {
            3
        } else if m % 5 == 0 {
            5
        } else if m % 17 == 0 {
            17
        } else if m % 257 == 0 {
            257
        } else {
            65537
        };
        lemma_fundamental_div_mod(m, q);
        let t = m / q;
        assert(m == q * t);
        assert(t > 0) by (nonlinear_arith)
            requires
                m == q * t,
                m > 1,
                q > 1;
        assert(n == q * (g * t)) by (nonlinear_arith)
            requires
                n == g * m,
                m == q * t;
        lemma_div_multiples_vanish(g * t, q);
        assert(n as int / q == g * t);
        lemma_power_of_one(g, t as nat);
    }
}
/// No power of 7 is zero modulo `p`.
proof fn lemma_seven_pow_nonzero(k: nat)
    ensures
        pow_mod(7, k, 0xFFFF_FFFF_0000_0001) != 0,
{
    let p: int = 0xFFFF_FFFF_0000_0001;
    let n: nat = 18446744069414584320;
    if pow_mod(7, k, p) == 0 {
        lemma_seven_pow_n();
        lemma_power_of_one(n, k);
        lemma_pow_multiplies(7, k, n);
        lemma_pow_mod_noop(pow(7, k), n, p);
        lemma0_pow(n);
        lemma_small_mod(0, p as nat);
        assert(k * n == n * k) by (nonlinear_arith);
    }
}

/// The powers `7^0, .., 7^(p-2)` are distinct modulo `p`.
proof fn lemma_seven_powers_distinct(i: nat, j: nat)
    requires
        i < j < 18446744069414584320,
    ensures
        pow_mod(7, i, 0xFFFF_FFFF_0000_0001) != pow_mod(7, j, 0xFFFF_FFFF_0000_0001),
{
    let p: int = 0xFFFF_FFFF_0000_0001;
    let n: nat = 18446744069414584320;
    if pow_mod(7, i, p) == pow_mod(7, j, p) {
        let a = pow(7, (n - j) as nat);
        lemma_mul_mod_noop_right(a, pow(7, i), p);
        lemma_mul_mod_noop_right(a, pow(7, j), p);
        lemma_pow_adds(7, (n - j) as nat, i);
        lemma_pow_adds(7, (n - j) as nat, j);
        assert(((n - j) + j) as nat == n);
        lemma_seven_pow_n();
        lemma_seven_order((n - j + i) as nat);
    }
}

/// Every nonzero residue modulo `p` is a power of 7.
pub proof fn lemma_seven_generates(v: int)
    requires
        0 < v < 0xFFFF_FFFF_0000_0001,
    ensures
        exists|i: nat| i < 18446744069414584320 && #[trigger] pow_mod(7, i, 0xFFFF_FFFF_0000_0001) == v,
{
    let p: int = 0xFFFF_FFFF_0000_0001;
    let n: int = 18446744069414584320;
    let dom = set_int_range(0, n);
    let f = |i: int| pow_mod(7, i as nat, p);
    let img = dom.map(f);
    let range = set_int_range(1, p);
    lemma_int_range(0, n);
    lemma_int_range(1, p);
    assert(injective_on(f, dom)) by {
        assert forall|x1: int, x2: int| dom.contains(x1) && dom.contains(x2) && #[trigger] f(x1) == #[trigger] f(x2) implies x1 == x2 by {
            if x1 < x2 {
                lemma_seven_powers_distinct(x1 as nat, x2 as nat);
            } else if x2 < x1 {
                lemma_seven_powers_distinct(x2 as nat, x1 as nat);
            }
        }
    }
    lemma_map_size(dom, img, f);
    assert(img.subset_of(range)) by {
        assert forall|y: int| img.contains(y) implies range.contains(y) by {
            let i = choose|i: int| dom.contains(i) && f(i) == y;
            lemma_seven_pow_nonzero(i as nat);
            lemma_mod_bound(pow(7, i as nat), p);
        }
    }
    lemma_subset_equality(img, range);
    assert(range.contains(v));
    assert(img.contains(v));
    let i = choose|i: int| dom.contains(i) && f(i) == v;
    assert(pow_mod(7, i as nat, p) == v);
}

/// A product of two nonzero residues modulo the Goldilocks prime is nonzero.
pub proof fn lemma_goldilocks_products_nonzero()
    ensures
        forall|a: int, b: int|
            0 < a < 0xFFFF_FFFF_0000_0001 && 0 < b < 0xFFFF_FFFF_0000_0001 ==> #[trigger] ((a * b)
                % 0xFFFF_FFFF_0000_0001) != 0,
{
    let p: int = 0xFFFF_FFFF_0000_0001;
    assert forall|a: int, b: int| 0 < a < p && 0 < b < p implies #[trigger] ((a * b) % p) != 0 by {
        lemma_seven_generates(a);
        lemma_seven_generates(b);
        let i = choose|i: nat| i < 18446744069414584320 && #[trigger] pow_mod(7, i, p) == a;
        let j = choose|j: nat| j < 18446744069414584320 && #[trigger] pow_mod(7, j, p) == b;
        lemma_mul_mod_noop(pow(7, i), pow(7, j), p);
        lemma_pow_adds(7, i, j);
        lemma_seven_pow_nonzero(i + j);
    }
}

/// Fermat's little theorem for the Goldilocks prime: `v * v^(p-2)` is one
/// modulo `p` for every nonzero residue `v`.
pub proof fn lemma_goldilocks_fermat()
    ensures
        forall|v: int| 0 < v < 0xFFFF_FFFF_0000_0001 ==> #[trigger] fm(
            v,
            pow_mod(v, (0xFFFF_FFFF_0000_0001 - 2) as nat, 0xFFFF_FFFF_0000_0001),
            0xFFFF_FFFF_0000_0001,
        ) == 1,
{
    let p: int = 0xFFFF_FFFF_0000_0001;
    let n: nat = 18446744069414584320;
    assert forall|v: int| 0 < v < p implies #[trigger] fm(v, pow_mod(v, (p - 2) as nat, p), p) == 1 by {
        lemma_seven_generates(v);
        let i = choose|i: nat| i < 18446744069414584320 && #[trigger] pow_mod(7, i, p) == v;
        let e: nat = (p - 2) as nat;
        lemma_mul_mod_noop_right(v, pow(v, e), p);
        lemma_pow_adds(v, 1, e);
        lemma_pow1(v);
        assert((1 + e) as nat == n);
        lemma_pow_mod_noop(pow(7, i), n, p);
        lemma_pow_multiplies(7, i, n);
        lemma_seven_pow_n();
        lemma_power_of_one(n, i);
        assert(i * n == n * i) by (nonlinear_arith);
    }
}

/// The Goldilocks field has no zero divisors.
pub proof fn lemma_goldilocks_no_zero_divisors()
    ensures
        no_zero_divisors::<Goldilocks>(),
{
    lemma_goldilocks_products_nonzero();
}

/// In the Goldilocks field `v^(p-2)` is the inverse of every nonzero `v`.
pub proof fn lemma_goldilocks_inverses_correct()
    ensures
        inverses_correct::<Goldilocks>(),
{
    lemma_goldilocks_fermat();
}

} // verus!
