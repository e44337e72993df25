use newhope::params::N;
use newhope::poly::{invntt, ntt, poly_frombytes, poly_tobytes, pointwise, uniform};
use newhope::reduce::{barrett_reduce, montgomery_reduce};

#[test]
fn test_pointwise() {
    let (a, b, mut r) = ([3; N], [4; N], [0; N]);
    pointwise(&mut r, &a, &b);
    for i in 0..N {
        assert_eq!(r[i], 12);
    }

    let (a, b, mut r) = ([333; N], [444; N], [0; N]);
    pointwise(&mut r, &a, &b);
    for i in 0..N {
        assert_eq!(r[i], 384);
    }

    let (a, b, mut r) = ([33333; N], [44444; N], [0; N]);
    pointwise(&mut r, &a, &b);
    for i in 0..N {
        assert_eq!(r[i], 12902);
    }
}

#[test]
fn test_add() {
    let (a, b, mut r) = ([3; N], [4; N], [0; N]);
    newhope::poly::add(&mut r, &a, &b);
    for i in 0..N {
        assert_eq!(r[i], 7);
    }

    let (a, b, mut r) = ([333; N], [444; N], [0; N]);
    newhope::poly::add(&mut r, &a, &b);
    for i in 0..N {
        assert_eq!(r[i], 777);
    }

    let (a, b, mut r) = ([33333; N], [44444; N], [0; N]);
    newhope::poly::add(&mut r, &a, &b);
    for i in 0..N {
        assert_eq!(r[i], 12241);
    }
}

#[test]
fn poly_test_uniform() {
    let output = [8191, 9551, 1218, 1909, 506, 6242, 1802, 657, 7190, 8637, 2819, 7895, 2139, 8660, 11418, 11417, 6291, 3367, 1613, 10371, 3896, 8853, 1071, 196, 1945, 9511, 5769, 2080, 11104, 11914, 6761, 4048, 5301, 8416, 7019, 2201, 11702, 2079, 9501, 1375, 7113, 7668, 9316, 5000, 12099, 6154, 10778, 3146, 10136, 11654, 3815, 842, 9780, 9909, 6110, 3189, 11145, 11403, 6704, 742, 1148, 5188, 8866, 1588, 571, 5268, 1100, 8215, 9684, 1711, 7862, 503, 8442, 10926, 2157, 3668, 2800, 513, 506, 10162, 12078, 391, 5086, 3877, 10673, 9855, 7654, 2161, 81, 7026, 9424, 5657, 10063, 673, 2064, 1200, 9482, 4031, 11217, 326, 220, 1849, 10755, 8418, 2492, 9933, 7636, 4573, 5948, 9192, 0, 4441, 2014, 8367, 3909, 4491, 1315, 7752, 6452, 9054, 10189, 471, 4300, 9714, 5631, 511, 10933, 6528, 4528, 6204, 2221, 9091, 9760, 4125, 180, 11691, 6568, 5727, 4684, 10107, 2285, 728, 2787, 11373, 4600, 5206, 4987, 4997, 826, 10575, 7043, 10843, 4482, 3775, 6385, 5268, 9138, 11426, 11697, 8812, 1564, 8368, 10631, 6864, 1671, 1907, 10709, 12134, 10253, 11396, 1971, 9692, 4852, 4474, 1597, 9021, 2198, 11270, 2657, 130, 7886, 3572, 9315, 4183, 4258, 4916, 7834, 1849, 10615, 11028, 2550, 5417, 29, 8705, 1967, 9038, 3744, 11681, 5025, 6733, 3292, 3376, 1773, 8698, 1768, 250, 10509, 5132, 2691, 5075, 1697, 1209, 6107, 3821, 9686, 6686, 11809, 6601, 4507, 7643, 1233, 9030, 7562, 7356, 3584, 3042, 3765, 903, 431, 10224, 7677, 8912, 7157, 8011, 12069, 4970, 3591, 3253, 12226, 508, 4034, 6437, 8525, 337, 11849, 449, 11924, 2952, 11997, 5795, 10820, 11583, 7548, 10991, 4841, 3526, 11254, 4366, 8679, 10044, 850, 9636, 11267, 11585, 5379, 3209, 3513, 11686, 8166, 2544, 8534, 5001, 879, 2204, 8130, 6258, 5296, 11111, 11207, 9934, 2051, 11557, 354, 727, 9063, 5644, 9311, 10273, 7405, 9837, 5651, 4164, 3100, 3134, 7738, 7479, 9201, 1390, 9803, 7896, 417, 4129, 3602, 6995, 11402, 9966, 3660, 7021, 6723, 12080, 2513, 8640, 3232, 1480, 11538, 8935, 9910, 9303, 3200, 502, 3052, 10342, 11650, 3987, 548, 7403, 6473, 7507, 2553, 5903, 7107, 9098, 8533, 8662, 6160, 3953, 11331, 8506, 11057, 117, 7600, 10640, 6738, 3976, 10984, 3758, 10946, 176, 7266, 10027, 10239, 2537, 8186, 5027, 798, 10865, 1512, 1780, 5524, 16, 6786, 7760, 12230, 2287, 3957, 1369, 4822, 7564, 4190, 5516, 9249, 2372, 11040, 3872, 6538, 6997, 4628, 11758, 1335, 7848, 5118, 3450, 4156, 11664, 12152, 8434, 7638, 469, 10259, 1559, 11118, 2535, 9996, 11002, 6915, 8155, 8928, 4439, 7955, 8512, 10494, 2275, 2820, 3668, 844, 6512, 700, 9578, 10418, 4576, 6824, 5445, 8295, 9905, 11037, 2720, 177, 1998, 5773, 5577, 8568, 6106, 1578, 2623, 11254, 3728, 8339, 11609, 901, 3837, 5680, 1953, 6450, 5739, 5368, 437, 6130, 2461, 9821, 3338, 7799, 1734, 9457, 3210, 618, 12095, 11227, 9481, 5003, 9864, 9486, 4805, 10530, 10275, 3713, 3191, 8425, 7610, 6143, 10536, 9471, 12108, 11352, 5842, 4592, 8727, 2563, 627, 5869, 1548, 1970, 1733, 5160, 7319, 2750, 1370, 4374, 8841, 5858, 2395, 821, 11197, 6565, 10076, 1307, 4280, 2759, 5462, 11212, 7327, 2809, 10076, 6189, 3294, 3639, 9909, 6510, 6751, 6637, 5006, 2045, 6363, 6459, 8260, 517, 526, 4933, 7061, 4094, 609, 11396, 11859, 1884, 2154, 9985, 3415, 9713, 2624, 9119, 2582, 2898, 1077, 6098, 6873, 7636, 1216, 510, 7008, 5556, 3099, 140, 7852, 5143, 11168, 2943, 4080, 4698, 2880, 2050, 5096, 6547, 1246, 10322, 12102, 6339, 9526, 9017, 2933, 5237, 4288, 978, 8122, 9914, 473, 5252, 8371, 1831, 3297, 6602, 11880, 2108, 3526, 489, 4624, 7733, 5017, 5687, 5364, 10303, 5459, 6893, 7953, 9696, 11722, 9930, 6897, 2128, 7722, 10462, 11267, 4228, 10659, 10603, 6664, 6249, 5615, 1540, 8318, 6310, 10739, 10148, 7620, 6891, 2079, 6683, 2139, 250, 11616, 1093, 5333, 8172, 7227, 6995, 2887, 3080, 10395, 4221, 2389, 2153, 849, 12038, 2003, 6500, 5349, 494, 1380, 12157, 12066, 11883, 4276, 11020, 7254, 7453, 5161, 10804, 2660, 966, 1018, 2207, 1919, 1902, 11147, 4791, 8320, 11575, 4716, 3079, 9846, 9287, 1032, 11241, 1394, 5998, 6589, 9878, 1941, 10585, 8634, 7300, 6239, 9786, 6912, 3962, 5705, 7836, 856, 11593, 6416, 12000, 6077, 10059, 6409, 5228, 4950, 7755, 7622, 7991, 10603, 4483, 9815, 8869, 8213, 4161, 11312, 5749, 3181, 10880, 6706, 3862, 1495, 6259, 7778, 5855, 10255, 4297, 3839, 40, 11469, 5150, 11437, 7803, 12204, 7802, 8663, 2994, 8102, 2266, 9498, 3676, 2296, 7993, 10904, 7745, 7537, 5133, 3984, 3847, 11128, 2428, 1550, 2251, 6529, 11296, 11133, 5886, 9540, 12197, 3360, 3645, 1185, 7934, 10282, 980, 7621, 10820, 9237, 2820, 2466, 3738, 10546, 3830, 10867, 12082, 6906, 5087, 7873, 2023, 4363, 4935, 12271, 11140, 1360, 7186, 643, 1483, 7120, 12039, 9611, 5539, 4611, 8194, 10072, 7102, 1369, 11835, 589, 2000, 4633, 11693, 7039, 4831, 3929, 1482, 8896, 6305, 9889, 266, 11215, 3320, 9714, 797, 7661, 5084, 170, 9978, 839, 1444, 11593, 10540, 1367, 562, 8558, 11009, 11553, 11346, 1196, 12044, 2744, 12154, 3239, 5068, 3958, 11638, 11568, 6494, 10462, 9510, 1027, 9255, 3977, 11074, 5863, 5587, 4215, 1234, 2356, 10017, 3039, 1033, 3194, 9947, 7181, 3897, 3297, 4471, 1886, 11560, 9605, 9564, 7603, 6983, 11341, 607, 9704, 2034, 2619, 10263, 6901, 2334, 4442, 10645, 3295, 7080, 7575, 12108, 5211, 6594, 2354, 8783, 10934, 3268, 2013, 11886, 332, 3782, 8703, 5932, 10426, 2685, 3651, 8770, 2860, 442, 3116, 652, 6096, 9130, 5976, 1138, 6162, 11681, 6926, 5477, 3670, 11878, 2131, 11635, 7647, 832, 181, 6921, 11873, 6041, 6654, 9636, 4499, 10917, 4146, 6173, 5937, 4144, 2548, 10815, 2969, 2305, 9795, 1849, 1605, 997, 3332, 11247, 7949, 496, 11367, 9238, 9257, 580, 7601, 3383, 2990, 8716, 57, 1176, 9446, 12266, 10196, 3664, 6232, 8377, 12086, 8505, 1625, 8735, 1036, 12015, 11965, 2351, 2335, 10495, 1008, 492, 7955, 1627, 8529, 9386, 10516, 6782, 12192, 12202, 12072, 7291, 11030, 8651, 2358, 12121, 6461, 1040, 1014, 1108, 11560, 1927, 5139, 9494, 7473, 10729, 3213, 11121, 6656, 1956, 3694, 8777, 9918, 3154, 6010, 11639, 5086, 10542, 7071, 8305, 1348, 5724, 5869, 1392, 6238, 8830, 11979, 9270, 7850, 3051, 6817, 7518, 96, 894, 3631, 9777, 11654, 11984, 3050, 674, 5540, 42, 4655, 6145, 9771, 7205, 6522, 4602, 8817, 10648, 1086, 602, 4419, 3694, 8262, 4017, 10681, 3881, 1052, 2361, 12004, 3174, 776, 8340, 8925, 6870, 4320, 9477, 6765, 12117, 10480, 10355, 6809, 247, 8136, 3650, 5200, 6508, 11996, 1427, 5844, 203, 4824, 10552, 4090];
    let nonce = [5; 32];
    let mut a = [0; N];

    uniform(&mut a, &nonce);

    for i in 0..N {
        assert_eq!(a[i], output[i]);
    }
}

#[test]
fn test_frombytes_tobytes() {
    let a = [35572; N];

    let b = poly_tobytes(&a);
    let a = poly_frombytes(&b);

    for i in 0..N {
        assert_eq!(a[i], 10994);
    }
}

#[test]
fn test_montgomery_reduce() {
    assert_eq!(montgomery_reduce(3), 1728);
    assert_eq!(montgomery_reduce(34), 7295);
    assert_eq!(montgomery_reduce(345), 2096);
    assert_eq!(montgomery_reduce(3456), 12127);
    assert_eq!(montgomery_reduce(34567), 2412);
    assert_eq!(montgomery_reduce(345678), 4150);
    assert_eq!(montgomery_reduce(3456789), 9817);
    assert_eq!(montgomery_reduce(34567890), 12147);
}

#[test]
fn test_barrett_reduce() {
    assert_eq!(barrett_reduce(3), 3);
    assert_eq!(barrett_reduce(34), 34);
    assert_eq!(barrett_reduce(345), 345);
    assert_eq!(barrett_reduce(3456), 3456);
    assert_eq!(barrett_reduce(34567), 9989);
}

#[test]
fn barrett_keeps_canonical_values() {
    for a in 0..12289u16 {
        assert_eq!(barrett_reduce(a), a);
    }
    for a in 0..=u16::MAX {
        let r = barrett_reduce(a);
        assert!(r <= 16379);
        assert_eq!(r % 12289, a % 12289);
    }
}

#[test]
fn montgomery_reduce_is_division_by_radix() {
    for a in [0u32, 1, 12288, 100_000, 805_294_080, 1_073_491_968, 1_073_491_969, u32::MAX] {
        let r = montgomery_reduce(a) as u64;
        assert_eq!((r * 262144) % 12289, a as u64 % 12289);
        assert!(r <= 12289 + a as u64 / 262144);
    }
}

#[test]
fn uniform_is_deterministic() {
    let (mut a, mut b) = ([0; N], [0; N]);
    uniform(&mut a, &[9; 32]);
    uniform(&mut b, &[9; 32]);
    assert_eq!(a, b);
    let mut c = [0; N];
    uniform(&mut c, &[10; 32]);
    assert_ne!(a, c);
    assert!(a.iter().all(|&x| x < 12289));
}

#[test]
fn ntt_exact_values() {
    let mut p = [0u16; N];
    for i in 0..N {
        p[i] = ((i * 7 + 3) % 12289) as u16;
    }
    ntt(&mut p);
    assert_eq!(&p[..6], &[4384, 7483, 3247, 13183, 5954, 10263]);
    assert!(p.iter().all(|&x| x < 16384));

    let mut x = [0u16; N];
    for i in 0..N {
        x[i] = ((i * 5 + 1) % 16384) as u16;
    }
    invntt(&mut x);
    assert_eq!(&x[..6], &[8703, 8960, 6170, 4832, 10747, 9955]);
}

fn bitrev10(i: usize) -> usize {
    let mut r = 0;
    for b in 0..10 {
        r |= ((i >> b) & 1) << (9 - b);
    }
    r
}

#[test]
fn invntt_after_ntt_gives_bit_reversed_input_mod_q() {
    let mut p = [0u16; N];
    for i in 0..N {
        p[i] = ((i * 31 + 17) % 12289) as u16;
    }
    let mut t = p;
    ntt(&mut t);
    invntt(&mut t);
    for i in 0..N {
        assert_eq!(t[i] % 12289, p[bitrev10(i)]);
    }
}

#[test]
fn transform_product_is_negacyclic_product() {
    let mut a = [0u16; N];
    let mut b = [0u16; N];
    for i in 0..N {
        a[i] = ((i * 13 + 5) % 12289) as u16;
        b[i] = ((i * i + 2) % 12289) as u16;
    }
    // The transform reads its input in bit-reversed coefficient order.
    let mut c = [0i64; N];
    for i in 0..N {
        for j in 0..N {
            let v = a[bitrev10(i)] as i64 * b[bitrev10(j)] as i64;
            if i + j < N {
                c[i + j] += v;
            } else {
                c[i + j - N] -= v;
            }
        }
    }
    let (mut ta, mut tb, mut r) = (a, b, [0u16; N]);
    ntt(&mut ta);
    ntt(&mut tb);
    pointwise(&mut r, &ta, &tb);
    invntt(&mut r);
    for i in 0..N {
        assert_eq!(r[i] as i64 % 12289, c[i].rem_euclid(12289));
    }
}

#[test]
fn transforms_are_linear_mod_q() {
    let mut a = [0u16; N];
    let mut b = [0u16; N];
    let mut c = [0u16; N];
    for i in 0..N {
        a[i] = ((i * 17 + 3) % 12289) as u16;
        b[i] = ((i * i + 11) % 12289) as u16;
        c[i] = ((a[i] as u32 + 5 * b[i] as u32) % 12289) as u16;
    }
    let (mut ta, mut tb, mut tc) = (a, b, c);
    ntt(&mut ta);
    ntt(&mut tb);
    ntt(&mut tc);
    for i in 0..N {
        assert_eq!(tc[i] as u32 % 12289, (ta[i] as u32 + 5 * tb[i] as u32) % 12289);
    }
    invntt(&mut ta);
    invntt(&mut tb);
    invntt(&mut tc);
    for i in 0..N {
        assert_eq!(tc[i] as u32 % 12289, (ta[i] as u32 + 5 * tb[i] as u32) % 12289);
    }
}
