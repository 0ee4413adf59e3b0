use gateway_mesh::airtime::{compute_toa_us, toa_us, AirtimeCache, AirtimeKey, LoraPhy};
use gateway_mesh::phy_profile::{PhyProfile, SfProbeCache};

/// The formula in the machine's own arithmetic.
fn machine_toa_us(key: &AirtimeKey) -> u32 {
    let sf = key.phy.sf as f32;
    let bw = key.phy.bw_hz as f32;
    let (cr_num, cr_den) = key.phy.cr;
    let cr = (cr_den.saturating_sub(cr_num)) as f32;
    let low_dr_opt = if (key.phy.bw_hz == 125_000 && key.phy.sf >= 11)
        || (key.phy.bw_hz == 62_500 && key.phy.sf >= 10)
    {
        1.0
    } else {
        0.0
    };
    let symbol_duration = 2f32.powi(sf as i32) / bw;
    let preamble_symb = 8.0_f32 + 4.25;
    let payload = key.payload_len as f32;
    let numerator = 8.0 * payload - 4.0 * sf + 28.0 + 16.0;
    let denominator = 4.0 * (sf - 2.0 * low_dr_opt);
    let blocks = (numerator / denominator).ceil();
    let payload_symb_nb = 8.0_f32 + (blocks * (cr + 4.0)).max(0.0);
    let total_time_s = (preamble_symb + payload_symb_nb) * symbol_duration;
    (total_time_s * 1_000_000.0) as u32
}

#[test]
fn test_toa_cache() {
    let phy = LoraPhy {
        sf: 12,
        cr: (4, 8),
        bw_hz: 812_000,
    };
    let key = AirtimeKey {
        phy,
        payload_len: 47,
    };

    let v1 = toa_us(&key);
    let v2 = toa_us(&key);
    assert_eq!(v1, v2);
    assert!(v1 > 0);
}

#[test]
fn test_toa_changes_with_payload() {
    let phy = LoraPhy {
        sf: 7,
        cr: (4, 5),
        bw_hz: 125_000,
    };
    let short = AirtimeKey {
        phy,
        payload_len: 1,
    };
    let long = AirtimeKey {
        phy,
        payload_len: 50,
    };

    assert!(toa_us(&long) > toa_us(&short));
}

#[test]
fn remembered_airtime_is_the_computed_one() {
    let mut cache = AirtimeCache::new();
    for payload_len in [1usize, 50, 1, 200, 50] {
        let key = AirtimeKey {
            phy: LoraPhy { sf: 9, cr: (4, 6), bw_hz: 250_000 },
            payload_len,
        };
        assert_eq!(cache.toa_us(&key), compute_toa_us(&key));
    }
}

#[test]
fn airtime_agrees_with_the_machine() {
    let widths = [0, 1, 7800, 62_500, 125_000, 250_000, 500_000, 812_000, 1_625_000, u32::MAX];
    let lengths = [0usize, 1, 2, 13, 47, 50, 51, 222, 255, 4096, 65_535, 1 << 20, (1 << 33) + 7, usize::MAX];
    for sf in 0..=255u8 {
        for bw_hz in widths {
            for cr in [(4, 5), (4, 6), (4, 7), (4, 8), (5, 4), (0, 255)] {
                for payload_len in lengths {
                    let key = AirtimeKey { phy: LoraPhy { sf, cr, bw_hz }, payload_len };
                    assert_eq!(toa_us(&key), machine_toa_us(&key), "{:?}", key);
                }
            }
        }
    }
}

#[test]
fn airtime_of_the_default_profile() {
    let key = AirtimeKey {
        phy: LoraPhy { sf: 12, cr: (4, 8), bw_hz: 812_000 },
        payload_len: 47,
    };
    assert_eq!(toa_us(&key), 424_985);
}

#[test]
fn airtimes_of_the_datasheet_formula() {
    for (sf, cr, bw_hz, payload_len, us) in [
        (12, (4, 5), 125_000, 10, 991_232),
        (7, (4, 5), 125_000, 1, 25_856),
        (7, (4, 5), 125_000, 50, 97_536),
        (12, (4, 5), 125_000, 0, 663_552),
        (12, (4, 5), 250_000, 0, 331_776),
        (10, (4, 8), 62_500, 13, 856_064),
    ] {
        let phy = LoraPhy { sf, cr, bw_hz };
        assert_eq!(toa_us(&AirtimeKey { phy, payload_len }), us, "{:?}", phy);
    }
}

#[test]
fn longer_payloads_never_take_less() {
    for sf in 5..=12u8 {
        let phy = LoraPhy { sf, cr: (4, 5), bw_hz: 125_000 };
        let mut last = 0;
        for payload_len in 0..300usize {
            let us = toa_us(&AirtimeKey { phy, payload_len });
            assert!(us >= last);
            last = us;
        }
    }
}

#[test]
fn chooses_fastest_phy() {
    let profile = PhyProfile {
        allowed: vec![
            LoraPhy {
                sf: 12,
                cr: (4, 8),
                bw_hz: 812_000,
            },
            LoraPhy {
                sf: 7,
                cr: (4, 5),
                bw_hz: 812_000,
            },
        ],
    };
    let mut cache = SfProbeCache::new();
    cache.update(1, profile.allowed[0], true);
    cache.update(1, profile.allowed[1], true);

    let best = cache.best_for(1, 30, &profile);
    assert_eq!(best.sf, 7);
}

#[test]
fn failed_probes_rule_profiles_out() {
    let slow = LoraPhy { sf: 12, cr: (4, 8), bw_hz: 812_000 };
    let fast = LoraPhy { sf: 7, cr: (4, 5), bw_hz: 812_000 };
    let profile = PhyProfile { allowed: vec![slow, fast] };
    let mut cache = SfProbeCache::new();
    cache.update(1, fast, false);
    assert_eq!(cache.best_for(1, 30, &profile), slow);
    // Other relays are not concerned.
    assert_eq!(cache.best_for(2, 30, &profile), fast);
    // The first profile stands in where all are ruled out.
    cache.update(1, slow, false);
    assert_eq!(cache.best_for(1, 30, &profile), slow);
    // A later success counts.
    cache.update(1, fast, true);
    assert_eq!(cache.best_for(1, 30, &profile), fast);
}

#[test]
fn default_profile_stands_in_for_an_empty_list() {
    let cache = SfProbeCache::new();
    let none = PhyProfile { allowed: vec![] };
    let phy = LoraPhy { sf: 12, cr: (4, 8), bw_hz: 812_000 };
    assert_eq!(cache.best_for(1, 30, &none), phy);
    assert_eq!(PhyProfile::default().allowed, vec![phy]);
}

#[test]
fn first_of_equally_fast_profiles_wins() {
    let a = LoraPhy { sf: 7, cr: (4, 5), bw_hz: 812_000 };
    let b = LoraPhy { sf: 7, cr: (5, 6), bw_hz: 812_000 };
    let cache = SfProbeCache::new();
    assert_eq!(cache.best_for(1, 30, &PhyProfile { allowed: vec![a, b] }), a);
    assert_eq!(cache.best_for(1, 30, &PhyProfile { allowed: vec![b, a] }), b);
}

#[test]
fn symbols_agree_with_whole_numbers() {
    for sf in 1..=12_u8 {
        for bw_hz in [62_500_u32, 125_000, 812_000] {
            for cr in [(4_u8, 5_u8), (4, 8), (8, 4)] {
                for payload_len in 0..=255_usize {
                    let low = (bw_hz == 125_000 && sf >= 11) || (bw_hz == 62_500 && sf >= 10);
                    let low = i64::from(low);
                    let (n, sf_int) = (payload_len as i64, i64::from(sf));
                    let bits = 8 * n - 4 * sf_int + 28 + 16;
                    let block = 4 * (sf_int - 2 * low);
                    let blocks = -((-bits).div_euclid(block));
                    let check = i64::from(cr.1) - i64::from(cr.0);
                    let symbols = (8 + (blocks * (check.max(0) + 4)).max(0)) as f32;
                    let symbol = 2f32.powi(i32::from(sf)) / bw_hz as f32;
                    let expected = ((12.25 + symbols) * symbol * 1_000_000.0) as u32;
                    let phy = LoraPhy { sf, cr, bw_hz };
                    let us = compute_toa_us(&AirtimeKey { phy, payload_len });
                    assert_eq!(us, expected);
                    // The exact formula, rounded down, is at most a part in four
                    // million away.
                    let exact = 1_000_000 * (49 + 4 * symbols as i128) * (1 << sf);
                    let scale = 4 * i128::from(bw_hz) * 0x100_0000;
                    assert!(i128::from(us) * scale <= exact * 0x100_0004);
                    assert!((i128::from(us) + 1) * scale > exact * 0xff_fffc);
                }
            }
        }
    }
}
