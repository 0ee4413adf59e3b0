use gateway_mesh::airtime::LoraPhy;
use gateway_mesh::link_estimator::{EwmaLinkEstimator, LinkEstimator, LinkEstimatorCfg, LinkStats};
use gateway_mesh::metadata::Metadata;
use gateway_mesh::routing::{NeighborMetrics, RouteEntry, TrickleRouteSelector};
use gateway_mesh::single::Single;
use gateway_mesh::telemetry::LinkTelemetry;

fn s(x: f32) -> Single {
    Single { bits: x.to_bits() }
}

fn f(x: Single) -> f32 {
    f32::from_bits(x.bits)
}

#[test]
fn ewma_converges() {
    let phy = LoraPhy {
        sf: 12,
        cr: (4, 8),
        bw_hz: 812_000,
    };
    let mut estimator: EwmaLinkEstimator<u8> = EwmaLinkEstimator::new(LinkEstimatorCfg {
        ewma_alpha: s(0.5),
        min_prr: s(0.01),
    });

    for _ in 0..10 {
        estimator.observe_tx(1, 1);
        estimator.observe_ack(1, 1, true);
    }

    let stats = estimator.snapshot(1, 30, &phy);
    assert!(f(stats.prr_in) > 0.5);
    assert!(f(stats.prr_out) > 0.5);
    assert!(f(stats.etx) <= 4.0);
    assert!(f(stats.atx) > 0.0);
}

#[test]
fn snapshot_uses_min_prr() {
    let phy = LoraPhy {
        sf: 12,
        cr: (4, 8),
        bw_hz: 812_000,
    };
    let estimator: EwmaLinkEstimator<u8> = EwmaLinkEstimator::new(LinkEstimatorCfg {
        ewma_alpha: s(0.5),
        min_prr: s(0.2),
    });

    let stats = estimator.snapshot(1, 30, &phy);
    assert_eq!(f(stats.prr_in), 1.0);
    assert_eq!(f(stats.prr_out), 1.0);
    assert!(f(stats.etx) >= 1.0);
}

#[test]
fn averages_follow_the_recurrence() {
    let phy = LoraPhy { sf: 7, cr: (4, 5), bw_hz: 125_000 };
    let alpha = 0.3f32;
    let mut estimator: EwmaLinkEstimator<u8> =
        EwmaLinkEstimator::new(LinkEstimatorCfg { ewma_alpha: s(alpha), min_prr: s(0.05) });
    let (mut prr_in, mut prr_out) = (1.0f32, 1.0f32);
    for i in 0..40u16 {
        estimator.observe_tx(1, i);
        prr_out = (1.0 - alpha) * prr_out;
        let ok = i % 3 != 0;
        estimator.observe_ack(1, i, ok);
        if ok {
            prr_out = (1.0 - alpha) * prr_out + alpha;
            prr_in = (1.0 - alpha) * prr_in + alpha;
        } else {
            prr_out *= 1.0 - alpha;
        }
        let stats = estimator.snapshot(1, 30, &phy);
        let (a, b) = (prr_in.max(0.05), prr_out.max(0.05));
        assert_eq!(f(stats.prr_in), a);
        assert_eq!(f(stats.prr_out), b);
        assert_eq!(f(stats.etx), 1.0 / (a * b));
        assert_eq!(f(stats.atx), 1.0 / (a * b) * (stats.toa_us as f32 / 1_000_000.0));
        // Another neighbour is untouched.
        assert_eq!(f(estimator.snapshot(2, 30, &phy).prr_out), 1.0);
    }
}

#[test]
fn defaults_of_the_estimator() {
    let cfg = LinkEstimatorCfg::default();
    assert_eq!(f(cfg.ewma_alpha), 0.25);
    assert_eq!(f(cfg.min_prr), 0.05);
    let stats = LinkStats::default();
    assert_eq!(f(stats.etx), 1.0);
    assert_eq!(stats.toa_us, 0);
}

#[test]
fn metadata_insertion() {
    let mut meta = Metadata::new();
    LinkTelemetry {
        sf: Some(12),
        cr: Some("4/8".into()),
        bw_hz: Some(812_000),
        toa_us: Some(425_000),
        etx: Some(s(1.23)),
        atx_link: Some(s(0.52)),
        atx_path: Some(s(1.73)),
        parent_id: Some("0x03".into()),
        ack_count: Some(4),
        mesh_delay_ms: Some(600),
        uplink_id: Some(417),
    }
    .apply_to(&mut meta);

    assert_eq!(meta.get("sf"), Some(&"12".to_string()));
    assert_eq!(meta.get("cr"), Some(&"4/8".to_string()));
    assert_eq!(meta.get("parent_id"), Some(&"0x03".to_string()));
    assert_eq!(meta.get("bw_hz"), Some(&"812000".to_string()));
    assert_eq!(meta.get("toa_us"), Some(&"425000".to_string()));
    assert_eq!(meta.get("etx"), Some(&"1.230".to_string()));
    assert_eq!(meta.get("atx_link"), Some(&"0.520".to_string()));
    assert_eq!(meta.get("atx_path"), Some(&"1.730".to_string()));
    assert_eq!(meta.get("ack_count"), Some(&"4".to_string()));
    assert_eq!(meta.get("mesh_delay_ms"), Some(&"600".to_string()));
    assert_eq!(meta.get("uplink_id"), Some(&"417".to_string()));
    assert_eq!(meta.len(), 11);
}

#[test]
fn missing_measurements_leave_metadata_alone() {
    let mut meta = Metadata::new();
    meta.insert("sf", "9".to_string());
    LinkTelemetry::default().apply_to(&mut meta);
    assert_eq!(meta.get("sf"), Some(&"9".to_string()));
    assert_eq!(meta.get("cr"), None);
    let sf = LinkTelemetry { sf: Some(7), ..LinkTelemetry::default() };
    sf.apply_to(&mut meta);
    assert_eq!(meta.get("sf"), Some(&"7".to_string()));
    assert_eq!(meta.len(), 1);
    assert_eq!(meta.pair(0), (&"sf".to_string(), &"7".to_string()));
}

#[test]
fn selector_remembers_the_last_beacon() {
    let mut selector = TrickleRouteSelector::new();
    assert_eq!(selector.local_route(), None);
    selector.set_local_route(Some(RouteEntry { path_cost: 5, depth: 2 }));
    selector.on_beacon([1, 2, 3, 4], 10, 1);
    selector.on_beacon([4, 3, 2, 1], 20, 2);
    selector.on_beacon([1, 2, 3, 4], 30, 3);
    assert_eq!(
        selector.neighbor_metrics(&[1, 2, 3, 4]),
        Some(NeighborMetrics { path_cost: 30, depth: 3 })
    );
    assert_eq!(
        selector.neighbor_metrics(&[4, 3, 2, 1]),
        Some(NeighborMetrics { path_cost: 20, depth: 2 })
    );
    assert_eq!(selector.neighbor_metrics(&[0, 0, 0, 0]), None);
    assert_eq!(selector.local_route(), Some(RouteEntry { path_cost: 5, depth: 2 }));
    selector.reset();
    assert_eq!(selector.local_route(), None);
    assert_eq!(selector.neighbor_metrics(&[1, 2, 3, 4]), None);
    assert_eq!(RouteEntry::default(), RouteEntry { path_cost: 0, depth: 0 });
    assert_eq!(NeighborMetrics::default(), NeighborMetrics { path_cost: 0, depth: 0 });
}

#[test]
fn averages_stay_between_zero_and_one() {
    for alpha in [0.0, 1e-9, 0.1, 0.25, 0.3, 0.5, 0.7, 0.999_999_9, 1.0] {
        let mut estimator: EwmaLinkEstimator<u8> = EwmaLinkEstimator::new(LinkEstimatorCfg {
            ewma_alpha: s(alpha),
            min_prr: s(0.0),
        });
        let phy = LoraPhy { sf: 9, cr: (4, 5), bw_hz: 125_000 };
        let mut seed: u32 = 12345;
        for _ in 0..200 {
            seed = seed.wrapping_mul(1_664_525).wrapping_add(1_013_904_223);
            let before = estimator.snapshot(1, 10, &phy);
            match seed >> 30 {
                0 => estimator.observe_tx(1, 0),
                1 => estimator.observe_ack(1, 0, false),
                _ => estimator.observe_ack(1, 0, true),
            }
            let after = estimator.snapshot(1, 10, &phy);
            for x in [f(after.prr_in), f(after.prr_out)] {
                assert!((0.0..=1.0).contains(&x), "{} {}", alpha, x);
            }
            assert!(f(after.etx) >= 1.0);
            if seed >> 30 < 2 {
                assert!(f(after.prr_out) <= f(before.prr_out));
            }
        }
    }
}

#[test]
fn other_metadata_is_kept() {
    let mut meta = Metadata::new();
    meta.insert("region", "eu868".to_string());
    meta.insert("sf", "old".to_string());
    let telemetry = LinkTelemetry {
        sf: Some(9),
        etx: Some(s(1.2345)),
        ..LinkTelemetry::default()
    };
    telemetry.apply_to(&mut meta);
    assert_eq!(meta.get("region"), Some(&"eu868".to_string()));
    assert_eq!(meta.get("sf"), Some(&"9".to_string()));
    assert_eq!(meta.get("etx"), Some(&format!("{:.3}", 1.2345_f32)));
    assert_eq!(meta.get("cr"), None);
    assert_eq!(meta.len(), 3);
}

#[test]
fn metadata_lists_each_key_once() {
    let mut meta = Metadata::new();
    assert_eq!(meta.len(), 0);
    meta.insert("a", "1".to_string());
    assert_eq!(meta.len(), 1);
    meta.insert("b", "2".to_string());
    meta.insert("a", "3".to_string());
    assert_eq!(meta.len(), 2);
    assert_eq!(meta.pair(0), (&"a".to_string(), &"3".to_string()));
    assert_eq!(meta.pair(1), (&"b".to_string(), &"2".to_string()));
    assert_eq!(meta.get("a"), Some(&"3".to_string()));
}
