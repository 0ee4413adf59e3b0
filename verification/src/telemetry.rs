//! Link measurements that are attached to a frame.
use crate::fixed;
use crate::fixed::to_fixed;
use crate::metadata::Metadata;
use crate::single::Single;
use crate::text;
use crate::text::to_decimal;
use vstd::prelude::*;

verus! {

#[derive(Debug, Clone)]
pub struct LinkTelemetry {
    pub sf: Option<u8>,
    pub cr: Option<String>,
    pub bw_hz: Option<u32>,
    pub toa_us: Option<u32>,
    pub etx: Option<Single>,
    pub atx_link: Option<Single>,
    pub atx_path: Option<Single>,
    pub parent_id: Option<String>,
    pub ack_count: Option<u32>,
    pub mesh_delay_ms: Option<u32>,
    pub uplink_id: Option<u32>,
}

impl Default for LinkTelemetry {
    fn default() -> (res: Self)
        ensures
            res.sf is None,
            res.cr is None,
            res.bw_hz is None,
            res.toa_us is None,
            res.etx is None,
            res.atx_link is None,
            res.atx_path is None,
            res.parent_id is None,
            res.ack_count is None,
            res.mesh_delay_ms is None,
            res.uplink_id is None,
    {
        LinkTelemetry {
            sf: None,
            cr: None,
            bw_hz: None,
            toa_us: None,
            etx: None,
            atx_link: None,
            atx_path: None,
            parent_id: None,
            ack_count: None,
            mesh_delay_ms: None,
            uplink_id: None,
        }
    }
}

/// A measurement that is there sets its key; one that is missing changes nothing.
#[verifier::opaque]
pub open spec fn put(
    meta: Map<Seq<char>, Seq<char>>,
    key: Seq<char>,
    value: Option<Seq<char>>,
) -> Map<Seq<char>, Seq<char>> {
    match value {
        Some(v) => meta.insert(key, v),
        None => meta,
    }
}

pub open spec fn number_text(n: Option<u32>) -> Option<Seq<char>> {
    match n {
        Some(v) => Some(text::decimal(v as nat)),
        None => None,
    }
}

pub open spec fn ratio_text(x: Option<Single>) -> Option<Seq<char>> {
    match x {
        Some(v) => Some(fixed::fixed(v, 3)),
        None => None,
    }
}

pub open spec fn plain_text(s: Option<String>) -> Option<Seq<char>> {
    match s {
        Some(v) => Some(v@),
        None => None,
    }
}

impl LinkTelemetry {
    /// `meta` with each measurement under its key.
    pub open spec fn applied(self, meta: Map<Seq<char>, Seq<char>>) -> Map<Seq<char>, Seq<char>> {
        let sf = match self.sf {
            Some(v) => Some(v as u32),
            None => None,
        };
        let meta = put(meta, "sf"@, number_text(sf));
        let meta = put(meta, "cr"@, plain_text(self.cr));
        let meta = put(meta, "bw_hz"@, number_text(self.bw_hz));
        let meta = put(meta, "toa_us"@, number_text(self.toa_us));
        let meta = put(meta, "etx"@, ratio_text(self.etx));
        let meta = put(meta, "atx_link"@, ratio_text(self.atx_link));
        let meta = put(meta, "atx_path"@, ratio_text(self.atx_path));
        let meta = put(meta, "parent_id"@, plain_text(self.parent_id));
        let meta = put(meta, "ack_count"@, number_text(self.ack_count));
        let meta = put(meta, "mesh_delay_ms"@, number_text(self.mesh_delay_ms));
        put(meta, "uplink_id"@, number_text(self.uplink_id))
    }

    pub fn apply_to(&self, metadata: &mut Metadata)
        requires
            old(metadata).wf(),
        ensures
            final(metadata).wf(),
            final(metadata)@ == self.applied(old(metadata)@),
    {
        proof {
            reveal(put);
        }
        if let Some(v) = self.sf {
            metadata.insert("sf", to_decimal(v as u128));
        }
        if let Some(v) = &self.cr {
            metadata.insert("cr", v.clone());
        }
        if let Some(v) = self.bw_hz {
            metadata.insert("bw_hz", to_decimal(v as u128));
        }
        if let Some(v) = self.toa_us {
            metadata.insert("toa_us", to_decimal(v as u128));
        }
        if let Some(v) = self.etx {
            metadata.insert("etx", to_fixed(v, 3));
        }
        if let Some(v) = self.atx_link {
            metadata.insert("atx_link", to_fixed(v, 3));
        }
        if let Some(v) = self.atx_path {
            metadata.insert("atx_path", to_fixed(v, 3));
        }
        if let Some(v) = &self.parent_id {
            metadata.insert("parent_id", v.clone());
        }
        if let Some(v) = self.ack_count {
            metadata.insert("ack_count", to_decimal(v as u128));
        }
        if let Some(v) = self.mesh_delay_ms {
            metadata.insert("mesh_delay_ms", to_decimal(v as u128));
        }
        if let Some(v) = self.uplink_id {
            metadata.insert("uplink_id", to_decimal(v as u128));
        }
    }
}

/// The keys of the measurements.
pub open spec fn is_measurement_key(key: Seq<char>) -> bool {
    ||| key == "sf"@
    ||| key == "cr"@
    ||| key == "bw_hz"@
    ||| key == "toa_us"@
    ||| key == "etx"@
    ||| key == "atx_link"@
    ||| key == "atx_path"@
    ||| key == "parent_id"@
    ||| key == "ack_count"@
    ||| key == "mesh_delay_ms"@
    ||| key == "uplink_id"@
}

/// What stands under other keys is not touched.
pub proof fn other_keys_are_kept(
    telemetry: LinkTelemetry,
    meta: Map<Seq<char>, Seq<char>>,
    key: Seq<char>,
)
    requires
        !is_measurement_key(key),
    ensures
        telemetry.applied(meta).contains_key(key) == meta.contains_key(key),
        meta.contains_key(key) ==> telemetry.applied(meta)[key] == meta[key],
{
    reveal(put);
}

/// Whether a map holds a value under a key, or what another map held where there
/// is no value.
pub open spec fn holds(
    after: Map<Seq<char>, Seq<char>>,
    before: Map<Seq<char>, Seq<char>>,
    key: Seq<char>,
    value: Option<Seq<char>>,
) -> bool {
    match value {
        Some(v) => after.contains_key(key) && after[key] == v,
        None => after.contains_key(key) == before.contains_key(key) && (before.contains_key(key)
            ==> after[key] == before[key]),
    }
}

/// Every measurement stands under its own key.
pub proof fn measurements_stand_under_their_keys(
    telemetry: LinkTelemetry,
    meta: Map<Seq<char>, Seq<char>>,
)
    ensures
        ({
            let after = telemetry.applied(meta);
            &&& telemetry.sf matches Some(v) ==> holds(
                after,
                meta,
                "sf"@,
                Some(text::decimal(v as nat)),
            )
            &&& telemetry.sf is None ==> holds(after, meta, "sf"@, None)
            &&& holds(after, meta, "cr"@, plain_text(telemetry.cr))
            &&& holds(after, meta, "bw_hz"@, number_text(telemetry.bw_hz))
            &&& holds(after, meta, "toa_us"@, number_text(telemetry.toa_us))
            &&& holds(after, meta, "etx"@, ratio_text(telemetry.etx))
            &&& holds(after, meta, "atx_link"@, ratio_text(telemetry.atx_link))
            &&& holds(after, meta, "atx_path"@, ratio_text(telemetry.atx_path))
            &&& holds(after, meta, "parent_id"@, plain_text(telemetry.parent_id))
            &&& holds(after, meta, "ack_count"@, number_text(telemetry.ack_count))
            &&& holds(after, meta, "mesh_delay_ms"@, number_text(telemetry.mesh_delay_ms))
            &&& holds(after, meta, "uplink_id"@, number_text(telemetry.uplink_id))
        }),
{
    reveal_strlit("sf");
    reveal_strlit("cr");
    reveal_strlit("bw_hz");
    reveal_strlit("toa_us");
    reveal_strlit("etx");
    reveal_strlit("atx_link");
    reveal_strlit("atx_path");
    reveal_strlit("parent_id");
    reveal_strlit("ack_count");
    reveal_strlit("mesh_delay_ms");
    reveal_strlit("uplink_id");
    assert("sf"@.len() == 2);
    assert("cr"@.len() == 2);
    assert("bw_hz"@.len() == 5);
    assert("toa_us"@.len() == 6);
    assert("etx"@.len() == 3);
    assert("atx_link"@.len() == 8);
    assert("atx_path"@.len() == 8);
    assert("parent_id"@.len() == 9);
    assert("ack_count"@.len() == 9);
    assert("mesh_delay_ms"@.len() == 13);
    assert("uplink_id"@.len() == 9);
    assert("sf"@[0] != "cr"@[0]);
    assert("atx_link"@[4] != "atx_path"@[4]);
    assert("parent_id"@[0] != "ack_count"@[0]);
    assert("parent_id"@[0] != "uplink_id"@[0]);
    assert("ack_count"@[0] != "uplink_id"@[0]);
    let sf = match telemetry.sf {
        Some(v) => Some(v as u32),
        None => None,
    };
    let m0 = meta;
    lemma_put(m0, "sf"@, number_text(sf));
    let m1 = put(m0, "sf"@, number_text(sf));
    lemma_put(m1, "cr"@, plain_text(telemetry.cr));
    let m2 = put(m1, "cr"@, plain_text(telemetry.cr));
    lemma_put(m2, "bw_hz"@, number_text(telemetry.bw_hz));
    let m3 = put(m2, "bw_hz"@, number_text(telemetry.bw_hz));
    lemma_put(m3, "toa_us"@, number_text(telemetry.toa_us));
    let m4 = put(m3, "toa_us"@, number_text(telemetry.toa_us));
    lemma_put(m4, "etx"@, ratio_text(telemetry.etx));
    let m5 = put(m4, "etx"@, ratio_text(telemetry.etx));
    lemma_put(m5, "atx_link"@, ratio_text(telemetry.atx_link));
    let m6 = put(m5, "atx_link"@, ratio_text(telemetry.atx_link));
    lemma_put(m6, "atx_path"@, ratio_text(telemetry.atx_path));
    let m7 = put(m6, "atx_path"@, ratio_text(telemetry.atx_path));
    lemma_put(m7, "parent_id"@, plain_text(telemetry.parent_id));
    let m8 = put(m7, "parent_id"@, plain_text(telemetry.parent_id));
    lemma_put(m8, "ack_count"@, number_text(telemetry.ack_count));
    let m9 = put(m8, "ack_count"@, number_text(telemetry.ack_count));
    lemma_put(m9, "mesh_delay_ms"@, number_text(telemetry.mesh_delay_ms));
    let m10 = put(m9, "mesh_delay_ms"@, number_text(telemetry.mesh_delay_ms));
    lemma_put(m10, "uplink_id"@, number_text(telemetry.uplink_id));
}

proof fn lemma_put(meta: Map<Seq<char>, Seq<char>>, key: Seq<char>, value: Option<Seq<char>>)
    ensures
        holds(put(meta, key, value), meta, key, value),
        forall|other: Seq<char>|
            other != key ==> #[trigger] put(meta, key, value).contains_key(other)
                == meta.contains_key(other),
        forall|other: Seq<char>|
            other != key ==> #[trigger] put(meta, key, value)[other] == meta[other],
{
    reveal(put);
}

} // verus!
