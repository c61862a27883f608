//! The rows of a report on the networks that a scan found.

use vstd::prelude::*;
use crate::connection::{ActiveConnection, connected, is_connected};
use crate::reading::{
    classify_reading, decimal_tier, is_decimal, lemma_reading_tier_is_exact, readable, reading_of,
    reading_tier, signal_or_zero,
};
use crate::signal::SignalTier;

verus! {

/// A network that a scan found, as the scanner reports it.
#[derive(Debug)]
pub struct DiscoveredNetwork {
    pub mac: String,
    pub ssid: String,
    pub channel: String,
    /// Signal strength in dBm, as text.
    pub signal_level: String,
    pub security: String,
}

/// What a discovered network holds.
pub struct NetworkView {
    pub mac: Seq<char>,
    pub ssid: Seq<char>,
    pub channel: Seq<char>,
    pub signal_level: Seq<char>,
    pub security: Seq<char>,
}

impl View for DiscoveredNetwork {
    type V = NetworkView;

    open spec fn view(&self) -> NetworkView {
        NetworkView {
            mac: self.mac@,
            ssid: self.ssid@,
            channel: self.channel@,
            signal_level: self.signal_level@,
            security: self.security@,
        }
    }
}

/// One row of the report: a discovered network, its tier, and whether it is
/// the one currently associated.
#[derive(Debug)]
pub struct ReportRow {
    pub is_current: bool,
    pub mac: String,
    pub ssid: String,
    pub channel: String,
    pub tier: SignalTier,
    pub signal_level: String,
    pub security: String,
}

/// What a report row holds.
pub struct RowView {
    pub is_current: bool,
    pub mac: Seq<char>,
    pub ssid: Seq<char>,
    pub channel: Seq<char>,
    pub tier: SignalTier,
    pub signal_level: Seq<char>,
    pub security: Seq<char>,
}

impl View for ReportRow {
    type V = RowView;

    open spec fn view(&self) -> RowView {
        RowView {
            is_current: self.is_current,
            mac: self.mac@,
            ssid: self.ssid@,
            channel: self.channel@,
            tier: self.tier,
            signal_level: self.signal_level@,
            security: self.security@,
        }
    }
}

/// What the records of a snapshot hold.
pub open spec fn snapshot_view(snapshot: Seq<ActiveConnection>) -> Seq<(bool, Seq<char>)> {
    snapshot.map_values(|e: ActiveConnection| e@)
}

/// The row that a network and a snapshot give: the network's fields, the
/// tier of its signal level as read from its text (a decimal, of any length,
/// in the tier of its value; zero dBm when the text is no floating-point
/// number), and whether the snapshot names it as the current network.
pub open spec fn row_spec(n: DiscoveredNetwork, snapshot: Seq<ActiveConnection>) -> RowView {
    RowView {
        is_current: connected(snapshot, n.ssid@),
        mac: n.mac@,
        ssid: n.ssid@,
        channel: n.channel@,
        tier: reading_tier(reading_of(n.signal_level@)),
        signal_level: n.signal_level@,
        security: n.security@,
    }
}

/// Builds the report row of one discovered network.
pub fn build_row(network: &DiscoveredNetwork, snapshot: &Vec<ActiveConnection>) -> (r: ReportRow)
    ensures
        r@ == row_spec(*network, snapshot@),
        is_decimal(network.signal_level@) ==> r.tier == decimal_tier(network.signal_level@),
        !readable(network.signal_level@) ==> r.tier == SignalTier::Maximum,
{
    proof {
        if is_decimal(network.signal_level@) {
            lemma_reading_tier_is_exact(network.signal_level@);
        }
    }
    let level = signal_or_zero(network.signal_level.as_str());
    let tier = classify_reading(level);
    let is_current = is_connected(snapshot, network.ssid.as_str());
    ReportRow {
        is_current,
        mac: network.mac.clone(),
        ssid: network.ssid.clone(),
        channel: network.channel.clone(),
        tier,
        signal_level: network.signal_level.clone(),
        security: network.security.clone(),
    }
}

/// Builds the rows of all discovered networks, in their order.
pub fn build_report(networks: &Vec<DiscoveredNetwork>, snapshot: &Vec<ActiveConnection>) -> (r: Vec<
    ReportRow,
>)
    ensures
        r@.len() == networks@.len(),
        forall|i: int| 0 <= i < r@.len() ==> (#[trigger] r@[i])@ == row_spec(networks@[i], snapshot@),
{
    let mut r: Vec<ReportRow> = Vec::new();
    let mut i: usize = 0;
    while i < networks.len()
        invariant
            i <= networks@.len(),
            r@.len() == i,
            forall|j: int| 0 <= j < i ==> (#[trigger] r@[j])@ == row_spec(networks@[j], snapshot@),
        decreases networks@.len() - i,
    {
        r.push(build_row(&networks[i], snapshot));
        i = i + 1;
    }
    r
}

/// A row depends on what its inputs hold alone: networks and snapshots that
/// hold the same give field-wise identical rows.
pub proof fn lemma_build_row_deterministic(
    a: DiscoveredNetwork,
    b: DiscoveredNetwork,
    sa: Seq<ActiveConnection>,
    sb: Seq<ActiveConnection>,
)
    requires
        a@ == b@,
        snapshot_view(sa) == snapshot_view(sb),
    ensures
        row_spec(a, sa) == row_spec(b, sb),
{
    assert(sa.len() == snapshot_view(sa).len());
    assert(sb.len() == snapshot_view(sb).len());
    if sa.len() > 0 {
        assert(snapshot_view(sa)[0] == sa[0]@);
        assert(snapshot_view(sb)[0] == sb[0]@);
    }
}

/// Every row of a report marks its network as current exactly when the
/// resolver, asked with the same snapshot and the row's network name, does.
pub proof fn lemma_rows_agree_with_resolver(
    networks: Seq<DiscoveredNetwork>,
    snapshot: Seq<ActiveConnection>,
)
    ensures
        forall|i: int|
            0 <= i < networks.len() ==> (#[trigger] row_spec(networks[i], snapshot)).is_current
                == connected(snapshot, row_spec(networks[i], snapshot).ssid),
{
}

} // verus!
