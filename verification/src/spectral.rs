//! Spectral graph snapshots, a bounded ring of the most recent ones, and a
//! signed CUSUM detector on the algebraic connectivity.

use vstd::prelude::*;
use crate::kinds::{Weight, WEIGHT_ONE};

verus! {

pub const SPECTRAL_K: usize = 8;
pub const SNAPSHOT_RING_SIZE: usize = 64;

#[derive(Clone, Copy, Debug, PartialEq, Eq)]
pub struct SpectralSnapshot {
    pub generation: u64,
    pub eigenvalues: [Weight; SPECTRAL_K],
    pub gaps: [Weight; SPECTRAL_K],
    pub total_weight: u64,
    pub node_count: u32,
    pub edge_count: u32,
}

impl SpectralSnapshot {
    /// The snapshot of nothing: generation zero and all values zero.
    pub fn empty() -> (r: Self)
        ensures
            r.generation == 0,
            r.eigenvalues@ == Seq::new(SPECTRAL_K as nat, |i: int| 0u32),
            r.gaps@ == Seq::new(SPECTRAL_K as nat, |i: int| 0u32),
            r.total_weight == 0,
            r.node_count == 0,
            r.edge_count == 0,
    {
        let r = SpectralSnapshot {
            generation: 0,
            eigenvalues: [0; SPECTRAL_K],
            gaps: [0; SPECTRAL_K],
            total_weight: 0,
            node_count: 0,
            edge_count: 0,
        };
        assert(r.eigenvalues@ =~= Seq::new(SPECTRAL_K as nat, |i: int| 0u32));
        assert(r.gaps@ =~= Seq::new(SPECTRAL_K as nat, |i: int| 0u32));
        r
    }

    /// The second-smallest eigenvalue: the algebraic connectivity.
    pub fn fiedler(&self) -> (r: Weight)
        ensures
            r == self.eigenvalues@[1],
    {
        self.eigenvalues[1]
    }

    pub fn primary_gap(&self) -> (r: Weight)
        ensures
            r == self.gaps@[0],
    {
        self.gaps[0]
    }

    pub fn is_valid(&self) -> (r: bool)
        ensures
            r == (self.generation > 0),
    {
        self.generation > 0
    }
}

// ---------------------------------------------------------------------------
// Signed change detection
// ---------------------------------------------------------------------------

/// Abstract state of a [`ReviewSignalDetector`].
pub struct DetectorModel {
    pub mu_0: u32,
    pub slack: u32,
    pub threshold: u32,
    pub s_pos: u32,
    pub s_neg: u32,
    pub alarm_count: u32,
    pub baseline_sum: u64,
    pub baseline_count: u32,
    pub baseline_target: u32,
}

/// A two-sided CUSUM on the algebraic connectivity: a baseline mean is
/// learned from the first observations, then drops below it beyond the
/// slack accumulate until they cross the threshold.
#[derive(Clone, Copy, Debug)]
pub struct ReviewSignalDetector {
    pub mu_0: Weight,
    pub slack: Weight,
    pub threshold: Weight,
    pub s_pos: Weight,
    pub s_neg: Weight,
    pub alarm_count: u32,
    baseline_sum: u64,
    baseline_count: u32,
    baseline_target: u32,
}

impl View for ReviewSignalDetector {
    type V = DetectorModel;

    closed spec fn view(&self) -> DetectorModel {
        DetectorModel {
            mu_0: self.mu_0,
            slack: self.slack,
            threshold: self.threshold,
            s_pos: self.s_pos,
            s_neg: self.s_neg,
            alarm_count: self.alarm_count,
            baseline_sum: self.baseline_sum,
            baseline_count: self.baseline_count,
            baseline_target: self.baseline_target,
        }
    }
}

pub open spec fn default_detector_spec() -> DetectorModel {
    DetectorModel {
        mu_0: 0,
        slack: 655,
        threshold: 6554,
        s_pos: 0,
        s_neg: 0,
        alarm_count: 0,
        baseline_sum: 0,
        baseline_count: 0,
        baseline_target: 16,
    }
}

pub open spec fn clamp_u32(x: int) -> u32 {
    (if x < 0 {
        0
    } else if x > u32::MAX {
        u32::MAX as int
    } else {
        x
    }) as u32
}

/// What [`ReviewSignalDetector::observe`] returns and leaves behind.
pub open spec fn observe_spec(d: DetectorModel, x: u32) -> (bool, DetectorModel) {
    if d.baseline_count < d.baseline_target {
        let sum = if d.baseline_sum + x > u64::MAX {
            u64::MAX
        } else {
            (d.baseline_sum + x) as u64
        };
        let count = (d.baseline_count + 1) as u32;
        (
            false,
            DetectorModel {
                baseline_sum: sum,
                baseline_count: count,
                mu_0: if count == d.baseline_target {
                    (sum / (count as u64)) as u32
                } else {
                    d.mu_0
                },
                ..d
            },
        )
    } else {
        let s_pos = clamp_u32(d.s_pos + x - d.mu_0 - d.slack);
        let s_neg = clamp_u32(d.s_neg + d.mu_0 - x - d.slack);
        let alarm = s_neg > d.threshold;
        (
            alarm,
            DetectorModel {
                s_pos,
                s_neg,
                alarm_count: if alarm && d.alarm_count < u32::MAX {
                    (d.alarm_count + 1) as u32
                } else {
                    d.alarm_count
                },
                ..d
            },
        )
    }
}

impl ReviewSignalDetector {
    /// Slack 0.01 and threshold 0.10 in Q16, a baseline of 16 observations.
    pub fn default_detector() -> (r: Self)
        ensures
            r@ == default_detector_spec(),
    {
        ReviewSignalDetector {
            mu_0: 0,
            slack: 655,
            threshold: 6554,
            s_pos: 0,
            s_neg: 0,
            alarm_count: 0,
            baseline_sum: 0,
            baseline_count: 0,
            baseline_target: 16,
        }
    }

    /// Feed one algebraic-connectivity value; true when it raises an alarm.
    pub fn observe(&mut self, algebraic_connectivity: Weight) -> (r: bool)
        ensures
            r == observe_spec(old(self)@, algebraic_connectivity).0,
            final(self)@ == observe_spec(old(self)@, algebraic_connectivity).1,
    {
        if self.baseline_count < self.baseline_target {
            self.baseline_sum = self.baseline_sum.saturating_add(algebraic_connectivity as u64);
            self.baseline_count += 1;
            if self.baseline_count == self.baseline_target {
                self.mu_0 = (self.baseline_sum / self.baseline_count as u64) as Weight;
            }
            return false;
        }
        let positive = self.s_pos as i64 + algebraic_connectivity as i64 - self.mu_0 as i64 - self.slack as i64;
        let negative = self.s_neg as i64 + self.mu_0 as i64 - algebraic_connectivity as i64 - self.slack as i64;
        self.s_pos = if positive < 0 {
            0
        } else if positive > u32::MAX as i64 {
            u32::MAX
        } else {
            positive as Weight
        };
        self.s_neg = if negative < 0 {
            0
        } else if negative > u32::MAX as i64 {
            u32::MAX
        } else {
            negative as Weight
        };
        let alarm = self.s_neg > self.threshold;
        if alarm {
            self.alarm_count = self.alarm_count.saturating_add(1);
        }
        alarm
    }

    /// Adopt `new_mu_0` as the baseline mean and clear all accumulated state.
    pub fn reset(&mut self, new_mu_0: Weight)
        ensures
            final(self)@ == (DetectorModel {
                mu_0: new_mu_0,
                s_pos: 0,
                s_neg: 0,
                alarm_count: 0,
                baseline_sum: new_mu_0 as u64,
                baseline_count: old(self)@.baseline_target,
                ..old(self)@
            }),
    {
        self.mu_0 = new_mu_0;
        self.s_pos = 0;
        self.s_neg = 0;
        self.alarm_count = 0;
        self.baseline_sum = new_mu_0 as u64;
        self.baseline_count = self.baseline_target;
    }

    /// Forget everything and learn a new baseline from the next
    /// `observations` values (at least one).
    pub fn begin_baseline(&mut self, observations: u32)
        ensures
            final(self)@ == (DetectorModel {
                mu_0: 0,
                s_pos: 0,
                s_neg: 0,
                alarm_count: 0,
                baseline_sum: 0,
                baseline_count: 0,
                baseline_target: if observations < 1 {
                    1
                } else {
                    observations
                },
                ..old(self)@
            }),
    {
        self.mu_0 = 0;
        self.s_pos = 0;
        self.s_neg = 0;
        self.alarm_count = 0;
        self.baseline_sum = 0;
        self.baseline_count = 0;
        self.baseline_target = if observations < 1 {
            1
        } else {
            observations
        };
    }
}

/// Once the baseline is learned, an observation at or above the baseline
/// mean never raises an alarm by itself: the downward sum only shrinks.
pub proof fn lemma_no_alarm_above_baseline(d: DetectorModel, x: u32)
    requires
        d.baseline_count >= d.baseline_target,
        x >= d.mu_0,
        d.s_neg <= d.threshold,
    ensures
        !observe_spec(d, x).0,
        observe_spec(d, x).1.s_neg <= d.s_neg,
{
}

// ---------------------------------------------------------------------------
// The snapshot ring
// ---------------------------------------------------------------------------

/// Abstract state of a [`SnapshotRing`].
pub struct RingModel {
    pub snapshots: Seq<SpectralSnapshot>,
    pub next: nat,
    pub count: nat,
    pub total: u64,
    pub detector: DetectorModel,
    pub alarm: bool,
}

impl RingModel {
    pub open spec fn wf(self) -> bool {
        &&& self.snapshots.len() == SNAPSHOT_RING_SIZE
        &&& self.next < SNAPSHOT_RING_SIZE
        &&& self.count <= SNAPSHOT_RING_SIZE
    }
}

/// The last `SNAPSHOT_RING_SIZE` accepted snapshots, newest last, with the
/// change detector fed by each one's algebraic connectivity.
pub struct SnapshotRing {
    snapshots: [SpectralSnapshot; SNAPSHOT_RING_SIZE],
    next: usize,
    count: usize,
    total: u64,
    detector: ReviewSignalDetector,
    alarm: bool,
}

impl View for SnapshotRing {
    type V = RingModel;

    closed spec fn view(&self) -> RingModel {
        RingModel {
            snapshots: self.snapshots@,
            next: self.next as nat,
            count: self.count as nat,
            total: self.total,
            detector: self.detector@,
            alarm: self.alarm,
        }
    }
}

/// Whether a snapshot is plausible: some nodes, a smallest eigenvalue near
/// zero and every eigenvalue within the normalized Laplacian's range.
pub open spec fn plausible(s: SpectralSnapshot) -> bool {
    &&& s.node_count != 0
    &&& s.eigenvalues@[0] <= 512
    &&& forall|i: int| 0 <= i < SPECTRAL_K ==> #[trigger] s.eigenvalues@[i] <= 2 * WEIGHT_ONE + 512
}

/// What [`record_snapshot`] returns and leaves behind.
pub open spec fn record_spec(m: RingModel, s: SpectralSnapshot) -> (bool, RingModel) {
    if !plausible(s) {
        (false, m)
    } else {
        let (alarm, detector) = observe_spec(m.detector, s.eigenvalues@[1]);
        (
            true,
            RingModel {
                snapshots: m.snapshots.update(m.next as int, s),
                next: (m.next + 1) % (SNAPSHOT_RING_SIZE as nat),
                count: if m.count + 1 > SNAPSHOT_RING_SIZE {
                    SNAPSHOT_RING_SIZE as nat
                } else {
                    m.count + 1
                },
                total: if m.total == u64::MAX {
                    u64::MAX
                } else {
                    (m.total + 1) as u64
                },
                detector,
                alarm,
            },
        )
    }
}

/// The snapshot recorded `offset` records before the newest, if kept.
pub open spec fn at_offset(m: RingModel, offset: int) -> Option<SpectralSnapshot> {
    if offset < 0 || offset >= m.count {
        None
    } else {
        Some(m.snapshots[(m.next + SNAPSHOT_RING_SIZE - 1 - offset) % (SNAPSHOT_RING_SIZE as int)])
    }
}

impl SnapshotRing {
    pub open spec fn wf(&self) -> bool {
        self@.wf()
    }

    /// An empty ring with a fresh detector.
    pub fn new() -> (r: Self)
        ensures
            r.wf(),
            r@.count == 0,
            r@.next == 0,
            r@.total == 0,
            !r@.alarm,
            r@.detector == default_detector_spec(),
    {
        SnapshotRing {
            snapshots: [SpectralSnapshot::empty(); SNAPSHOT_RING_SIZE],
            next: 0,
            count: 0,
            total: 0,
            detector: ReviewSignalDetector::default_detector(),
            alarm: false,
        }
    }
}

/// Empty the ring and reset the detector.
pub fn init(ring: &mut SnapshotRing)
    ensures
        final(ring).wf(),
        final(ring)@.count == 0,
        final(ring)@.next == 0,
        final(ring)@.total == 0,
        !final(ring)@.alarm,
        final(ring)@.detector == default_detector_spec(),
{
    *ring = SnapshotRing::new();
}

/// Keep a plausible snapshot as the newest and feed its algebraic
/// connectivity to the detector; refuse an implausible one.
pub fn record_snapshot(ring: &mut SnapshotRing, snapshot: SpectralSnapshot) -> (r: bool)
    requires
        old(ring).wf(),
    ensures
        final(ring).wf(),
        r == record_spec(old(ring)@, snapshot).0,
        final(ring)@ == record_spec(old(ring)@, snapshot).1,
{
    if snapshot.node_count == 0 || snapshot.eigenvalues[0] > 512 {
        return false;
    }
    let mut i: usize = 0;
    while i < SPECTRAL_K
        invariant
            i <= SPECTRAL_K,
            ring.wf(),
            ring@ == old(ring)@,
            snapshot.node_count != 0,
            snapshot.eigenvalues@[0] <= 512,
            forall|j: int| 0 <= j < i ==> #[trigger] snapshot.eigenvalues@[j] <= 2 * WEIGHT_ONE + 512,
        decreases SPECTRAL_K - i,
    {
        if snapshot.eigenvalues[i] > 2 * WEIGHT_ONE + 512 {
            return false;
        }
        i += 1;
    }
    let slot = ring.next;
    ring.snapshots[slot] = snapshot;
    ring.next = (slot + 1) % SNAPSHOT_RING_SIZE;
    ring.count = if ring.count + 1 > SNAPSHOT_RING_SIZE {
        SNAPSHOT_RING_SIZE
    } else {
        ring.count + 1
    };
    ring.total = ring.total.saturating_add(1);
    let fiedler = snapshot.fiedler();
    ring.alarm = ring.detector.observe(fiedler);
    true
}

/// The snapshot recorded `offset` records before the newest, if it is
/// still in the ring.
pub fn snapshot_at_offset(ring: &SnapshotRing, offset: usize) -> (r: Option<SpectralSnapshot>)
    requires
        ring.wf(),
    ensures
        r == at_offset(ring@, offset as int),
{
    if offset >= ring.count {
        return None;
    }
    let index = (ring.next + SNAPSHOT_RING_SIZE - 1 - offset) % SNAPSHOT_RING_SIZE;
    Some(ring.snapshots[index])
}

/// The newest snapshot, if any.
pub fn latest_snapshot(ring: &SnapshotRing) -> (r: Option<SpectralSnapshot>)
    requires
        ring.wf(),
    ensures
        r == at_offset(ring@, 0),
{
    snapshot_at_offset(ring, 0)
}

/// Whether the newest observation raised an alarm.
pub fn review_alarm(ring: &SnapshotRing) -> (r: bool)
    ensures
        r == ring@.alarm,
{
    ring.alarm
}

pub fn review_alarm_count(ring: &SnapshotRing) -> (r: u32)
    ensures
        r == ring@.detector.alarm_count,
{
    ring.detector.alarm_count
}

/// Acknowledge the alarm and re-baseline the detector at `new_mu_0`.
pub fn review_alarm_reset(ring: &mut SnapshotRing, new_mu_0: Weight)
    requires
        old(ring).wf(),
    ensures
        final(ring).wf(),
        final(ring)@ == (RingModel {
            detector: DetectorModel {
                mu_0: new_mu_0,
                s_pos: 0,
                s_neg: 0,
                alarm_count: 0,
                baseline_sum: new_mu_0 as u64,
                baseline_count: old(ring)@.detector.baseline_target,
                ..old(ring)@.detector
            },
            alarm: false,
            ..old(ring)@
        }),
{
    ring.detector.reset(new_mu_0);
    ring.alarm = false;
}

/// Snapshots accepted since the ring was emptied, saturating.
pub fn total_snapshots(ring: &SnapshotRing) -> (r: u64)
    ensures
        r == ring@.total,
{
    ring.total
}

pub open spec fn drift_spec(m: RingModel, window: int) -> Option<(i64, bool)> {
    if window < 2 {
        None
    } else {
        match (at_offset(m, 0), at_offset(m, window - 1)) {
            (Some(newest), Some(oldest)) => {
                let drift = newest.eigenvalues@[1] - oldest.eigenvalues@[1];
                Some((drift as i64, drift < 0))
            },
            _ => None,
        }
    }
}

/// Change of the algebraic connectivity across the newest `window`
/// snapshots, and whether it fell; none without two snapshots that far apart.
pub fn fiedler_drift(ring: &SnapshotRing, window: usize) -> (r: Option<(i64, bool)>)
    requires
        ring.wf(),
    ensures
        r == drift_spec(ring@, window as int),
{
    if window < 2 {
        return None;
    }
    let newest = match snapshot_at_offset(ring, 0) {
        Some(s) => s,
        None => return None,
    };
    let oldest = match snapshot_at_offset(ring, window - 1) {
        Some(s) => s,
        None => return None,
    };
    let drift = newest.fiedler() as i64 - oldest.fiedler() as i64;
    Some((drift, drift < 0))
}


/// A recorded snapshot becomes the newest, and every snapshot kept before
/// it moves one position back.
pub proof fn lemma_record_shifts_history(m: RingModel, s: SpectralSnapshot, offset: int)
    requires
        m.wf(),
        plausible(s),
        0 <= offset,
        offset + 1 < SNAPSHOT_RING_SIZE,
    ensures
        at_offset(record_spec(m, s).1, 0) == Some(s),
        at_offset(record_spec(m, s).1, offset + 1) == at_offset(m, offset),
{
    let m2 = record_spec(m, s).1;
    let n = SNAPSHOT_RING_SIZE as int;
    if m.next + 1 < n {
        assert(m2.next == m.next + 1);
    } else {
        assert(m2.next == 0);
    }
    assert((m2.next + n - 1 - 0) % n == m.next);
    if offset < m.count {
        let a = (m2.next + n - 1 - (offset + 1)) % n;
        let b = (m.next + n - 1 - offset) % n;
        assert(a == b);
        assert(a != m.next);
    }
}

} // verus!
