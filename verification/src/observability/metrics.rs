//! Metric envelopes, their wire encoding, and a latency histogram with
//! fixed bins.

use vstd::prelude::*;
use vstd::string::StringSliceAdditionalSpecFns;
use crate::time::now_ms;

verus! {

/// The number of latency bins.
pub const BINS: usize = 16;

/// The upper bounds of the latency bins, in milliseconds. The last bin has
/// no upper bound.
pub const LAT_BOUNDS: [u64; 16] = [
    5,
    10,
    20,
    30,
    40,
    50,
    60,
    80,
    100,
    150,
    200,
    250,
    300,
    400,
    600,
    0xffff_ffff_ffff_ffff,
];

/// One metric with its time, name and labels.
#[derive(Clone, Debug)]
pub struct MetricEnvelope {
    pub ts_ms: u64,
    pub name: &'static str,
    pub labels: &'static [(&'static str, &'static str)],
    pub kind: MetricKind,
}

/// What a metric measures.
#[derive(Clone, Debug)]
pub enum MetricKind {
    Counter { delta: u64 },
    Gauge { value: i64 },
    Summary { count: u64, sum: u64 },
    LatencyHist { bins: [u64; 16] },
}

/// A histogram of latencies over the fixed bins, with the number of
/// observations and their sum.
#[derive(Clone, Debug)]
pub struct LatencyHistogram {
    bins: [u64; 16],
    count: u64,
    sum_ms: u64,
}

/// The sum of the first `n` bins.
pub open spec fn prefix_total(bins: Seq<u64>, n: int) -> nat
    decreases n,
{
    if n <= 0 {
        0
    } else {
        prefix_total(bins, n - 1) + bins[n - 1] as nat
    }
}

/// The first bin from `from` on whose upper bound is not below `ms`.
pub open spec fn bin_from(ms: u64, from: int) -> int
    decreases 15 - from,
{
    if from < 15 && ms > LAT_BOUNDS[from] {
        bin_from(ms, from + 1)
    } else {
        from
    }
}

/// The bin that an observation of `ms` milliseconds falls in.
pub open spec fn bin_of(ms: u64) -> int {
    bin_from(ms, 0)
}

/// The rank, counted from the smallest, of the observation that stands at
/// `pct` percent of `count` observations: `count * pct / 100`, rounded up.
pub open spec fn rank_at(count: u64, pct: u64) -> nat {
    ((count as nat * pct as nat + 99) / 100) as nat
}

/// An observation falls in the first bin whose upper bound is not below it.
pub proof fn lemma_bin_of(ms: u64)
    ensures
        0 <= bin_of(ms) < 16,
        ms <= LAT_BOUNDS[bin_of(ms)],
        forall|j: int| 0 <= j < bin_of(ms) ==> ms > #[trigger] LAT_BOUNDS[j],
{
    lemma_bin_from(ms, 0);
}

proof fn lemma_bin_from(ms: u64, from: int)
    requires
        0 <= from < 16,
    ensures
        from <= bin_from(ms, from) < 16,
        ms <= LAT_BOUNDS[bin_from(ms, from)],
        forall|j: int| from <= j < bin_from(ms, from) ==> ms > #[trigger] LAT_BOUNDS[j],
    decreases 15 - from,
{
    if from < 15 && ms > LAT_BOUNDS[from] {
        lemma_bin_from(ms, from + 1);
    }
}

/// The sums of the first bins grow with the number of bins summed.
pub proof fn lemma_prefix_total_grows(bins: Seq<u64>, m: int, n: int)
    requires
        m <= n,
    ensures
        prefix_total(bins, m) <= prefix_total(bins, n),
    decreases n - m,
{
    if m < n {
        lemma_prefix_total_grows(bins, m, n - 1);
    }
}

/// Raising one bin by one raises every sum that includes it by one.
pub proof fn lemma_prefix_total_update(bins: Seq<u64>, at: int, n: int)
    requires
        0 <= at < bins.len(),
        0 <= n <= bins.len(),
        bins[at] < u64::MAX,
    ensures
        prefix_total(bins.update(at, (bins[at] + 1) as u64), n) == prefix_total(bins, n) + (if at
            < n {
            1nat
        } else {
            0nat
        }),
    decreases n,
{
    if n > 0 {
        lemma_prefix_total_update(bins, at, n - 1);
    }
}

impl LatencyHistogram {
    /// The observations by bin.
    pub closed spec fn bins(&self) -> Seq<u64> {
        self.bins@
    }

    /// The number of observations.
    pub closed spec fn total(&self) -> u64 {
        self.count
    }

    /// The sum of the observations, in milliseconds.
    pub closed spec fn sum(&self) -> u64 {
        self.sum_ms
    }

    /// The bins add up to the number of observations.
    pub open spec fn wf(&self) -> bool {
        &&& self.bins().len() == 16
        &&& prefix_total(self.bins(), 16) == self.total()
    }

    /// A histogram without observations.
    pub fn new() -> (h: LatencyHistogram)
        ensures
            h.wf(),
            h.total() == 0,
            h.sum() == 0,
            forall|i: int| 0 <= i < 16 ==> h.bins()[i] == 0,
    {
        let h = LatencyHistogram { bins: [0u64; 16], count: 0, sum_ms: 0 };
        proof {
            reveal_with_fuel(prefix_total, 17);
        }
        h
    }

    /// Records one observation of `ms` milliseconds.
    pub fn observe_ms(&mut self, ms: u64)
        requires
            old(self).wf(),
            old(self).total() < u64::MAX,
            old(self).sum() + ms <= u64::MAX,
        ensures
            final(self).wf(),
            final(self).total() == old(self).total() + 1,
            final(self).sum() == old(self).sum() + ms,
            final(self).bins() == old(self).bins().update(
                bin_of(ms),
                (old(self).bins()[bin_of(ms)] + 1) as u64,
            ),
    {
        let mut idx: usize = 0;
        while idx < 15 && ms > LAT_BOUNDS[idx]
            invariant
                0 <= idx <= 15,
                bin_of(ms) == bin_from(ms, idx as int),
            decreases 15 - idx,
        {
            idx += 1;
        }
        proof {
            lemma_bin_of(ms);
            lemma_prefix_total_grows(self.bins(), idx as int + 1, 16);
            lemma_prefix_total_grows(self.bins(), 0, idx as int);
            lemma_prefix_total_update(self.bins(), idx as int, 16);
        }
        self.bins[idx] = self.bins[idx] + 1;
        self.count = self.count + 1;
        self.sum_ms = self.sum_ms + ms;
    }

    /// The upper bound of the bin that holds the observation at `pct`
    /// percent, counted from the smallest: the first bin at which the bins
    /// so far add up to the rank of that observation. Zero where the rank is
    /// zero; the last bound where the rank is beyond the last observation.
    pub fn quantile_pct(&self, pct: u64) -> (r: u64)
        requires
            self.wf(),
        ensures
            rank_at(self.total(), pct) == 0 ==> r == 0,
            rank_at(self.total(), pct) > self.total() ==> r == LAT_BOUNDS[15],
            0 < rank_at(self.total(), pct) <= self.total() ==> exists|i: int|
                0 <= i < 16 && prefix_total(self.bins(), i) < rank_at(self.total(), pct)
                    <= prefix_total(self.bins(), i + 1) && r == #[trigger] LAT_BOUNDS[i],
    {
        assert(self.count as int * pct as int <= 0xffff_ffff_ffff_ffff * 0xffff_ffff_ffff_ffff)
            by (nonlinear_arith)
            requires
                0 <= self.count <= 0xffff_ffff_ffff_ffff,
                0 <= pct <= 0xffff_ffff_ffff_ffff,
        ;
        let target: u128 = (self.count as u128 * pct as u128 + 99) / 100;
        if target == 0 {
            return 0;
        }
        let mut acc: u64 = 0;
        let mut i: usize = 0;
        while i < 16
            invariant
                0 <= i <= 16,
                self.wf(),
                acc == prefix_total(self.bins(), i as int),
                acc < target,
                target == rank_at(self.total(), pct),
            decreases 16 - i,
        {
            proof {
                lemma_prefix_total_grows(self.bins(), i as int + 1, 16);
            }
            acc = acc + self.bins[i];
            if acc as u128 >= target {
                return LAT_BOUNDS[i];
            }
            i += 1;
        }
        LAT_BOUNDS[15]
    }

    /// The median latency, as the upper bound of its bin.
    pub fn p50(&self) -> (r: u64)
        requires
            self.wf(),
        ensures
            self.total() == 0 ==> r == 0,
            self.total() > 0 ==> exists|i: int|
                0 <= i < 16 && prefix_total(self.bins(), i) < rank_at(self.total(), 50)
                    <= prefix_total(self.bins(), i + 1) && r == #[trigger] LAT_BOUNDS[i],
    {
        self.quantile_pct(50)
    }

    /// The latency that nine observations in ten stay within, as the upper
    /// bound of its bin.
    pub fn p90(&self) -> (r: u64)
        requires
            self.wf(),
        ensures
            self.total() == 0 ==> r == 0,
            self.total() > 0 ==> exists|i: int|
                0 <= i < 16 && prefix_total(self.bins(), i) < rank_at(self.total(), 90)
                    <= prefix_total(self.bins(), i + 1) && r == #[trigger] LAT_BOUNDS[i],
    {
        self.quantile_pct(90)
    }

    /// The latency that ninety-nine observations in a hundred stay within,
    /// as the upper bound of its bin.
    pub fn p99(&self) -> (r: u64)
        requires
            self.wf(),
        ensures
            self.total() == 0 ==> r == 0,
            self.total() > 0 ==> exists|i: int|
                0 <= i < 16 && prefix_total(self.bins(), i) < rank_at(self.total(), 99)
                    <= prefix_total(self.bins(), i + 1) && r == #[trigger] LAT_BOUNDS[i],
    {
        self.quantile_pct(99)
    }

    /// The histogram as a metric, stamped with the wall clock.
    pub fn export(
        &self,
        name: &'static str,
        labels: &'static [(&'static str, &'static str)],
    ) -> (m: MetricEnvelope)
        ensures
            m.name == name,
            m.labels == labels,
            m.kind matches MetricKind::LatencyHist { bins } && bins@ == self.bins(),
    {
        MetricEnvelope {
            ts_ms: now_ms(),
            name,
            labels,
            kind: MetricKind::LatencyHist { bins: self.bins },
        }
    }

    /// The number of observations.
    pub fn count(&self) -> (n: u64)
        ensures
            n == self.total(),
    {
        self.count
    }

    /// The sum of the observations, in milliseconds.
    pub fn sum_ms(&self) -> (n: u64)
        ensures
            n == self.sum(),
    {
        self.sum_ms
    }
}

/// A counter that went up by `delta`, stamped with the wall clock.
pub fn counter(
    name: &'static str,
    delta: u64,
    labels: &'static [(&'static str, &'static str)],
) -> (m: MetricEnvelope)
    ensures
        m.name == name,
        m.labels == labels,
        m.kind == (MetricKind::Counter { delta }),
{
    MetricEnvelope { ts_ms: now_ms(), name, labels, kind: MetricKind::Counter { delta } }
}

/// A gauge that reads `value`, stamped with the wall clock.
pub fn gauge(
    name: &'static str,
    value: i64,
    labels: &'static [(&'static str, &'static str)],
) -> (m: MetricEnvelope)
    ensures
        m.name == name,
        m.labels == labels,
        m.kind == (MetricKind::Gauge { value }),
{
    MetricEnvelope { ts_ms: now_ms(), name, labels, kind: MetricKind::Gauge { value } }
}

/// A summary of `count` observations that add up to `sum`, stamped with the
/// wall clock.
pub fn summary(
    name: &'static str,
    count: u64,
    sum: u64,
    labels: &'static [(&'static str, &'static str)],
) -> (m: MetricEnvelope)
    ensures
        m.name == name,
        m.labels == labels,
        m.kind == (MetricKind::Summary { count, sum }),
{
    MetricEnvelope { ts_ms: now_ms(), name, labels, kind: MetricKind::Summary { count, sum } }
}

/// The two bytes of `v`, most significant first.
pub open spec fn be16(v: u16) -> Seq<u8> {
    seq![(v / 0x100) as u8, (v % 0x100) as u8]
}

/// The eight bytes of `v`, most significant first.
pub open spec fn be64(v: u64) -> Seq<u8> {
    seq![
        (v / 0x100_0000_0000_0000) as u8,
        (v / 0x1_0000_0000_0000 % 0x100) as u8,
        (v / 0x100_0000_0000 % 0x100) as u8,
        (v / 0x1_0000_0000 % 0x100) as u8,
        (v / 0x100_0000 % 0x100) as u8,
        (v / 0x1_0000 % 0x100) as u8,
        (v / 0x100 % 0x100) as u8,
        (v % 0x100) as u8,
    ]
}

/// A string on the wire: its length in bytes as sixteen bits, then its
/// bytes. A length over sixteen bits is cut to its low sixteen bits; the
/// bytes are all written.
pub open spec fn wire_str(s: &str) -> Seq<u8> {
    be16(s.spec_bytes().len() as u16) + s.spec_bytes()
}

/// Labels on the wire: each key and each value as a string, in order.
pub open spec fn wire_labels(labels: Seq<(&'static str, &'static str)>) -> Seq<u8>
    decreases labels.len(),
{
    if labels.len() == 0 {
        Seq::empty()
    } else {
        wire_labels(labels.drop_last()) + wire_str(labels.last().0) + wire_str(labels.last().1)
    }
}

/// Bins on the wire: each as sixty-four bits, in order.
pub open spec fn wire_bins(bins: Seq<u64>) -> Seq<u8>
    decreases bins.len(),
{
    if bins.len() == 0 {
        Seq::empty()
    } else {
        wire_bins(bins.drop_last()) + be64(bins.last())
    }
}

/// What a metric measures, on the wire: a tag byte, then the numbers as
/// sixty-four bits each, a negative gauge in two's complement.
pub open spec fn wire_kind(kind: MetricKind) -> Seq<u8> {
    match kind {
        MetricKind::Counter { delta } => seq![1u8] + be64(delta),
        MetricKind::Gauge { value } => seq![2u8] + be64(value as u64),
        MetricKind::Summary { count, sum } => seq![3u8] + be64(count) + be64(sum),
        MetricKind::LatencyHist { bins } => seq![4u8] + wire_bins(bins@),
    }
}

/// A metric on the wire: the time, the name, the number of labels as
/// sixteen bits (cut to its low sixteen bits), the labels, and what is
/// measured. Every number is written most significant byte first.
pub open spec fn wire(m: &MetricEnvelope) -> Seq<u8> {
    be64(m.ts_ms) + wire_str(m.name) + be16(m.labels@.len() as u16) + wire_labels(m.labels@)
        + wire_kind(m.kind)
}

fn put_u16(buf: &mut Vec<u8>, v: u16)
    ensures
        final(buf)@ == old(buf)@ + be16(v),
{
    buf.push((v / 0x100) as u8);
    buf.push((v % 0x100) as u8);
    assert(buf@ =~= old(buf)@ + be16(v));
}

fn put_u64(buf: &mut Vec<u8>, v: u64)
    ensures
        final(buf)@ == old(buf)@ + be64(v),
{
    buf.push((v / 0x100_0000_0000_0000) as u8);
    buf.push((v / 0x1_0000_0000_0000 % 0x100) as u8);
    buf.push((v / 0x100_0000_0000 % 0x100) as u8);
    buf.push((v / 0x1_0000_0000 % 0x100) as u8);
    buf.push((v / 0x100_0000 % 0x100) as u8);
    buf.push((v / 0x1_0000 % 0x100) as u8);
    buf.push((v / 0x100 % 0x100) as u8);
    buf.push((v % 0x100) as u8);
    assert(buf@ =~= old(buf)@ + be64(v));
}

fn put_i64(buf: &mut Vec<u8>, v: i64)
    ensures
        final(buf)@ == old(buf)@ + be64(v as u64),
{
    put_u64(buf, #[verifier::truncate] (v as u64));
}

fn put_bytes(buf: &mut Vec<u8>, bytes: &[u8])
    ensures
        final(buf)@ == old(buf)@ + bytes@,
{
    let mut i: usize = 0;
    while i < bytes.len()
        invariant
            i <= bytes.len(),
            buf@ == old(buf)@ + bytes@.take(i as int),
        decreases bytes.len() - i,
    {
        buf.push(bytes[i]);
        assert(bytes@.take(i as int + 1) =~= bytes@.take(i as int).push(bytes@[i as int]));
        assert(buf@ =~= old(buf)@ + bytes@.take(i as int + 1));
        i += 1;
    }
    assert(bytes@.take(bytes.len() as int) =~= bytes@);
}

fn put_str(buf: &mut Vec<u8>, s: &str)
    ensures
        final(buf)@ == old(buf)@ + wire_str(s),
{
    let bytes = s.as_bytes();
    put_u16(buf, #[verifier::truncate] (bytes.len() as u16));
    put_bytes(buf, bytes);
    assert(buf@ =~= old(buf)@ + wire_str(s));
}

/// Encodes a metric for the wire.
pub fn encode_wire(m: &MetricEnvelope) -> (buf: Vec<u8>)
    ensures
        buf@ == wire(m),
{
    let mut buf: Vec<u8> = Vec::with_capacity(128);
    put_u64(&mut buf, m.ts_ms);
    put_str(&mut buf, m.name);
    put_u16(&mut buf, #[verifier::truncate] (m.labels.len() as u16));
    let ghost head = buf@;
    assert(head =~= be64(m.ts_ms) + wire_str(m.name) + be16(m.labels@.len() as u16));
    let mut i: usize = 0;
    while i < m.labels.len()
        invariant
            i <= m.labels.len(),
            buf@ == head + wire_labels(m.labels@.take(i as int)),
        decreases m.labels.len() - i,
    {
        let (k, v) = m.labels[i];
        let ghost before = buf@;
        put_str(&mut buf, k);
        put_str(&mut buf, v);
        proof {
            let next = m.labels@.take(i as int + 1);
            assert(next.drop_last() =~= m.labels@.take(i as int));
            assert(next.last() == m.labels@[i as int]);
            assert(buf@ =~= head + wire_labels(next));
        }
        i += 1;
    }
    assert(m.labels@.take(m.labels.len() as int) =~= m.labels@);
    let ghost labelled = buf@;
    match &m.kind {
        MetricKind::Counter { delta } => {
            buf.push(1u8);
            put_u64(&mut buf, *delta);
            assert(buf@ =~= labelled + (seq![1u8] + be64(*delta)));
        },
        MetricKind::Gauge { value } => {
            buf.push(2u8);
            put_i64(&mut buf, *value);
            assert(buf@ =~= labelled + (seq![2u8] + be64(*value as u64)));
        },
        MetricKind::Summary { count, sum } => {
            buf.push(3u8);
            put_u64(&mut buf, *count);
            put_u64(&mut buf, *sum);
            assert(buf@ =~= labelled + (seq![3u8] + be64(*count) + be64(*sum)));
        },
        MetricKind::LatencyHist { bins } => {
            buf.push(4u8);
            let mut j: usize = 0;
            while j < 16
                invariant
                    j <= 16,
                    buf@ == labelled + (seq![4u8] + wire_bins(bins@.take(j as int))),
                decreases 16 - j,
            {
                put_u64(&mut buf, bins[j]);
                proof {
                    let next = bins@.take(j as int + 1);
                    assert(next.drop_last() =~= bins@.take(j as int));
                    assert(next.last() == bins@[j as int]);
                    assert(buf@ =~= labelled + (seq![4u8] + wire_bins(next)));
                }
                j += 1;
            }
            assert(bins@.take(16) =~= bins@);
        },
    }
    assert(buf@ =~= wire(m));
    buf
}

} // verus!
