//! Exported byte counters and memory gauges.
//!
//! The kernel reports absolute byte counts per interface, while an exported
//! counter can only be increased.  Each observation is therefore turned into
//! an increase over the last raw value seen for the interface; a raw value
//! that went backwards (an interface reload, a reboot) counts as a fresh
//! start and adds nothing.

use vstd::prelude::*;
use prometheus::Registry;
use crate::collectors::network::{interfaces_in, iface_rows, lemma_iface_rows_names};
use crate::snapshot::IfaceCounters;
use crate::text::lines;

verus! {

/// `prometheus::Registry`, carried through opaque.
#[verifier::external_type_specification]
#[verifier::external_body]
pub struct ExRegistry(prometheus::Registry);

/// `prometheus::Error`, carried through opaque.
#[verifier::external_type_specification]
#[verifier::external_body]
pub struct ExPrometheusError(prometheus::Error);

/// A `prometheus::IntGauge`, held opaque (its type is generic over a trait
/// of `prometheus::core`, which cannot be declared here).
#[verifier::external_body]
pub struct BytesGauge {
    gauge: prometheus::IntGauge,
}

/// A `prometheus::IntCounterVec`, one counter per label value, held opaque
/// (its builder type is private to `prometheus`, so the type cannot be
/// declared here).
#[verifier::external_body]
pub struct IfaceCounterVec {
    vec: prometheus::IntCounterVec,
}

/// The label names the counter vector was made with (its descriptor's
/// variable labels).
pub uninterp spec fn label_names(c: IfaceCounterVec) -> Seq<Seq<char>>;

/// The help text the counter vector was made with.
pub uninterp spec fn vec_help(c: IfaceCounterVec) -> Seq<char>;

/// The name the counter vector was made with (its descriptor's
/// fully-qualified name).
pub uninterp spec fn vec_name(c: IfaceCounterVec) -> Seq<char>;

/// The increments asked of the counter vector so far, in order, each with
/// the label value it was asked for.
pub uninterp spec fn applied(c: IfaceCounterVec) -> Seq<(Seq<char>, u64)>;

/// The name the gauge was made with (its descriptor's fully-qualified name).
pub uninterp spec fn gauge_name(g: BytesGauge) -> Seq<char>;

/// The help text the gauge was made with.
pub uninterp spec fn gauge_help(g: BytesGauge) -> Seq<char>;

/// The value the gauge reads.
pub uninterp spec fn gauge_value(g: BytesGauge) -> i64;

/// The fully-qualified names of the descriptors of the collectors that the
/// registry holds.
pub uninterp spec fn registered(r: Registry) -> Set<Seq<char>>;

/// A character that may begin a prometheus name: `[a-zA-Z_]`, and `:` too
/// when `colon` holds.
pub open spec fn ident_char(c: char, colon: bool) -> bool {
    ('a' <= c && c <= 'z') || ('A' <= c && c <= 'Z') || c == '_' || (colon && c == ':')
}

/// A prometheus identifier: one or more characters, the first an
/// `ident_char`, the others `ident_char`s or ASCII digits.
pub open spec fn valid_ident(s: Seq<char>, colon: bool) -> bool {
    s.len() > 0 && ident_char(s[0], colon) && forall|i: int|
        1 <= i < s.len() ==> ident_char(#[trigger] s[i], colon) || ('0' <= s[i] && s[i] <= '9')
}

/// A valid metric name: `[a-zA-Z_:][a-zA-Z0-9_:]*`.
pub open spec fn valid_metric_name(s: Seq<char>) -> bool {
    valid_ident(s, true)
}

/// A valid label name: `[a-zA-Z_][a-zA-Z0-9_]*`.
pub open spec fn valid_label_name(s: Seq<char>) -> bool {
    valid_ident(s, false)
}

/// Calls `prometheus::IntGauge::with_opts(Opts::new(name, help))`.  It
/// succeeds exactly when the help text is not empty and the name is a valid
/// metric name (the checks of `Desc::new`; a gauge has no labels, so the
/// label pairs that `Value::new` makes cannot fail).  The gauge it makes
/// has the name it was given and reads 0 (`Value::new` starts from
/// `from_i64(0)`).
#[verifier::external_body]
fn new_int_gauge(name: &str, help: &str) -> (r: Result<BytesGauge, prometheus::Error>)
    ensures
        r is Ok <==> (help@.len() > 0 && valid_metric_name(name@)),
        r matches Ok(g) ==> gauge_name(g) == name@ && gauge_help(g) == help@ && gauge_value(g) == 0,
{
    match prometheus::IntGauge::with_opts(prometheus::Opts::new(name, help)) {
        Ok(gauge) => Ok(BytesGauge { gauge }),
        Err(e) => Err(e),
    }
}

/// Calls `prometheus::IntCounterVec::new(Opts::new(name, help), &[label])`.
/// It succeeds exactly when the help text is not empty, the name is a valid
/// metric name and the label a valid label name (the checks of `Desc::new`,
/// which `MetricVec::create` runs; one label cannot be a duplicate).  On
/// success the vector has the name, help text and one label name it was
/// given (its descriptor keeps them as passed), and nothing has been asked
/// of it yet.
#[verifier::external_body]
fn new_counter_vec(name: &str, help: &str, label: &str) -> (r: Result<IfaceCounterVec, prometheus::Error>)
    ensures
        r is Ok <==> (help@.len() > 0 && valid_metric_name(name@) && valid_label_name(label@)),
        r matches Ok(c) ==> vec_name(c) == name@ && vec_help(c) == help@ && label_names(c) == seq![label@],
        r matches Ok(c) ==> applied(c).len() == 0,
{
    match prometheus::IntCounterVec::new(prometheus::Opts::new(name, help), &[label]) {
        Ok(vec) => Ok(IfaceCounterVec { vec }),
        Err(e) => Err(e),
    }
}

/// Calls `Registry::register` with a clone of the gauge.  On success the
/// registry holds the gauge as one more collector, whose one descriptor has
/// the gauge's name; on failure the collectors it holds are unchanged
/// (`RegistryCore::register` adds the collector only on its `Ok` path).
/// Whether it succeeds depends on what the registry already holds and is
/// not stated.
#[verifier::external_body]
fn register_gauge(registry: &mut Registry, g: &BytesGauge) -> (r: Result<(), prometheus::Error>)
    ensures
        r is Ok ==> registered(*final(registry)) == registered(*old(registry)).insert(gauge_name(*g)),
        r is Err ==> registered(*final(registry)) == registered(*old(registry)),
{
    registry.register(Box::new(g.gauge.clone()))
}

/// Calls `Registry::register` with a clone of the counter vector; as with
/// `register_gauge`, success adds the vector's name to what the registry
/// holds and failure changes nothing there.  Whether it succeeds depends on
/// what the registry already holds and is not stated.
#[verifier::external_body]
fn register_counter_vec(registry: &mut Registry, c: &IfaceCounterVec) -> (r: Result<(), prometheus::Error>)
    ensures
        r is Ok ==> registered(*final(registry)) == registered(*old(registry)).insert(vec_name(*c)),
        r is Err ==> registered(*final(registry)) == registered(*old(registry)),
{
    registry.register(Box::new(c.vec.clone()))
}

/// Calls `IntGauge::set(v)`: the gauge then reads `v` (an atomic store).
#[verifier::external_body]
fn set_gauge(g: &mut BytesGauge, v: i64)
    ensures
        gauge_value(*final(g)) == v,
        gauge_name(*final(g)) == gauge_name(*old(g)),
        gauge_help(*final(g)) == gauge_help(*old(g)),
{
    g.gauge.set(v)
}

/// Calls `with_label_values(&[label]).inc_by(delta)` on the counter vector,
/// which panics unless the vector was made with one label name.  The
/// increment is asked of the child counter for `label`; children are found
/// by an FNV hash of the label value, and that two label values never share
/// a hash is not stated.
#[verifier::external_body]
fn inc_counter(c: &mut IfaceCounterVec, label: &str, delta: u64)
    requires
        label_names(*old(c)).len() == 1,
    ensures
        applied(*final(c)) == applied(*old(c)).push((label@, delta)),
        vec_name(*final(c)) == vec_name(*old(c)),
        vec_help(*final(c)) == vec_help(*old(c)),
        label_names(*final(c)) == label_names(*old(c)),
{
    c.vec.with_label_values(&[label]).inc_by(delta)
}

/// The last raw value recorded under `name`, or 0 when there is none.
pub open spec fn previous(last: Map<Seq<char>, u64>, name: Seq<char>) -> u64 {
    if last.contains_key(name) {
        last[name]
    } else {
        0
    }
}

/// The increase to export when a counter read `prev` and now reads `now`:
/// `now - prev`, or 0 when the counter went backwards.
pub open spec fn counter_delta(prev: u64, now: u64) -> u64 {
    if now >= prev {
        (now - prev) as u64
    } else {
        0
    }
}

/// The last raw value seen for each name.
pub struct CounterTracker {
    names: Vec<String>,
    values: Vec<u64>,
    last: Ghost<Map<Seq<char>, u64>>,
}

impl View for CounterTracker {
    type V = Map<Seq<char>, u64>;

    closed spec fn view(&self) -> Map<Seq<char>, u64> {
        self.last@
    }
}

impl CounterTracker {
    /// The stored names and values stand for the map of last values, one
    /// entry per name.
    pub closed spec fn wf(&self) -> bool {
        &&& self.names@.len() == self.values@.len()
        &&& forall|i: int|
            0 <= i < self.names@.len() ==> self.last@.contains_key(#[trigger] self.names@[i]@)
                && self.last@[self.names@[i]@] == self.values@[i]
        &&& forall|k: Seq<char>|
            self.last@.contains_key(k) ==> exists|i: int|
                0 <= i < self.names@.len() && (#[trigger] self.names@[i])@ == k
        &&& forall|i: int, j: int|
            0 <= i < j < self.names@.len() ==> (#[trigger] self.names@[i])@ != (#[trigger] self.names@[j])@
    }

    /// A tracker that has seen nothing.
    pub fn new() -> (r: CounterTracker)
        ensures
            r.wf(),
            r@ == Map::<Seq<char>, u64>::empty(),
    {
        CounterTracker { names: Vec::new(), values: Vec::new(), last: Ghost(Map::empty()) }
    }

    /// Records that the counter `name` now reads `now`, and gives the
    /// increase to export for it.
    pub fn advance(&mut self, name: &String, now: u64) -> (delta: u64)
        requires
            old(self).wf(),
        ensures
            final(self).wf(),
            final(self)@ == old(self)@.insert(name@, now),
            delta == counter_delta(previous(old(self)@, name@), now),
    {
        let mut i: usize = 0;
        while i < self.names.len()
            invariant
                self.wf(),
                self == old(self),
                0 <= i <= self.names@.len(),
                forall|j: int| 0 <= j < i ==> (#[trigger] self.names@[j])@ != name@,
            decreases self.names@.len() - i,
        {
            if self.names[i] == *name {
                let prev = self.values[i];
                let delta = if now >= prev {
                    now - prev
                } else {
                    0
                };
                let ghost old_names = self.names@;
                self.values.set(i, now);
                self.last = Ghost(self.last@.insert(name@, now));
                proof {
                    assert forall|k: Seq<char>|
                        self.last@.contains_key(k) implies exists|j: int|
                            0 <= j < self.names@.len() && (#[trigger] self.names@[j])@ == k by {
                        if k != name@ {
                            assert(old(self)@.contains_key(k));
                            let j = choose|j: int|
                                0 <= j < old_names.len() && (#[trigger] old_names[j])@ == k;
                            assert(self.names@[j] == old_names[j]);
                        } else {
                            assert(self.names@[i as int]@ == k);
                        }
                    }
                }
                return delta;
            }
            i += 1;
        }
        let ghost old_names = self.names@;
        self.names.push(name.clone());
        self.values.push(now);
        self.last = Ghost(self.last@.insert(name@, now));
        proof {
            assert(!old(self)@.contains_key(name@)) by {
                if old(self)@.contains_key(name@) {
                    let j = choose|j: int| 0 <= j < old_names.len() && (#[trigger] old_names[j])@ == name@;
                    assert(old_names[j]@ != name@);
                }
            }
            assert forall|j: int| 0 <= j < self.names@.len() implies self.last@.contains_key(
                #[trigger] self.names@[j]@,
            ) && self.last@[self.names@[j]@] == self.values@[j] by {
                if j < old_names.len() {
                    assert(self.names@[j] == old_names[j]);
                }
            }
            assert forall|k: Seq<char>|
                self.last@.contains_key(k) implies exists|j: int|
                    0 <= j < self.names@.len() && (#[trigger] self.names@[j])@ == k by {
                if k != name@ {
                    let j = choose|j: int| 0 <= j < old_names.len() && (#[trigger] old_names[j])@ == k;
                    assert(self.names@[j] == old_names[j]);
                } else {
                    assert(self.names@[old_names.len() as int]@ == k);
                }
            }
        }
        now
    }
}


/// Why the integer metrics could not be made or registered.
#[derive(Debug)]
pub enum MetricsError {
    /// A metric could not be made.
    Create(prometheus::Error),
    /// A metric could not be registered.
    Register(prometheus::Error),
}

/// Which byte counter of an interface.
#[derive(Debug, Clone, Copy, PartialEq, Eq)]
pub enum Direction {
    Received,
    Transmitted,
}

/// An increase applied to the exported byte counter of one interface.
#[derive(Debug)]
pub struct CounterIncrement {
    pub direction: Direction,
    pub iface: String,
    pub delta: u64,
}

impl View for CounterIncrement {
    type V = (Direction, Seq<char>, u64);

    open spec fn view(&self) -> (Direction, Seq<char>, u64) {
        (self.direction, self.iface@, self.delta)
    }
}

/// What one observation wrote: the memory gauge values that were set and
/// the counter increases that were applied, in order.
#[derive(Debug)]
pub struct Observed {
    pub memory_used: Option<i64>,
    pub memory_total: Option<i64>,
    pub increments: Vec<CounterIncrement>,
}

/// The increases exported for one interface named `name` whose counters
/// went up by `dr` (received) and `dt` (sent): the received one first, and
/// each only when it is positive.
pub open spec fn step_increments(name: Seq<char>, dr: u64, dt: u64) -> Seq<(Direction, Seq<char>, u64)> {
    (if dr > 0 {
        seq![(Direction::Received, name, dr)]
    } else {
        seq![]
    }) + (if dt > 0 {
        seq![(Direction::Transmitted, name, dt)]
    } else {
        seq![]
    })
}

/// The last received and sent values after observing `ifaces`, starting
/// from `rx` and `tx`, and the increases to export, in order.  For each
/// interface the received counter goes first: an increase is exported only
/// when it is positive, and the raw value becomes the last value either way.
pub open spec fn iface_increments(
    rx: Map<Seq<char>, u64>,
    tx: Map<Seq<char>, u64>,
    ifaces: Seq<(Seq<char>, u64, u64)>,
) -> (Map<Seq<char>, u64>, Map<Seq<char>, u64>, Seq<(Direction, Seq<char>, u64)>)
    decreases ifaces.len(),
{
    if ifaces.len() == 0 {
        (rx, tx, seq![])
    } else {
        let (name, r, t) = ifaces[0];
        let dr = counter_delta(previous(rx, name), r);
        let dt = counter_delta(previous(tx, name), t);
        let here = step_increments(name, dr, dt);
        let rest = iface_increments(rx.insert(name, r), tx.insert(name, t), ifaces.drop_first());
        (rest.0, rest.1, here + rest.2)
    }
}

/// The value an `IntGauge` is set to for a byte count (`bytes as i64`).
pub open spec fn gauge_bytes(bytes: Option<u64>) -> Option<i64> {
    match bytes {
        Some(b) => Some(b as i64),
        None => None,
    }
}

/// What a gauge reads after it was `old` and an optional byte count came:
/// the count as `i64` when there is one, the old value otherwise.
pub open spec fn gauge_after(old: i64, bytes: Option<u64>) -> i64 {
    match bytes {
        Some(b) => b as i64,
        None => old,
    }
}

/// The increases of `incs` for one direction, in order, each with its
/// interface name: what that direction's counter vector is asked for.
pub open spec fn direction_log(dir: Direction, incs: Seq<(Direction, Seq<char>, u64)>) -> Seq<
    (Seq<char>, u64),
>
    decreases incs.len(),
{
    if incs.len() == 0 {
        seq![]
    } else {
        let rest = direction_log(dir, incs.drop_last());
        let (d, name, delta) = incs.last();
        if d == dir {
            rest.push((name, delta))
        } else {
            rest
        }
    }
}

/// The sum of the increments of `log` asked under the label `label`: what
/// the child counter for that label has been increased by.
pub open spec fn applied_total(log: Seq<(Seq<char>, u64)>, label: Seq<char>) -> nat
    decreases log.len(),
{
    if log.len() == 0 {
        0
    } else {
        applied_total(log.drop_last(), label) + if log.last().0 == label {
            log.last().1 as nat
        } else {
            0
        }
    }
}

/// `s` with the names of `names` added, in order.
pub open spec fn insert_all(s: Set<Seq<char>>, names: Seq<Seq<char>>) -> Set<Seq<char>>
    decreases names.len(),
{
    if names.len() == 0 {
        s
    } else {
        insert_all(s, names.drop_last()).insert(names.last())
    }
}

/// The integer metrics of the exporter: the memory gauges and the
/// per-interface byte counters, with the last raw counter values seen.
pub struct IntMetrics {
    memory_used_bytes: BytesGauge,
    memory_total_bytes: BytesGauge,
    rx_bytes_total: IfaceCounterVec,
    tx_bytes_total: IfaceCounterVec,
    last_rx: CounterTracker,
    last_tx: CounterTracker,
}

impl IntMetrics {
    /// Both trackers are well formed and both counter vectors take one
    /// label.
    pub closed spec fn wf(&self) -> bool {
        &&& self.last_rx.wf()
        &&& self.last_tx.wf()
        &&& label_names(self.rx_bytes_total).len() == 1
        &&& label_names(self.tx_bytes_total).len() == 1
    }

    /// The last raw received-bytes value seen per interface.
    pub closed spec fn last_rx(&self) -> Map<Seq<char>, u64> {
        self.last_rx@
    }

    /// The last raw sent-bytes value seen per interface.
    pub closed spec fn last_tx(&self) -> Map<Seq<char>, u64> {
        self.last_tx@
    }

    /// The names of the used-memory gauge, the total-memory gauge, the
    /// received-bytes counters and the sent-bytes counters, in that order.
    pub closed spec fn metric_names(&self) -> Seq<Seq<char>> {
        seq![
            gauge_name(self.memory_used_bytes),
            gauge_name(self.memory_total_bytes),
            vec_name(self.rx_bytes_total),
            vec_name(self.tx_bytes_total),
        ]
    }

    /// The help texts of the metrics, in the order of `metric_names`.
    pub closed spec fn metric_helps(&self) -> Seq<Seq<char>> {
        seq![
            gauge_help(self.memory_used_bytes),
            gauge_help(self.memory_total_bytes),
            vec_help(self.rx_bytes_total),
            vec_help(self.tx_bytes_total),
        ]
    }

    /// The label names of the received-bytes and of the sent-bytes counters.
    pub closed spec fn counter_labels(&self) -> (Seq<Seq<char>>, Seq<Seq<char>>) {
        (label_names(self.rx_bytes_total), label_names(self.tx_bytes_total))
    }

    /// What the used-memory gauge reads.
    pub closed spec fn memory_used(&self) -> i64 {
        gauge_value(self.memory_used_bytes)
    }

    /// What the total-memory gauge reads.
    pub closed spec fn memory_total(&self) -> i64 {
        gauge_value(self.memory_total_bytes)
    }

    /// The increases asked of the received-bytes counters, per interface
    /// label, in order.
    pub closed spec fn rx_applied(&self) -> Seq<(Seq<char>, u64)> {
        applied(self.rx_bytes_total)
    }

    /// The increases asked of the sent-bytes counters, per interface label,
    /// in order.
    pub closed spec fn tx_applied(&self) -> Seq<(Seq<char>, u64)> {
        applied(self.tx_bytes_total)
    }

    /// Makes the memory gauges and the per-interface byte counters
    /// (labelled `iface`), in that order; the gauges read 0, no counter has
    /// been increased and nothing has been seen yet.  Every name and help
    /// text is valid, so it always succeeds.
    pub fn create() -> (r: Result<IntMetrics, MetricsError>)
        ensures
            r is Ok,
            r matches Ok(m) ==> {
                &&& m.wf()
                &&& m.last_rx() == Map::<Seq<char>, u64>::empty()
                &&& m.last_tx() == Map::<Seq<char>, u64>::empty()
                &&& m.metric_names() == seq![
                    "dormlab_memory_used_bytes"@,
                    "dormlab_memory_total_bytes"@,
                    "dormlab_network_rx_bytes_total"@,
                    "dormlab_network_tx_bytes_total"@,
                ]
                &&& m.metric_helps() == seq![
                    "Memory in use: wired + compressor (top PhysMem). Excludes reclaimable file-backed cache."@,
                    "Physical memory installed (sysctl hw.memsize)."@,
                    "Bytes received per network interface (netstat -ibn)."@,
                    "Bytes transmitted per network interface (netstat -ibn)."@,
                ]
                &&& m.counter_labels() == (seq!["iface"@], seq!["iface"@])
                &&& m.memory_used() == 0
                &&& m.memory_total() == 0
                &&& m.rx_applied() == Seq::<(Seq<char>, u64)>::empty()
                &&& m.tx_applied() == Seq::<(Seq<char>, u64)>::empty()
            },
    {
        proof {
            reveal_strlit("dormlab_memory_used_bytes");
            reveal_strlit(
                "Memory in use: wired + compressor (top PhysMem). Excludes reclaimable file-backed cache.",
            );
            reveal_strlit("dormlab_memory_total_bytes");
            reveal_strlit("Physical memory installed (sysctl hw.memsize).");
            reveal_strlit("dormlab_network_rx_bytes_total");
            reveal_strlit("Bytes received per network interface (netstat -ibn).");
            reveal_strlit("dormlab_network_tx_bytes_total");
            reveal_strlit("Bytes transmitted per network interface (netstat -ibn).");
            reveal_strlit("iface");
        }
        let memory_used_bytes = match new_int_gauge(
            "dormlab_memory_used_bytes",
            "Memory in use: wired + compressor (top PhysMem). Excludes reclaimable file-backed cache.",
        ) {
            Ok(g) => g,
            Err(e) => return Err(MetricsError::Create(e)),
        };
        let memory_total_bytes = match new_int_gauge(
            "dormlab_memory_total_bytes",
            "Physical memory installed (sysctl hw.memsize).",
        ) {
            Ok(g) => g,
            Err(e) => return Err(MetricsError::Create(e)),
        };
        let rx_bytes_total = match new_counter_vec(
            "dormlab_network_rx_bytes_total",
            "Bytes received per network interface (netstat -ibn).",
            "iface",
        ) {
            Ok(c) => c,
            Err(e) => return Err(MetricsError::Create(e)),
        };
        let tx_bytes_total = match new_counter_vec(
            "dormlab_network_tx_bytes_total",
            "Bytes transmitted per network interface (netstat -ibn).",
            "iface",
        ) {
            Ok(c) => c,
            Err(e) => return Err(MetricsError::Create(e)),
        };
        Ok(IntMetrics {
            memory_used_bytes,
            memory_total_bytes,
            rx_bytes_total,
            tx_bytes_total,
            last_rx: CounterTracker::new(),
            last_tx: CounterTracker::new(),
        })
    }

    /// Registers the memory gauges and the byte counters with `registry`, in
    /// the order of `metric_names`, stopping at the first failure, which is
    /// a registration failure.  On success the registry holds all four
    /// names besides what it held; on failure, the names registered before
    /// the failing one.
    pub fn register(&self, registry: &mut Registry) -> (r: Result<(), MetricsError>)
        ensures
            r is Ok ==> registered(*final(registry)) == insert_all(
                registered(*old(registry)),
                self.metric_names(),
            ),
            r matches Err(e) ==> e is Register && exists|k: int|
                0 <= k < 4 && registered(*final(registry)) == insert_all(
                    registered(*old(registry)),
                    #[trigger] self.metric_names().take(k),
                ),
    {
        let ghost names = self.metric_names();
        let ghost start = registered(*registry);
        assert(names.take(0).len() == 0);
        assert(names.take(1).drop_last() == names.take(0));
        assert(names.take(2).drop_last() == names.take(1));
        assert(names.take(3).drop_last() == names.take(2));
        assert(names.take(4).drop_last() == names.take(3));
        assert(names.take(4) == names);
        if let Err(e) = register_gauge(registry, &self.memory_used_bytes) {
            assert(registered(*registry) == insert_all(start, names.take(0)));
            return Err(MetricsError::Register(e));
        }
        assert(names.take(1).last() == names[0]);
        assert(insert_all(start, names.take(0)) == start);
        assert(registered(*registry) == insert_all(start, names.take(1)));
        if let Err(e) = register_gauge(registry, &self.memory_total_bytes) {
            return Err(MetricsError::Register(e));
        }
        assert(names.take(2).last() == names[1]);
        assert(registered(*registry) == insert_all(start, names.take(2)));
        if let Err(e) = register_counter_vec(registry, &self.rx_bytes_total) {
            return Err(MetricsError::Register(e));
        }
        assert(names.take(3).last() == names[2]);
        assert(registered(*registry) == insert_all(start, names.take(3)));
        if let Err(e) = register_counter_vec(registry, &self.tx_bytes_total) {
            return Err(MetricsError::Register(e));
        }
        assert(names.take(4).last() == names[3]);
        assert(registered(*registry) == insert_all(start, names.take(4)));
        Ok(())
    }

    /// Applies one snapshot's integer values: each memory gauge is set when
    /// its value is present and keeps its reading otherwise, and each
    /// interface's counters are increased as `iface_increments` says, the
    /// received increases going to the received-bytes counters and the sent
    /// ones to the sent-bytes counters.
    pub fn observe(
        &mut self,
        memory_used: Option<u64>,
        memory_total: Option<u64>,
        ifaces: &Vec<IfaceCounters>,
    ) -> (r: Observed)
        requires
            old(self).wf(),
        ensures
            final(self).wf(),
            final(self).metric_names() == old(self).metric_names(),
            final(self).metric_helps() == old(self).metric_helps(),
            final(self).counter_labels() == old(self).counter_labels(),
            final(self).memory_used() == gauge_after(old(self).memory_used(), memory_used),
            final(self).memory_total() == gauge_after(old(self).memory_total(), memory_total),
            r.memory_used == gauge_bytes(memory_used),
            r.memory_total == gauge_bytes(memory_total),
            ({
                let out = iface_increments(
                    old(self).last_rx(),
                    old(self).last_tx(),
                    ifaces@.map_values(|i: IfaceCounters| i@),
                );
                &&& final(self).last_rx() == out.0
                &&& final(self).last_tx() == out.1
                &&& r.increments@.map_values(|c: CounterIncrement| c@) == out.2
                &&& final(self).rx_applied() == old(self).rx_applied() + direction_log(
                    Direction::Received,
                    out.2,
                )
                &&& final(self).tx_applied() == old(self).tx_applied() + direction_log(
                    Direction::Transmitted,
                    out.2,
                )
            }),
    {
        let used = match memory_used {
            Some(u) => {
                let v = u as i64;
                set_gauge(&mut self.memory_used_bytes, v);
                Some(v)
            },
            None => None,
        };
        let total = match memory_total {
            Some(u) => {
                let v = u as i64;
                set_gauge(&mut self.memory_total_bytes, v);
                Some(v)
            },
            None => None,
        };
        let ghost used_gauge = self.memory_used_bytes;
        let ghost total_gauge = self.memory_total_bytes;
        let ghost all = ifaces@.map_values(|i: IfaceCounters| i@);
        let mut increments: Vec<CounterIncrement> = Vec::new();
        let mut k: usize = 0;
        assert(all.subrange(0, all.len() as int) == all);
        assert(old(self).rx_applied() + direction_log(Direction::Received, seq![])
            == old(self).rx_applied());
        assert(old(self).tx_applied() + direction_log(Direction::Transmitted, seq![])
            == old(self).tx_applied());
        while k < ifaces.len()
            invariant
                self.wf(),
                self.memory_used_bytes == used_gauge,
                self.memory_total_bytes == total_gauge,
                vec_name(self.rx_bytes_total) == vec_name(old(self).rx_bytes_total),
                vec_name(self.tx_bytes_total) == vec_name(old(self).tx_bytes_total),
                vec_help(self.rx_bytes_total) == vec_help(old(self).rx_bytes_total),
                vec_help(self.tx_bytes_total) == vec_help(old(self).tx_bytes_total),
                label_names(self.rx_bytes_total) == label_names(old(self).rx_bytes_total),
                label_names(self.tx_bytes_total) == label_names(old(self).tx_bytes_total),
                all == ifaces@.map_values(|i: IfaceCounters| i@),
                0 <= k <= ifaces@.len(),
                ({
                    let rest = iface_increments(
                        self.last_rx(),
                        self.last_tx(),
                        all.subrange(k as int, all.len() as int),
                    );
                    iface_increments(old(self).last_rx(), old(self).last_tx(), all) == (
                        rest.0,
                        rest.1,
                        increments@.map_values(|c: CounterIncrement| c@) + rest.2,
                    )
                }),
                self.rx_applied() == old(self).rx_applied() + direction_log(
                    Direction::Received,
                    increments@.map_values(|c: CounterIncrement| c@),
                ),
                self.tx_applied() == old(self).tx_applied() + direction_log(
                    Direction::Transmitted,
                    increments@.map_values(|c: CounterIncrement| c@),
                ),
            decreases ifaces@.len() - k,
        {
            let iface = &ifaces[k];
            let ghost rest = all.subrange(k as int, all.len() as int);
            assert(rest[0] == iface@);
            assert(rest.drop_first() == all.subrange(k + 1, all.len() as int));
            let ghost before = increments@.map_values(|c: CounterIncrement| c@);
            let dr = self.last_rx.advance(&iface.name, iface.rx_bytes);
            if dr > 0 {
                let ghost log0 = increments@.map_values(|c: CounterIncrement| c@);
                inc_counter(&mut self.rx_bytes_total, iface.name.as_str(), dr);
                increments.push(
                    CounterIncrement { direction: Direction::Received, iface: iface.name.clone(), delta: dr },
                );
                let ghost log1 = increments@.map_values(|c: CounterIncrement| c@);
                assert(log1.drop_last() == log0);
                assert(direction_log(Direction::Transmitted, log1) == direction_log(
                    Direction::Transmitted,
                    log0,
                ));
            }
            let dt = self.last_tx.advance(&iface.name, iface.tx_bytes);
            if dt > 0 {
                let ghost log0 = increments@.map_values(|c: CounterIncrement| c@);
                inc_counter(&mut self.tx_bytes_total, iface.name.as_str(), dt);
                increments.push(
                    CounterIncrement {
                        direction: Direction::Transmitted,
                        iface: iface.name.clone(),
                        delta: dt,
                    },
                );
                let ghost log1 = increments@.map_values(|c: CounterIncrement| c@);
                assert(log1.drop_last() == log0);
                assert(direction_log(Direction::Received, log1) == direction_log(
                    Direction::Received,
                    log0,
                ));
            }
            let ghost here = step_increments(iface.name@, dr, dt);
            assert(increments@.map_values(|c: CounterIncrement| c@) == before + here);
            k += 1;
        }
        assert(all.subrange(k as int, all.len() as int).len() == 0);
        Observed { memory_used: used, memory_total: total, increments }
    }
}

/// The total exported for one counter whose raw readings were `readings`,
/// in order, when the last value seen before them was `prev`: each reading
/// adds its increase over the one before it.
pub open spec fn exported_total(prev: u64, readings: Seq<u64>) -> nat
    decreases readings.len(),
{
    if readings.len() == 0 {
        0
    } else {
        let before = readings.drop_last();
        let last_seen = if before.len() == 0 {
            prev
        } else {
            before.last()
        };
        exported_total(prev, before) + counter_delta(last_seen, readings.last()) as nat
    }
}

/// Readings that never go backwards export exactly how far they went: from
/// a counter never seen before (`prev` 0), the exported total equals the
/// last raw reading.
pub proof fn lemma_monotone_readings_total(prev: u64, readings: Seq<u64>)
    requires
        readings.len() > 0 ==> prev <= readings[0],
        forall|i: int, j: int| 0 <= i <= j < readings.len() ==> readings[i] <= readings[j],
    ensures
        exported_total(prev, readings) == if readings.len() == 0 {
            0
        } else {
            readings.last() - prev
        },
    decreases readings.len(),
{
    if readings.len() > 0 {
        let before = readings.drop_last();
        assert forall|i: int, j: int| 0 <= i <= j < before.len() implies before[i] <= before[j] by {
            assert(before[i] == readings[i] && before[j] == readings[j]);
        }
        if before.len() > 0 {
            assert(before[0] == readings[0]);
            assert(before.last() == readings[before.len() - 1]);
        }
        lemma_monotone_readings_total(prev, before);
    }
}

/// Seeing a counter again at the value it was last seen at exports nothing
/// and leaves the last value as it was.
pub proof fn lemma_same_reading_exports_nothing(last: Map<Seq<char>, u64>, name: Seq<char>, now: u64)
    ensures
        counter_delta(previous(last.insert(name, now), name), now) == 0,
        last.insert(name, now).insert(name, now) == last.insert(name, now),
{
    assert(last.insert(name, now).insert(name, now) =~= last.insert(name, now));
}

/// No interface name occurs twice.
pub open spec fn distinct_names(ifaces: Seq<(Seq<char>, u64, u64)>) -> bool {
    forall|i: int, j: int| 0 <= i < j < ifaces.len() ==> (#[trigger] ifaces[i]).0 != (#[trigger] ifaces[j]).0
}

/// Observing interfaces leaves the last values of other names alone.
proof fn lemma_increments_keep_others(
    rx: Map<Seq<char>, u64>,
    tx: Map<Seq<char>, u64>,
    ifaces: Seq<(Seq<char>, u64, u64)>,
    k: Seq<char>,
)
    requires
        forall|i: int| 0 <= i < ifaces.len() ==> (#[trigger] ifaces[i]).0 != k,
    ensures
        iface_increments(rx, tx, ifaces).0.contains_key(k) == rx.contains_key(k),
        rx.contains_key(k) ==> iface_increments(rx, tx, ifaces).0[k] == rx[k],
        iface_increments(rx, tx, ifaces).1.contains_key(k) == tx.contains_key(k),
        tx.contains_key(k) ==> iface_increments(rx, tx, ifaces).1[k] == tx[k],
    decreases ifaces.len(),
{
    if ifaces.len() > 0 {
        let (name, r, t) = ifaces[0];
        assert(ifaces[0].0 != k);
        let rest = ifaces.drop_first();
        assert forall|i: int| 0 <= i < rest.len() implies (#[trigger] rest[i]).0 != k by {
            assert(rest[i] == ifaces[i + 1]);
        }
        lemma_increments_keep_others(rx.insert(name, r), tx.insert(name, t), rest, k);
    }
}

/// After observing interfaces with distinct names, the last values are the
/// observed ones.
proof fn lemma_increments_record(
    rx: Map<Seq<char>, u64>,
    tx: Map<Seq<char>, u64>,
    ifaces: Seq<(Seq<char>, u64, u64)>,
)
    requires
        distinct_names(ifaces),
    ensures
        forall|i: int|
            0 <= i < ifaces.len() ==> iface_increments(rx, tx, ifaces).0.contains_key(
                (#[trigger] ifaces[i]).0,
            ) && iface_increments(rx, tx, ifaces).0[ifaces[i].0] == ifaces[i].1
                && iface_increments(rx, tx, ifaces).1.contains_key(ifaces[i].0)
                && iface_increments(rx, tx, ifaces).1[ifaces[i].0] == ifaces[i].2,
    decreases ifaces.len(),
{
    if ifaces.len() > 0 {
        let (name, r, t) = ifaces[0];
        let rest = ifaces.drop_first();
        assert(distinct_names(rest)) by {
            assert forall|i: int, j: int| 0 <= i < j < rest.len() implies (#[trigger] rest[i]).0
                != (#[trigger] rest[j]).0 by {
                assert(rest[i] == ifaces[i + 1] && rest[j] == ifaces[j + 1]);
            }
        }
        lemma_increments_record(rx.insert(name, r), tx.insert(name, t), rest);
        assert forall|i: int| 0 <= i < rest.len() implies (#[trigger] rest[i]).0 != name by {
            assert(rest[i] == ifaces[i + 1]);
            assert(ifaces[0].0 != ifaces[i + 1].0);
        }
        lemma_increments_keep_others(rx.insert(name, r), tx.insert(name, t), rest, name);
        let out = iface_increments(rx, tx, ifaces);
        assert forall|i: int|
            0 <= i < ifaces.len() implies out.0.contains_key((#[trigger] ifaces[i]).0) && out.0[ifaces[i].0]
                == ifaces[i].1 && out.1.contains_key(ifaces[i].0) && out.1[ifaces[i].0] == ifaces[i].2 by {
            if i > 0 {
                assert(ifaces[i] == rest[i - 1]);
            }
        }
    }
}

/// With last values that already equal every observed value, observing
/// exports nothing.
proof fn lemma_increments_none(
    rx: Map<Seq<char>, u64>,
    tx: Map<Seq<char>, u64>,
    ifaces: Seq<(Seq<char>, u64, u64)>,
)
    requires
        forall|i: int|
            0 <= i < ifaces.len() ==> rx.contains_key((#[trigger] ifaces[i]).0) && rx[ifaces[i].0]
                == ifaces[i].1 && tx.contains_key(ifaces[i].0) && tx[ifaces[i].0] == ifaces[i].2,
    ensures
        iface_increments(rx, tx, ifaces).2.len() == 0,
    decreases ifaces.len(),
{
    if ifaces.len() > 0 {
        let (name, r, t) = ifaces[0];
        assert(ifaces[0] == (name, r, t));
        assert(rx.insert(name, r) =~= rx);
        assert(tx.insert(name, t) =~= tx);
        let rest = ifaces.drop_first();
        assert forall|i: int|
            0 <= i < rest.len() implies rx.contains_key((#[trigger] rest[i]).0) && rx[rest[i].0] == rest[i].1
                && tx.contains_key(rest[i].0) && tx[rest[i].0] == rest[i].2 by {
            assert(rest[i] == ifaces[i + 1]);
        }
        lemma_increments_none(rx, tx, rest);
    }
}

/// Observing the same interfaces twice in a row exports nothing the second
/// time, when no interface name occurs twice among them.
pub proof fn lemma_reobserve_exports_nothing(
    rx: Map<Seq<char>, u64>,
    tx: Map<Seq<char>, u64>,
    ifaces: Seq<(Seq<char>, u64, u64)>,
)
    requires
        distinct_names(ifaces),
    ensures
        ({
            let first = iface_increments(rx, tx, ifaces);
            iface_increments(first.0, first.1, ifaces).2.len() == 0
        }),
{
    lemma_increments_record(rx, tx, ifaces);
    let first = iface_increments(rx, tx, ifaces);
    lemma_increments_none(first.0, first.1, ifaces);
}

/// Observing the interfaces of the same `netstat -ibn` output twice in a row
/// exports nothing the second time.
pub proof fn lemma_reobserve_netstat_exports_nothing(
    rx: Map<Seq<char>, u64>,
    tx: Map<Seq<char>, u64>,
    out: Seq<char>,
)
    ensures
        ({
            let first = iface_increments(rx, tx, interfaces_in(out));
            iface_increments(first.0, first.1, interfaces_in(out)).2.len() == 0
        }),
{
    let ls = lines(out);
    if ls.len() > 0 {
        let rows = iface_rows(ls.drop_first(), Set::empty());
        lemma_iface_rows_names(ls.drop_first(), Set::empty());
        assert(distinct_names(rows)) by {
            assert forall|i: int, j: int| 0 <= i < j < rows.len() implies (#[trigger] rows[i]).0
                != (#[trigger] rows[j]).0 by {
                assert(iface_rows(ls.drop_first(), Set::empty())[i].0 != iface_rows(ls.drop_first(), Set::empty())[j].0);
            }
        }
    }
    lemma_reobserve_exports_nothing(rx, tx, interfaces_in(out));
}

/// Asking for the increases of two lists in turn asks for those of the
/// first, then those of the second.
pub proof fn lemma_direction_log_concat(
    dir: Direction,
    a: Seq<(Direction, Seq<char>, u64)>,
    b: Seq<(Direction, Seq<char>, u64)>,
)
    ensures
        direction_log(dir, a + b) == direction_log(dir, a) + direction_log(dir, b),
    decreases b.len(),
{
    if b.len() == 0 {
        assert(a + b == a);
        assert(direction_log(dir, a) + direction_log(dir, b) == direction_log(dir, a));
    } else {
        assert((a + b).drop_last() == a + b.drop_last());
        assert((a + b).last() == b.last());
        lemma_direction_log_concat(dir, a, b.drop_last());
    }
}

/// What two logs in turn add to one label is what each adds.
pub proof fn lemma_applied_total_concat(a: Seq<(Seq<char>, u64)>, b: Seq<(Seq<char>, u64)>, label: Seq<char>)
    ensures
        applied_total(a + b, label) == applied_total(a, label) + applied_total(b, label),
    decreases b.len(),
{
    if b.len() == 0 {
        assert(a + b == a);
    } else {
        assert((a + b).drop_last() == a + b.drop_last());
        assert((a + b).last() == b.last());
        lemma_applied_total_concat(a, b.drop_last(), label);
    }
}

/// What one interface's increases add to each direction's counter of
/// `label`: the increase of that direction when the interface is `label`,
/// nothing otherwise.
proof fn lemma_step_totals(name: Seq<char>, dr: u64, dt: u64, label: Seq<char>)
    ensures
        applied_total(direction_log(Direction::Received, step_increments(name, dr, dt)), label) == if name
            == label {
            dr as nat
        } else {
            0
        },
        applied_total(direction_log(Direction::Transmitted, step_increments(name, dr, dt)), label) == if name
            == label {
            dt as nat
        } else {
            0
        },
{
    let a: Seq<(Direction, Seq<char>, u64)> = if dr > 0 {
        seq![(Direction::Received, name, dr)]
    } else {
        seq![]
    };
    let b: Seq<(Direction, Seq<char>, u64)> = if dt > 0 {
        seq![(Direction::Transmitted, name, dt)]
    } else {
        seq![]
    };
    assert(step_increments(name, dr, dt) == a + b);
    lemma_direction_log_concat(Direction::Received, a, b);
    lemma_direction_log_concat(Direction::Transmitted, a, b);
    let none = Seq::<(Direction, Seq<char>, u64)>::empty();
    assert(direction_log(Direction::Received, none).len() == 0);
    assert(direction_log(Direction::Transmitted, none).len() == 0);
    if dr > 0 {
        assert(a.drop_last() =~= none);
    } else {
        assert(a =~= none);
    }
    if dt > 0 {
        assert(b.drop_last() =~= none);
    } else {
        assert(b =~= none);
    }
    let ra = direction_log(Direction::Received, a);
    let rb = direction_log(Direction::Received, b);
    let ta = direction_log(Direction::Transmitted, a);
    let tb = direction_log(Direction::Transmitted, b);
    assert(rb.len() == 0);
    assert(ta.len() == 0);
    let nil = Seq::<(Seq<char>, u64)>::empty();
    assert(applied_total(nil, label) == 0);
    assert(rb =~= nil);
    assert(ta =~= nil);
    if dr > 0 {
        assert(ra == seq![(name, dr)]);
        assert(ra.drop_last() =~= nil);
    } else {
        assert(ra =~= nil);
    }
    if dt > 0 {
        assert(tb == seq![(name, dt)]);
        assert(tb.drop_last() =~= nil);
    } else {
        assert(tb =~= nil);
    }
    lemma_applied_total_concat(ra, rb, label);
    lemma_applied_total_concat(ta, tb, label);
}

/// An observation that does not list the interface `x` asks nothing of
/// `x`'s counters and leaves its last values as they were.
pub proof fn lemma_observation_skips(
    rx: Map<Seq<char>, u64>,
    tx: Map<Seq<char>, u64>,
    ifaces: Seq<(Seq<char>, u64, u64)>,
    x: Seq<char>,
)
    requires
        forall|i: int| 0 <= i < ifaces.len() ==> (#[trigger] ifaces[i]).0 != x,
    ensures
        ({
            let out = iface_increments(rx, tx, ifaces);
            &&& applied_total(direction_log(Direction::Received, out.2), x) == 0
            &&& applied_total(direction_log(Direction::Transmitted, out.2), x) == 0
            &&& previous(out.0, x) == previous(rx, x)
            &&& previous(out.1, x) == previous(tx, x)
        }),
    decreases ifaces.len(),
{
    lemma_increments_keep_others(rx, tx, ifaces, x);
    if ifaces.len() > 0 {
        let (name, r, t) = ifaces[0];
        assert(ifaces[0].0 != x);
        let rest = ifaces.drop_first();
        assert forall|i: int| 0 <= i < rest.len() implies (#[trigger] rest[i]).0 != x by {
            assert(rest[i] == ifaces[i + 1]);
        }
        let rx1 = rx.insert(name, r);
        let tx1 = tx.insert(name, t);
        lemma_observation_skips(rx1, tx1, rest, x);
        let dr = counter_delta(previous(rx, name), r);
        let dt = counter_delta(previous(tx, name), t);
        let later = iface_increments(rx1, tx1, rest);
        lemma_step_totals(name, dr, dt, x);
        lemma_direction_log_concat(Direction::Received, step_increments(name, dr, dt), later.2);
        lemma_direction_log_concat(Direction::Transmitted, step_increments(name, dr, dt), later.2);
        lemma_applied_total_concat(
            direction_log(Direction::Received, step_increments(name, dr, dt)),
            direction_log(Direction::Received, later.2),
            x,
        );
        lemma_applied_total_concat(
            direction_log(Direction::Transmitted, step_increments(name, dr, dt)),
            direction_log(Direction::Transmitted, later.2),
            x,
        );
    }
}

/// One observation raises the counters of the interface at position `i`,
/// when no other position holds its name, by exactly the increase from its
/// last raw values to the ones listed (nothing where a value went
/// backwards), and those become its last values.
pub proof fn lemma_observation_raises(
    rx: Map<Seq<char>, u64>,
    tx: Map<Seq<char>, u64>,
    ifaces: Seq<(Seq<char>, u64, u64)>,
    i: int,
)
    requires
        0 <= i < ifaces.len(),
        only_at(ifaces, ifaces[i].0, i),
    ensures
        ({
            let out = iface_increments(rx, tx, ifaces);
            let x = ifaces[i].0;
            &&& applied_total(direction_log(Direction::Received, out.2), x) == counter_delta(
                previous(rx, x),
                ifaces[i].1,
            )
            &&& applied_total(direction_log(Direction::Transmitted, out.2), x) == counter_delta(
                previous(tx, x),
                ifaces[i].2,
            )
            &&& previous(out.0, x) == ifaces[i].1
            &&& previous(out.1, x) == ifaces[i].2
        }),
    decreases ifaces.len(),
{
    let x = ifaces[i].0;
    let (name, r, t) = ifaces[0];
    let rest = ifaces.drop_first();
    let rx1 = rx.insert(name, r);
    let tx1 = tx.insert(name, t);
    let dr = counter_delta(previous(rx, name), r);
    let dt = counter_delta(previous(tx, name), t);
    let later = iface_increments(rx1, tx1, rest);
    if i == 0 {
        assert forall|j: int| 0 <= j < rest.len() implies (#[trigger] rest[j]).0 != x by {
            assert(rest[j] == ifaces[j + 1]);
        }
        lemma_observation_skips(rx1, tx1, rest, x);
    } else {
        assert(ifaces[0].0 != x);
        assert(rest[i - 1] == ifaces[i]);
        assert(only_at(rest, x, i - 1)) by {
            assert forall|j: int| 0 <= j < rest.len() && j != i - 1 implies (#[trigger] rest[j]).0 != x by {
                assert(rest[j] == ifaces[j + 1]);
            }
        }
        lemma_observation_raises(rx1, tx1, rest, i - 1);
        assert(previous(rx1, x) == previous(rx, x));
        assert(previous(tx1, x) == previous(tx, x));
    }
    lemma_step_totals(name, dr, dt, x);
    lemma_direction_log_concat(Direction::Received, step_increments(name, dr, dt), later.2);
    lemma_direction_log_concat(Direction::Transmitted, step_increments(name, dr, dt), later.2);
    lemma_applied_total_concat(
        direction_log(Direction::Received, step_increments(name, dr, dt)),
        direction_log(Direction::Received, later.2),
        x,
    );
    lemma_applied_total_concat(
        direction_log(Direction::Transmitted, step_increments(name, dr, dt)),
        direction_log(Direction::Transmitted, later.2),
        x,
    );
}

/// The last values and the increases after observing the snapshots
/// `snaps` in turn (each a list of interfaces), starting from the last
/// values `rx` and `tx`: each observation goes as `iface_increments` says,
/// from the last values the one before left.
pub open spec fn observe_series(
    rx: Map<Seq<char>, u64>,
    tx: Map<Seq<char>, u64>,
    snaps: Seq<Seq<(Seq<char>, u64, u64)>>,
) -> (Map<Seq<char>, u64>, Map<Seq<char>, u64>, Seq<(Direction, Seq<char>, u64)>)
    decreases snaps.len(),
{
    if snaps.len() == 0 {
        (rx, tx, seq![])
    } else {
        let before = observe_series(rx, tx, snaps.drop_last());
        let step = iface_increments(before.0, before.1, snaps.last());
        (step.0, step.1, before.2 + step.2)
    }
}

/// No position of `ifaces` but `i` holds the name `x`.
pub open spec fn only_at(ifaces: Seq<(Seq<char>, u64, u64)>, x: Seq<char>, i: int) -> bool {
    forall|j: int| 0 <= j < ifaces.len() && j != i ==> (#[trigger] ifaces[j]).0 != x
}

/// Each snapshot lists the interface `x` once, with the raw received and
/// sent values of `readings` at the same position.
pub open spec fn lists_once(
    snaps: Seq<Seq<(Seq<char>, u64, u64)>>,
    x: Seq<char>,
    readings: Seq<(u64, u64)>,
) -> bool {
    &&& snaps.len() == readings.len()
    &&& forall|k: int| 0 <= k < snaps.len() ==> lists(#[trigger] snaps[k], (x, readings[k].0, readings[k].1))
}

/// The interface list `ifaces` holds the entry `entry`, and no other entry
/// of its name.
pub open spec fn lists(ifaces: Seq<(Seq<char>, u64, u64)>, entry: (Seq<char>, u64, u64)) -> bool {
    exists|i: int| 0 <= i < ifaces.len() && ifaces[i] == entry && only_at(ifaces, entry.0, i)
}

/// The received values of `readings`.
pub open spec fn received(readings: Seq<(u64, u64)>) -> Seq<u64> {
    readings.map_values(|p: (u64, u64)| p.0)
}

/// The sent values of `readings`.
pub open spec fn sent(readings: Seq<(u64, u64)>) -> Seq<u64> {
    readings.map_values(|p: (u64, u64)| p.1)
}

/// Across observations that each list the interface `x` once, the counters
/// of `x` are asked for exactly what `exported_total` gives of its raw
/// readings, from its last values before them, and its last values end as
/// its last readings.
pub proof fn lemma_series_exports(
    rx: Map<Seq<char>, u64>,
    tx: Map<Seq<char>, u64>,
    snaps: Seq<Seq<(Seq<char>, u64, u64)>>,
    x: Seq<char>,
    readings: Seq<(u64, u64)>,
)
    requires
        lists_once(snaps, x, readings),
    ensures
        ({
            let out = observe_series(rx, tx, snaps);
            &&& applied_total(direction_log(Direction::Received, out.2), x) == exported_total(
                previous(rx, x),
                received(readings),
            )
            &&& applied_total(direction_log(Direction::Transmitted, out.2), x) == exported_total(
                previous(tx, x),
                sent(readings),
            )
            &&& snaps.len() > 0 ==> previous(out.0, x) == readings.last().0 && previous(out.1, x)
                == readings.last().1
        }),
    decreases snaps.len(),
{
    if snaps.len() == 0 {
        assert(applied_total(Seq::<(Seq<char>, u64)>::empty(), x) == 0);
        assert(direction_log(Direction::Received, Seq::<(Direction, Seq<char>, u64)>::empty()).len()
            == 0);
        assert(direction_log(Direction::Received, Seq::<(Direction, Seq<char>, u64)>::empty())
            =~= Seq::<(Seq<char>, u64)>::empty());
        assert(direction_log(Direction::Transmitted, Seq::<(Direction, Seq<char>, u64)>::empty())
            =~= Seq::<(Seq<char>, u64)>::empty());
    } else {
        let n = snaps.len() - 1;
        let first = snaps.drop_last();
        let early = readings.drop_last();
        assert(lists_once(first, x, early)) by {
            assert forall|k: int| 0 <= k < first.len() implies lists(
                #[trigger] first[k],
                (x, early[k].0, early[k].1),
            ) by {
                assert(first[k] == snaps[k]);
                assert(early[k] == readings[k]);
                assert(lists(snaps[k], (x, readings[k].0, readings[k].1)));
            }
        }
        lemma_series_exports(rx, tx, first, x, early);
        let before = observe_series(rx, tx, first);
        let last = snaps.last();
        assert(lists(snaps[n], (x, readings[n].0, readings[n].1)));
        let i = choose|i: int|
            0 <= i < snaps[n].len() && snaps[n][i] == (x, readings[n].0, readings[n].1) && only_at(
                snaps[n],
                x,
                i,
            );
        lemma_observation_raises(before.0, before.1, last, i);
        let step = iface_increments(before.0, before.1, last);
        lemma_direction_log_concat(Direction::Received, before.2, step.2);
        lemma_direction_log_concat(Direction::Transmitted, before.2, step.2);
        lemma_applied_total_concat(
            direction_log(Direction::Received, before.2),
            direction_log(Direction::Received, step.2),
            x,
        );
        lemma_applied_total_concat(
            direction_log(Direction::Transmitted, before.2),
            direction_log(Direction::Transmitted, step.2),
            x,
        );
        assert(received(readings).drop_last() == received(early));
        assert(sent(readings).drop_last() == sent(early));
        if n > 0 {
            assert(received(early).last() == early.last().0);
            assert(sent(early).last() == early.last().1);
        }
    }
}

/// The exported counters track the kernel counters: across observations
/// that each list the interface `x` once, with received readings that never
/// go backwards and start at or above `x`'s last received value, the
/// received counter of `x` is raised by exactly how far those readings
/// went; likewise for the sent readings and counter.  From a fresh start
/// (no last values) the counters end equal to the last readings.
pub proof fn lemma_counters_track_kernel(
    rx: Map<Seq<char>, u64>,
    tx: Map<Seq<char>, u64>,
    snaps: Seq<Seq<(Seq<char>, u64, u64)>>,
    x: Seq<char>,
    readings: Seq<(u64, u64)>,
)
    requires
        lists_once(snaps, x, readings),
        readings.len() > 0,
        previous(rx, x) <= readings[0].0,
        previous(tx, x) <= readings[0].1,
        forall|i: int, j: int|
            0 <= i <= j < readings.len() ==> readings[i].0 <= readings[j].0 && readings[i].1 <= readings[j].1,
    ensures
        ({
            let out = observe_series(rx, tx, snaps);
            &&& applied_total(direction_log(Direction::Received, out.2), x) == readings.last().0 - previous(
                rx,
                x,
            )
            &&& applied_total(direction_log(Direction::Transmitted, out.2), x) == readings.last().1
                - previous(tx, x)
        }),
{
    lemma_series_exports(rx, tx, snaps, x, readings);
    let r = received(readings);
    let t = sent(readings);
    assert forall|i: int, j: int| 0 <= i <= j < r.len() implies r[i] <= r[j] by {
        assert(r[i] == readings[i].0 && r[j] == readings[j].0);
        assert(readings[i].0 <= readings[j].0);
    }
    assert forall|i: int, j: int| 0 <= i <= j < t.len() implies t[i] <= t[j] by {
        assert(t[i] == readings[i].1 && t[j] == readings[j].1);
        assert(readings[i].1 <= readings[j].1);
    }
    assert(r[0] == readings[0].0 && t[0] == readings[0].1);
    assert(r.last() == readings.last().0 && t.last() == readings.last().1);
    lemma_monotone_readings_total(previous(rx, x), r);
    lemma_monotone_readings_total(previous(tx, x), t);
}

} // verus!
