//! Statistics of the fields that the user looks at: what is shown, what is
//! asked of the worker, and what is kept.

use crate::snapshot::FieldId;
use std::collections::HashMap;
use vstd::prelude::*;
use vstd::std_specs::hash::*;

verus! {

broadcast use group_hash_axioms;

/// Shortest time between two launches of the worker, in microseconds.
pub const REFRESH_INTERVAL_US: u64 = 100_000;

/// Number of results that are kept.
pub const LRU_CAPACITY: usize = 8;

/// Which range the statistics cover.
#[derive(Debug, Clone, Copy, PartialEq, Eq, Hash, Structural)]
pub enum StatsTab {
    Visible,
    Global,
}

impl StatsTab {
    /// The name of the tab.
    pub fn label(self) -> (r: &'static str)
        ensures
            r@ == match self {
                StatsTab::Visible => "Visible window"@,
                StatsTab::Global => "Global"@,
            },
    {
        match self {
            StatsTab::Visible => "Visible window",
            StatsTab::Global => "Global",
        }
    }
}

/// The statistics of a field. Floating point numbers are bit patterns.
#[derive(Debug, Clone, Copy, PartialEq, Eq, Structural)]
pub struct FieldStats {
    pub min: u64,
    pub max: u64,
    pub mean: u64,
    pub stddev: u64,
    pub count: u64,
    pub missing_count: u64,
    pub rate_hz: Option<u64>,
}

/// What is asked: a field over a range of time, in one state of the store.
#[derive(Debug, Clone, Copy, PartialEq, Eq, Hash, Structural)]
pub struct StatsRequestKey {
    pub field: FieldId,
    pub epoch: u64,
    pub t0_us: i64,
    pub t1_us: i64,
}

impl StatsRequestKey {
    pub fn new(field: FieldId, epoch: u64, t0_us: i64, t1_us: i64) -> (r: StatsRequestKey)
        ensures
            r.field == field,
            r.epoch == epoch,
            r.t0_us == t0_us,
            r.t1_us == t1_us,
    {
        StatsRequestKey { field, epoch, t0_us, t1_us }
    }
}

/// The answer to one key: statistics, none for a field that is not numeric, or
/// the reason for a failure.
pub struct WorkerResult {
    pub key: StatsRequestKey,
    pub outcome: Result<Option<FieldStats>, String>,
}

/// The answers to the keys of one launch.
pub struct WorkerBatch {
    pub keys: Vec<StatsRequestKey>,
    pub results: Vec<WorkerResult>,
}

#[verifier::ext_equal]
pub ghost struct ResultView {
    pub key: StatsRequestKey,
    pub outcome: Result<Option<FieldStats>, Seq<char>>,
}

impl View for WorkerResult {
    type V = ResultView;

    open spec fn view(&self) -> ResultView {
        ResultView {
            key: self.key,
            outcome: match self.outcome {
                Ok(stats) => Ok(stats),
                Err(message) => Err(message@),
            },
        }
    }
}

pub open spec fn result_views(results: Seq<WorkerResult>) -> Seq<ResultView> {
    Seq::new(results.len(), |i: int| results[i]@)
}

/// A launch of the worker on a state of the store.
pub struct Launch<S> {
    pub keys: Vec<StatsRequestKey>,
    pub snapshot: S,
}

/// The statistics of the fields that the user looks at. `S` is a handle to a
/// state of the store.
pub struct FieldStatsController<S> {
    pub fields: Vec<FieldId>,
    pub tab: StatsTab,
    pub current: Vec<StatsRequestKey>,
    pub running: Option<Vec<StatsRequestKey>>,
    pub pending: Option<Launch<S>>,
    pub displayed: HashMap<u32, (StatsRequestKey, FieldStats)>,
    pub errors: HashMap<u32, String>,
    pub recent: Vec<(StatsRequestKey, FieldStats)>,
    /// When the worker was last launched, in microseconds.
    pub last_launch: Option<u64>,
}

#[verifier::ext_equal]
pub ghost struct StatsView<S> {
    pub fields: Seq<FieldId>,
    pub tab: StatsTab,
    pub current: Seq<StatsRequestKey>,
    pub running: Option<Seq<StatsRequestKey>>,
    pub pending: Option<(Seq<StatsRequestKey>, S)>,
    pub displayed: Map<u32, (StatsRequestKey, FieldStats)>,
    pub errors: Map<u32, Seq<char>>,
    pub recent: Seq<(StatsRequestKey, FieldStats)>,
    pub last_launch: Option<u64>,
}

pub open spec fn texts_of(m: Map<u32, String>) -> Map<u32, Seq<char>> {
    m.map_values(|s: String| s@)
}

pub open spec fn launch_view<S>(launch: Option<Launch<S>>) -> Option<(Seq<StatsRequestKey>, S)> {
    match launch {
        Some(launch) => Some((launch.keys@, launch.snapshot)),
        None => None,
    }
}

impl<S> View for FieldStatsController<S> {
    type V = StatsView<S>;

    open spec fn view(&self) -> StatsView<S> {
        StatsView {
            fields: self.fields@,
            tab: self.tab,
            current: self.current@,
            running: match self.running {
                Some(keys) => Some(keys@),
                None => None,
            },
            pending: launch_view(self.pending),
            displayed: self.displayed@,
            errors: texts_of(self.errors@),
            recent: self.recent@,
            last_launch: self.last_launch,
        }
    }
}

/// The key that is asked of a field.
pub open spec fn key_for(current: Seq<StatsRequestKey>, field: FieldId) -> Option<StatsRequestKey>
    decreases current.len(),
{
    if current.len() == 0 {
        None
    } else if current.first().field == field {
        Some(current.first())
    } else {
        key_for(current.drop_first(), field)
    }
}

/// The first place of a key among the results that are kept, from `i` on.
pub open spec fn recent_index(
    recent: Seq<(StatsRequestKey, FieldStats)>,
    key: StatsRequestKey,
    i: int,
) -> Option<int>
    decreases recent.len() - i,
{
    if i < 0 || i >= recent.len() {
        None
    } else if recent[i].0 == key {
        Some(i)
    } else {
        recent_index(recent, key, i + 1)
    }
}

/// The results that are kept with one as the latest.
pub open spec fn with_latest(
    recent: Seq<(StatsRequestKey, FieldStats)>,
    key: StatsRequestKey,
    stats: FieldStats,
) -> Seq<(StatsRequestKey, FieldStats)> {
    match recent_index(recent, key, 0) {
        Some(i) => recent.remove(i).push((key, stats)),
        None => recent.push((key, stats)),
    }
}

/// The latest results, as many as are kept.
pub open spec fn bounded(recent: Seq<(StatsRequestKey, FieldStats)>) -> Seq<
    (StatsRequestKey, FieldStats),
> {
    if recent.len() > LRU_CAPACITY {
        recent.skip(recent.len() - LRU_CAPACITY)
    } else {
        recent
    }
}

/// The state after statistics have arrived: they are kept, and shown if they
/// answer what is asked now.
pub open spec fn accepted<S>(
    state: StatsView<S>,
    key: StatsRequestKey,
    stats: FieldStats,
) -> StatsView<S> {
    let kept = StatsView { recent: bounded(with_latest(state.recent, key, stats)), ..state };
    if key_for(state.current, key.field) == Some(key) {
        StatsView {
            displayed: state.displayed.insert(key.field.0, (key, stats)),
            errors: state.errors.remove(key.field.0),
            ..kept
        }
    } else {
        kept
    }
}

/// The state after one answer.
pub open spec fn answered<S>(state: StatsView<S>, result: ResultView) -> StatsView<S> {
    let wanted = key_for(state.current, result.key.field) == Some(result.key);
    match result.outcome {
        Ok(Some(stats)) => accepted(state, result.key, stats),
        Ok(None) => if wanted {
            StatsView {
                errors: state.errors.insert(
                    result.key.field.0,
                    "This field is not numeric."@,
                ),
                ..state
            }
        } else {
            state
        },
        Err(message) => if wanted {
            StatsView { errors: state.errors.insert(result.key.field.0, message), ..state }
        } else {
            state
        },
    }
}

/// The state after the answers of a batch.
pub open spec fn answered_all<S>(state: StatsView<S>, results: Seq<ResultView>) -> StatsView<S>
    decreases results.len(),
{
    if results.len() == 0 {
        state
    } else {
        answered(answered_all(state, results.drop_last()), results.last())
    }
}

/// The state after a batch: the worker is free again if it was this one.
pub open spec fn batch_received<S>(
    state: StatsView<S>,
    keys: Seq<StatsRequestKey>,
    results: Seq<ResultView>,
) -> StatsView<S> {
    let freed = if state.running == Some(keys) {
        StatsView { running: None, ..state }
    } else {
        state
    };
    answered_all(freed, results)
}

/// The state after the first `n` batches.
pub open spec fn batches_received<S>(state: StatsView<S>, batches: Seq<WorkerBatch>, n: nat) -> StatsView<
    S,
>
    decreases n,
{
    if n == 0 {
        state
    } else {
        batch_received(
            batches_received(state, batches, (n - 1) as nat),
            batches[n - 1].keys@,
            result_views(batches[n - 1].results@),
        )
    }
}

/// Whether the worker may be launched: it is free, there are fields to look at,
/// something is pending, and the last launch is long enough ago.
pub open spec fn may_launch<S>(state: StatsView<S>, now: u64) -> bool {
    &&& state.running is None
    &&& state.fields.len() > 0
    &&& state.pending is Some
    &&& match state.last_launch {
        Some(last) => now - last >= REFRESH_INTERVAL_US,
        None => true,
    }
}

/// The state after a launch, if there is one.
pub open spec fn launched<S>(state: StatsView<S>, now: u64) -> StatsView<S> {
    if may_launch(state, now) {
        StatsView {
            running: Some(state.pending.unwrap().0),
            pending: None,
            last_launch: Some(now),
            ..state
        }
    } else {
        state
    }
}

/// The state after the first `n` keys of a request have been looked up among
/// the results that are kept, and the keys that were not found.
pub open spec fn looked_up<S>(
    state: StatsView<S>,
    keys: Seq<StatsRequestKey>,
    n: nat,
) -> (StatsView<S>, Seq<StatsRequestKey>)
    decreases n,
{
    if n == 0 {
        (state, Seq::empty())
    } else {
        let (before, missing) = looked_up(state, keys, (n - 1) as nat);
        let key = keys[n - 1];
        match recent_index(before.recent, key, 0) {
            Some(i) => {
                let stats = before.recent[i].1;
                (
                    StatsView {
                        recent: before.recent.remove(i).push((key, stats)),
                        displayed: before.displayed.insert(key.field.0, (key, stats)),
                        ..before
                    },
                    missing,
                )
            },
            None => (before, missing.push(key)),
        }
    }
}

/// The state after a new request, before a launch.
pub open spec fn requested<S>(
    state: StatsView<S>,
    keys: Seq<StatsRequestKey>,
    snapshot: S,
) -> StatsView<S> {
    let fresh = StatsView { current: keys, errors: Map::empty(), ..state };
    let (found, missing) = looked_up(fresh, keys, keys.len());
    StatsView {
        pending: if missing.len() > 0 {
            Some((missing, snapshot))
        } else {
            None
        },
        ..found
    }
}

/// What a request leads to.
pub enum RequestStep<S> {
    /// Nothing new was asked: only poll the worker.
    Poll,
    /// The worker is launched, where there is one to launch.
    Launched(Option<Launch<S>>),
}

fn copy_keys(keys: &Vec<StatsRequestKey>) -> (r: Vec<StatsRequestKey>)
    ensures
        r@ == keys@,
{
    let mut out: Vec<StatsRequestKey> = Vec::new();
    let mut i: usize = 0;
    while i < keys.len()
        invariant
            i <= keys@.len(),
            out@ == keys@.take(i as int),
        decreases keys@.len() - i,
    {
        out.push(keys[i]);
        proof {
            assert(keys@.take(i + 1) =~= keys@.take(i as int).push(keys@[i as int]));
        }
        i = i + 1;
    }
    proof {
        assert(keys@.take(i as int) =~= keys@);
    }
    out
}

fn same_keys(a: &Vec<StatsRequestKey>, b: &Vec<StatsRequestKey>) -> (r: bool)
    ensures
        r == (a@ == b@),
{
    if a.len() != b.len() {
        return false;
    }
    let mut i: usize = 0;
    while i < a.len()
        invariant
            i <= a@.len() == b@.len(),
            forall|j: int| 0 <= j < i ==> a@[j] == b@[j],
        decreases a@.len() - i,
    {
        if a[i] != b[i] {
            return false;
        }
        i = i + 1;
    }
    proof {
        assert(a@ =~= b@);
    }
    true
}

fn has_key_of(keys: &Vec<StatsRequestKey>, field: FieldId) -> (r: bool)
    ensures
        r == asks_for(keys@, field),
{
    let mut i: usize = 0;
    while i < keys.len()
        invariant
            i <= keys@.len(),
            forall|j: int| 0 <= j < i ==> (#[trigger] keys@[j]).field != field,
        decreases keys@.len() - i,
    {
        if keys[i].field == field {
            return true;
        }
        i = i + 1;
    }
    false
}

/// Whether one of the keys asks for the field.
pub open spec fn asks_for(keys: Seq<StatsRequestKey>, field: FieldId) -> bool {
    exists|i: int| 0 <= i < keys.len() && (#[trigger] keys[i]).field == field
}

/// What is shown of a field as up to date.
pub open spec fn fresh_result<S>(state: StatsView<S>, field: FieldId) -> Option<FieldStats> {
    if state.displayed.dom().contains(field.0) && Some(state.displayed[field.0].0) == key_for(
        state.current,
        field,
    ) {
        Some(state.displayed[field.0].1)
    } else {
        None
    }
}

/// Whether an answer for the field is still awaited.
pub open spec fn updating<S>(state: StatsView<S>, field: FieldId) -> bool {
    &&& key_for(state.current, field) is Some
    &&& fresh_result(state, field) is None
    &&& state.running is Some && asks_for(state.running.unwrap(), field) || state.pending is Some
        && asks_for(state.pending.unwrap().0, field)
}

impl<S> FieldStatsController<S> {
    pub fn new() -> (r: FieldStatsController<S>)
        ensures
            r@ == (StatsView::<S> {
                fields: Seq::empty(),
                tab: StatsTab::Visible,
                current: Seq::empty(),
                running: None,
                pending: None,
                displayed: Map::empty(),
                errors: Map::empty(),
                recent: Seq::empty(),
                last_launch: None,
            }),
    {
        let r = FieldStatsController {
            fields: Vec::new(),
            tab: StatsTab::Visible,
            current: Vec::new(),
            running: None,
            pending: None,
            displayed: HashMap::new(),
            errors: HashMap::new(),
            recent: Vec::new(),
            last_launch: None,
        };
        proof {
            assert(texts_of(r.errors@) =~= Map::<u32, Seq<char>>::empty());
        }
        r
    }

    /// Looks at one field.
    pub fn open(&mut self, field: FieldId)
        ensures
            final(self)@ == opened(old(self)@, seq![field]),
    {
        let mut fields: Vec<FieldId> = Vec::new();
        fields.push(field);
        proof {
            assert(fields@ =~= seq![field]);
        }
        self.open_fields(fields);
    }

    /// Looks at fields, in that order, over the visible range.
    pub fn open_fields(&mut self, fields: Vec<FieldId>)
        ensures
            final(self)@ == opened(old(self)@, fields@),
    {
        self.fields = fields;
        self.tab = StatsTab::Visible;
        self.current = Vec::new();
        self.pending = None;
        self.displayed = HashMap::new();
        self.errors = HashMap::new();
        proof {
            assert(texts_of(self.errors@) =~= Map::<u32, Seq<char>>::empty());
        }
    }

    /// Looks at nothing any more.
    pub fn close(&mut self)
        ensures
            final(self)@ == (StatsView {
                tab: old(self)@.tab,
                ..opened(old(self)@, Seq::empty())
            }),
    {
        self.fields = Vec::new();
        self.current = Vec::new();
        self.pending = None;
        self.displayed = HashMap::new();
        self.errors = HashMap::new();
        proof {
            assert(texts_of(self.errors@) =~= Map::<u32, Seq<char>>::empty());
        }
    }

    /// The first field that is looked at.
    pub fn selected(&self) -> (r: Option<FieldId>)
        ensures
            r == if self@.fields.len() > 0 {
                Some(self@.fields[0])
            } else {
                None
            },
    {
        if self.fields.len() > 0 {
            Some(self.fields[0])
        } else {
            None
        }
    }

    /// The fields that are looked at.
    pub fn fields(&self) -> (r: &Vec<FieldId>)
        ensures
            r@ == self@.fields,
    {
        &self.fields
    }

    /// The key that is asked of a field.
    pub fn current_key(&self, field: FieldId) -> (r: Option<StatsRequestKey>)
        ensures
            r == key_for(self@.current, field),
    {
        let mut i: usize = 0;
        proof {
            assert(self.current@.skip(0) =~= self.current@);
        }
        while i < self.current.len()
            invariant
                i <= self.current@.len(),
                key_for(self.current@, field) == key_for(self.current@.skip(i as int), field),
            decreases self.current@.len() - i,
        {
            proof {
                assert(self.current@.skip(i as int).drop_first() =~= self.current@.skip(i + 1));
            }
            if self.current[i].field == field {
                return Some(self.current[i]);
            }
            i = i + 1;
        }
        None
    }

    pub fn tab(&self) -> (r: StatsTab)
        ensures
            r == self@.tab,
    {
        self.tab
    }

    pub fn set_tab(&mut self, tab: StatsTab)
        ensures
            final(self)@ == (StatsView { tab, ..old(self)@ }),
    {
        self.tab = tab;
    }

    fn find_recent(&self, key: StatsRequestKey) -> (r: Option<usize>)
        ensures
            recent_index(self@.recent, key, 0) == match r {
                Some(i) => Some(i as int),
                None => None,
            },
            r matches Some(i) ==> i < self.recent@.len(),
    {
        let mut i: usize = 0;
        while i < self.recent.len()
            invariant
                i <= self.recent@.len(),
                recent_index(self.recent@, key, 0) == recent_index(self.recent@, key, i as int),
            decreases self.recent@.len() - i,
        {
            if self.recent[i].0 == key {
                return Some(i);
            }
            i = i + 1;
        }
        None
    }

    /// Takes over statistics: they are kept, and shown if they answer what is
    /// asked now.
    pub fn accept(&mut self, key: StatsRequestKey, stats: FieldStats)
        ensures
            final(self)@ == accepted(old(self)@, key, stats),
    {
        if let Some(i) = self.find_recent(key) {
            self.recent.remove(i);
        }
        self.recent.push((key, stats));
        let ghost full = self.recent@;
        while self.recent.len() > LRU_CAPACITY
            invariant
                self.recent@.len() <= full.len(),
                self.recent@ == full.skip(full.len() - self.recent@.len()),
                full.len() > LRU_CAPACITY ==> self.recent@.len() >= LRU_CAPACITY,
                full.len() <= LRU_CAPACITY ==> self.recent@.len() == full.len(),
                self.fields == old(self).fields,
                self.tab == old(self).tab,
                self.current == old(self).current,
                self.running == old(self).running,
                self.pending == old(self).pending,
                self.displayed == old(self).displayed,
                self.errors == old(self).errors,
                self.last_launch == old(self).last_launch,
            decreases self.recent@.len(),
        {
            let ghost before = self.recent@;
            self.recent.remove(0);
            proof {
                assert(self.recent@ =~= full.skip(full.len() - self.recent@.len()));
            }
        }
        proof {
            assert(self.recent@ =~= bounded(full));
        }
        let wanted = match self.current_key(key.field) {
            Some(current) => current == key,
            None => false,
        };
        if wanted {
            let ghost errors = self.errors@;
            self.displayed.insert(key.field.0, (key, stats));
            self.errors.remove(&key.field.0);
            proof {
                assert(texts_of(self.errors@) =~= texts_of(errors).remove(key.field.0));
            }
        }
    }

    fn fail(&mut self, key: StatsRequestKey, message: String)
        ensures
            final(self)@ == if key_for(old(self)@.current, key.field) == Some(key) {
                StatsView {
                    errors: old(self)@.errors.insert(key.field.0, message@),
                    ..old(self)@
                }
            } else {
                old(self)@
            },
    {
        let wanted = match self.current_key(key.field) {
            Some(current) => current == key,
            None => false,
        };
        if wanted {
            let ghost errors = self.errors@;
            self.errors.insert(key.field.0, message);
            proof {
                assert(texts_of(self.errors@) =~= texts_of(errors).insert(
                    key.field.0,
                    message@,
                ));
            }
        }
    }

    fn receive(&mut self, batch: &WorkerBatch)
        ensures
            final(self)@ == batch_received(
                old(self)@,
                batch.keys@,
                result_views(batch.results@),
            ),
    {
        let done = match &self.running {
            Some(keys) => same_keys(keys, &batch.keys),
            None => false,
        };
        if done {
            self.running = None;
        }
        let ghost freed = self@;
        let ghost all = result_views(batch.results@);
        let mut i: usize = 0;
        proof {
            assert(all.take(0) =~= Seq::<ResultView>::empty());
        }
        while i < batch.results.len()
            invariant
                i <= batch.results@.len(),
                all == result_views(batch.results@),
                self@ == answered_all(freed, all.take(i as int)),
            decreases batch.results@.len() - i,
        {
            proof {
                assert(all.take(i + 1).drop_last() =~= all.take(i as int));
                assert(all.take(i + 1).last() == batch.results@[i as int]@);
            }
            let key = batch.results[i].key;
            match &batch.results[i].outcome {
                Ok(Some(stats)) => self.accept(key, *stats),
                Ok(None) => self.fail(key, "This field is not numeric.".to_owned()),
                Err(message) => self.fail(key, message.clone()),
            }
            i = i + 1;
        }
        proof {
            assert(all.take(i as int) =~= all);
        }
    }

    /// Takes over what the worker has answered, and launches it again where
    /// something is pending.
    pub fn poll(&mut self, batches: &Vec<WorkerBatch>, now_us: u64) -> (r: Option<Launch<S>>)
        ensures
            ({
                let received = batches_received(old(self)@, batches@, batches@.len());
                &&& final(self)@ == launched(received, now_us)
                &&& launch_view(r) == if may_launch(received, now_us) {
                    received.pending
                } else {
                    None
                }
            }),
    {
        let ghost start = self@;
        let mut i: usize = 0;
        while i < batches.len()
            invariant
                i <= batches@.len(),
                self@ == batches_received(start, batches@, i as nat),
            decreases batches@.len() - i,
        {
            self.receive(&batches[i]);
            i = i + 1;
        }
        self.maybe_launch(now_us)
    }

    /// Launches the worker on what is pending, where it may be launched.
    pub fn maybe_launch(&mut self, now_us: u64) -> (r: Option<Launch<S>>)
        ensures
            final(self)@ == launched(old(self)@, now_us),
            launch_view(r) == if may_launch(old(self)@, now_us) {
                old(self)@.pending
            } else {
                None
            },
    {
        if self.running.is_some() || self.fields.len() == 0 {
            return None;
        }
        if let Some(last) = self.last_launch {
            if now_us.saturating_sub(last) < REFRESH_INTERVAL_US {
                return None;
            }
        }
        let launch = self.pending.take();
        if let Some(launch) = &launch {
            self.running = Some(copy_keys(&launch.keys));
            self.last_launch = Some(now_us);
        }
        launch
    }

    /// Asks for keys. Those among the results that are kept are shown at once.
    pub fn request_keys(&mut self, keys: Vec<StatsRequestKey>, snapshot: S, now_us: u64) -> (r:
        RequestStep<S>)
        ensures
            old(self)@.current == keys@ ==> r is Poll && final(self)@ == old(self)@,
            old(self)@.current != keys@ ==> ({
                let next = requested(old(self)@, keys@, snapshot);
                &&& final(self)@ == launched(next, now_us)
                &&& r matches RequestStep::Launched(launch) && launch_view(launch)
                    == if may_launch(next, now_us) {
                    next.pending
                } else {
                    None
                }
            }),
    {
        if same_keys(&self.current, &keys) {
            return RequestStep::Poll;
        }
        self.current = copy_keys(&keys);
        self.errors = HashMap::new();
        proof {
            assert(texts_of(self.errors@) =~= Map::<u32, Seq<char>>::empty());
        }
        let ghost fresh = self@;
        let mut missing: Vec<StatsRequestKey> = Vec::new();
        let mut i: usize = 0;
        while i < keys.len()
            invariant
                i <= keys@.len(),
                (self@, missing@) == looked_up(fresh, keys@, i as nat),
            decreases keys@.len() - i,
        {
            let key = keys[i];
            match self.find_recent(key) {
                Some(at) => {
                    let (_, stats) = self.recent.remove(at);
                    self.recent.push((key, stats));
                    self.displayed.insert(key.field.0, (key, stats));
                },
                None => {
                    missing.push(key);
                },
            }
            i = i + 1;
        }
        if missing.len() > 0 {
            self.pending = Some(Launch { keys: missing, snapshot });
        } else {
            self.pending = None;
        }
        let launch = self.maybe_launch(now_us);
        RequestStep::Launched(launch)
    }

    /// Asks for one key.
    pub fn request(&mut self, key: StatsRequestKey, snapshot: S, now_us: u64) -> (r: RequestStep<S>)
        ensures
            old(self)@.current == seq![key] ==> r is Poll && final(self)@ == old(self)@,
            old(self)@.current != seq![key] ==> ({
                let next = requested(old(self)@, seq![key], snapshot);
                &&& final(self)@ == launched(next, now_us)
                &&& r matches RequestStep::Launched(launch) && launch_view(launch)
                    == if may_launch(next, now_us) {
                    next.pending
                } else {
                    None
                }
            }),
    {
        let mut keys: Vec<StatsRequestKey> = Vec::new();
        keys.push(key);
        proof {
            assert(keys@ =~= seq![key]);
        }
        self.request_keys(keys, snapshot, now_us)
    }

    /// The keys that ask for all fields over a range.
    pub fn keys_for_all(&self, epoch: u64, t0_us: i64, t1_us: i64) -> (r: Vec<StatsRequestKey>)
        ensures
            r@ == Seq::new(
                self@.fields.len(),
                |i: int| StatsRequestKey { field: self@.fields[i], epoch, t0_us, t1_us },
            ),
    {
        let ghost all = Seq::new(
            self@.fields.len(),
            |i: int| StatsRequestKey { field: self@.fields[i], epoch, t0_us, t1_us },
        );
        let mut keys: Vec<StatsRequestKey> = Vec::new();
        let mut i: usize = 0;
        while i < self.fields.len()
            invariant
                i <= self.fields@.len(),
                all == Seq::new(
                    self.fields@.len(),
                    |i: int| StatsRequestKey { field: self.fields@[i], epoch, t0_us, t1_us },
                ),
                keys@ == all.take(i as int),
            decreases self.fields@.len() - i,
        {
            keys.push(StatsRequestKey::new(self.fields[i], epoch, t0_us, t1_us));
            proof {
                assert(all.take(i + 1) =~= all.take(i as int).push(all[i as int]));
            }
            i = i + 1;
        }
        proof {
            assert(all.take(i as int) =~= all);
        }
        keys
    }

    /// Asks for all fields over a range.
    pub fn request_all(
        &mut self,
        epoch: u64,
        t0_us: i64,
        t1_us: i64,
        snapshot: S,
        now_us: u64,
    ) -> (r: RequestStep<S>)
        ensures
            ({
                let keys = Seq::new(
                    old(self)@.fields.len(),
                    |i: int| StatsRequestKey { field: old(self)@.fields[i], epoch, t0_us, t1_us },
                );
                let next = requested(old(self)@, keys, snapshot);
                &&& old(self)@.current == keys ==> r is Poll && final(self)@ == old(self)@
                &&& old(self)@.current != keys ==> final(self)@ == launched(next, now_us) && (
                r matches RequestStep::Launched(launch) && launch_view(launch) == if may_launch(
                    next,
                    now_us,
                ) {
                    next.pending
                } else {
                    None
                })
            }),
    {
        let keys = self.keys_for_all(epoch, t0_us, t1_us);
        self.request_keys(keys, snapshot, now_us)
    }

    /// The statistics of a field, if they answer what is asked now.
    pub fn result_for(&self, field: FieldId) -> (r: Option<FieldStats>)
        ensures
            r == fresh_result(self@, field),
    {
        match self.displayed.get(&field.0) {
            Some(shown) => {
                match self.current_key(field) {
                    Some(key) => {
                        if shown.0 == key {
                            Some(shown.1)
                        } else {
                            None
                        }
                    },
                    None => None,
                }
            },
            None => None,
        }
    }

    /// The statistics of the first field, if they answer what is asked now.
    pub fn result(&self) -> (r: Option<FieldStats>)
        ensures
            r == if self@.fields.len() > 0 {
                fresh_result(self@, self@.fields[0])
            } else {
                None
            },
    {
        match self.selected() {
            Some(field) => self.result_for(field),
            None => None,
        }
    }

    /// The statistics last shown of the first field, whatever is asked now.
    pub fn stale_result(&self) -> (r: Option<FieldStats>)
        ensures
            r == if self@.fields.len() > 0 && self@.displayed.dom().contains(self@.fields[0].0) {
                Some(self@.displayed[self@.fields[0].0].1)
            } else {
                None
            },
    {
        match self.selected() {
            Some(field) => self.stale_result_for(field),
            None => None,
        }
    }

    /// Why there are no statistics of the first field.
    pub fn error(&self) -> (r: Option<&str>)
        ensures
            r is Some == (self@.fields.len() > 0 && self@.errors.dom().contains(
                self@.fields[0].0,
            )),
            r matches Some(text) ==> text@ == self@.errors[self@.fields[0].0],
    {
        match self.selected() {
            Some(field) => self.error_for(field),
            None => None,
        }
    }

    /// Whether an answer for the first field is still awaited.
    pub fn is_updating(&self) -> (r: bool)
        ensures
            r == (self@.fields.len() > 0 && updating(self@, self@.fields[0])),
    {
        match self.selected() {
            Some(field) => self.is_updating_for(field),
            None => false,
        }
    }

    /// The statistics last shown of a field, whatever is asked now.
    pub fn stale_result_for(&self, field: FieldId) -> (r: Option<FieldStats>)
        ensures
            r == if self@.displayed.dom().contains(field.0) {
                Some(self@.displayed[field.0].1)
            } else {
                None
            },
    {
        match self.displayed.get(&field.0) {
            Some(shown) => Some(shown.1),
            None => None,
        }
    }

    /// Why there are no statistics of a field.
    pub fn error_for(&self, field: FieldId) -> (r: Option<&str>)
        ensures
            r is Some == self@.errors.dom().contains(field.0),
            r matches Some(text) ==> text@ == self@.errors[field.0],
    {
        match self.errors.get(&field.0) {
            Some(message) => Some(message.as_str()),
            None => None,
        }
    }

    /// Whether an answer for the field is still awaited.
    pub fn is_updating_for(&self, field: FieldId) -> (r: bool)
        ensures
            r == updating(self@, field),
    {
        let running = match &self.running {
            Some(keys) => has_key_of(keys, field),
            None => false,
        };
        let pending = match &self.pending {
            Some(launch) => has_key_of(&launch.keys, field),
            None => false,
        };
        self.current_key(field).is_some() && self.result_for(field).is_none() && (running
            || pending)
    }

    /// Whether an answer for one of the fields is still awaited.
    pub fn is_any_updating(&self) -> (r: bool)
        ensures
            r == exists|i: int|
                0 <= i < self@.fields.len() && updating(self@, #[trigger] self@.fields[i]),
    {
        let mut i: usize = 0;
        while i < self.fields.len()
            invariant
                i <= self.fields@.len(),
                forall|j: int| 0 <= j < i ==> !updating(self@, #[trigger] self@.fields[j]),
            decreases self.fields@.len() - i,
        {
            if self.is_updating_for(self.fields[i]) {
                assert(updating(self@, self@.fields[i as int]));
                return true;
            }
            i = i + 1;
        }
        false
    }
}

/// The state in which other fields are looked at.
pub open spec fn opened<S>(state: StatsView<S>, fields: Seq<FieldId>) -> StatsView<S> {
    StatsView {
        fields,
        tab: StatsTab::Visible,
        current: Seq::empty(),
        pending: None,
        displayed: Map::empty(),
        errors: Map::empty(),
        ..state
    }
}

/// Never more results are kept than there is room for.
pub proof fn kept_results_are_bounded<S>(
    state: StatsView<S>,
    key: StatsRequestKey,
    stats: FieldStats,
)
    ensures
        accepted(state, key, stats).recent.len() <= LRU_CAPACITY,
        accepted(state, key, stats).recent.last() == (key, stats),
{
}

/// Statistics that no longer answer what is asked never change what is shown.
pub proof fn stale_results_change_nothing_shown<S>(
    state: StatsView<S>,
    key: StatsRequestKey,
    stats: FieldStats,
    field: FieldId,
)
    requires
        key_for(state.current, key.field) != Some(key),
    ensures
        fresh_result(accepted(state, key, stats), field) == fresh_result(state, field),
        accepted(state, key, stats).displayed == state.displayed,
        accepted(state, key, stats).errors == state.errors,
{
}

/// Two launches are never closer together than the refresh interval.
pub proof fn launches_are_spaced<S>(state: StatsView<S>, now: u64, later: u64)
    requires
        may_launch(state, now),
        may_launch(
            StatsView { running: None, pending: state.pending, ..launched(state, now) },
            later,
        ),
    ensures
        later >= now + REFRESH_INTERVAL_US,
{
}

} // verus!
