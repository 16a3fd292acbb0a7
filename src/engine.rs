//! The batch engine: splits a record count over a fixed number of workers,
//! runs them in parallel over one shared configuration, and merges what they
//! produce.

use vstd::prelude::*;
use crate::configuration::{
    ConfigurationItem, FakerConfiguration, GenerationError, Record, all_fit, fails_at, record_fits,
};

verus! {

/// The sum of `s`.
pub open spec fn total(s: Seq<u64>) -> int
    decreases s.len(),
{
    if s.len() == 0 {
        0
    } else {
        total(s.drop_last()) + s.last()
    }
}

/// How many records each of `w` workers makes out of `n`: `n / w` each, and
/// the remainder on top for the first one.
pub open spec fn share_of(n: int, w: int, i: int) -> int {
    if i == 0 {
        n / w + n % w
    } else {
        n / w
    }
}

/// Splits `item_count` records over `worker_count` workers: `item_count /
/// worker_count` each, the first one also taking the remainder.
pub fn partition(item_count: u64, worker_count: u32) -> (r: Vec<u64>)
    requires
        worker_count >= 1,
    ensures
        r@.len() == worker_count,
        forall|i: int| 0 <= i < r@.len() ==> r@[i] == share_of(item_count as int, worker_count as int, i),
        total(r@) == item_count,
{
    let w = worker_count as u64;
    let each = item_count / w;
    let rest = item_count % w;
    assert(each * w + rest == item_count) by (nonlinear_arith)
        requires
            w >= 1,
            each == item_count / w,
            rest == item_count % w,
    {
        vstd::arithmetic::div_mod::lemma_fundamental_div_mod(item_count as int, w as int);
    }
    assert(each + rest <= item_count) by (nonlinear_arith)
        requires
            w >= 1,
            each >= 0,
            each * w + rest == item_count,
    ;
    let mut r: Vec<u64> = Vec::new();
    r.push(each + rest);
    assert(total(r@) == each + rest) by {
        assert(r@.drop_last() =~= Seq::<u64>::empty());
        assert(total(Seq::<u64>::empty()) == 0);
    }
    let mut i: u32 = 1;
    while i < worker_count
        invariant
            1 <= i <= worker_count,
            w == worker_count,
            each == item_count / w,
            rest == item_count % w,
            r@.len() == i,
            forall|j: int| 0 <= j < r@.len() ==> r@[j] == share_of(item_count as int, w as int, j),
            total(r@) == each + rest + (i - 1) * each,
            each * w + rest == item_count,
        decreases worker_count - i,
    {
        let ghost before = r@;
        r.push(each);
        assert(r@.drop_last() =~= before);
        assert(total(r@) == each + rest + i * each) by (nonlinear_arith)
            requires
                total(r@) == total(before) + each,
                total(before) == each + rest + (i - 1) * each,
        ;
        i = i + 1;
    }
    assert(total(r@) == item_count) by (nonlinear_arith)
        requires
            total(r@) == each + rest + (w - 1) * each,
            each * w + rest == item_count,
    ;
    r
}

/// However many records are asked for and however many workers share them,
/// the shares of `partition` add up to exactly the number asked for, and no
/// two shares differ by more than the remainder `n % w`.
pub proof fn lemma_shares_add_up(n: int, w: int, shares: Seq<u64>)
    requires
        n >= 0,
        w >= 1,
        shares.len() == w,
        forall|i: int| 0 <= i < shares.len() ==> shares[i] == share_of(n, w, i),
    ensures
        total(shares) == n,
        forall|i: int, j: int|
            0 <= i < w && 0 <= j < w ==> shares[i] - shares[j] <= n % w,
{
    lemma_total_of_shares(n, w, shares, w);
    assert(n / w * w + n % w == n) by {
        vstd::arithmetic::div_mod::lemma_fundamental_div_mod(n, w);
    }
    assert(total(shares) == n) by (nonlinear_arith)
        requires
            total(shares) == n / w + n % w + (w - 1) * (n / w),
            n / w * w + n % w == n,
    ;
    assert(n % w >= 0) by {
        vstd::arithmetic::div_mod::lemma_mod_bound(n, w);
    }
}

/// The sum of the first `m` shares.
proof fn lemma_total_of_shares(n: int, w: int, shares: Seq<u64>, m: int)
    requires
        w >= 1,
        1 <= m <= shares.len(),
        forall|i: int| 0 <= i < shares.len() ==> shares[i] == share_of(n, w, i),
    ensures
        total(shares.subrange(0, m)) == n / w + n % w + (m - 1) * (n / w),
        m == shares.len() ==> total(shares) == n / w + n % w + (m - 1) * (n / w),
    decreases m,
{
    let p = shares.subrange(0, m);
    assert(p.drop_last() =~= shares.subrange(0, m - 1));
    if m == 1 {
        assert(shares.subrange(0, 0) =~= Seq::<u64>::empty());
        assert(total(Seq::<u64>::empty()) == 0);
    } else {
        lemma_total_of_shares(n, w, shares, m - 1);
        assert(total(p) == n / w + n % w + (m - 1) * (n / w)) by (nonlinear_arith)
            requires
                total(p) == total(shares.subrange(0, m - 1)) + n / w,
                total(shares.subrange(0, m - 1)) == n / w + n % w + (m - 2) * (n / w),
        ;
    }
    if m == shares.len() {
        assert(p =~= shares);
    }
}

/// What one worker handed back: `None` where its thread could not be started
/// or did not finish, else what `generate_records` returned.
pub type WorkerResult = Option<Result<Vec<Record>, GenerationError>>;

/// Why a batch could not be made.
#[derive(Debug, Clone, Copy, PartialEq, Eq, Structural)]
pub enum BatchError {
    /// A record could not be generated.
    Generation(GenerationError),
    /// A worker thread could not be started or did not finish.
    Workers,
}

/// The records of `parts` joined in order, or the error of the first part
/// that did not bring records.
pub open spec fn merged(parts: Seq<WorkerResult>) -> Result<Seq<Record>, BatchError>
    decreases parts.len(),
{
    if parts.len() == 0 {
        Ok(Seq::empty())
    } else {
        match parts[0] {
            None => Err(BatchError::Workers),
            Some(Err(e)) => Err(BatchError::Generation(e)),
            Some(Ok(v)) => match merged(parts.drop_first()) {
                Ok(t) => Ok(v@ + t),
                Err(e) => Err(e),
            },
        }
    }
}

/// Whether every part brought records.
pub open spec fn all_brought(parts: Seq<WorkerResult>) -> bool {
    forall|i: int| 0 <= i < parts.len() ==> #[trigger] parts[i] matches Some(Ok(_))
}

/// Parts merge without error exactly when each of them brought records; and
/// where part `i` brought `shares[i]` records that `items` can produce, the
/// merge holds `total(shares)` of them, each one that `items` can produce.
pub proof fn lemma_merged(parts: Seq<WorkerResult>, shares: Seq<u64>, items: Seq<ConfigurationItem>)
    requires
        parts.len() == shares.len(),
        forall|i: int|
            0 <= i < parts.len() ==> (#[trigger] parts[i] matches Some(Ok(v)) ==> (v@.len()
                == shares[i] && all_fit(items, v@))),
    ensures
        merged(parts) is Ok <==> all_brought(parts),
        merged(parts) matches Ok(t) ==> t.len() == total(shares) && all_fit(items, t),
    decreases parts.len(),
{
    lemma_merged_ok(parts);
    if parts.len() > 0 {
        let rest = parts.drop_first();
        let srest = shares.drop_first();
        assert forall|i: int| 0 <= i < rest.len() implies (#[trigger] rest[i] matches Some(Ok(v))
            ==> (v@.len() == srest[i] && all_fit(items, v@))) by {
            assert(rest[i] == parts[i + 1]);
        }
        lemma_merged(rest, srest, items);
        lemma_total_first(shares);
        if let Some(Ok(v)) = parts[0] {
            if let Ok(t) = merged(rest) {
                let m = v@ + t;
                assert forall|i: int| 0 <= i < m.len() implies record_fits(items, (#[trigger] m[i]).fields@) by {
                    if i < v@.len() {
                        assert(m[i] == v@[i]);
                    } else {
                        assert(m[i] == t[i - v@.len()]);
                    }
                }
            }
        }
    }
}

/// Parts merge without error exactly when each of them brought records.
proof fn lemma_merged_ok(parts: Seq<WorkerResult>)
    ensures
        merged(parts) is Ok <==> all_brought(parts),
    decreases parts.len(),
{
    if parts.len() > 0 {
        let rest = parts.drop_first();
        lemma_merged_ok(rest);
        if all_brought(parts) {
            assert(parts[0] matches Some(Ok(_)));
            assert forall|i: int| 0 <= i < rest.len() implies #[trigger] rest[i] matches Some(Ok(_)) by {
                assert(rest[i] == parts[i + 1]);
            }
        }
        if all_brought(rest) && parts[0] matches Some(Ok(_)) {
            assert forall|i: int| 0 <= i < parts.len() implies #[trigger] parts[i] matches Some(Ok(_)) by {
                if i > 0 {
                    assert(parts[i] == rest[i - 1]);
                }
            }
        }
    }
}

/// The sum of `s` is its first member plus the sum of the others.
proof fn lemma_total_first(s: Seq<u64>)
    requires
        s.len() > 0,
    ensures
        total(s) == s[0] + total(s.drop_first()),
    decreases s.len(),
{
    if s.len() > 1 {
        lemma_total_first(s.drop_last());
        assert(s.drop_last().drop_first() =~= s.drop_first().drop_last());
        assert(s.drop_first().last() == s.last());
    } else {
        assert(s.drop_last() =~= Seq::<u64>::empty());
        assert(s.drop_first() =~= Seq::<u64>::empty());
        assert(total(Seq::<u64>::empty()) == 0);
    }
}

/// Merges what the workers handed back, one part per share, in order. A
/// count of parts other than the count of shares, or a part without
/// records, fails the whole batch: no partial batch is returned.
pub fn merge_shares(results: Vec<WorkerResult>, shares: &Vec<u64>) -> (r: Result<Vec<Record>, BatchError>)
    ensures
        results@.len() != shares@.len() ==> r == Err::<Vec<Record>, _>(BatchError::Workers),
        results@.len() == shares@.len() ==> match r {
            Ok(b) => merged(results@) == Ok::<_, BatchError>(b@),
            Err(e) => merged(results@) == Err::<Seq<Record>, _>(e),
        },
        r is Ok <==> (results@.len() == shares@.len() && all_brought(results@)),
{
    if results.len() != shares.len() {
        return Err(BatchError::Workers);
    }
    proof {
        lemma_merged_ok(results@);
    }
    let ghost all = results@;
    let mut rest = results;
    let mut batch: Vec<Record> = Vec::new();
    while rest.len() > 0
        invariant
            all == results@,
            all.len() == shares@.len(),
            merged(all) is Ok <==> all_brought(all),
            merged(all) == match merged(rest@) {
                Ok(t) => Ok(batch@ + t),
                Err(e) => Err(e),
            },
        decreases rest@.len(),
    {
        let ghost before = rest@;
        let part = rest.remove(0);
        assert(part == before[0]);
        assert(rest@ =~= before.drop_first());
        match part {
            None => {
                assert(before[0] is None);
                assert(merged(before) == Err::<Seq<Record>, _>(BatchError::Workers));
                return Err(BatchError::Workers);
            },
            Some(Err(e)) => {
                assert(merged(before) == Err::<Seq<Record>, _>(BatchError::Generation(e)));
                return Err(BatchError::Generation(e));
            },
            Some(Ok(mut v)) => {
                let ghost b0 = batch@;
                let ghost v0 = v@;
                batch.append(&mut v);
                assert(batch@ =~= b0 + v0);
                assert(forall|t: Seq<Record>| b0 + (v0 + t) =~= (b0 + v0) + t);
            },
        }
    }
    assert(batch@ + Seq::<Record>::empty() =~= batch@);
    Ok(batch)
}

/// Relies on `crossbeam::thread::scope` and `ScopedThreadBuilder::spawn`: one
/// scoped thread per share, each making its share of records with
/// `generate_records`, all joined before the scope ends. A thread's result
/// is what `generate_records` returned; a thread that could not be started
/// or that panicked gives `None`; a scope that reports a panic gives no
/// results at all.
#[verifier::external_body]
fn run_workers(config: &FakerConfiguration, shares: &Vec<u64>) -> (r: Vec<WorkerResult>)
    ensures
        r@.len() == shares@.len() || r@.len() == 0,
        forall|i: int|
            0 <= i < r@.len() ==> (#[trigger] r@[i] matches Some(Ok(v)) ==> (v@.len() == shares@[i]
                && all_fit(config.items@, v@))),
        forall|i: int|
            0 <= i < r@.len() ==> (#[trigger] r@[i] matches Some(Err(e)) ==> fails_at(config.items@, e)),
{
    let scoped = crossbeam::thread::scope(|scope| {
        let handles: Vec<_> = shares.iter().map(|k| {
            let k = *k;
            scope.builder().spawn(move |_| config.generate_records(k))
        }).collect();
        handles.into_iter().map(|h| match h {
            Ok(h) => h.join().ok(),
            Err(_) => None,
        }).collect()
    });
    scoped.unwrap_or_default()
}

/// Produces batches of records over a fixed number of worker threads.
#[derive(Debug)]
pub struct FakerEngine {
    thread_count: i32,
    config: FakerConfiguration,
}

impl FakerEngine {
    #[verifier::type_invariant]
    spec fn has_workers(&self) -> bool {
        self.thread_count >= 1
    }

    /// An engine of `thread_count` workers over `config`; a count below one is
    /// refused.
    pub fn new(config: FakerConfiguration, thread_count: i32) -> (r: Result<FakerEngine, ()>)
        ensures
            r is Err <==> thread_count <= 0,
            r matches Ok(e) ==> (e.thread_count() == thread_count && e.config().items@
                == config.items@),
    {
        if thread_count <= 0 {
            return Err(());
        }
        Ok(FakerEngine { thread_count, config })
    }

    /// The number of workers.
    pub closed spec fn thread_count(&self) -> i32 {
        self.thread_count
    }

    /// The configuration the workers share.
    pub closed spec fn config(&self) -> FakerConfiguration {
        self.config
    }

    /// The number of workers; at least one.
    pub fn workers(&self) -> (r: i32)
        ensures
            r == self.thread_count(),
            r >= 1,
    {
        proof {
            use_type_invariant(self);
        }
        self.thread_count
    }

    /// The configuration the workers share.
    pub fn configuration(&self) -> (r: &FakerConfiguration)
        ensures
            r.items@ == self.config().items@,
    {
        &self.config
    }

    /// Makes `record_count` records: the count is split over the workers
    /// (`partition`), the workers run in parallel over the one configuration
    /// (`run_workers`), and their records are merged (`merge_shares`). Any
    /// worker's failure fails the batch; no partial batch is returned. What
    /// comes out for each thing the workers can hand back is `merge_shares`'s
    /// contract; whatever they hand back, a batch holds exactly
    /// `record_count` records, each one the configuration can produce, and a
    /// generation error names a field whose rule can fail.
    pub fn generate_batch(&self, record_count: u64) -> (r: Result<Vec<Record>, BatchError>)
        ensures
            r matches Ok(b) ==> b@.len() == record_count && all_fit(self.config().items@, b@),
            r matches Err(BatchError::Generation(e)) ==> fails_at(self.config().items@, e),
    {
        proof {
            use_type_invariant(self);
        }
        let shares = partition(record_count, self.thread_count as u32);
        let results = run_workers(&self.config, &shares);
        proof {
            if results@.len() == shares@.len() {
                lemma_merged(results@, shares@, self.config.items@);
                lemma_merged_error(results@, self.config.items@);
            }
        }
        merge_shares(results, &shares)
    }
}

/// The error of a merge is that of one of its parts.
proof fn lemma_merged_error(parts: Seq<WorkerResult>, items: Seq<ConfigurationItem>)
    requires
        forall|i: int|
            0 <= i < parts.len() ==> (#[trigger] parts[i] matches Some(Err(e)) ==> fails_at(items, e)),
    ensures
        merged(parts) matches Err(BatchError::Generation(e)) ==> fails_at(items, e),
    decreases parts.len(),
{
    if parts.len() > 0 {
        let rest = parts.drop_first();
        assert forall|i: int| 0 <= i < rest.len() implies (#[trigger] rest[i] matches Some(Err(e))
            ==> fails_at(items, e)) by {
            assert(rest[i] == parts[i + 1]);
        }
        lemma_merged_error(rest, items);
    }
}

} // verus!
