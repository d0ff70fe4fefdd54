//! The graph walker and aggregator.
//!
//! A [`Walk`] owns the traversal state of one run: a frontier of canonical
//! identities still to visit and the records of the files visited so far,
//! in first-visited order. The caller drives the walk: it takes the next
//! pending identity with [`Walk::next_pending`], measures that file, and
//! hands the record back with [`Walk::record`]; a measurement failure is
//! reported with [`Walk::fail`] and aborts the run — no report is produced
//! (the fail-fast policy: a partial report is worse than none). When the
//! frontier is empty, [`Walk::finish`] aggregates the records into a
//! [`Report`].
//!
//! The frontier is a stack, so files are visited in last-discovered-first
//! order; callers must not rely on any particular traversal order, only on
//! the first-visited order of the report being stable.

use crate::path::{canon_spec, canonical, resolve, resolve_spec};
use crate::{Weight, WeightView};
use vstd::prelude::*;
use vstd::set_lib::lemma_len_subset;
use vstd::utf8::encode_utf8;

verus! {

/// Why one file could not be measured: it could not be read, an import
/// specifier did not lead to a readable file, its source did not parse, or
/// the measurement output was not valid text.
#[derive(Clone, Copy, PartialEq, Eq, Structural, Debug)]
pub enum MeasureError {
    Io,
    Resolution,
    Parse,
    Encoding,
}

/// Why a run produced no report: a file's measurement failed, or a total
/// does not fit in a machine word.
#[derive(Clone, Copy, PartialEq, Eq, Structural, Debug)]
pub enum ReportError {
    Failed(MeasureError),
    TotalOverflow,
}

/// The outcome of a run: every visited file's record in first-visited
/// order, the sum of the records' measured sizes, and the sum of their raw
/// source byte lengths. The two totals are never merged: the length is the
/// uncompressed baseline, the size is the deliverable weight.
pub struct Report {
    pub records: Vec<Weight>,
    pub total_size: usize,
    pub total_len: usize,
}

/// The mathematical model of a traversal state.
pub ghost struct WalkView {
    pub frontier: Seq<Seq<char>>,
    pub visited: Seq<WeightView>,
    pub failed: Option<MeasureError>,
}

/// Whether some record in `vs` carries the identity `p`.
pub open spec fn path_recorded(vs: Seq<WeightView>, p: Seq<char>) -> bool {
    exists|i: int| 0 <= i < vs.len() && vs[i].path == p
}

/// Well-formedness of a traversal state: the frontier holds no identity
/// twice, no identity is recorded twice, and no pending identity is
/// already recorded — so every file is measured at most once and cycles
/// and diamonds in the import graph cannot re-enqueue a file.
pub open spec fn wf_state(s: WalkView) -> bool {
    &&& s.frontier.no_duplicates()
    &&& forall|i: int, j: int|
        0 <= i < s.visited.len() && 0 <= j < s.visited.len() && i != j ==> s.visited[i].path
            != s.visited[j].path
    &&& forall|i: int| 0 <= i < s.frontier.len() ==> !path_recorded(s.visited, s.frontier[i])
}

/// The state a walk starts in: the canonicalized root is the one pending
/// identity, nothing is visited, nothing has failed.
pub open spec fn init_state(root: Seq<char>) -> WalkView {
    WalkView { frontier: seq![canon_spec(root)], visited: Seq::empty(), failed: None }
}

/// Whether a record with identity `p` would be accepted: the run has not
/// failed and `p` is neither recorded nor pending.
pub open spec fn accepts(s: WalkView, p: Seq<char>) -> bool {
    &&& s.failed is None
    &&& !path_recorded(s.visited, p)
    &&& !s.frontier.contains(p)
}

/// The frontier after resolving the first `i` import specifiers of a file
/// at `parent` and enqueueing each resolved identity that is neither
/// recorded in `vis` nor already pending.
pub open spec fn enqueue_from(
    fr: Seq<Seq<char>>,
    vis: Seq<WeightView>,
    parent: Seq<char>,
    imports: Seq<Seq<char>>,
    i: int,
) -> Seq<Seq<char>>
    decreases i,
{
    if i <= 0 {
        fr
    } else {
        let f = enqueue_from(fr, vis, parent, imports, i - 1);
        let c = resolve_spec(parent, imports[i - 1]);
        if path_recorded(vis, c) || f.contains(c) {
            f
        } else {
            f.push(c)
        }
    }
}

/// The state after handing the walk the record `w`: if `w`'s identity is
/// accepted, `w` is appended to the visited records and every resolved
/// import of `w` that is still unknown — including `w` itself — becomes
/// pending; otherwise the state is unchanged.
pub open spec fn record_trans(s: WalkView, w: WeightView) -> WalkView {
    if accepts(s, w.path) {
        let vis = s.visited.push(w);
        WalkView {
            frontier: enqueue_from(s.frontier, vis, w.path, w.imports, w.imports.len() as int),
            visited: vis,
            failed: s.failed,
        }
    } else {
        s
    }
}

/// The state after taking the next pending identity: the last-discovered
/// pending identity leaves the frontier; a failed or drained walk is
/// unchanged.
pub open spec fn pop_trans(s: WalkView) -> WalkView {
    if s.failed is Some || s.frontier.len() == 0 {
        s
    } else {
        WalkView { frontier: s.frontier.drop_last(), visited: s.visited, failed: s.failed }
    }
}

/// The state after a whole run: from `s`, alternately take the next
/// pending identity and hand back one record, once per element of `ws`.
pub open spec fn replay(s: WalkView, ws: Seq<WeightView>) -> WalkView
    decreases ws.len(),
{
    if ws.len() == 0 {
        s
    } else {
        replay(record_trans(pop_trans(s), ws[0]), ws.skip(1))
    }
}

/// The sum of the raw source byte lengths of the records.
pub open spec fn total_len_of(vs: Seq<WeightView>) -> nat
    decreases vs.len(),
{
    if vs.len() == 0 {
        0
    } else {
        total_len_of(vs.drop_last()) + encode_utf8(vs.last().source).len()
    }
}

/// The sum of the measured sizes of the records.
pub open spec fn total_size_of(vs: Seq<WeightView>) -> nat
    decreases vs.len(),
{
    if vs.len() == 0 {
        0
    } else {
        total_size_of(vs.drop_last()) + vs.last().size
    }
}

/// The traversal state of one run. See the module documentation for the
/// calling discipline.
pub struct Walk {
    frontier: Vec<String>,
    visited: Vec<Weight>,
    failed: Option<MeasureError>,
}

impl View for Walk {
    type V = WalkView;

    closed spec fn view(&self) -> WalkView {
        WalkView {
            frontier: self.frontier@.map_values(|s: String| s@),
            visited: self.visited@.map_values(|w: Weight| w@),
            failed: self.failed,
        }
    }
}

/// Whether some element of `v` holds the characters of `x`.
fn contains_str(v: &Vec<String>, x: &String) -> (b: bool)
    ensures
        b == v@.map_values(|s: String| s@).contains(x@),
{
    let ghost m = v@.map_values(|s: String| s@);
    let mut i: usize = 0;
    while i < v.len()
        invariant
            i <= v@.len(),
            m == v@.map_values(|s: String| s@),
            forall|k: int| 0 <= k < i ==> m[k] != x@,
        decreases v@.len() - i,
    {
        if v[i] == *x {
            proof {
                assert(m[i as int] == x@);
            }
            return true;
        }
        i = i + 1;
    }
    proof {
        assert(forall|k: int| 0 <= k < m.len() ==> m[k] != x@);
    }
    false
}

/// Whether some record in `v` carries the identity `x`.
fn contains_path(v: &Vec<Weight>, x: &String) -> (b: bool)
    ensures
        b == path_recorded(v@.map_values(|w: Weight| w@), x@),
{
    let ghost m = v@.map_values(|w: Weight| w@);
    let mut i: usize = 0;
    while i < v.len()
        invariant
            i <= v@.len(),
            m == v@.map_values(|w: Weight| w@),
            forall|k: int| 0 <= k < i ==> m[k].path != x@,
        decreases v@.len() - i,
    {
        if v[i].path == *x {
            proof {
                assert(m[i as int].path == x@);
            }
            return true;
        }
        i = i + 1;
    }
    proof {
        assert(forall|k: int| 0 <= k < m.len() ==> m[k].path != x@);
    }
    false
}

impl Walk {
    /// Starts a walk at the given root file: the root's canonical identity
    /// is the single pending identity.
    pub fn new(root: &str) -> (w: Walk)
        ensures
            w@ == init_state(root@),
            wf_state(w@),
    {
        let id = canonical(root);
        let mut frontier: Vec<String> = Vec::new();
        frontier.push(id);
        let w = Walk { frontier, visited: Vec::new(), failed: None };
        proof {
            assert(w@.frontier =~= seq![canon_spec(root@)]);
            assert(w@.visited =~= Seq::<WeightView>::empty());
        }
        w
    }

    /// Takes the next pending identity off the frontier, or `None` when
    /// the walk has failed or every discovered file has been visited.
    pub fn next_pending(&mut self) -> (r: Option<String>)
        ensures
            final(self)@ == pop_trans(old(self)@),
            match r {
                Option::None => final(self)@ == old(self)@ && (old(self)@.failed is Some || old(
                    self,
                )@.frontier.len() == 0),
                Option::Some(p) => {
                    &&& old(self)@.failed is None
                    &&& old(self)@.frontier.len() > 0
                    &&& p@ == old(self)@.frontier.last()
                },
            },
    {
        if self.failed.is_some() {
            return None;
        }
        let r = self.frontier.pop();
        proof {
            if old(self)@.frontier.len() > 0 {
                assert(self@.frontier =~= old(self)@.frontier.drop_last());
            } else {
                assert(self@.frontier =~= old(self)@.frontier);
            }
        }
        r
    }

    /// Hands the walk the measurement record of one file. A record whose
    /// identity is still unknown — freshly popped off the frontier — is
    /// accepted: it joins the visited records and its resolved imports are
    /// enqueued if new. Any other record, and any record after a failure,
    /// is rejected unchanged.
    pub fn record(&mut self, w: Weight) -> (fresh: bool)
        ensures
            final(self)@ == record_trans(old(self)@, w@),
            fresh == accepts(old(self)@, w@.path),
    {
        if self.failed.is_some() {
            return false;
        }
        if contains_path(&self.visited, &w.path) {
            return false;
        }
        if contains_str(&self.frontier, &w.path) {
            return false;
        }
        let ghost s0 = self@;
        let ghost vis = s0.visited.push(w@);
        let mut k: usize = 0;
        while k < w.imports.len()
            invariant
                k <= w.imports@.len(),
                accepts(s0, w@.path),
                vis == s0.visited.push(w@),
                self.visited@.map_values(|x: Weight| x@) == s0.visited,
                self.failed == s0.failed,
                w@.imports == w.imports@.map_values(|s: String| s@),
                self.frontier@.map_values(|s: String| s@) == enqueue_from(
                    s0.frontier,
                    vis,
                    w@.path,
                    w@.imports,
                    k as int,
                ),
            decreases w.imports@.len() - k,
        {
            let imp = &w.imports[k];
            let cand = resolve(w.path.as_str(), imp.as_str());
            proof {
                assert(w@.imports[k as int] == w.imports@[k as int]@);
            }
            let mut known = cand == w.path;
            proof {
                lemma_recorded_push(s0.visited, w@, cand@);
            }
            if !known {
                known = contains_path(&self.visited, &cand);
            }
            if !known {
                known = contains_str(&self.frontier, &cand);
            }
            if !known {
                self.frontier.push(cand);
                proof {
                    assert(self.frontier@.map_values(|s: String| s@) =~= enqueue_from(
                        s0.frontier,
                        vis,
                        w@.path,
                        w@.imports,
                        k as int,
                    ).push(resolve_spec(w@.path, w@.imports[k as int])));
                }
            }
            k = k + 1;
        }
        self.visited.push(w);
        proof {
            assert(self@.visited =~= vis);
        }
        true
    }

    /// Reports a measurement failure. The first failure is kept and ends
    /// the run: from here on nothing is pending and no report is produced.
    pub fn fail(&mut self, err: MeasureError)
        ensures
            final(self)@.frontier == old(self)@.frontier,
            final(self)@.visited == old(self)@.visited,
            final(self)@.failed == if old(self)@.failed is Some {
                old(self)@.failed
            } else {
                Some(err)
            },
    {
        if self.failed.is_none() {
            self.failed = Some(err);
        }
    }

    /// How many identities are pending.
    pub fn pending_count(&self) -> (n: usize)
        ensures
            n == self@.frontier.len(),
    {
        self.frontier.len()
    }

    /// How many files have been visited.
    pub fn visited_count(&self) -> (n: usize)
        ensures
            n == self@.visited.len(),
    {
        self.visited.len()
    }

    /// Whether a measurement failure has been reported.
    pub fn has_failed(&self) -> (b: bool)
        ensures
            b == (self@.failed is Some),
    {
        self.failed.is_some()
    }

    /// Aggregates a finished walk into its report: the visited records in
    /// first-visited order and the two totals, each the exact sum over the
    /// records. A run that saw a failure yields that failure; a run whose
    /// totals do not fit in a machine word yields `TotalOverflow`; every
    /// other run yields its report.
    pub fn finish(self) -> (r: Result<Report, ReportError>)
        requires
            self@.failed is Some || self@.frontier.len() == 0,
        ensures
            (r is Ok <==> self@.failed is None && total_len_of(self@.visited) <= usize::MAX
                && total_size_of(self@.visited) <= usize::MAX),
            match r {
                Result::Ok(rep) => {
                    &&& rep.records@.map_values(|w: Weight| w@) == self@.visited
                    &&& rep.total_len as nat == total_len_of(self@.visited)
                    &&& rep.total_size as nat == total_size_of(self@.visited)
                },
                Result::Err(e) => match e {
                    ReportError::Failed(me) => self@.failed == Some(me),
                    ReportError::TotalOverflow => self@.failed is None && (total_len_of(
                        self@.visited,
                    ) > usize::MAX || total_size_of(self@.visited) > usize::MAX),
                },
            },
    {
        if let Some(e) = self.failed {
            return Err(ReportError::Failed(e));
        }
        let ghost vs = self@.visited;
        let mut total_len: usize = 0;
        let mut total_size: usize = 0;
        let mut i: usize = 0;
        while i < self.visited.len()
            invariant
                i <= self.visited@.len(),
                self@.failed is None,
                vs == self.visited@.map_values(|w: Weight| w@),
                total_len as nat == total_len_of(vs.take(i as int)),
                total_size as nat == total_size_of(vs.take(i as int)),
            decreases self.visited@.len() - i,
        {
            proof {
                assert(vs.take(i + 1).drop_last() =~= vs.take(i as int));
                assert(vs.take(i + 1).last() == vs[i as int]);
                assert(vs[i as int] == self.visited@[i as int]@);
            }
            let len_i = self.visited[i].source.as_str().as_bytes().len();
            proof {
                broadcast use vstd::slice::axiom_spec_len;

                assert(len_i as nat == encode_utf8(vs[i as int].source).len());
                assert(total_len_of(vs.take(i + 1)) == total_len_of(vs.take(i as int)) + len_i);
                assert(total_size_of(vs.take(i + 1)) == total_size_of(vs.take(i as int))
                    + vs[i as int].size);
            }
            total_len = match total_len.checked_add(len_i) {
                Some(v) => v,
                None => {
                    proof {
                        lemma_total_prefix(vs, i + 1);
                    }
                    return Err(ReportError::TotalOverflow);
                },
            };
            let size_i = self.visited[i].size;
            total_size = match total_size.checked_add(size_i) {
                Some(v) => v,
                None => {
                    proof {
                        lemma_total_prefix(vs, i + 1);
                    }
                    return Err(ReportError::TotalOverflow);
                },
            };
            i = i + 1;
        }
        proof {
            assert(vs.take(vs.len() as int) =~= vs);
        }
        Ok(Report { records: self.visited, total_size, total_len })
    }
}

/// Law: the walk is deterministic. A run is a function of the root and of
/// the sequence of measurement records it is handed, nothing else: two
/// runs from the same root that are handed the same records end in the
/// same state, and so hold the same visited records, in the same order,
/// and the same totals.
pub proof fn lemma_run_deterministic(
    root_a: Seq<char>,
    ws_a: Seq<WeightView>,
    root_b: Seq<char>,
    ws_b: Seq<WeightView>,
)
    requires
        root_a == root_b,
        ws_a == ws_b,
    ensures
        replay(init_state(root_a), ws_a) == replay(init_state(root_b), ws_b),
        total_len_of(replay(init_state(root_a), ws_a).visited) == total_len_of(
            replay(init_state(root_b), ws_b).visited,
        ),
        total_size_of(replay(init_state(root_a), ws_a).visited) == total_size_of(
            replay(init_state(root_b), ws_b).visited,
        ),
{
}

/// Law: deduplication. A file whose identity is already recorded is never
/// recorded again, however many import edges lead back to it — a diamond
/// or a cycle hands the walk a known identity, and the walk rejects it
/// unchanged.
pub proof fn lemma_record_at_most_once(s: WalkView, w: WeightView)
    requires
        path_recorded(s.visited, w.path),
    ensures
        record_trans(s, w) == s,
{
}

/// The identities enqueued on top of a well-formed frontier keep it
/// well-formed: no duplicates, and nothing that is already recorded.
proof fn lemma_enqueue_wf(
    fr: Seq<Seq<char>>,
    vis: Seq<WeightView>,
    parent: Seq<char>,
    imports: Seq<Seq<char>>,
    i: int,
)
    requires
        0 <= i <= imports.len(),
        fr.no_duplicates(),
        forall|k: int| 0 <= k < fr.len() ==> !path_recorded(vis, fr[k]),
    ensures
        enqueue_from(fr, vis, parent, imports, i).no_duplicates(),
        forall|k: int|
            0 <= k < enqueue_from(fr, vis, parent, imports, i).len() ==> !path_recorded(
                vis,
                enqueue_from(fr, vis, parent, imports, i)[k],
            ),
    decreases i,
{
    if i > 0 {
        lemma_enqueue_wf(fr, vis, parent, imports, i - 1);
        let f = enqueue_from(fr, vis, parent, imports, i - 1);
        let c = resolve_spec(parent, imports[i - 1]);
        if !path_recorded(vis, c) && !f.contains(c) {
            let g = f.push(c);
            assert forall|a: int, b: int|
                0 <= a < g.len() && 0 <= b < g.len() && a != b implies g[a] != g[b] by {
                if a < f.len() && b < f.len() {
                } else if a == f.len() {
                    assert(g[b] == f[b] && !f.contains(c));
                } else {
                    assert(g[a] == f[a] && !f.contains(c));
                }
            }
        }
    }
}

/// Law: every state a walk can reach is well-formed — taking a pending
/// identity and recording a file both preserve well-formedness, so at all
/// times each identity is pending at most once, recorded at most once, and
/// never both.
pub proof fn lemma_wf_preserved(s: WalkView, w: WeightView)
    requires
        wf_state(s),
    ensures
        wf_state(pop_trans(s)),
        wf_state(record_trans(s, w)),
{
    let p = pop_trans(s);
    assert(forall|i: int| 0 <= i < p.frontier.len() ==> p.frontier[i] == s.frontier[i]);
    if accepts(s, w.path) {
        let vis = s.visited.push(w);
        assert forall|k: int| 0 <= k < s.frontier.len() implies !path_recorded(
            vis,
            s.frontier[k],
        ) by {
            lemma_recorded_push(s.visited, w, s.frontier[k]);
            assert(s.frontier[k] != w.path) by {
                assert(!s.frontier.contains(w.path));
            }
        }
        lemma_enqueue_wf(s.frontier, vis, w.path, w.imports, w.imports.len() as int);
        assert forall|i: int, j: int|
            0 <= i < vis.len() && 0 <= j < vis.len() && i != j implies vis[i].path
            != vis[j].path by {
            if i < s.visited.len() && j < s.visited.len() {
            } else if i == s.visited.len() {
                assert(vis[j] == s.visited[j] && !path_recorded(s.visited, w.path));
            } else {
                assert(vis[i] == s.visited[i] && !path_recorded(s.visited, w.path));
            }
        }
    }
}

/// Law: progress. In a well-formed, unfailed state the identity just taken
/// off the frontier is always accepted: it is not yet recorded and no
/// longer pending, so the following record grows the visited sequence by
/// exactly that file.
pub proof fn lemma_popped_is_fresh(s: WalkView, w: WeightView)
    requires
        wf_state(s),
        s.failed is None,
        s.frontier.len() > 0,
        w.path == s.frontier.last(),
    ensures
        accepts(pop_trans(s), w.path),
        record_trans(pop_trans(s), w).visited == pop_trans(s).visited.push(w),
{
    let p = pop_trans(s);
    assert(!p.frontier.contains(w.path)) by {
        assert(forall|k: int|
            0 <= k < p.frontier.len() ==> p.frontier[k] == s.frontier[k] && s.frontier[k]
                != s.frontier.last());
    }
    assert(!path_recorded(p.visited, w.path)) by {
        assert(s.frontier.contains(s.frontier.last()));
        assert(!path_recorded(s.visited, s.frontier.last()));
    }
}

/// Law: cycle safety — the traversal cannot run forever. In a well-formed
/// state every pending or recorded identity is distinct, so if every
/// identity the walk holds lies in a finite set `ids` (for a real run, the
/// files on disk), the recorded and pending counts together never exceed
/// the size of `ids`. Each accepted record strictly grows the visited
/// sequence toward that bound, and each pop strictly shrinks the frontier,
/// so a run over a finite filesystem ends — an import cycle merely hands
/// the walk known identities, which it rejects.
pub proof fn lemma_bounded_work(s: WalkView, ids: Set<Seq<char>>)
    requires
        wf_state(s),
        ids.finite(),
        forall|i: int| 0 <= i < s.visited.len() ==> ids.contains(s.visited[i].path),
        forall|i: int| 0 <= i < s.frontier.len() ==> ids.contains(s.frontier[i]),
    ensures
        s.visited.len() + s.frontier.len() <= ids.len(),
{
    let vp = s.visited.map_values(|w: WeightView| w.path);
    let paths = vp + s.frontier;
    assert forall|a: int, b: int|
        0 <= a < paths.len() && 0 <= b < paths.len() && a != b implies paths[a] != paths[b] by {
        if a < vp.len() && b < vp.len() {
            assert(paths[a] == s.visited[a].path && paths[b] == s.visited[b].path);
        } else if a < vp.len() && b >= vp.len() {
            assert(paths[a] == s.visited[a].path && paths[b] == s.frontier[b - vp.len()]);
            assert(!path_recorded(s.visited, s.frontier[b - vp.len()]));
        } else if a >= vp.len() && b < vp.len() {
            assert(paths[b] == s.visited[b].path && paths[a] == s.frontier[a - vp.len()]);
            assert(!path_recorded(s.visited, s.frontier[a - vp.len()]));
        } else {
            assert(paths[a] == s.frontier[a - vp.len()] && paths[b] == s.frontier[b - vp.len()]);
        }
    }
    paths.unique_seq_to_set();
    assert forall|p: Seq<char>| paths.to_set().contains(p) implies ids.contains(p) by {
        let i = choose|i: int| 0 <= i < paths.len() && paths[i] == p;
        if i < vp.len() {
            assert(paths[i] == s.visited[i].path);
        } else {
            assert(paths[i] == s.frontier[i - vp.len()]);
        }
    }
    lemma_len_subset(paths.to_set(), ids);
}

/// When no file measures above its raw byte length, the size total stays
/// at or below the length total.
proof fn lemma_totals_ordered(vs: Seq<WeightView>)
    requires
        forall|i: int| 0 <= i < vs.len() ==> vs[i].size <= encode_utf8(vs[i].source).len(),
    ensures
        total_size_of(vs) <= total_len_of(vs),
    decreases vs.len(),
{
    if vs.len() > 0 {
        assert(forall|i: int|
            0 <= i < vs.drop_last().len() ==> vs.drop_last()[i] == vs[i]);
        lemma_totals_ordered(vs.drop_last());
        assert(vs.last() == vs[vs.len() - 1]);
    }
}

/// Law: aggregation keeps its two totals apart. When no record measures
/// above its raw byte length and at least one measures strictly below it —
/// compression shrank that file — the size total is strictly below the
/// length total: the two sums can never coincide by accident.
pub proof fn lemma_totals_differ(vs: Seq<WeightView>)
    requires
        forall|i: int| 0 <= i < vs.len() ==> vs[i].size <= encode_utf8(vs[i].source).len(),
        exists|i: int| 0 <= i < vs.len() && vs[i].size < encode_utf8(vs[i].source).len(),
    ensures
        total_size_of(vs) < total_len_of(vs),
    decreases vs.len(),
{
    let n = vs.len() - 1;
    assert(forall|i: int| 0 <= i < vs.drop_last().len() ==> vs.drop_last()[i] == vs[i]);
    assert(vs.last() == vs[n]);
    if vs[n].size < encode_utf8(vs[n].source).len() {
        lemma_totals_ordered(vs.drop_last());
    } else {
        let j = choose|i: int| 0 <= i < vs.len() && vs[i].size < encode_utf8(vs[i].source).len();
        assert(0 <= j < n && vs.drop_last()[j] == vs[j]);
        lemma_totals_differ(vs.drop_last());
    }
}

/// A record joins a record sequence: an identity is carried by the longer
/// sequence exactly when it is carried by the shorter one or is the new
/// record's own.
proof fn lemma_recorded_push(vs: Seq<WeightView>, w: WeightView, p: Seq<char>)
    ensures
        path_recorded(vs.push(w), p) <==> (path_recorded(vs, p) || w.path == p),
{
    if path_recorded(vs, p) {
        let i = choose|i: int| 0 <= i < vs.len() && vs[i].path == p;
        assert(vs.push(w)[i].path == p);
    }
    if w.path == p {
        assert(vs.push(w)[vs.len() as int].path == p);
    }
    if path_recorded(vs.push(w), p) {
        let i = choose|i: int| 0 <= i < vs.push(w).len() && vs.push(w)[i].path == p;
        if i < vs.len() {
            assert(vs[i].path == p);
        }
    }
}

/// Prefix sums never exceed the whole sums.
proof fn lemma_total_prefix(vs: Seq<WeightView>, i: int)
    requires
        0 <= i <= vs.len(),
    ensures
        total_len_of(vs.take(i)) <= total_len_of(vs),
        total_size_of(vs.take(i)) <= total_size_of(vs),
    decreases vs.len() - i,
{
    if i == vs.len() {
        assert(vs.take(i) =~= vs);
    } else {
        assert(vs.take(i + 1).drop_last() =~= vs.take(i));
        lemma_total_prefix(vs, i + 1);
    }
}

} // verus!

