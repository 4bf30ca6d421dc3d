use crate::cache::{projection_spec, projection_view, PageCache};
use crate::page::PdfPageData;
use crate::rotation::RotationAngle;
use std::collections::HashMap;
use vstd::prelude::*;

verus! {

broadcast use vstd::std_specs::hash::group_hash_axioms;

/// How many leading pages are loaded one at a time, before any batch.
pub const PRIORITY_PAGES: usize = 3;

/// The largest number of pages rendered together in one batch.
pub const MAX_BATCH: usize = 8;

/// A run of consecutive pages `start .. end` loaded together.
#[derive(Clone, Copy, Debug, PartialEq, Eq, Structural)]
pub struct Batch {
    pub start: usize,
    pub end: usize,
}

/// The batch size for a degree of parallelism: at most `MAX_BATCH`, and at
/// least one.
pub open spec fn batch_size_spec(parallelism: usize) -> usize {
    if parallelism == 0 {
        1
    } else if parallelism > MAX_BATCH {
        MAX_BATCH
    } else {
        parallelism
    }
}

/// One single-page batch for each of the first `n` pages.
pub open spec fn priority_batches(n: nat) -> Seq<Batch> {
    Seq::new(n, |i: int| Batch { start: i as usize, end: (i + 1) as usize })
}

/// Consecutive batches of `size` pages from `start` up to `total`, the last
/// one possibly shorter.
pub open spec fn chunks_from(start: nat, total: nat, size: nat) -> Seq<Batch>
    decreases total - start,
    when size > 0
{
    if start >= total {
        Seq::empty()
    } else if start + size >= total {
        seq![Batch { start: start as usize, end: total as usize }]
    } else {
        seq![Batch { start: start as usize, end: (start + size) as usize }] + chunks_from(
            start + size,
            total,
            size,
        )
    }
}

/// The load order of a document: its first pages one by one, then the rest
/// in batches.
pub open spec fn load_plan_spec(total: usize, parallelism: usize) -> Seq<Batch> {
    let first = if total < PRIORITY_PAGES {
        total
    } else {
        PRIORITY_PAGES
    };
    priority_batches(first as nat) + chunks_from(
        PRIORITY_PAGES as nat,
        total as nat,
        batch_size_spec(parallelism) as nat,
    )
}

/// The batch size for a degree of parallelism, as `batch_size_spec` says.
pub fn batch_size(parallelism: usize) -> (r: usize)
    ensures
        r == batch_size_spec(parallelism),
        1 <= r <= MAX_BATCH,
{
    if parallelism == 0 {
        1
    } else if parallelism > MAX_BATCH {
        MAX_BATCH
    } else {
        parallelism
    }
}

/// The batches in which a document of `total_pages` pages is loaded.
pub fn load_plan(total_pages: usize, parallelism: usize) -> (r: Vec<Batch>)
    ensures
        r@ == load_plan_spec(total_pages, parallelism),
{
    let size = batch_size(parallelism);
    let first = if total_pages < PRIORITY_PAGES {
        total_pages
    } else {
        PRIORITY_PAGES
    };
    let mut out: Vec<Batch> = Vec::new();
    let mut i: usize = 0;
    while i < first
        invariant
            i <= first <= PRIORITY_PAGES,
            out@ == priority_batches(i as nat),
        decreases first - i,
    {
        out.push(Batch { start: i, end: i + 1 });
        i = i + 1;
        proof {
            assert(out@ =~= priority_batches(i as nat));
        }
    }
    let mut start: usize = PRIORITY_PAGES;
    while start < total_pages
        invariant
            size == batch_size_spec(parallelism),
            1 <= size <= MAX_BATCH,
            first == (if total_pages < PRIORITY_PAGES {
                total_pages
            } else {
                PRIORITY_PAGES
            }),
            out@ + chunks_from(start as nat, total_pages as nat, size as nat) == load_plan_spec(
                total_pages,
                parallelism,
            ),
        decreases total_pages - start,
    {
        if size < total_pages - start {
            let b = Batch { start, end: start + size };
            proof {
                let rest = chunks_from((start + size) as nat, total_pages as nat, size as nat);
                assert(chunks_from(start as nat, total_pages as nat, size as nat) == seq![b] + rest);
                assert(out@ + (seq![b] + rest) =~= out@.push(b) + rest);
            }
            out.push(b);
            start = start + size;
        } else {
            let b = Batch { start, end: total_pages };
            proof {
                assert(chunks_from(start as nat, total_pages as nat, size as nat) == seq![b]);
                assert(chunks_from(total_pages as nat, total_pages as nat, size as nat)
                    =~= Seq::<Batch>::empty());
                assert(out@ + seq![b] =~= out@.push(b) + Seq::<Batch>::empty());
            }
            out.push(b);
            start = total_pages;
        }
    }
    proof {
        assert(out@ + chunks_from(start as nat, total_pages as nat, size as nat) =~= out@);
    }
    out
}

proof fn lemma_chunks_bounds(start: nat, total: nat, size: nat)
    requires
        size > 0,
        total <= usize::MAX,
    ensures
        forall|i: int|
            0 <= i < chunks_from(start, total, size).len() ==> {
                let b = #[trigger] chunks_from(start, total, size)[i];
                &&& start <= b.start < b.end <= total
            },
    decreases total - start,
{
    if start < total && start + size < total {
        lemma_chunks_bounds(start + size, total, size);
        let rest = chunks_from(start + size, total, size);
        let all = chunks_from(start, total, size);
        assert forall|i: int| 0 <= i < all.len() implies {
            let b = #[trigger] all[i];
            &&& start <= b.start < b.end <= total
        } by {
            if i > 0 {
                assert(all[i] == rest[i - 1]);
            }
        }
    }
}

/// Every batch of a plan is a non-empty run of pages of the document.
pub proof fn lemma_plan_bounds(total: usize, parallelism: usize)
    ensures
        forall|i: int|
            0 <= i < load_plan_spec(total, parallelism).len() ==> {
                let b = #[trigger] load_plan_spec(total, parallelism)[i];
                &&& b.start < b.end <= total
            },
{
    let size = batch_size_spec(parallelism) as nat;
    lemma_chunks_bounds(PRIORITY_PAGES as nat, total as nat, size);
    let first: nat = if total < PRIORITY_PAGES {
        total as nat
    } else {
        PRIORITY_PAGES as nat
    };
    let pre = priority_batches(first);
    let rest = chunks_from(PRIORITY_PAGES as nat, total as nat, size);
    let all = load_plan_spec(total, parallelism);
    assert forall|i: int| 0 <= i < all.len() implies {
        let b = #[trigger] all[i];
        &&& b.start < b.end <= total
    } by {
        if i < pre.len() {
            assert(all[i] == pre[i]);
        } else {
            assert(all[i] == rest[i - pre.len()]);
        }
    }
}

/// One page to render, with the rotation it is to be rendered at.
#[derive(Clone, Copy, Debug, PartialEq, Eq, Structural)]
pub struct PageJob {
    pub page_index: usize,
    pub rotation: RotationAngle,
}

/// What the driver is to do next.
pub enum LoadAction {
    /// Render these pages (concurrently), report each result with `epoch`,
    /// pause briefly, then ask again.
    Render { epoch: u64, jobs: Vec<PageJob> },
    /// Nothing is left to load.
    Done,
}

/// What became of a reported render.
#[derive(Clone, Copy, Debug, PartialEq, Eq, Structural)]
pub enum Completion {
    /// The result was cached.
    Stored,
    /// The render belongs to an earlier document or rotation state.
    Stale,
    /// The result records another page index than the one it was reported for.
    Contaminated,
    /// The page has been rotated since the render was scheduled.
    Superseded,
}

/// The mathematical state of a `LoadScheduler`.
pub struct SchedulerView {
    pub document: Option<u64>,
    pub epoch: u64,
    pub rotations: Seq<RotationAngle>,
    pub plan: Seq<Batch>,
    pub next_batch: nat,
    pub cache: Map<usize, PdfPageData>,
}

/// The epoch that follows `e` (wrapping), never equal to it.
pub open spec fn next_epoch(e: u64) -> u64 {
    if e == u64::MAX {
        0
    } else {
        (e + 1) as u64
    }
}

/// The rotation of each of the first `total` pages in a stored rotation map,
/// upright where the map has none.
pub open spec fn rotations_from(m: Map<usize, RotationAngle>, total: nat) -> Seq<RotationAngle> {
    Seq::new(
        total,
        |i: int|
            if m.contains_key(i as usize) {
                m[i as usize]
            } else {
                RotationAngle::Rotate0
            },
    )
}

/// Selecting a document: a no-op for the document already selected;
/// otherwise a new epoch, an empty cache and a fresh plan.
pub open spec fn open_spec(
    s: SchedulerView,
    document: u64,
    total: usize,
    rotations: Map<usize, RotationAngle>,
    parallelism: usize,
) -> SchedulerView {
    if s.document == Some(document) {
        s
    } else {
        SchedulerView {
            document: Some(document),
            epoch: next_epoch(s.epoch),
            rotations: rotations_from(rotations, total as nat),
            plan: load_plan_spec(total, parallelism),
            next_batch: 0,
            cache: Map::empty(),
        }
    }
}

/// Closing the document: a new epoch and nothing left.
pub open spec fn close_spec(s: SchedulerView) -> SchedulerView {
    SchedulerView {
        document: None,
        epoch: next_epoch(s.epoch),
        rotations: Seq::empty(),
        plan: Seq::empty(),
        next_batch: 0,
        cache: Map::empty(),
    }
}

/// Rotating every page a quarter turn: a new epoch, an empty cache, and the
/// plan started over.
pub open spec fn rotate_all_spec(s: SchedulerView) -> SchedulerView {
    if s.document is None {
        s
    } else {
        SchedulerView {
            epoch: next_epoch(s.epoch),
            rotations: s.rotations.map_values(|r: RotationAngle| RotationAngle::from_degrees(r.degrees() + 90)),
            next_batch: 0,
            cache: Map::empty(),
            ..s
        }
    }
}

/// Rotating one page a quarter turn: only that page's entry leaves the cache.
pub open spec fn rotate_page_spec(s: SchedulerView, page: usize) -> SchedulerView {
    if page < s.rotations.len() {
        SchedulerView {
            rotations: s.rotations.update(
                page as int,
                RotationAngle::from_degrees(s.rotations[page as int].degrees() + 90),
            ),
            cache: s.cache.remove(page),
            ..s
        }
    } else {
        s
    }
}

/// What a reported render leads to.
pub open spec fn completion_spec(s: SchedulerView, epoch: u64, page: usize, result: PdfPageData) -> Completion {
    if epoch != s.epoch || page >= s.rotations.len() {
        Completion::Stale
    } else if result.page_index != page {
        Completion::Contaminated
    } else if result.rotation != s.rotations[page as int] {
        Completion::Superseded
    } else {
        Completion::Stored
    }
}

/// The state after a reported render: only a stored result changes it.
pub open spec fn complete_spec(s: SchedulerView, epoch: u64, page: usize, result: PdfPageData) -> SchedulerView {
    if completion_spec(s, epoch, page, result) == Completion::Stored {
        SchedulerView { cache: s.cache.insert(page, result), ..s }
    } else {
        s
    }
}

/// The jobs of one batch, each page at its current rotation.
pub open spec fn batch_jobs(s: SchedulerView, b: Batch) -> Seq<PageJob> {
    Seq::new(
        (b.end - b.start) as nat,
        |i: int| PageJob { page_index: (b.start + i) as usize, rotation: s.rotations[b.start + i] },
    )
}

/// Whether batches remain to be handed out.
pub open spec fn has_work(s: SchedulerView) -> bool {
    s.document is Some && s.next_batch < s.plan.len()
}

/// Drives the loading of one document at a time: hands out batches of
/// pages to render, and caches the results that still belong to the
/// current document and rotation state. Selecting or closing a document and
/// rotating every page start a new epoch, and renders of an older epoch are
/// refused. Rotating one page keeps the epoch, so renders of the other pages
/// in flight stay valid; a render of the turned page at its old rotation is
/// refused as superseded.
pub struct LoadScheduler {
    cache: PageCache,
    document: Option<u64>,
    epoch: u64,
    rotations: Vec<RotationAngle>,
    plan: Vec<Batch>,
    next_batch: usize,
}

impl View for LoadScheduler {
    type V = SchedulerView;

    closed spec fn view(&self) -> SchedulerView {
        SchedulerView {
            document: self.document,
            epoch: self.epoch,
            rotations: self.rotations@,
            plan: self.plan@,
            next_batch: self.next_batch as nat,
            cache: self.cache.entries(),
        }
    }
}

/// The scheduler's invariant, over its state.
pub open spec fn scheduler_wf(s: SchedulerView) -> bool {
    &&& s.next_batch <= s.plan.len()
    &&& forall|i: int|
        0 <= i < s.plan.len() ==> (#[trigger] s.plan[i]).start < s.plan[i].end <= s.rotations.len()
    &&& forall|k: usize| #[trigger]
        s.cache.contains_key(k) ==> {
            &&& s.cache[k].page_index == k
            &&& k < s.rotations.len()
            &&& s.cache[k].rotation == s.rotations[k as int]
        }
}

/// Handing out the next batch, when one is left.
pub open spec fn advance_spec(s: SchedulerView) -> SchedulerView {
    if has_work(s) {
        SchedulerView { next_batch: s.next_batch + 1, ..s }
    } else {
        s
    }
}

impl LoadScheduler {
    /// The scheduler's invariant.
    pub closed spec fn wf(&self) -> bool {
        &&& self.cache.wf()
        &&& scheduler_wf(self@)
    }

    /// A scheduler with no document.
    pub fn new() -> (r: LoadScheduler)
        ensures
            r.wf(),
            scheduler_wf(r@),
            r@.document is None,
            r@.epoch == 0,
            r@.rotations.len() == 0,
            r@.plan.len() == 0,
            r@.next_batch == 0,
            r@.cache == Map::<usize, PdfPageData>::empty(),
    {
        LoadScheduler {
            cache: PageCache::new(),
            document: None,
            epoch: 0,
            rotations: Vec::new(),
            plan: Vec::new(),
            next_batch: 0,
        }
    }

    /// Selects a document of `total_pages` pages with its stored rotations
    /// (page index to rotation). Selecting the document already selected
    /// changes nothing.
    pub fn open_document(
        &mut self,
        document: u64,
        total_pages: usize,
        rotations: &HashMap<usize, RotationAngle>,
        parallelism: usize,
    )
        requires
            old(self).wf(),
        ensures
            final(self).wf(),
            final(self)@ == open_spec(old(self)@, document, total_pages, rotations@, parallelism),
    {
        if let Some(d) = self.document {
            if d == document {
                return;
            }
        }
        let mut rots: Vec<RotationAngle> = Vec::with_capacity(total_pages);
        let mut i: usize = 0;
        while i < total_pages
            invariant
                i <= total_pages,
                rots@ == rotations_from(rotations@, total_pages as nat).take(i as int),
            decreases total_pages - i,
        {
            let r = match rotations.get(&i) {
                Some(r) => *r,
                None => RotationAngle::Rotate0,
            };
            rots.push(r);
            i = i + 1;
            proof {
                assert(rots@ =~= rotations_from(rotations@, total_pages as nat).take(i as int));
            }
        }
        proof {
            assert(rots@ =~= rotations_from(rotations@, total_pages as nat));
            lemma_plan_bounds(total_pages, parallelism);
        }
        self.cache.clear();
        self.document = Some(document);
        self.epoch = self.epoch.wrapping_add(1);
        self.rotations = rots;
        self.plan = load_plan(total_pages, parallelism);
        self.next_batch = 0;
    }

    /// Closes the document.
    pub fn close_document(&mut self)
        requires
            old(self).wf(),
        ensures
            final(self).wf(),
            final(self)@ == close_spec(old(self)@),
    {
        self.cache.clear();
        self.document = None;
        self.epoch = self.epoch.wrapping_add(1);
        self.rotations = Vec::new();
        self.plan = Vec::new();
        self.next_batch = 0;
        proof {
            assert(self.rotations@ =~= Seq::<RotationAngle>::empty());
            assert(self.plan@ =~= Seq::<Batch>::empty());
        }
    }

    /// Turns every page a further quarter turn and starts loading over.
    pub fn rotate_all(&mut self)
        requires
            old(self).wf(),
        ensures
            final(self).wf(),
            final(self)@ == rotate_all_spec(old(self)@),
    {
        if self.document.is_none() {
            return;
        }
        let mut rots: Vec<RotationAngle> = Vec::with_capacity(self.rotations.len());
        let mut i: usize = 0;
        while i < self.rotations.len()
            invariant
                i <= self.rotations@.len(),
                rots@ == self.rotations@.map_values(
                    |r: RotationAngle| RotationAngle::from_degrees(r.degrees() + 90),
                ).take(i as int),
            decreases self.rotations@.len() - i,
        {
            rots.push(self.rotations[i].next());
            i = i + 1;
            proof {
                assert(rots@ =~= self.rotations@.map_values(
                    |r: RotationAngle| RotationAngle::from_degrees(r.degrees() + 90),
                ).take(i as int));
            }
        }
        proof {
            assert(rots@ =~= self.rotations@.map_values(
                |r: RotationAngle| RotationAngle::from_degrees(r.degrees() + 90),
            ));
        }
        self.cache.clear();
        self.epoch = self.epoch.wrapping_add(1);
        self.rotations = rots;
        self.next_batch = 0;
    }

    /// Turns one page a further quarter turn, drops only that page's cached
    /// result, and returns the job that re-renders it (with the current
    /// epoch), or `None` for an index outside the document.
    pub fn rotate_page(&mut self, page_index: usize) -> (r: Option<(u64, PageJob)>)
        requires
            old(self).wf(),
        ensures
            final(self).wf(),
            final(self)@ == rotate_page_spec(old(self)@, page_index),
            page_index < old(self)@.rotations.len() <==> r is Some,
            r matches Some(p) ==> p == (
                old(self)@.epoch,
                PageJob { page_index, rotation: final(self)@.rotations[page_index as int] },
            ),
    {
        if page_index >= self.rotations.len() {
            return None;
        }
        let rotation = self.rotations[page_index].next();
        self.rotations.set(page_index, rotation);
        self.cache.invalidate(page_index);
        Some((self.epoch, PageJob { page_index, rotation }))
    }

    /// Hands out the next batch of the plan, or `Done` when none is left.
    pub fn next_action(&mut self) -> (r: LoadAction)
        requires
            old(self).wf(),
        ensures
            final(self).wf(),
            has_work(old(self)@) ==> {
                &&& final(self)@ == SchedulerView { next_batch: old(self)@.next_batch + 1, ..old(self)@ }
                &&& r matches LoadAction::Render { epoch, jobs } && epoch == old(self)@.epoch
                    && jobs@ == batch_jobs(old(self)@, old(self)@.plan[old(self)@.next_batch as int])
            },
            !has_work(old(self)@) ==> final(self)@ == old(self)@ && r is Done,
            final(self)@ == advance_spec(old(self)@),
    {
        if self.document.is_none() || self.next_batch >= self.plan.len() {
            return LoadAction::Done;
        }
        let b = self.plan[self.next_batch];
        proof {
            assert(b.start < b.end <= self.rotations@.len());
        }
        let mut jobs: Vec<PageJob> = Vec::new();
        let mut p: usize = b.start;
        while p < b.end
            invariant
                b.start <= p <= b.end <= self.rotations@.len(),
                jobs@ == batch_jobs(self@, b).take(p - b.start),
            decreases b.end - p,
        {
            jobs.push(PageJob { page_index: p, rotation: self.rotations[p] });
            p = p + 1;
            proof {
                assert(jobs@ =~= batch_jobs(self@, b).take(p - b.start));
            }
        }
        proof {
            assert(jobs@ =~= batch_jobs(self@, b));
        }
        self.next_batch = self.next_batch + 1;
        LoadAction::Render { epoch: self.epoch, jobs }
    }

    /// Reports a finished render of `page_index` made for `epoch`. Only a
    /// result for the current epoch, recorded under the same index, and
    /// rendered at the page's current rotation is cached.
    pub fn complete(&mut self, epoch: u64, page_index: usize, result: PdfPageData) -> (r: Completion)
        requires
            old(self).wf(),
        ensures
            final(self).wf(),
            r == completion_spec(old(self)@, epoch, page_index, result),
            final(self)@ == complete_spec(old(self)@, epoch, page_index, result),
    {
        if epoch != self.epoch || page_index >= self.rotations.len() {
            return Completion::Stale;
        }
        if result.page_index != page_index {
            return Completion::Contaminated;
        }
        if !result.rotation.same_as(self.rotations[page_index]) {
            return Completion::Superseded;
        }
        self.cache.insert(page_index, result);
        Completion::Stored
    }

    /// The cached pages in index order, for display.
    pub fn rendered_pages(&self) -> (r: Vec<(usize, PdfPageData)>)
        ensures
            projection_view(r@) == projection_spec(self@.cache, self@.rotations.len()),
    {
        self.cache.get_projection(self.rotations.len())
    }

    /// Whether batches remain to be handed out.
    pub fn is_loading(&self) -> (r: bool)
        ensures
            r == has_work(self@),
    {
        self.document.is_some() && self.next_batch < self.plan.len()
    }

    /// The current epoch.
    pub fn epoch(&self) -> (r: u64)
        ensures
            r == self@.epoch,
    {
        self.epoch
    }

    /// The selected document, if any.
    pub fn document(&self) -> (r: Option<u64>)
        ensures
            r == self@.document,
    {
        self.document
    }

    /// The number of pages of the selected document.
    pub fn total_pages(&self) -> (r: usize)
        ensures
            r == self@.rotations.len(),
    {
        self.rotations.len()
    }

    /// The current rotation of a page, if it is in the document.
    pub fn rotation_of(&self, page_index: usize) -> (r: Option<RotationAngle>)
        ensures
            page_index < self@.rotations.len() ==> r == Some(self@.rotations[page_index as int]),
            page_index >= self@.rotations.len() ==> r is None,
    {
        if page_index < self.rotations.len() {
            Some(self.rotations[page_index])
        } else {
            None
        }
    }

    /// Whether a page's result is cached.
    pub fn is_cached(&self, page_index: usize) -> (r: bool)
        ensures
            r == self@.cache.contains_key(page_index),
    {
        self.cache.contains(page_index)
    }
}

/// A render reported for the epoch that was current before a new document
/// is selected, the document closed, or every page rotated, is discarded as
/// stale and leaves the state unchanged.
pub proof fn lemma_epoch_change_discards_old_renders(
    s: SchedulerView,
    document: u64,
    total: usize,
    rotations: Map<usize, RotationAngle>,
    parallelism: usize,
    page: usize,
    result: PdfPageData,
)
    ensures
        s.document != Some(document) ==> {
            let t = open_spec(s, document, total, rotations, parallelism);
            &&& completion_spec(t, s.epoch, page, result) == Completion::Stale
            &&& complete_spec(t, s.epoch, page, result) == t
        },
        ({
            let t = close_spec(s);
            &&& completion_spec(t, s.epoch, page, result) == Completion::Stale
            &&& complete_spec(t, s.epoch, page, result) == t
        }),
        s.document is Some ==> {
            let t = rotate_all_spec(s);
            &&& completion_spec(t, s.epoch, page, result) == Completion::Stale
            &&& complete_spec(t, s.epoch, page, result) == t
        },
{
}

/// Rotating one page leaves every other page's cached result as it was.
pub proof fn lemma_rotate_page_is_local(s: SchedulerView, page: usize, other: usize)
    requires
        other != page,
    ensures
        rotate_page_spec(s, page).cache.contains_key(other) == s.cache.contains_key(other),
        s.cache.contains_key(other) ==> rotate_page_spec(s, page).cache[other] == s.cache[other],
        page < s.rotations.len() ==> !rotate_page_spec(s, page).cache.contains_key(page),
{
}

/// A map that keeps every self-consistent entry of another projects at
/// least as many pages.
pub proof fn lemma_projection_grows(m1: Map<usize, PdfPageData>, m2: Map<usize, PdfPageData>, total: nat)
    requires
        forall|k: usize|
            #[trigger] m1.contains_key(k) && m1[k].page_index == k ==> m2.contains_key(k)
                && m2[k].page_index == k,
    ensures
        projection_spec(m1, total).len() <= projection_spec(m2, total).len(),
    decreases total,
{
    if total > 0 {
        lemma_projection_grows(m1, m2, (total - 1) as nat);
    }
}

/// Until an invalidation, reporting a render never lowers the number of
/// pages on display.
pub proof fn lemma_completion_never_hides_pages(
    s: SchedulerView,
    epoch: u64,
    page: usize,
    result: PdfPageData,
    total: nat,
)
    ensures
        projection_spec(s.cache, total).len() <= projection_spec(
            complete_spec(s, epoch, page, result).cache,
            total,
        ).len(),
{
    let t = complete_spec(s, epoch, page, result);
    assert forall|k: usize|
        #[trigger] s.cache.contains_key(k) && s.cache[k].page_index == k implies t.cache.contains_key(k)
            && t.cache[k].page_index == k by {
        if completion_spec(s, epoch, page, result) == Completion::Stored && k == page {
            assert(t.cache[k] == result);
        }
    }
    lemma_projection_grows(s.cache, t.cache, total);
}

proof fn lemma_chunks_cover(start: nat, total: nat, size: nat)
    requires
        size > 0,
        start < total,
        total <= usize::MAX,
    ensures
        chunks_from(start, total, size).len() > 0,
        chunks_from(start, total, size)[0].start == start,
        chunks_from(start, total, size).last().end == total,
        forall|i: int|
            0 <= i < chunks_from(start, total, size).len() ==> (#[trigger] chunks_from(start, total, size)[i]).end
                - chunks_from(start, total, size)[i].start <= size,
        forall|i: int|
            0 <= i < chunks_from(start, total, size).len() - 1 ==> (#[trigger] chunks_from(
                start,
                total,
                size,
            )[i]).end == chunks_from(start, total, size)[i + 1].start,
    decreases total - start,
{
    if start + size < total {
        lemma_chunks_cover(start + size, total, size);
        let rest = chunks_from(start + size, total, size);
        let all = chunks_from(start, total, size);
        assert(all.len() == rest.len() + 1);
        assert forall|i: int| 0 <= i < all.len() implies (#[trigger] all[i]).end - all[i].start <= size by {
            if i > 0 {
                assert(all[i] == rest[i - 1]);
            }
        }
        assert forall|i: int| 0 <= i < all.len() - 1 implies (#[trigger] all[i]).end == all[i + 1].start by {
            assert(all[i + 1] == rest[i]);
            if i > 0 {
                assert(all[i] == rest[i - 1]);
            }
        }
    }
}

/// A load plan attempts every page once, in order: its batches are
/// consecutive runs that start at page 0 and end at the last page, the
/// first pages (up to three) come one per batch, and no batch holds more
/// pages than the batch size.
pub proof fn lemma_plan_covers_pages(total: usize, parallelism: usize)
    ensures
        ({
            let plan = load_plan_spec(total, parallelism);
            &&& total == 0 <==> plan.len() == 0
            &&& total > 0 ==> plan[0].start == 0 && plan.last().end == total
            &&& forall|i: int| 0 <= i < plan.len() - 1 ==> (#[trigger] plan[i]).end == plan[i + 1].start
            &&& forall|i: int|
                0 <= i < plan.len() ==> (#[trigger] plan[i]).end - plan[i].start <= batch_size_spec(
                    parallelism,
                )
            &&& forall|i: int|
                0 <= i < plan.len() && i < PRIORITY_PAGES ==> (#[trigger] plan[i]) == Batch {
                    start: i as usize,
                    end: (i + 1) as usize,
                }
        }),
{
    let size = batch_size_spec(parallelism) as nat;
    let first: nat = if total < PRIORITY_PAGES {
        total as nat
    } else {
        PRIORITY_PAGES as nat
    };
    let pre = priority_batches(first);
    let rest = chunks_from(PRIORITY_PAGES as nat, total as nat, size);
    let plan = load_plan_spec(total, parallelism);
    assert(plan == pre + rest);
    if total <= PRIORITY_PAGES {
        assert(rest =~= Seq::<Batch>::empty());
    } else {
        lemma_chunks_cover(PRIORITY_PAGES as nat, total as nat, size);
    }
    assert forall|i: int| 0 <= i < plan.len() - 1 implies (#[trigger] plan[i]).end == plan[i + 1].start by {
        if i + 1 < pre.len() {
        } else if i + 1 == pre.len() {
            assert(plan[i + 1] == rest[0]);
        } else {
            assert(plan[i] == rest[i - pre.len()]);
            assert(plan[i + 1] == rest[i + 1 - pre.len()]);
        }
    }
    assert forall|i: int| 0 <= i < plan.len() implies (#[trigger] plan[i]).end - plan[i].start
        <= batch_size_spec(parallelism) by {
        if i >= pre.len() {
            assert(plan[i] == rest[i - pre.len()]);
        }
    }
    if total > 0 {
        if total > PRIORITY_PAGES {
            assert(plan.last() == rest.last());
        }
    }
}

/// A well-formed scheduler's state meets `scheduler_wf`: every cached
/// result is stored under its own page index, for a page of the document,
/// at the page's current rotation.
pub proof fn lemma_scheduler_invariant(s: &LoadScheduler)
    requires
        s.wf(),
    ensures
        scheduler_wf(s@),
{
}

/// Every transition keeps `scheduler_wf`. With `LoadScheduler::new`
/// establishing it, it holds after any sequence of document selections,
/// batch hand-outs, reported renders, rotations and closes: no result is
/// ever cached under another page's index.
pub proof fn lemma_transitions_keep_invariant(
    s: SchedulerView,
    document: u64,
    total: usize,
    rotations: Map<usize, RotationAngle>,
    parallelism: usize,
    epoch: u64,
    page: usize,
    result: PdfPageData,
)
    requires
        scheduler_wf(s),
    ensures
        scheduler_wf(open_spec(s, document, total, rotations, parallelism)),
        scheduler_wf(close_spec(s)),
        scheduler_wf(rotate_all_spec(s)),
        scheduler_wf(rotate_page_spec(s, page)),
        scheduler_wf(advance_spec(s)),
        scheduler_wf(complete_spec(s, epoch, page, result)),
{
    lemma_plan_bounds(total, parallelism);
    let t = rotate_page_spec(s, page);
    assert forall|k: usize| #[trigger] t.cache.contains_key(k) implies {
        &&& t.cache[k].page_index == k
        &&& k < t.rotations.len()
        &&& t.cache[k].rotation == t.rotations[k as int]
    } by {
        assert(s.cache.contains_key(k));
    }
    let c = complete_spec(s, epoch, page, result);
    assert forall|k: usize| #[trigger] c.cache.contains_key(k) implies {
        &&& c.cache[k].page_index == k
        &&& k < c.rotations.len()
        &&& c.cache[k].rotation == c.rotations[k as int]
    } by {
        if completion_spec(s, epoch, page, result) != Completion::Stored || k != page {
            assert(s.cache.contains_key(k));
        }
    }
    let r = rotate_all_spec(s);
    assert forall|i: int| 0 <= i < r.plan.len() implies (#[trigger] r.plan[i]).start < r.plan[i].end
        <= r.rotations.len() by {
        assert(s.plan[i].end <= s.rotations.len());
    }
}

} // verus!
