use crate::page::{PageView, PdfPageData};
use std::collections::HashMap;
use vstd::prelude::*;

verus! {

broadcast use vstd::std_specs::hash::group_hash_axioms;

/// Rendered pages keyed by page index. Every stored result carries the
/// index it is stored under.
pub struct PageCache {
    pages: HashMap<usize, PdfPageData>,
}

/// The pages `0 .. total` that the map holds under their own index, in
/// index order, with their values.
pub open spec fn projection_spec(m: Map<usize, PdfPageData>, total: nat) -> Seq<(usize, PageView)>
    decreases total,
{
    if total == 0 {
        Seq::empty()
    } else {
        let k = (total - 1) as usize;
        let prev = projection_spec(m, (total - 1) as nat);
        if m.contains_key(k) && m[k].page_index == k {
            prev.push((k, m[k]@))
        } else {
            prev
        }
    }
}

/// The values of a projection as handed out.
pub open spec fn projection_view(s: Seq<(usize, PdfPageData)>) -> Seq<(usize, PageView)> {
    s.map_values(|p: (usize, PdfPageData)| (p.0, p.1@))
}

impl PageCache {
    /// The stored results, by page index.
    pub closed spec fn entries(&self) -> Map<usize, PdfPageData> {
        self.pages@
    }

    /// Every stored result carries the index it is stored under.
    pub open spec fn wf(&self) -> bool {
        forall|k: usize| #[trigger]
            self.entries().contains_key(k) ==> self.entries()[k].page_index == k
    }

    /// An empty cache.
    pub fn new() -> (r: PageCache)
        ensures
            r.wf(),
            r.entries() == Map::<usize, PdfPageData>::empty(),
    {
        PageCache { pages: HashMap::new() }
    }

    /// Stores `result` under `page_index` if it was rendered for that index.
    /// A result for another index is rejected and the cache left unchanged.
    pub fn insert(&mut self, page_index: usize, result: PdfPageData) -> (accepted: bool)
        requires
            old(self).wf(),
        ensures
            final(self).wf(),
            accepted == (result.page_index == page_index),
            accepted ==> final(self).entries() == old(self).entries().insert(page_index, result),
            !accepted ==> final(self).entries() == old(self).entries(),
    {
        if result.page_index != page_index {
            return false;
        }
        self.pages.insert(page_index, result);
        true
    }

    /// Removes the entry of one page, if any.
    pub fn invalidate(&mut self, page_index: usize)
        requires
            old(self).wf(),
        ensures
            final(self).wf(),
            final(self).entries() == old(self).entries().remove(page_index),
    {
        self.pages.remove(&page_index);
    }

    /// Removes every entry.
    pub fn clear(&mut self)
        ensures
            final(self).wf(),
            final(self).entries() == Map::<usize, PdfPageData>::empty(),
    {
        self.pages.clear();
    }

    /// Whether a result is stored for the page.
    pub fn contains(&self, page_index: usize) -> (r: bool)
        ensures
            r == self.entries().contains_key(page_index),
    {
        self.pages.contains_key(&page_index)
    }

    /// The stored pages among `0 .. total_pages`, in index order, each with
    /// a copy of its result; an entry whose recorded index differs from its
    /// key is left out.
    pub fn get_projection(&self, total_pages: usize) -> (r: Vec<(usize, PdfPageData)>)
        ensures
            projection_view(r@) == projection_spec(self.entries(), total_pages as nat),
    {
        let mut out: Vec<(usize, PdfPageData)> = Vec::new();
        let mut k: usize = 0;
        while k < total_pages
            invariant
                k <= total_pages,
                projection_view(out@) == projection_spec(self.pages@, k as nat),
            decreases total_pages - k,
        {
            match self.pages.get(&k) {
                Some(d) => {
                    if d.page_index == k {
                        let item = (k, d.copy_of());
                        proof {
                            assert(projection_view(out@.push(item)) =~= projection_view(out@).push(
                                (k, d@),
                            ));
                        }
                        out.push(item);
                    }
                },
                None => {},
            }
            k = k + 1;
        }
        out
    }
}

} // verus!
