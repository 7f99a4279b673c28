//! A bounded cache of decoded nodes.
use crate::index::node::Node;
use crate::storage::byte_lru;
use crate::storage::byte_lru::{LruEntryView, LruView, SharedByteLru};
use crate::storage::page::PageId;
use std::sync::Arc;
use vstd::prelude::*;

verus! {

#[derive(Debug, Clone, Copy, PartialEq, Eq, Structural)]
pub struct NodeCacheStats {
    pub hits: u64,
    pub misses: u64,
    pub entries: usize,
    pub bytes: usize,
}

/// A bounded cache of decoded nodes.
///
/// Nodes always land on pages that nothing else uses, so a decoded node never goes stale; it only
/// leaves when the budget runs out. A cache without a budget holds nothing.
pub struct NodeCache {
    nodes: SharedByteLru<Node>,
}

impl View for NodeCache {
    type V = LruView<Node>;

    closed spec fn view(&self) -> LruView<Node> {
        self.nodes@
    }
}

/// What a node counts for in the budget.
pub open spec fn cached_size(node: Node) -> usize {
    if crate::index::node::node_size(node@) <= crate::storage::page::MAX_PAGE_PAYLOAD {
        crate::index::node::node_size(node@) as usize
    } else {
        usize::MAX
    }
}

impl NodeCache {
    pub closed spec fn wf(&self) -> bool {
        self.nodes.wf()
    }

    pub proof fn lemma_wf(&self)
        requires
            self.wf(),
        ensures
            self@.wf(),
    {
        self.nodes.lemma_wf();
    }

    pub fn new(capacity_bytes: usize) -> (cache: NodeCache)
        ensures
            cache.wf(),
            cache@ == (LruView::<Node> {
                entries: Seq::empty(),
                capacity: capacity_bytes,
                hits: 0,
                misses: 0,
            }),
    {
        NodeCache { nodes: SharedByteLru::new(capacity_bytes) }
    }

    pub fn stats(&self) -> (stats: NodeCacheStats)
        requires
            self.wf(),
        ensures
            stats.hits == self@.hits,
            stats.misses == self@.misses,
            stats.entries == self@.entries.len(),
            stats.bytes == byte_lru::lru_bytes(self@.entries),
    {
        let stats = self.nodes.stats();
        NodeCacheStats {
            hits: stats.hits,
            misses: stats.misses,
            entries: stats.entries,
            bytes: stats.bytes,
        }
    }

    /// Looks a page's node up; a node found becomes the most recently used.
    pub fn get(&mut self, page_id: PageId) -> (found: Option<Arc<Node>>)
        requires
            old(self).wf(),
        ensures
            final(self).wf(),
            final(self)@ == byte_lru::lru_looked_up(old(self)@, page_id.0),
            match byte_lru::lru_find(old(self)@.entries, page_id.0) {
                Some(entry) => found matches Some(node) && *node == entry.value,
                None => found is None,
            },
    {
        self.nodes.get(page_id)
    }

    /// Caches a page's node unless it exceeds the whole budget.
    pub fn insert(&mut self, page_id: PageId, node: &Arc<Node>)
        requires
            old(self).wf(),
        ensures
            final(self).wf(),
            final(self)@ == byte_lru::lru_inserted(
                old(self)@,
                LruEntryView { page_id: page_id.0, value: **node, bytes: cached_size(**node) },
            ),
    {
        let bytes: usize = node.approximate_bytes();
        self.nodes.insert(page_id, node, bytes);
    }
}

} // verus!
