//! The agenda of a beam step: a priority queue of partly consumed edge
//! sequences, ordered by the accumulated cost of the next edge of each.
//!
//! The queue is a vector searched for its cheapest item. Among items of
//! equal cost the one that entered the vector first leaves first.
use crate::adapters::EdgeIter;
use vstd::prelude::*;

verus! {

/// What an agenda item stands for: the accumulated cost of the frontier
/// entry it came from, and the edges it has not handed out yet.
pub struct Entry<S> {
    pub base: u64,
    pub edges: Seq<(S, u64)>,
}

/// The ordering key of an entry: the accumulated cost of its next edge.
/// `None` stands for infinity: the entry is exhausted, or the sum does not
/// fit the cost type.
pub open spec fn entry_key<S>(entry: Entry<S>) -> Option<u64> {
    if entry.edges.len() > 0 && entry.base + entry.edges[0].1 <= u64::MAX {
        Some((entry.base + entry.edges[0].1) as u64)
    } else {
        None
    }
}

/// Strict order on keys, with `None` above every cost.
pub open spec fn key_less(a: Option<u64>, b: Option<u64>) -> bool {
    match (a, b) {
        (Some(x), Some(y)) => x < y,
        (Some(_), None) => true,
        (None, _) => false,
    }
}

/// The position of the entry that leaves the agenda next: the first among
/// those of least key.
pub open spec fn min_index<S>(agenda: Seq<Entry<S>>) -> int
    decreases agenda.len(),
{
    if agenda.len() <= 1 {
        0
    } else {
        let m = min_index(agenda.drop_last());
        if key_less(entry_key(agenda.last()), entry_key(agenda[m])) {
            agenda.len() - 1
        } else {
            m
        }
    }
}

/// `min_index` is a position of the agenda, no key is below the one there,
/// and every earlier key is strictly above it.
pub proof fn lemma_min_index<S>(agenda: Seq<Entry<S>>)
    requires
        agenda.len() > 0,
    ensures
        0 <= min_index(agenda) < agenda.len(),
        forall|j: int|
            0 <= j < agenda.len() ==> !key_less(
                entry_key(#[trigger] agenda[j]),
                entry_key(agenda[min_index(agenda)]),
            ),
        forall|j: int|
            0 <= j < min_index(agenda) ==> key_less(
                entry_key(agenda[min_index(agenda)]),
                entry_key(#[trigger] agenda[j]),
            ),
    decreases agenda.len(),
{
    if agenda.len() > 1 {
        let front = agenda.drop_last();
        lemma_min_index(front);
        assert(forall|j: int| 0 <= j < front.len() ==> front[j] == agenda[j]);
    }
}

/// The number of steps an agenda can still take without growing: one for
/// each edge and one for each entry.
pub open spec fn agenda_size<S>(agenda: Seq<Entry<S>>) -> nat
    decreases agenda.len(),
{
    if agenda.len() == 0 {
        0
    } else {
        agenda_size(agenda.drop_last()) + agenda.last().edges.len() + 1
    }
}

pub proof fn lemma_agenda_size_push<S>(agenda: Seq<Entry<S>>, entry: Entry<S>)
    ensures
        agenda_size(agenda.push(entry)) == agenda_size(agenda) + entry.edges.len() + 1,
{
    assert(agenda.push(entry).drop_last() == agenda);
}

pub proof fn lemma_agenda_size_remove<S>(agenda: Seq<Entry<S>>, i: int)
    requires
        0 <= i < agenda.len(),
    ensures
        agenda_size(agenda.remove(i)) + agenda[i].edges.len() + 1 == agenda_size(agenda),
    decreases agenda.len(),
{
    if i < agenda.len() - 1 {
        lemma_agenda_size_remove(agenda.drop_last(), i);
        assert(agenda.remove(i).drop_last() == agenda.drop_last().remove(i));
    }
}

/// One item of the agenda: an edge sequence with its first unread edge
/// taken out in advance, so that the cost of that edge can order the item.
pub struct AgendaItem<IterT: EdgeIter> {
    pub base_weight: u64,
    pub peek: Option<(IterT::State, u64)>,
    pub iter: IterT,
}

impl<IterT: EdgeIter> AgendaItem<IterT> {
    /// The entry this item stands for: the edge in `peek`, then what the
    /// sequence still holds. Without a `peek` the item counts as exhausted.
    pub open spec fn entry(&self) -> Entry<<IterT::State as DeepView>::V> {
        Entry {
            base: self.base_weight,
            edges: match self.peek {
                Some((s, c)) => seq![(s.deep_view(), c)] + self.iter.remaining(),
                None => Seq::empty(),
            },
        }
    }

    pub fn new(base_weight: u64, iter: IterT) -> (item: AgendaItem<IterT>)
        ensures
            item.entry() == (Entry { base: base_weight, edges: iter.remaining() }),
    {
        let mut iter = iter;
        let ghost before = iter.remaining();
        let peek = iter.next_edge();
        let item = AgendaItem { base_weight, peek, iter };
        assert(item.entry().edges =~= before);
        item
    }

    /// Hands out the edge in `peek` and reads the next one in its place.
    pub fn next(&mut self) -> (edge: Option<(IterT::State, u64)>)
        ensures
            final(self).base_weight == old(self).base_weight,
            match edge {
                Some((s, c)) => old(self).entry().edges.len() > 0 && (s.deep_view(), c) == old(
                    self,
                ).entry().edges[0] && final(self).entry().edges == old(self).entry().edges.skip(
                    1,
                ),
                None => old(self).entry().edges.len() == 0 && final(self).entry().edges.len() == 0,
            },
    {
        let old_peek = self.peek.take();
        if old_peek.is_some() {
            self.peek = self.iter.next_edge();
        }
        old_peek
    }
}

/// The accumulated cost of the next edge of `item`, `None` for infinity.
pub fn weight<IterT: EdgeIter>(item: &AgendaItem<IterT>) -> (w: Option<u64>)
    ensures
        w == entry_key(item.entry()),
{
    match &item.peek {
        Some((_, next_weight)) => item.base_weight.checked_add(*next_weight),
        None => None,
    }
}

/// The entries that the items of an agenda stand for, in order.
pub open spec fn agenda_entries<IterT: EdgeIter>(agenda: Seq<AgendaItem<IterT>>) -> Seq<
    Entry<<IterT::State as DeepView>::V>,
> {
    Seq::new(agenda.len(), |i: int| agenda[i].entry())
}

fn key_is_less(a: Option<u64>, b: Option<u64>) -> (less: bool)
    ensures
        less == key_less(a, b),
{
    match a {
        Some(x) => match b {
            Some(y) => x < y,
            None => true,
        },
        None => false,
    }
}

/// Takes the cheapest item out of the agenda; the others keep their order.
pub fn pop_min<IterT: EdgeIter>(agenda: &mut Vec<AgendaItem<IterT>>) -> (item: Option<
    AgendaItem<IterT>,
>)
    ensures
        match item {
            Some(it) => {
                let before = agenda_entries(old(agenda)@);
                &&& before.len() > 0
                &&& it.entry() == before[min_index(before)]
                &&& agenda_entries(final(agenda)@) == before.remove(min_index(before))
            },
            None => old(agenda)@.len() == 0 && final(agenda)@.len() == 0,
        },
{
    if agenda.len() == 0 {
        return None;
    }
    let ghost before = agenda_entries(agenda@);
    let mut best: usize = 0;
    let mut best_key = weight(&agenda[0]);
    let mut i: usize = 1;
    while i < agenda.len()
        invariant
            1 <= i <= agenda.len(),
            before == agenda_entries(agenda@),
            best == min_index(before.take(i as int)),
            0 <= best < i,
            best_key == entry_key(before[best as int]),
        decreases agenda.len() - i,
    {
        let key = weight(&agenda[i]);
        proof {
            let prefix = before.take(i + 1);
            assert(prefix.drop_last() == before.take(i as int));
        }
        if key_is_less(key, best_key) {
            best = i;
            best_key = key;
        }
        i += 1;
    }
    assert(before.take(i as int) == before);
    let item = agenda.remove(best);
    Some(item)
}

} // verus!
