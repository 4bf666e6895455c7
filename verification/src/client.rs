//! The status bookkeeping of a full client: statuses of transactions arrive in
//! any order, and a client waiting for one status keeps the others for later.
use crate::id::Id;
use crate::index::Index;
use vstd::prelude::*;

verus! {

/// The statuses a full client received and has not handed out yet, oldest first.
#[derive(Debug)]
pub struct StatusBuffer {
    statuses: Vec<(Index, Id)>,
}

impl View for StatusBuffer {
    type V = Seq<(Index, Id)>;

    closed spec fn view(&self) -> Seq<(Index, Id)> {
        self.statuses@
    }
}

impl StatusBuffer {
    /// An empty buffer.
    pub fn new() -> (r: Self)
        ensures
            r@ == Seq::<(Index, Id)>::empty(),
    {
        StatusBuffer { statuses: Vec::new() }
    }

    /// Takes out the oldest buffered status of `id` whose index `matcher` accepts,
    /// if any, and returns its index.
    pub fn take_match<F: Fn(Index) -> bool>(&mut self, id: &Id, matcher: &F) -> (r: Option<Index>)
        requires
            forall|i: Index| call_requires(*matcher, (i,)),
        ensures
            match r {
                Some(index) => exists|p: int|
                    0 <= p < old(self)@.len() && #[trigger] old(self)@[p] == (index, *id) && call_ensures(*matcher, (index,), true)
                        && final(self)@ == old(self)@.remove(p) && forall|k: int|
                        0 <= k < p ==> (#[trigger] old(self)@[k]).1 != *id || call_ensures(*matcher, (old(self)@[k].0,), false),
                None => final(self)@ == old(self)@ && forall|k: int|
                    0 <= k < old(self)@.len() ==> (#[trigger] old(self)@[k]).1 != *id || call_ensures(
                        *matcher,
                        (old(self)@[k].0,),
                        false,
                    ),
            },
    {
        let mut p: usize = 0;
        while p < self.statuses.len()
            invariant
                p <= self.statuses@.len(),
                self@ == old(self)@,
                forall|i: Index| call_requires(*matcher, (i,)),
                forall|k: int|
                    0 <= k < p ==> (#[trigger] old(self)@[k]).1 != *id || call_ensures(*matcher, (old(self)@[k].0,), false),
            decreases self.statuses@.len() - p,
        {
            let (index, tx_id) = self.statuses[p];
            if tx_id == *id {
                let accepted = matcher(index);
                if accepted {
                    let _ = self.statuses.remove(p);
                    return Some(index);
                }
            }
            p = p + 1;
        }
        None
    }

    /// Handles a status just received while waiting for a status of `id` that
    /// `matcher` accepts: returns its index if it is one, else buffers it.
    pub fn offer<F: Fn(Index) -> bool>(&mut self, index: Index, tx_id: Id, id: &Id, matcher: &F) -> (r: Option<Index>)
        requires
            forall|i: Index| call_requires(*matcher, (i,)),
        ensures
            match r {
                Some(i) => i == index && tx_id == *id && call_ensures(*matcher, (index,), true) && final(self)@ == old(self)@,
                None => final(self)@ == old(self)@.push((index, tx_id)) && (tx_id != *id || call_ensures(
                    *matcher,
                    (index,),
                    false,
                )),
            },
    {
        if tx_id == *id && matcher(index) {
            return Some(index);
        }
        self.statuses.push((index, tx_id));
        None
    }
}

} // verus!
