//! The executable item record and its view onto the model.
use vstd::prelude::*;
use crate::model::ItemModel;

verus! {

/// One task record. Every field is optional; `status` is set by every
/// operation that creates or transitions an item, the timestamps record
/// when the item entered each state and are never overwritten once set.
pub struct Item {
    pub status: Option<String>,
    pub enqueued_at: Option<String>,
    pub started_at: Option<String>,
    pub finished_at: Option<String>,
}

impl View for Item {
    type V = ItemModel;

    open spec fn view(&self) -> ItemModel {
        ItemModel {
            status: match self.status {
                Some(s) => Some(s@),
                None => None,
            },
            enqueued_at: match self.enqueued_at {
                Some(s) => Some(s@),
                None => None,
            },
            started_at: match self.started_at {
                Some(s) => Some(s@),
                None => None,
            },
            finished_at: match self.finished_at {
                Some(s) => Some(s@),
                None => None,
            },
        }
    }
}

impl Item {
    /// The record with no fields set.
    pub fn empty() -> (r: Item)
        ensures
            r@ == crate::model::empty_item(),
    {
        Item { status: None, enqueued_at: None, started_at: None, finished_at: None }
    }
}

} // verus!
