//! A single ecash note and its spend status.

use vstd::prelude::*;
use crate::external::current_unix_time;

verus! {

/// Where and when a note was redeemed, as the observer reports it.
#[derive(Debug)]
pub struct SpendInfo {
    pub session_index: u64,
    /// Estimated redemption time, in seconds since the Unix epoch.
    pub estimated_timestamp: Option<i64>,
}

impl Clone for SpendInfo {
    fn clone(&self) -> (res: Self)
        ensures
            res == *self,
    {
        SpendInfo { session_index: self.session_index, estimated_timestamp: self.estimated_timestamp }
    }
}

/// The spend status of an ecash note.
#[derive(Debug)]
pub enum NoteStatus {
    Unspent,
    Spent(SpendInfo),
    Error(String),
}

impl Clone for NoteStatus {
    fn clone(&self) -> (res: Self)
        ensures
            res == *self,
    {
        match self {
            NoteStatus::Unspent => NoteStatus::Unspent,
            NoteStatus::Spent(info) => NoteStatus::Spent(info.clone()),
            NoteStatus::Error(msg) => NoteStatus::Error(msg.clone()),
        }
    }
}

impl NoteStatus {
    pub fn is_spent(&self) -> (res: bool)
        ensures
            res == (*self is Spent),
    {
        match self {
            NoteStatus::Spent(_) => true,
            _ => false,
        }
    }

    pub fn is_unspent(&self) -> (res: bool)
        ensures
            res == (*self is Unspent),
    {
        match self {
            NoteStatus::Unspent => true,
            _ => false,
        }
    }

    pub fn is_error(&self) -> (res: bool)
        ensures
            res == (*self is Error),
    {
        match self {
            NoteStatus::Error(_) => true,
            _ => false,
        }
    }
}

/// One ecash note: its nonce (hex public key), its value, what is known
/// of its spend status, and the paper note it was printed on.
#[derive(Debug)]
pub struct Note {
    pub nonce: String,
    pub amount_msat: u64,
    pub status: NoteStatus,
    /// When the status was last checked, in seconds since the Unix epoch.
    pub last_checked: Option<i64>,
    /// The paper note (one imported ecash string) this note belongs to.
    pub paper_note_id: u128,
    /// Position of the note in its note set, in import order.
    pub index: usize,
}

impl Clone for Note {
    fn clone(&self) -> (res: Self)
        ensures
            res == *self,
    {
        Note {
            nonce: self.nonce.clone(),
            amount_msat: self.amount_msat,
            status: self.status.clone(),
            last_checked: self.last_checked,
            paper_note_id: self.paper_note_id,
            index: self.index,
        }
    }
}

/// A note that was just decoded: unspent, never checked, not yet placed.
pub open spec fn is_fresh_note(n: Note, nonce: Seq<char>, amount_msat: u64, paper_note_id: u128) -> bool {
    &&& n.nonce@ == nonce
    &&& n.amount_msat == amount_msat
    &&& n.status is Unspent
    &&& n.last_checked is None
    &&& n.paper_note_id == paper_note_id
    &&& n.index == 0
}

/// The time of redemption of a note: its estimated timestamp if it is spent.
pub open spec fn spec_redemption_time(n: Note) -> Option<i64> {
    match n.status {
        NoteStatus::Spent(info) => info.estimated_timestamp,
        _ => None,
    }
}

impl Note {
    pub fn new(nonce: String, amount_msat: u64) -> (res: Self)
        ensures
            is_fresh_note(res, nonce@, amount_msat, 0),
    {
        Note { nonce, amount_msat, status: NoteStatus::Unspent, last_checked: None, paper_note_id: 0, index: 0 }
    }

    pub fn amount_sats(&self) -> (res: u64)
        ensures
            res == self.amount_msat / 1000,
    {
        self.amount_msat / 1000
    }

    /// The estimated redemption time, if the note is spent and the time is known.
    pub fn redemption_time(&self) -> (res: Option<i64>)
        ensures
            res == spec_redemption_time(*self),
    {
        match &self.status {
            NoteStatus::Spent(info) => info.estimated_timestamp,
            _ => None,
        }
    }

    /// Marks the note spent, checked at time `now`.
    pub fn mark_spent_at(&mut self, info: SpendInfo, now: i64)
        ensures
            *final(self) == (Note { status: NoteStatus::Spent(info), last_checked: Some(now), ..*old(self) }),
    {
        self.status = NoteStatus::Spent(info);
        self.last_checked = Some(now);
    }

    /// Marks the note spent, checked now.
    pub fn mark_spent(&mut self, info: SpendInfo)
        ensures
            final(self).status == NoteStatus::Spent(info),
            final(self).last_checked is Some,
            *final(self) == (Note { status: NoteStatus::Spent(info), last_checked: final(self).last_checked, ..*old(self) }),
    {
        let now = current_unix_time();
        self.mark_spent_at(info, now);
    }

    /// Records that the status was checked at time `now`.
    pub fn mark_checked_at(&mut self, now: i64)
        ensures
            *final(self) == (Note { last_checked: Some(now), ..*old(self) }),
    {
        self.last_checked = Some(now);
    }

    /// Records that the status was checked now.
    pub fn mark_checked(&mut self)
        ensures
            final(self).last_checked is Some,
            *final(self) == (Note { last_checked: final(self).last_checked, ..*old(self) }),
    {
        let now = current_unix_time();
        self.mark_checked_at(now);
    }

    /// Marks the status as failed with `error`, checked at time `now`.
    pub fn mark_error_at(&mut self, error: String, now: i64)
        ensures
            *final(self) == (Note { status: NoteStatus::Error(error), last_checked: Some(now), ..*old(self) }),
    {
        self.status = NoteStatus::Error(error);
        self.last_checked = Some(now);
    }

    /// Marks the status as failed with `error`, checked now.
    pub fn mark_error(&mut self, error: String)
        ensures
            final(self).status == NoteStatus::Error(error),
            final(self).last_checked is Some,
            *final(self) == (Note { status: NoteStatus::Error(error), last_checked: final(self).last_checked, ..*old(self) }),
    {
        let now = current_unix_time();
        self.mark_error_at(error, now);
    }
}

} // verus!
