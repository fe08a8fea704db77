//! Stored values and their expiry.
use vstd::prelude::*;

verus! {

/// A stored entry: a value with an optional expiry timestamp.
///
/// `expires_at` is `None` for a permanent entry. When it is `Some(ts)`, `ts` is in
/// UNIX epoch milliseconds and the entry counts as expired once `now >= ts`.
#[derive(Clone, Debug)]
pub struct Entry {
    pub value: Vec<u8>,
    pub expires_at: Option<u64>,
}

/// What an [`Entry`] means: its bytes and its expiry timestamp.
#[verifier::ext_equal]
pub struct EntryView {
    pub value: Seq<u8>,
    pub expires_at: Option<u64>,
}

impl EntryView {
    /// Whether the entry has expired as of `now`.
    pub open spec fn expired(self, now: u64) -> bool {
        match self.expires_at {
            Some(at) => now >= at,
            None => false,
        }
    }

    /// What the TTL query reports for an entry that is live as of `now`.
    pub open spec fn ttl(self, now: u64) -> TtlInfo {
        match self.expires_at {
            Some(at) => TtlInfo::RemainingMs((at - now) as u64),
            None => TtlInfo::Permanent,
        }
    }
}

impl View for Entry {
    type V = EntryView;

    open spec fn view(&self) -> EntryView {
        EntryView { value: self.value@, expires_at: self.expires_at }
    }
}

impl Entry {
    /// Creates a permanent entry.
    pub fn new(value: Vec<u8>) -> (entry: Self)
        ensures
            entry@ == (EntryView { value: value@, expires_at: None }),
    {
        Entry { value, expires_at: None }
    }

    /// Creates an entry that expires at `expires_at`, in UNIX epoch milliseconds.
    pub fn with_expiry(value: Vec<u8>, expires_at: u64) -> (entry: Self)
        ensures
            entry@ == (EntryView { value: value@, expires_at: Some(expires_at) }),
    {
        Entry { value, expires_at: Some(expires_at) }
    }

    /// Whether the entry has expired as of `now`.
    pub fn is_expired(&self, now: u64) -> (expired: bool)
        ensures
            expired == self@.expired(now),
    {
        match self.expires_at {
            Some(at) => now >= at,
            None => false,
        }
    }
}

/// What the TTL query reports for a key that is present.
#[derive(Debug, Clone, Copy, PartialEq, Eq, Structural)]
pub enum TtlInfo {
    /// The key never expires.
    Permanent,
    /// The key expires after this many milliseconds.
    RemainingMs(u64),
}

} // verus!
