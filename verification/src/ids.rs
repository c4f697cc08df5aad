//! Identifiers of layers and strokes, and the counters that mint them.

use vstd::prelude::*;

verus! {

/// The next identifier to hand out. A session keeps one counter for layers and one for
/// strokes. Its last number is never handed out: a counter that has come there is used up.
#[derive(Debug)]
pub struct IdCounter {
    next: u64,
}

impl IdCounter {
    /// 0 stands for "no identifier" and is not handed out.
    #[verifier::type_invariant]
    closed spec fn positive(self) -> bool {
        self.next > 0
    }

    /// The identifier that the next mint gives out.
    pub closed spec fn upcoming(&self) -> u64 {
        self.next
    }

    /// A counter that starts at 1: 0 stands for "no identifier".
    pub fn new() -> (res: IdCounter)
        ensures
            res.upcoming() == 1,
    {
        IdCounter { next: 1 }
    }

    /// Whether there is an identifier left to hand out.
    #[must_use]
    pub fn lasts(&self) -> (res: bool)
        ensures
            res == (self.upcoming() < u64::MAX),
    {
        self.next < u64::MAX
    }

    /// Hands out the current number and steps on.
    fn mint(&mut self) -> (id: u64)
        requires
            old(self).upcoming() < u64::MAX,
        ensures
            id == old(self).upcoming(),
            id >= 1,
            final(self).upcoming() == stepped(old(self).upcoming()),
    {
        proof {
            use_type_invariant(&*self);
        }
        let id: u64 = self.next;
        self.next = id + 1;
        id
    }

    /// Raises the counter so that it exceeds `target`, as far as the range allows.
    fn raise_past(&mut self, target: u64)
        ensures
            final(self).upcoming() == raised(old(self).upcoming(), target),
    {
        proof {
            use_type_invariant(&*self);
        }
        let floor: u64 = target.saturating_add(1);
        if self.next < floor {
            self.next = floor;
        }
    }
}

/// The counter value after one mint, as long as the counter lasts.
pub open spec fn stepped(upcoming: u64) -> u64
    recommends
        upcoming < u64::MAX,
{
    (upcoming + 1) as u64
}

/// The counter value `upcoming` raised past `target`; a counter already ahead stays.
pub open spec fn raised(upcoming: u64, target: u64) -> u64 {
    let floor = if target == u64::MAX {
        u64::MAX
    } else {
        (target + 1) as u64
    };
    if upcoming < floor {
        floor
    } else {
        upcoming
    }
}

impl Default for IdCounter {
    fn default() -> (res: IdCounter)
        ensures
            res.upcoming() == 1,
    {
        IdCounter::new()
    }
}

/// Stable identifier of a layer. Once a layer is removed its identifier is not reused.
/// The default, 0, stands for a missing layer and is never minted.
#[derive(Debug, Clone, Copy, PartialEq, Eq, Hash, Structural)]
pub struct LayerId(u64);

impl LayerId {
    /// The number inside.
    pub closed spec fn number(self) -> u64 {
        self.0
    }

    /// The identifier with the given number.
    pub closed spec fn numbered(n: u64) -> LayerId {
        LayerId(n)
    }

    /// Mints a fresh identifier, from a counter that lasts. It is at least 1 and exceeds every
    /// one that the counter handed out or was raised past.
    #[must_use]
    pub fn next(counter: &mut IdCounter) -> (id: LayerId)
        requires
            old(counter).upcoming() < u64::MAX,
        ensures
            id == LayerId::numbered(old(counter).upcoming()),
            id.number() >= 1,
            final(counter).upcoming() == stepped(old(counter).upcoming()),
    {
        LayerId(counter.mint())
    }

    /// Raises the counter so that every later identifier exceeds `target`. Does nothing
    /// where the counter is already ahead.
    pub fn bump_to(counter: &mut IdCounter, target: u64)
        ensures
            final(counter).upcoming() == raised(old(counter).upcoming(), target),
    {
        counter.raise_past(target);
    }

    /// The identifier with the given number, as read back from storage.
    pub fn from_raw(raw: u64) -> (id: LayerId)
        ensures
            id == LayerId::numbered(raw),
    {
        LayerId(raw)
    }

    /// The number of the identifier.
    #[must_use]
    pub fn raw(self) -> (raw: u64)
        ensures
            raw == self.number(),
    {
        self.0
    }
}

impl Default for LayerId {
    fn default() -> (res: LayerId)
        ensures
            res.number() == 0,
    {
        LayerId(0)
    }
}

/// Layer identifiers and their numbers correspond one to one.
pub broadcast proof fn lemma_layer_id_has_number(n: u64)
    ensures
        (#[trigger] LayerId::numbered(n)).number() == n,
{
}

/// A layer identifier is the one with its number.
pub broadcast proof fn lemma_layer_id_is_numbered(id: LayerId)
    ensures
        LayerId::numbered(#[trigger] id.number()) == id,
{
}

/// Stable identifier of a stroke.
#[derive(Debug, Clone, Copy, PartialEq, Eq, Hash, Structural)]
pub struct StrokeId(pub u64);

impl StrokeId {
    /// Mints a fresh identifier, from a counter that lasts. It is at least 1 and exceeds every
    /// one that the counter handed out or was raised past.
    #[must_use]
    pub fn next(counter: &mut IdCounter) -> (id: StrokeId)
        requires
            old(counter).upcoming() < u64::MAX,
        ensures
            id.0 == old(counter).upcoming(),
            id.0 >= 1,
            final(counter).upcoming() == stepped(old(counter).upcoming()),
    {
        StrokeId(counter.mint())
    }

    /// Raises the counter so that every later identifier exceeds `target`. Does nothing
    /// where the counter is already ahead.
    pub fn bump_to(counter: &mut IdCounter, target: u64)
        ensures
            final(counter).upcoming() == raised(old(counter).upcoming(), target),
    {
        counter.raise_past(target);
    }
}

/// Each minted identifier exceeds the one before, so none is handed out twice.
pub proof fn lemma_minted_ids_increase(upcoming: u64)
    requires
        upcoming < u64::MAX,
    ensures
        stepped(upcoming) > upcoming,
{
}

/// After a counter was raised past `target`, every identifier that it still hands out exceeds
/// `target`.
pub proof fn lemma_raised_exceeds_target(upcoming: u64, target: u64)
    requires
        raised(upcoming, target) < u64::MAX,
    ensures
        raised(upcoming, target) > target,
{
}

/// Raising never takes a counter back.
pub proof fn lemma_raising_never_goes_back(upcoming: u64, target: u64)
    ensures
        raised(upcoming, target) >= upcoming,
        target < upcoming ==> raised(upcoming, target) == upcoming,
{
}

} // verus!
